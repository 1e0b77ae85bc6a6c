//! How a file is laid out, byte by byte, and that reading gives back what was laid out so.

use vstd::prelude::*;

use crate::gguf::dtype::law_codes_are_distinct;
use crate::gguf::dtype::GgmlDType;
use crate::gguf::error::GgufError;
use crate::gguf::file::dims_at;
use crate::gguf::file::entries_at;
use crate::gguf::file::entry_at;
use crate::gguf::file::file_at;
use crate::gguf::file::law_aligned;
use crate::gguf::file::rebased;
use crate::gguf::file::tables_at;
use crate::gguf::file::tail_at;
use crate::gguf::file::tensor_at;
use crate::gguf::file::tensors_at;
use crate::gguf::file::GgufFile;
use crate::gguf::metadata::array_at;
use crate::gguf::metadata::law_last_entry_counts;
use crate::gguf::metadata::value_at;
use crate::gguf::metadata::whole_array_at;
use crate::gguf::metadata::ArrayView;
use crate::gguf::metadata::ValueView;
use crate::gguf::reader::bool_at;
use crate::gguf::reader::fields_at;
use crate::gguf::reader::i16_at;
use crate::gguf::reader::i32_at;
use crate::gguf::reader::i64_at;
use crate::gguf::reader::i8_at;
use crate::gguf::reader::le;
use crate::gguf::reader::many_at;
use crate::gguf::reader::mapped;
use crate::gguf::reader::string_at;
use crate::gguf::reader::u16_at;
use crate::gguf::reader::u32_at;
use crate::gguf::reader::u64_at;
use crate::gguf::reader::u8_at;
use crate::gguf::reader::utf8_lossy;
use crate::gguf::reader::Field;
use crate::gguf::reader::Outcome;
use crate::gguf::tensor_info::TensorView;

verus! {

/// A number in `n` bytes, the lowest first.
pub open spec fn number(v: nat, n: nat) -> Seq<u8>
    decreases n,
{
    if n == 0 {
        Seq::empty()
    } else {
        seq![(v % 256) as u8] + number(v / 256, (n - 1) as nat)
    }
}

/// A signed number as the number with the same bits.
pub open spec fn bits(v: int, range: int) -> nat {
    (if v < 0 {
        v + range
    } else {
        v
    }) as nat
}

/// The length of a text in bytes, and the bytes.
pub open spec fn text(b: Seq<u8>) -> Seq<u8> {
    number(b.len(), 8) + b
}

/// Runs of bytes one after another.
pub open spec fn chain(bs: Seq<Seq<u8>>) -> Seq<u8>
    decreases bs.len(),
{
    if bs.len() == 0 {
        Seq::empty()
    } else {
        chain(bs.drop_last()) + bs.last()
    }
}

/// Values of one kind, as they stand in a file. A text stands as its bytes, a floating-point
/// number as its pattern.
pub enum StoredArray {
    U8(Seq<u8>),
    I8(Seq<i8>),
    U16(Seq<u16>),
    I16(Seq<i16>),
    U32(Seq<u32>),
    I32(Seq<i32>),
    F32(Seq<u32>),
    Bool(Seq<bool>),
    Text(Seq<Seq<u8>>),
    U64(Seq<u64>),
    I64(Seq<i64>),
    F64(Seq<u64>),
}

/// A value of the metadata, as it stands in a file.
pub enum Stored {
    U8(u8),
    I8(i8),
    U16(u16),
    I16(i16),
    U32(u32),
    I32(i32),
    F32(u32),
    Bool(bool),
    Text(Seq<u8>),
    Array(StoredArray),
    U64(u64),
    I64(i64),
    F64(u64),
}

/// One for true, zero for false.
pub open spec fn truth(b: bool) -> Seq<u8> {
    if b {
        seq![1u8]
    } else {
        seq![0u8]
    }
}

impl StoredArray {
    /// The number that stands for the kind.
    pub open spec fn kind(self) -> u32 {
        match self {
            StoredArray::U8(_) => 0,
            StoredArray::I8(_) => 1,
            StoredArray::U16(_) => 2,
            StoredArray::I16(_) => 3,
            StoredArray::U32(_) => 4,
            StoredArray::I32(_) => 5,
            StoredArray::F32(_) => 6,
            StoredArray::Bool(_) => 7,
            StoredArray::Text(_) => 8,
            StoredArray::U64(_) => 10,
            StoredArray::I64(_) => 11,
            StoredArray::F64(_) => 12,
        }
    }

    /// The values one after another.
    pub open spec fn runs(self) -> Seq<Seq<u8>> {
        match self {
            StoredArray::U8(s) => s.map_values(|v: u8| number(v as nat, 1)),
            StoredArray::I8(s) => s.map_values(|v: i8| number(bits(v as int, 0x100), 1)),
            StoredArray::U16(s) => s.map_values(|v: u16| number(v as nat, 2)),
            StoredArray::I16(s) => s.map_values(|v: i16| number(bits(v as int, 0x1_0000), 2)),
            StoredArray::U32(s) => s.map_values(|v: u32| number(v as nat, 4)),
            StoredArray::I32(s) => s.map_values(|v: i32| number(bits(v as int, 0x1_0000_0000), 4)),
            StoredArray::F32(s) => s.map_values(|v: u32| number(v as nat, 4)),
            StoredArray::Bool(s) => s.map_values(|v: bool| truth(v)),
            StoredArray::Text(s) => s.map_values(|v: Seq<u8>| text(v)),
            StoredArray::U64(s) => s.map_values(|v: u64| number(v as nat, 8)),
            StoredArray::I64(s) => s.map_values(
                |v: i64| number(bits(v as int, 0x1_0000_0000_0000_0000), 8),
            ),
            StoredArray::F64(s) => s.map_values(|v: u64| number(v as nat, 8)),
        }
    }

    /// What is read.
    pub open spec fn value(self) -> ArrayView {
        match self {
            StoredArray::U8(s) => ArrayView::U8(s),
            StoredArray::I8(s) => ArrayView::I8(s),
            StoredArray::U16(s) => ArrayView::U16(s),
            StoredArray::I16(s) => ArrayView::I16(s),
            StoredArray::U32(s) => ArrayView::U32(s),
            StoredArray::I32(s) => ArrayView::I32(s),
            StoredArray::F32(s) => ArrayView::F32(s),
            StoredArray::Bool(s) => ArrayView::Bool(s),
            StoredArray::Text(s) => ArrayView::String(s.map_values(|b: Seq<u8>| utf8_lossy(b))),
            StoredArray::U64(s) => ArrayView::U64(s),
            StoredArray::I64(s) => ArrayView::I64(s),
            StoredArray::F64(s) => ArrayView::F64(s),
        }
    }

    /// The kind, the number of values, and the values.
    pub open spec fn bytes(self) -> Seq<u8> {
        number(self.kind() as nat, 4) + number(self.runs().len(), 8) + chain(self.runs())
    }
}

impl Stored {
    /// The number that stands for the kind.
    pub open spec fn kind(self) -> u32 {
        match self {
            Stored::U8(_) => 0,
            Stored::I8(_) => 1,
            Stored::U16(_) => 2,
            Stored::I16(_) => 3,
            Stored::U32(_) => 4,
            Stored::I32(_) => 5,
            Stored::F32(_) => 6,
            Stored::Bool(_) => 7,
            Stored::Text(_) => 8,
            Stored::Array(_) => 9,
            Stored::U64(_) => 10,
            Stored::I64(_) => 11,
            Stored::F64(_) => 12,
        }
    }

    pub open spec fn bytes(self) -> Seq<u8> {
        match self {
            Stored::U8(v) => number(v as nat, 1),
            Stored::I8(v) => number(bits(v as int, 0x100), 1),
            Stored::U16(v) => number(v as nat, 2),
            Stored::I16(v) => number(bits(v as int, 0x1_0000), 2),
            Stored::U32(v) => number(v as nat, 4),
            Stored::I32(v) => number(bits(v as int, 0x1_0000_0000), 4),
            Stored::F32(v) => number(v as nat, 4),
            Stored::Bool(v) => truth(v),
            Stored::Text(b) => text(b),
            Stored::Array(a) => a.bytes(),
            Stored::U64(v) => number(v as nat, 8),
            Stored::I64(v) => number(bits(v as int, 0x1_0000_0000_0000_0000), 8),
            Stored::F64(v) => number(v as nat, 8),
        }
    }

    /// What is read.
    pub open spec fn value(self) -> ValueView {
        match self {
            Stored::U8(v) => ValueView::U8(v),
            Stored::I8(v) => ValueView::I8(v),
            Stored::U16(v) => ValueView::U16(v),
            Stored::I16(v) => ValueView::I16(v),
            Stored::U32(v) => ValueView::U32(v),
            Stored::I32(v) => ValueView::I32(v),
            Stored::F32(v) => ValueView::F32(v),
            Stored::Bool(v) => ValueView::Bool(v),
            Stored::Text(b) => ValueView::String(utf8_lossy(b)),
            Stored::Array(a) => ValueView::Array(a.value()),
            Stored::U64(v) => ValueView::U64(v),
            Stored::I64(v) => ValueView::I64(v),
            Stored::F64(v) => ValueView::F64(v),
        }
    }

    /// Lengths are numbers of eight bytes.
    pub open spec fn fits(self) -> bool {
        match self {
            Stored::Text(b) => b.len() <= u64::MAX,
            Stored::Array(a) => a.runs().len() <= u64::MAX && match a {
                StoredArray::Text(s) => forall|i: int|
                    0 <= i < s.len() ==> (#[trigger] s[i]).len() <= u64::MAX,
                _ => true,
            },
            _ => true,
        }
    }
}

/// That reading finds a value in a run of bytes wherever it stands, and goes on behind it.
pub open spec fn found_in<T>(
    read: spec_fn(Seq<u8>, nat) -> Outcome<T>,
    b: Seq<u8>,
    v: T,
) -> bool {
    forall|before: Seq<u8>, after: Seq<u8>| #[trigger]
        read(before + b + after, before.len()) == (Ok::<T, GgufError>(v), before.len() + b.len())
}

proof fn lemma_number_len(v: nat, n: nat)
    ensures
        number(v, n).len() == n,
    decreases n,
{
    if n > 0 {
        lemma_number_len(v / 256, (n - 1) as nat);
    }
}

/// `256^n`.
pub open spec fn range(n: nat) -> nat
    decreases n,
{
    if n == 0 {
        1
    } else {
        256 * range((n - 1) as nat)
    }
}

proof fn lemma_le(before: Seq<u8>, v: nat, n: nat, after: Seq<u8>)
    requires
        v < range(n),
    ensures
        le(before + number(v, n) + after, before.len() as int, n) == v,
    decreases n,
{
    if n > 0 {
        let rest = number(v / 256, (n - 1) as nat);
        let first = seq![(v % 256) as u8];
        let d = before + number(v, n) + after;
        assert(v / 256 < range((n - 1) as nat));
        lemma_le(before + first, v / 256, (n - 1) as nat, after);
        assert(d =~= (before + first) + rest + after);
        assert(d[before.len() as int] == (v % 256) as u8);
        assert((before + first).len() == before.len() + 1);
    }
}

proof fn lemma_ranges()
    ensures
        range(1) == 0x100,
        range(2) == 0x1_0000,
        range(4) == 0x1_0000_0000,
        range(8) == 0x1_0000_0000_0000_0000,
{
    reveal_with_fuel(range, 9);
}

/// A number of one, two, four or eight bytes is read back, low byte first.
pub proof fn law_numbers_read_back(v: nat)
    ensures
        v <= u8::MAX ==> found_in(|d: Seq<u8>, p: nat| u8_at(d, p), number(v, 1), v as u8),
        v <= u16::MAX ==> found_in(|d: Seq<u8>, p: nat| u16_at(d, p), number(v, 2), v as u16),
        v <= u32::MAX ==> found_in(|d: Seq<u8>, p: nat| u32_at(d, p), number(v, 4), v as u32),
        v <= u64::MAX ==> found_in(|d: Seq<u8>, p: nat| u64_at(d, p), number(v, 8), v as u64),
{
    lemma_ranges();
    let r1 = |d: Seq<u8>, p: nat| u8_at(d, p);
    let r2 = |d: Seq<u8>, p: nat| u16_at(d, p);
    let r4 = |d: Seq<u8>, p: nat| u32_at(d, p);
    let r8 = |d: Seq<u8>, p: nat| u64_at(d, p);
    lemma_number_len(v, 1);
    lemma_number_len(v, 2);
    lemma_number_len(v, 4);
    lemma_number_len(v, 8);
    assert forall|before: Seq<u8>, after: Seq<u8>| v <= u8::MAX implies #[trigger] r1(
        before + number(v, 1) + after,
        before.len(),
    ) == (Ok::<u8, GgufError>(v as u8), before.len() + 1) by {
        let d = before + number(v, 1) + after;
        assert(d[before.len() as int] == number(v, 1)[0]);
    }
    assert forall|before: Seq<u8>, after: Seq<u8>| v <= u16::MAX implies #[trigger] r2(
        before + number(v, 2) + after,
        before.len(),
    ) == (Ok::<u16, GgufError>(v as u16), before.len() + 2) by {
        lemma_le(before, v, 2, after);
    }
    assert forall|before: Seq<u8>, after: Seq<u8>| v <= u32::MAX implies #[trigger] r4(
        before + number(v, 4) + after,
        before.len(),
    ) == (Ok::<u32, GgufError>(v as u32), before.len() + 4) by {
        lemma_le(before, v, 4, after);
    }
    assert forall|before: Seq<u8>, after: Seq<u8>| v <= u64::MAX implies #[trigger] r8(
        before + number(v, 8) + after,
        before.len(),
    ) == (Ok::<u64, GgufError>(v as u64), before.len() + 8) by {
        lemma_le(before, v, 8, after);
    }
}

/// A signed number is read back from the bits that it has in two's complement.
pub proof fn law_signed_read_back(a: i8, b: i16, c: i32, e: i64, t: bool)
    ensures
        found_in(|d: Seq<u8>, p: nat| i8_at(d, p), number(bits(a as int, 0x100), 1), a),
        found_in(|d: Seq<u8>, p: nat| i16_at(d, p), number(bits(b as int, 0x1_0000), 2), b),
        found_in(|d: Seq<u8>, p: nat| i32_at(d, p), number(bits(c as int, 0x1_0000_0000), 4), c),
        found_in(
            |d: Seq<u8>, p: nat| i64_at(d, p),
            number(bits(e as int, 0x1_0000_0000_0000_0000), 8),
            e,
        ),
        found_in(|d: Seq<u8>, p: nat| bool_at(d, p), truth(t), t),
{
    let (x, y, z, w) = (
        bits(a as int, 0x100),
        bits(b as int, 0x1_0000),
        bits(c as int, 0x1_0000_0000),
        bits(e as int, 0x1_0000_0000_0000_0000),
    );
    law_numbers_read_back(x);
    law_numbers_read_back(y);
    law_numbers_read_back(z);
    law_numbers_read_back(w);
    let r1 = |d: Seq<u8>, p: nat| u8_at(d, p);
    let r2 = |d: Seq<u8>, p: nat| u16_at(d, p);
    let r4 = |d: Seq<u8>, p: nat| u32_at(d, p);
    let r8 = |d: Seq<u8>, p: nat| u64_at(d, p);
    let s1 = |d: Seq<u8>, p: nat| i8_at(d, p);
    let s2 = |d: Seq<u8>, p: nat| i16_at(d, p);
    let s4 = |d: Seq<u8>, p: nat| i32_at(d, p);
    let s8 = |d: Seq<u8>, p: nat| i64_at(d, p);
    let sb = |d: Seq<u8>, p: nat| bool_at(d, p);
    assert forall|u: Seq<u8>, v: Seq<u8>| #[trigger] s1(u + number(x, 1) + v, u.len()) == (Ok::<
        i8,
        GgufError,
    >(a), u.len() + number(x, 1).len()) by {
        assert(r1(u + number(x, 1) + v, u.len()) == (Ok::<u8, GgufError>(x as u8), u.len() + number(
            x,
            1,
        ).len()));
    }
    assert forall|u: Seq<u8>, v: Seq<u8>| #[trigger] s2(u + number(y, 2) + v, u.len()) == (Ok::<
        i16,
        GgufError,
    >(b), u.len() + number(y, 2).len()) by {
        assert(r2(u + number(y, 2) + v, u.len()) == (Ok::<u16, GgufError>(y as u16), u.len()
            + number(y, 2).len()));
    }
    assert forall|u: Seq<u8>, v: Seq<u8>| #[trigger] s4(u + number(z, 4) + v, u.len()) == (Ok::<
        i32,
        GgufError,
    >(c), u.len() + number(z, 4).len()) by {
        assert(r4(u + number(z, 4) + v, u.len()) == (Ok::<u32, GgufError>(z as u32), u.len()
            + number(z, 4).len()));
    }
    assert forall|u: Seq<u8>, v: Seq<u8>| #[trigger] s8(u + number(w, 8) + v, u.len()) == (Ok::<
        i64,
        GgufError,
    >(e), u.len() + number(w, 8).len()) by {
        assert(r8(u + number(w, 8) + v, u.len()) == (Ok::<u64, GgufError>(w as u64), u.len()
            + number(w, 8).len()));
    }
    assert forall|u: Seq<u8>, v: Seq<u8>| #[trigger] sb(u + truth(t) + v, u.len()) == (Ok::<
        bool,
        GgufError,
    >(t), u.len() + truth(t).len()) by {
        assert((u + truth(t) + v)[u.len() as int] == truth(t)[0]);
    }
}

/// A text is read back from its length and its bytes.
pub proof fn law_text_read_back(b: Seq<u8>)
    requires
        b.len() <= u64::MAX,
    ensures
        found_in(|d: Seq<u8>, p: nat| string_at(d, p), text(b), utf8_lossy(b)),
{
    law_numbers_read_back(b.len());
    lemma_number_len(b.len(), 8);
    let n = number(b.len(), 8);
    let read = |d: Seq<u8>, p: nat| string_at(d, p);
    let r8 = |d: Seq<u8>, p: nat| u64_at(d, p);
    assert forall|u: Seq<u8>, v: Seq<u8>| #[trigger] read(u + text(b) + v, u.len()) == (Ok::<
        Seq<char>,
        GgufError,
    >(utf8_lossy(b)), u.len() + text(b).len()) by {
        let d = u + text(b) + v;
        assert(d =~= u + n + (b + v));
        assert(r8(u + n + (b + v), u.len()) == (Ok::<u64, GgufError>(b.len() as u64), u.len() + 8));
        assert(d.subrange(u.len() as int + 8, u.len() as int + 8 + b.len()) =~= b);
    }
}

/// Values one after another are read back one after another.
pub proof fn lemma_chain_read_back<T>(
    read: spec_fn(Seq<u8>, nat) -> Outcome<T>,
    bs: Seq<Seq<u8>>,
    vs: Seq<T>,
)
    requires
        bs.len() == vs.len(),
        forall|i: int| 0 <= i < bs.len() ==> found_in(read, #[trigger] bs[i], vs[i]),
    ensures
        found_in(|d: Seq<u8>, p: nat| many_at(read, d, p, vs.len()), chain(bs), vs),
{
    let all = |d: Seq<u8>, p: nat| many_at(read, d, p, vs.len());
    assert forall|u: Seq<u8>, v: Seq<u8>| #[trigger] all(u + chain(bs) + v, u.len()) == (Ok::<
        Seq<T>,
        GgufError,
    >(vs), u.len() + chain(bs).len()) by {
        lemma_chain_at(read, bs, vs, u, v);
    }
}

proof fn lemma_chain_at<T>(
    read: spec_fn(Seq<u8>, nat) -> Outcome<T>,
    bs: Seq<Seq<u8>>,
    vs: Seq<T>,
    u: Seq<u8>,
    v: Seq<u8>,
)
    requires
        bs.len() == vs.len(),
        forall|i: int| 0 <= i < bs.len() ==> found_in(read, #[trigger] bs[i], vs[i]),
    ensures
        many_at(read, u + chain(bs) + v, u.len(), vs.len()) == (Ok::<Seq<T>, GgufError>(vs), u.len()
            + chain(bs).len()),
    decreases bs.len(),
{
    if bs.len() == 0 {
        assert(vs =~= Seq::empty());
    } else {
        let (front, last) = (bs.drop_last(), bs.last());
        assert forall|i: int| 0 <= i < front.len() implies found_in(
            read,
            #[trigger] front[i],
            vs.drop_last()[i],
        ) by {
            assert(front[i] == bs[i]);
        }
        lemma_chain_at(read, front, vs.drop_last(), u, last + v);
        let d = u + chain(bs) + v;
        assert(d =~= u + chain(front) + (last + v));
        let before = u + chain(front);
        assert(d =~= before + last + v);
        assert(found_in(read, bs[bs.len() - 1], vs[vs.len() - 1]));
        assert(read(before + last + v, before.len()) == (Ok::<T, GgufError>(vs.last()), before.len()
            + last.len()));
        assert(vs.drop_last().push(vs.last()) =~= vs);
    }
}

proof fn lemma_fields<T: Field>(bs: Seq<Seq<u8>>, vs: Seq<T::V>)
    requires
        bs.len() == vs.len(),
        forall|i: int|
            0 <= i < bs.len() ==> found_in(
                |d: Seq<u8>, p: nat| T::parse(d, p),
                #[trigger] bs[i],
                vs[i],
            ),
    ensures
        found_in(|d: Seq<u8>, p: nat| fields_at::<T>(d, p, vs.len()), chain(bs), vs),
{
    let read = |d: Seq<u8>, p: nat| T::parse(d, p);
    lemma_chain_read_back(read, bs, vs);
    let a = |d: Seq<u8>, p: nat| many_at(read, d, p, vs.len());
    let b = |d: Seq<u8>, p: nat| fields_at::<T>(d, p, vs.len());
    lemma_same_reader(a, b, chain(bs), vs);
}

proof fn lemma_same_reader<T>(
    a: spec_fn(Seq<u8>, nat) -> Outcome<T>,
    b: spec_fn(Seq<u8>, nat) -> Outcome<T>,
    bytes: Seq<u8>,
    v: T,
)
    requires
        found_in(a, bytes, v),
        forall|d: Seq<u8>, p: nat| #[trigger] b(d, p) == a(d, p),
    ensures
        found_in(b, bytes, v),
{
    assert forall|x: Seq<u8>, y: Seq<u8>| #[trigger] b(x + bytes + y, x.len()) == (Ok::<
        T,
        GgufError,
    >(v), x.len() + bytes.len()) by {
        assert(b(x + bytes + y, x.len()) == a(x + bytes + y, x.len()));
    }
}

/// A value that is made of what another reading gives.
proof fn lemma_mapped<T, U>(
    a: spec_fn(Seq<u8>, nat) -> Outcome<T>,
    f: spec_fn(T) -> U,
    b: spec_fn(Seq<u8>, nat) -> Outcome<U>,
    bytes: Seq<u8>,
    v: T,
)
    requires
        found_in(a, bytes, v),
        forall|d: Seq<u8>, p: nat| #[trigger] b(d, p) == mapped(a(d, p), f),
    ensures
        found_in(b, bytes, f(v)),
{
    assert forall|x: Seq<u8>, y: Seq<u8>| #[trigger] b(x + bytes + y, x.len()) == (Ok::<
        U,
        GgufError,
    >(f(v)), x.len() + bytes.len()) by {
        assert(a(x + bytes + y, x.len()) == (Ok::<T, GgufError>(v), x.len() + bytes.len()));
        assert(b(x + bytes + y, x.len()) == mapped(a(x + bytes + y, x.len()), f));
    }
}

/// The values of an array are read back, by the number of their kind.
pub proof fn law_array_read_back(a: StoredArray)
    requires
        Stored::Array(a).fits(),
    ensures
        found_in(
            |d: Seq<u8>, p: nat| array_at(d, p, a.kind(), a.runs().len()),
            chain(a.runs()),
            a.value(),
        ),
{
    let n = a.runs().len();
    let b = |d: Seq<u8>, p: nat| array_at(d, p, a.kind(), n);
    match a {
        StoredArray::U8(s) => {
            let read = |d: Seq<u8>, p: nat| <u8 as Field>::parse(d, p);
            assert forall|i: int| 0 <= i < s.len() implies found_in(
                read,
                #[trigger] a.runs()[i],
                s[i],
            ) by {
                law_numbers_read_back(s[i] as nat);
                lemma_same_reader(|d: Seq<u8>, p: nat| u8_at(d, p), read, a.runs()[i], s[i]);
            }
            lemma_fields::<u8>(a.runs(), s);
            let f = |s: Seq<u8>| ArrayView::U8(s);
            let g = |d: Seq<u8>, p: nat| fields_at::<u8>(d, p, n);
            lemma_mapped(g, f, b, chain(a.runs()), s);
        },
        StoredArray::I8(s) => {
            let read = |d: Seq<u8>, p: nat| <i8 as Field>::parse(d, p);
            assert forall|i: int| 0 <= i < s.len() implies found_in(
                read,
                #[trigger] a.runs()[i],
                s[i],
            ) by {
                law_signed_read_back(s[i], 0, 0, 0, false);
                lemma_same_reader(|d: Seq<u8>, p: nat| i8_at(d, p), read, a.runs()[i], s[i]);
            }
            lemma_fields::<i8>(a.runs(), s);
            let f = |s: Seq<i8>| ArrayView::I8(s);
            let g = |d: Seq<u8>, p: nat| fields_at::<i8>(d, p, n);
            lemma_mapped(g, f, b, chain(a.runs()), s);
        },
        StoredArray::U16(s) => {
            let read = |d: Seq<u8>, p: nat| <u16 as Field>::parse(d, p);
            assert forall|i: int| 0 <= i < s.len() implies found_in(
                read,
                #[trigger] a.runs()[i],
                s[i],
            ) by {
                law_numbers_read_back(s[i] as nat);
                lemma_same_reader(|d: Seq<u8>, p: nat| u16_at(d, p), read, a.runs()[i], s[i]);
            }
            lemma_fields::<u16>(a.runs(), s);
            let f = |s: Seq<u16>| ArrayView::U16(s);
            let g = |d: Seq<u8>, p: nat| fields_at::<u16>(d, p, n);
            lemma_mapped(g, f, b, chain(a.runs()), s);
        },
        StoredArray::I16(s) => {
            let read = |d: Seq<u8>, p: nat| <i16 as Field>::parse(d, p);
            assert forall|i: int| 0 <= i < s.len() implies found_in(
                read,
                #[trigger] a.runs()[i],
                s[i],
            ) by {
                law_signed_read_back(0, s[i], 0, 0, false);
                lemma_same_reader(|d: Seq<u8>, p: nat| i16_at(d, p), read, a.runs()[i], s[i]);
            }
            lemma_fields::<i16>(a.runs(), s);
            let f = |s: Seq<i16>| ArrayView::I16(s);
            let g = |d: Seq<u8>, p: nat| fields_at::<i16>(d, p, n);
            lemma_mapped(g, f, b, chain(a.runs()), s);
        },
        StoredArray::U32(s) => {
            let read = |d: Seq<u8>, p: nat| <u32 as Field>::parse(d, p);
            assert forall|i: int| 0 <= i < s.len() implies found_in(
                read,
                #[trigger] a.runs()[i],
                s[i],
            ) by {
                law_numbers_read_back(s[i] as nat);
                lemma_same_reader(|d: Seq<u8>, p: nat| u32_at(d, p), read, a.runs()[i], s[i]);
            }
            lemma_fields::<u32>(a.runs(), s);
            let f = |s: Seq<u32>| ArrayView::U32(s);
            let g = |d: Seq<u8>, p: nat| fields_at::<u32>(d, p, n);
            lemma_mapped(g, f, b, chain(a.runs()), s);
        },
        StoredArray::I32(s) => {
            let read = |d: Seq<u8>, p: nat| <i32 as Field>::parse(d, p);
            assert forall|i: int| 0 <= i < s.len() implies found_in(
                read,
                #[trigger] a.runs()[i],
                s[i],
            ) by {
                law_signed_read_back(0, 0, s[i], 0, false);
                lemma_same_reader(|d: Seq<u8>, p: nat| i32_at(d, p), read, a.runs()[i], s[i]);
            }
            lemma_fields::<i32>(a.runs(), s);
            let f = |s: Seq<i32>| ArrayView::I32(s);
            let g = |d: Seq<u8>, p: nat| fields_at::<i32>(d, p, n);
            lemma_mapped(g, f, b, chain(a.runs()), s);
        },
        StoredArray::F32(s) => {
            let read = |d: Seq<u8>, p: nat| <u32 as Field>::parse(d, p);
            assert forall|i: int| 0 <= i < s.len() implies found_in(
                read,
                #[trigger] a.runs()[i],
                s[i],
            ) by {
                law_numbers_read_back(s[i] as nat);
                lemma_same_reader(|d: Seq<u8>, p: nat| u32_at(d, p), read, a.runs()[i], s[i]);
            }
            lemma_fields::<u32>(a.runs(), s);
            let f = |s: Seq<u32>| ArrayView::F32(s);
            let g = |d: Seq<u8>, p: nat| fields_at::<u32>(d, p, n);
            lemma_mapped(g, f, b, chain(a.runs()), s);
        },
        StoredArray::Bool(s) => {
            let read = |d: Seq<u8>, p: nat| <bool as Field>::parse(d, p);
            assert forall|i: int| 0 <= i < s.len() implies found_in(
                read,
                #[trigger] a.runs()[i],
                s[i],
            ) by {
                law_signed_read_back(0, 0, 0, 0, s[i]);
                lemma_same_reader(|d: Seq<u8>, p: nat| bool_at(d, p), read, a.runs()[i], s[i]);
            }
            lemma_fields::<bool>(a.runs(), s);
            let f = |s: Seq<bool>| ArrayView::Bool(s);
            let g = |d: Seq<u8>, p: nat| fields_at::<bool>(d, p, n);
            lemma_mapped(g, f, b, chain(a.runs()), s);
        },
        StoredArray::U64(s) => {
            let read = |d: Seq<u8>, p: nat| <u64 as Field>::parse(d, p);
            assert forall|i: int| 0 <= i < s.len() implies found_in(
                read,
                #[trigger] a.runs()[i],
                s[i],
            ) by {
                law_numbers_read_back(s[i] as nat);
                lemma_same_reader(|d: Seq<u8>, p: nat| u64_at(d, p), read, a.runs()[i], s[i]);
            }
            lemma_fields::<u64>(a.runs(), s);
            let f = |s: Seq<u64>| ArrayView::U64(s);
            let g = |d: Seq<u8>, p: nat| fields_at::<u64>(d, p, n);
            lemma_mapped(g, f, b, chain(a.runs()), s);
        },
        StoredArray::I64(s) => {
            let read = |d: Seq<u8>, p: nat| <i64 as Field>::parse(d, p);
            assert forall|i: int| 0 <= i < s.len() implies found_in(
                read,
                #[trigger] a.runs()[i],
                s[i],
            ) by {
                law_signed_read_back(0, 0, 0, s[i], false);
                lemma_same_reader(|d: Seq<u8>, p: nat| i64_at(d, p), read, a.runs()[i], s[i]);
            }
            lemma_fields::<i64>(a.runs(), s);
            let f = |s: Seq<i64>| ArrayView::I64(s);
            let g = |d: Seq<u8>, p: nat| fields_at::<i64>(d, p, n);
            lemma_mapped(g, f, b, chain(a.runs()), s);
        },
        StoredArray::F64(s) => {
            let read = |d: Seq<u8>, p: nat| <u64 as Field>::parse(d, p);
            assert forall|i: int| 0 <= i < s.len() implies found_in(
                read,
                #[trigger] a.runs()[i],
                s[i],
            ) by {
                law_numbers_read_back(s[i] as nat);
                lemma_same_reader(|d: Seq<u8>, p: nat| u64_at(d, p), read, a.runs()[i], s[i]);
            }
            lemma_fields::<u64>(a.runs(), s);
            let f = |s: Seq<u64>| ArrayView::F64(s);
            let g = |d: Seq<u8>, p: nat| fields_at::<u64>(d, p, n);
            lemma_mapped(g, f, b, chain(a.runs()), s);
        },
        StoredArray::Text(s) => {
            let vs = s.map_values(|b: Seq<u8>| utf8_lossy(b));
            let read = |d: Seq<u8>, p: nat| <String as Field>::parse(d, p);
            assert forall|i: int| 0 <= i < s.len() implies found_in(
                read,
                #[trigger] a.runs()[i],
                vs[i],
            ) by {
                assert(s[i].len() <= u64::MAX);
                law_text_read_back(s[i]);
                lemma_same_reader(|d: Seq<u8>, p: nat| string_at(d, p), read, a.runs()[i], vs[i]);
            }
            lemma_fields::<String>(a.runs(), vs);
            let f = |s: Seq<Seq<char>>| ArrayView::String(s);
            let g = |d: Seq<u8>, p: nat| fields_at::<String>(d, p, n);
            lemma_mapped(g, f, b, chain(a.runs()), vs);
        },
    }
}

/// A value of the metadata is read back from its bytes, by the number of its kind.
pub proof fn law_value_read_back(s: Stored)
    requires
        s.fits(),
    ensures
        found_in(|d: Seq<u8>, p: nat| value_at(d, p, s.kind()), s.bytes(), s.value()),
{
    let b = |d: Seq<u8>, p: nat| value_at(d, p, s.kind());
    match s {
        Stored::U8(v) => {
            law_numbers_read_back(v as nat);
            lemma_mapped(
                |d: Seq<u8>, p: nat| u8_at(d, p),
                |v: u8| ValueView::U8(v),
                b,
                s.bytes(),
                v,
            );
        },
        Stored::I8(v) => {
            law_signed_read_back(v, 0, 0, 0, false);
            lemma_mapped(
                |d: Seq<u8>, p: nat| i8_at(d, p),
                |v: i8| ValueView::I8(v),
                b,
                s.bytes(),
                v,
            );
        },
        Stored::U16(v) => {
            law_numbers_read_back(v as nat);
            lemma_mapped(
                |d: Seq<u8>, p: nat| u16_at(d, p),
                |v: u16| ValueView::U16(v),
                b,
                s.bytes(),
                v,
            );
        },
        Stored::I16(v) => {
            law_signed_read_back(0, v, 0, 0, false);
            lemma_mapped(
                |d: Seq<u8>, p: nat| i16_at(d, p),
                |v: i16| ValueView::I16(v),
                b,
                s.bytes(),
                v,
            );
        },
        Stored::U32(v) => {
            law_numbers_read_back(v as nat);
            lemma_mapped(
                |d: Seq<u8>, p: nat| u32_at(d, p),
                |v: u32| ValueView::U32(v),
                b,
                s.bytes(),
                v,
            );
        },
        Stored::I32(v) => {
            law_signed_read_back(0, 0, v, 0, false);
            lemma_mapped(
                |d: Seq<u8>, p: nat| i32_at(d, p),
                |v: i32| ValueView::I32(v),
                b,
                s.bytes(),
                v,
            );
        },
        Stored::F32(v) => {
            law_numbers_read_back(v as nat);
            lemma_mapped(
                |d: Seq<u8>, p: nat| u32_at(d, p),
                |v: u32| ValueView::F32(v),
                b,
                s.bytes(),
                v,
            );
        },
        Stored::Bool(v) => {
            law_signed_read_back(0, 0, 0, 0, v);
            lemma_mapped(
                |d: Seq<u8>, p: nat| bool_at(d, p),
                |v: bool| ValueView::Bool(v),
                b,
                s.bytes(),
                v,
            );
        },
        Stored::U64(v) => {
            law_numbers_read_back(v as nat);
            lemma_mapped(
                |d: Seq<u8>, p: nat| u64_at(d, p),
                |v: u64| ValueView::U64(v),
                b,
                s.bytes(),
                v,
            );
        },
        Stored::I64(v) => {
            law_signed_read_back(0, 0, 0, v, false);
            lemma_mapped(
                |d: Seq<u8>, p: nat| i64_at(d, p),
                |v: i64| ValueView::I64(v),
                b,
                s.bytes(),
                v,
            );
        },
        Stored::F64(v) => {
            law_numbers_read_back(v as nat);
            lemma_mapped(
                |d: Seq<u8>, p: nat| u64_at(d, p),
                |v: u64| ValueView::F64(v),
                b,
                s.bytes(),
                v,
            );
        },
        Stored::Text(t) => {
            law_text_read_back(t);
            lemma_mapped(
                |d: Seq<u8>, p: nat| string_at(d, p),
                |s: Seq<char>| ValueView::String(s),
                b,
                s.bytes(),
                utf8_lossy(t),
            );
        },
        Stored::Array(a) => {
            lemma_whole_array(a);
            lemma_mapped(
                |d: Seq<u8>, p: nat| whole_array_at(d, p),
                |a: ArrayView| ValueView::Array(a),
                b,
                s.bytes(),
                a.value(),
            );
        },
    }
}

proof fn lemma_whole_array(a: StoredArray)
    requires
        Stored::Array(a).fits(),
    ensures
        found_in(|d: Seq<u8>, p: nat| whole_array_at(d, p), a.bytes(), a.value()),
{
    let n = a.runs().len();
    law_array_read_back(a);
    law_numbers_read_back(a.kind() as nat);
    law_numbers_read_back(n);
    lemma_number_len(a.kind() as nat, 4);
    lemma_number_len(n, 8);
    let (x, y, z) = (number(a.kind() as nat, 4), number(n, 8), chain(a.runs()));
    let read = |d: Seq<u8>, p: nat| whole_array_at(d, p);
    let r4 = |d: Seq<u8>, p: nat| u32_at(d, p);
    let r8 = |d: Seq<u8>, p: nat| u64_at(d, p);
    let rest = |d: Seq<u8>, p: nat| array_at(d, p, a.kind(), n);
    assert forall|u: Seq<u8>, v: Seq<u8>| #[trigger] read(u + a.bytes() + v, u.len()) == (Ok::<
        ArrayView,
        GgufError,
    >(a.value()), u.len() + a.bytes().len()) by {
        let d = u + a.bytes() + v;
        assert(d =~= u + x + (y + z + v));
        assert(d =~= (u + x) + y + (z + v));
        assert(d =~= (u + x + y) + z + v);
        assert(r4(u + x + (y + z + v), u.len()) == (Ok::<u32, GgufError>(a.kind()), u.len() + 4));
        assert(r8((u + x) + y + (z + v), (u + x).len()) == (Ok::<u64, GgufError>(n as u64), (u
            + x).len() + 8));
        assert(rest((u + x + y) + z + v, (u + x + y).len()) == (Ok::<ArrayView, GgufError>(a.value()), (u
            + x + y).len() + z.len()));
    }
}

/// An entry of the metadata as it stands in a file: key, kind and value.
pub open spec fn entry(key: Seq<u8>, s: Stored) -> Seq<u8> {
    text(key) + number(s.kind() as nat, 4) + s.bytes()
}

/// An entry of the metadata is read back.
pub proof fn law_entry_read_back(key: Seq<u8>, s: Stored)
    requires
        key.len() <= u64::MAX,
        s.fits(),
    ensures
        found_in(
            |d: Seq<u8>, p: nat| entry_at(d, p),
            entry(key, s),
            (utf8_lossy(key), s.value()),
        ),
{
    law_text_read_back(key);
    law_numbers_read_back(s.kind() as nat);
    law_value_read_back(s);
    lemma_number_len(s.kind() as nat, 4);
    let (x, y, z) = (text(key), number(s.kind() as nat, 4), s.bytes());
    let read = |d: Seq<u8>, p: nat| entry_at(d, p);
    let rs = |d: Seq<u8>, p: nat| string_at(d, p);
    let r4 = |d: Seq<u8>, p: nat| u32_at(d, p);
    let rv = |d: Seq<u8>, p: nat| value_at(d, p, s.kind());
    assert forall|u: Seq<u8>, v: Seq<u8>| #[trigger] read(u + entry(key, s) + v, u.len()) == (Ok::<
        (Seq<char>, ValueView),
        GgufError,
    >((utf8_lossy(key), s.value())), u.len() + entry(key, s).len()) by {
        let d = u + entry(key, s) + v;
        assert(d =~= u + x + (y + z + v));
        assert(d =~= (u + x) + y + (z + v));
        assert(d =~= (u + x + y) + z + v);
        assert(rs(u + x + (y + z + v), u.len()) == (Ok::<Seq<char>, GgufError>(utf8_lossy(key)), u.len()
            + x.len()));
        assert(r4((u + x) + y + (z + v), (u + x).len()) == (Ok::<u32, GgufError>(s.kind()), (u
            + x).len() + 4));
        assert(rv((u + x + y) + z + v, (u + x + y).len()) == (Ok::<ValueView, GgufError>(s.value()), (u
            + x + y).len() + z.len()));
    }
}

/// A tensor of the table as it stands in a file of version 2 or 3: name, number of dimensions,
/// dimensions, type and place.
pub open spec fn tensor(name: Seq<u8>, shape: Seq<u64>, dtype: GgmlDType, offset: u64) -> Seq<u8> {
    text(name) + number(shape.len(), 4) + chain(shape.map_values(|n: u64| number(n as nat, 8)))
        + number(dtype.code(), 4) + number(offset as nat, 8)
}

proof fn lemma_dims(version: u32, shape: Seq<u64>)
    requires
        version >= 2,
    ensures
        found_in(
            |d: Seq<u8>, p: nat| dims_at(d, p, version, shape.len()),
            chain(shape.map_values(|n: u64| number(n as nat, 8))),
            shape,
        ),
{
    let bs = shape.map_values(|n: u64| number(n as nat, 8));
    let read = |d: Seq<u8>, p: nat| <u64 as Field>::parse(d, p);
    assert forall|i: int| 0 <= i < bs.len() implies found_in(read, #[trigger] bs[i], shape[i]) by {
        law_numbers_read_back(shape[i] as nat);
        lemma_same_reader(|d: Seq<u8>, p: nat| u64_at(d, p), read, bs[i], shape[i]);
    }
    lemma_fields::<u64>(bs, shape);
    lemma_same_reader(
        |d: Seq<u8>, p: nat| fields_at::<u64>(d, p, shape.len()),
        |d: Seq<u8>, p: nat| dims_at(d, p, version, shape.len()),
        chain(bs),
        shape,
    );
}

proof fn lemma_tail(dtype: GgmlDType, offset: u64)
    ensures
        found_in(
            |d: Seq<u8>, p: nat| tail_at(d, p),
            number(dtype.code(), 4) + number(offset as nat, 8),
            (dtype, offset),
        ),
{
    let c = dtype.code();
    law_numbers_read_back(c);
    law_numbers_read_back(offset as nat);
    lemma_number_len(c, 4);
    lemma_number_len(offset as nat, 8);
    let (x, y) = (number(c, 4), number(offset as nat, 8));
    let read = |d: Seq<u8>, p: nat| tail_at(d, p);
    let r4 = |d: Seq<u8>, p: nat| u32_at(d, p);
    let r8 = |d: Seq<u8>, p: nat| u64_at(d, p);
    assert forall|u: Seq<u8>, v: Seq<u8>| #[trigger] read(u + (x + y) + v, u.len()) == (Ok::<
        (GgmlDType, u64),
        GgufError,
    >((dtype, offset)), u.len() + (x + y).len()) by {
        let d = u + (x + y) + v;
        assert(d =~= u + x + (y + v));
        assert(d =~= (u + x) + y + v);
        assert(r4(u + x + (y + v), u.len()) == (Ok::<u32, GgufError>(c as u32), u.len() + 4));
        assert(r8((u + x) + y + v, (u + x).len()) == (Ok::<u64, GgufError>(offset), (u + x).len()
            + 8));
        assert(dtype.code() == c as u32);
        let t = choose|t: GgmlDType| #[trigger] t.code() == c as u32;
        law_codes_are_distinct(t, dtype);
    }
}

/// A tensor of the table is read back.
pub proof fn law_tensor_read_back(
    version: u32,
    name: Seq<u8>,
    shape: Seq<u64>,
    dtype: GgmlDType,
    offset: u64,
)
    requires
        version >= 2,
        name.len() <= u64::MAX,
        shape.len() <= u32::MAX,
    ensures
        found_in(
            |d: Seq<u8>, p: nat| tensor_at(d, p, version),
            tensor(name, shape, dtype, offset),
            (TensorView { name: utf8_lossy(name), shape, dtype, offset }),
        ),
{
    law_text_read_back(name);
    law_numbers_read_back(shape.len());
    lemma_dims(version, shape);
    lemma_tail(dtype, offset);
    lemma_number_len(shape.len(), 4);
    let w = text(name);
    let x = number(shape.len(), 4);
    let y = chain(shape.map_values(|n: u64| number(n as nat, 8)));
    let z = number(dtype.code(), 4) + number(offset as nat, 8);
    let all = tensor(name, shape, dtype, offset);
    let read = |d: Seq<u8>, p: nat| tensor_at(d, p, version);
    let rs = |d: Seq<u8>, p: nat| string_at(d, p);
    let r4 = |d: Seq<u8>, p: nat| u32_at(d, p);
    let rd = |d: Seq<u8>, p: nat| dims_at(d, p, version, shape.len());
    let rt = |d: Seq<u8>, p: nat| tail_at(d, p);
    assert forall|u: Seq<u8>, v: Seq<u8>| #[trigger] read(u + all + v, u.len()) == (Ok::<
        TensorView,
        GgufError,
    >((TensorView { name: utf8_lossy(name), shape, dtype, offset })), u.len() + all.len()) by {
        let d = u + all + v;
        assert(d =~= u + w + (x + y + z + v));
        assert(d =~= (u + w) + x + (y + z + v));
        assert(d =~= (u + w + x) + y + (z + v));
        assert(d =~= (u + w + x + y) + z + v);
        assert(rs(u + w + (x + y + z + v), u.len()) == (Ok::<Seq<char>, GgufError>(
            utf8_lossy(name),
        ), u.len() + w.len()));
        assert(r4((u + w) + x + (y + z + v), (u + w).len()) == (Ok::<u32, GgufError>(
            shape.len() as u32,
        ), (u + w).len() + 4));
        assert(rd((u + w + x) + y + (z + v), (u + w + x).len()) == (Ok::<Seq<u64>, GgufError>(
            shape,
        ), (u + w + x).len() + y.len()));
        assert(rt((u + w + x + y) + z + v, (u + w + x + y).len()) == (Ok::<
            (GgmlDType, u64),
            GgufError,
        >((dtype, offset)), (u + w + x + y).len() + z.len()));
    }
}

/// A tensor of the table, its name as bytes.
pub struct StoredTensor {
    pub name: Seq<u8>,
    pub shape: Seq<u64>,
    pub dtype: GgmlDType,
    pub offset: u64,
}

/// What is read of entries.
pub open spec fn entry_values(kv: Seq<(Seq<u8>, Stored)>) -> Seq<(Seq<char>, ValueView)> {
    kv.map_values(|e: (Seq<u8>, Stored)| (utf8_lossy(e.0), e.1.value()))
}

/// What is read of a table of tensors.
pub open spec fn tensor_values(ts: Seq<StoredTensor>) -> Seq<TensorView> {
    ts.map_values(
        |t: StoredTensor|
            TensorView {
                name: utf8_lossy(t.name),
                shape: t.shape,
                dtype: t.dtype,
                offset: t.offset,
            },
    )
}

/// Entries one after another.
pub open spec fn entries(kv: Seq<(Seq<u8>, Stored)>) -> Seq<u8> {
    chain(kv.map_values(|e: (Seq<u8>, Stored)| entry(e.0, e.1)))
}

/// Tensors of the table one after another.
pub open spec fn tensors(ts: Seq<StoredTensor>) -> Seq<u8> {
    chain(ts.map_values(|t: StoredTensor| tensor(t.name, t.shape, t.dtype, t.offset)))
}

/// Lengths are numbers of eight bytes, and there are at most as many dimensions as four hold.
pub open spec fn fits(kv: Seq<(Seq<u8>, Stored)>, ts: Seq<StoredTensor>) -> bool {
    &&& kv.len() <= u64::MAX
    &&& ts.len() <= u64::MAX
    &&& forall|i: int| 0 <= i < kv.len() ==> (#[trigger] kv[i]).0.len() <= u64::MAX && kv[i].1.fits()
    &&& forall|i: int|
        0 <= i < ts.len() ==> (#[trigger] ts[i]).name.len() <= u64::MAX && ts[i].shape.len()
            <= u32::MAX
}

proof fn lemma_entries(kv: Seq<(Seq<u8>, Stored)>)
    requires
        forall|i: int|
            0 <= i < kv.len() ==> (#[trigger] kv[i]).0.len() <= u64::MAX && kv[i].1.fits(),
    ensures
        found_in(
            |d: Seq<u8>, p: nat| entries_at(d, p, kv.len()),
            entries(kv),
            entry_values(kv),
        ),
{
    let re = |d: Seq<u8>, p: nat| entry_at(d, p);
    let kbs = kv.map_values(|e: (Seq<u8>, Stored)| entry(e.0, e.1));
    let kvs = entry_values(kv);
    assert forall|i: int| 0 <= i < kbs.len() implies found_in(re, #[trigger] kbs[i], kvs[i]) by {
        assert(kv[i].0.len() <= u64::MAX);
        law_entry_read_back(kv[i].0, kv[i].1);
    }
    lemma_chain_read_back(re, kbs, kvs);
    lemma_same_reader(
        |d: Seq<u8>, p: nat| many_at(re, d, p, kvs.len()),
        |d: Seq<u8>, p: nat| entries_at(d, p, kv.len()),
        entries(kv),
        kvs,
    );
}

proof fn lemma_tensors(version: u32, ts: Seq<StoredTensor>)
    requires
        version >= 2,
        forall|i: int|
            0 <= i < ts.len() ==> (#[trigger] ts[i]).name.len() <= u64::MAX && ts[i].shape.len()
                <= u32::MAX,
    ensures
        found_in(
            |d: Seq<u8>, p: nat| tensors_at(d, p, version, ts.len()),
            tensors(ts),
            tensor_values(ts),
        ),
{
    let rt = |d: Seq<u8>, p: nat| tensor_at(d, p, version);
    let tbs = ts.map_values(|t: StoredTensor| tensor(t.name, t.shape, t.dtype, t.offset));
    let tvs = tensor_values(ts);
    assert forall|i: int| 0 <= i < tbs.len() implies found_in(rt, #[trigger] tbs[i], tvs[i]) by {
        let t = ts[i];
        assert(t.name.len() <= u64::MAX);
        law_tensor_read_back(version, t.name, t.shape, t.dtype, t.offset);
    }
    lemma_chain_read_back(rt, tbs, tvs);
    lemma_same_reader(
        |d: Seq<u8>, p: nat| many_at(rt, d, p, tvs.len()),
        |d: Seq<u8>, p: nat| tensors_at(d, p, version, ts.len()),
        tensors(ts),
        tvs,
    );
}

/// The tables of a file: how many tensors and how many entries there are, the entries, and the
/// tensors.
pub open spec fn tables(kv: Seq<(Seq<u8>, Stored)>, ts: Seq<StoredTensor>) -> Seq<u8> {
    number(ts.len(), 8) + number(kv.len(), 8) + entries(kv) + tensors(ts)
}

proof fn lemma_tables(version: u32, kv: Seq<(Seq<u8>, Stored)>, ts: Seq<StoredTensor>)
    requires
        version >= 2,
        fits(kv, ts),
    ensures
        found_in(
            |d: Seq<u8>, p: nat| tables_at(d, p, version),
            tables(kv, ts),
            (entry_values(kv), tensor_values(ts)),
        ),
{
    lemma_entries(kv);
    lemma_tensors(version, ts);
    law_numbers_read_back(ts.len());
    law_numbers_read_back(kv.len());
    lemma_number_len(ts.len(), 8);
    lemma_number_len(kv.len(), 8);
    let (b, c, x, y) = (number(ts.len(), 8), number(kv.len(), 8), entries(kv), tensors(ts));
    let (n, k) = (ts.len(), kv.len());
    let (kvs, tvs) = (entry_values(kv), tensor_values(ts));
    let all = tables(kv, ts);
    let read = |d: Seq<u8>, p: nat| tables_at(d, p, version);
    let r8 = |d: Seq<u8>, p: nat| u64_at(d, p);
    let re = |d: Seq<u8>, p: nat| entries_at(d, p, k);
    let rt = |d: Seq<u8>, p: nat| tensors_at(d, p, version, n);
    assert forall|u: Seq<u8>, v: Seq<u8>| #[trigger] read(u + all + v, u.len()) == (Ok::<
        (Seq<(Seq<char>, ValueView)>, Seq<TensorView>),
        GgufError,
    >((kvs, tvs)), u.len() + all.len()) by {
        let d = u + all + v;
        let p = u.len();
        assert(d =~= u + b + (c + x + y + v));
        assert(r8(u + b + (c + x + y + v), u.len()) == (Ok::<u64, GgufError>(n as u64), p + 8));
        let u1 = u + b;
        assert(d =~= u1 + c + (x + y + v));
        assert(r8(u1 + c + (x + y + v), u1.len()) == (Ok::<u64, GgufError>(k as u64), p + 16));
        let u2 = u1 + c;
        assert(d =~= u2 + x + (y + v));
        assert(re(u2 + x + (y + v), u2.len()) == (Ok::<Seq<(Seq<char>, ValueView)>, GgufError>(
            kvs,
        ), p + 16 + x.len()));
        let u3 = u2 + x;
        assert(d =~= u3 + y + v);
        assert(rt(u3 + y + v, u3.len()) == (Ok::<Seq<TensorView>, GgufError>(tvs), p + 16 + x.len()
            + y.len()));
        assert(all.len() == 16 + x.len() + y.len());
    }
}

/// A file of version 2 or 3 as it is laid out: "GGUF", the version, and the tables.
pub open spec fn file(version: u32, kv: Seq<(Seq<u8>, Stored)>, ts: Seq<StoredTensor>) -> Seq<u8> {
    seq![0x47u8, 0x47u8, 0x55u8, 0x46u8] + number(version as nat, 4) + tables(kv, ts)
}

/// A file is read back: its metadata and its table of tensors, in order; and whatever stands
/// behind the tables is no part of them.
pub proof fn law_file_read_back(
    version: u32,
    kv: Seq<(Seq<u8>, Stored)>,
    ts: Seq<StoredTensor>,
    data: Seq<u8>,
)
    requires
        version == 2 || version == 3,
        fits(kv, ts),
    ensures
        file_at(file(version, kv, ts) + data) == (
            Ok::<(Seq<(Seq<char>, ValueView)>, Seq<TensorView>), GgufError>(
                (entry_values(kv), tensor_values(ts)),
            ),
            file(version, kv, ts).len(),
        ),
{
    lemma_tables(version, kv, ts);
    law_numbers_read_back(version as nat);
    lemma_number_len(version as nat, 4);
    let m = seq![0x47u8, 0x47u8, 0x55u8, 0x46u8];
    let (a, t) = (number(version as nat, 4), tables(kv, ts));
    let d = file(version, kv, ts) + data;
    assert(d.subrange(0, 4) =~= m);
    let r4 = |d: Seq<u8>, p: nat| u32_at(d, p);
    let rt = |d: Seq<u8>, p: nat| tables_at(d, p, version);
    assert(d =~= m + a + (t + data));
    assert(r4(m + a + (t + data), m.len()) == (Ok::<u32, GgufError>(version), m.len() + 4));
    assert(d =~= (m + a) + t + data);
    assert(rt((m + a) + t + data, (m + a).len()) == (Ok::<
        (Seq<(Seq<char>, ValueView)>, Seq<TensorView>),
        GgufError,
    >((entry_values(kv), tensor_values(ts))), (m + a).len() + t.len()));
}

/// A file that does not begin with "GGUF", or has another version than 1, 2 or 3, is refused.
pub proof fn law_other_files_refused(d: Seq<u8>)
    requires
        d.len() >= 8,
        d.take(4) != seq![0x47u8, 0x47u8, 0x55u8, 0x46u8] || !(1 <= d[4] + 256 * d[5] + 0x1_0000
            * d[6] + 0x100_0000 * d[7] <= 3),
    ensures
        file_at(d).0 is Err,
{
    reveal_with_fuel(le, 5);
    assert(d.take(4) =~= d.subrange(0, 4));
}

/// A file that is opened holds what was laid out: the metadata, the table of tensors in order,
/// and each tensor as far behind the tables, rounded up to 32 bytes, as its place says.
pub proof fn law_open_reads_back(
    bytes: &[u8],
    version: u32,
    kv: Seq<(Seq<u8>, Stored)>,
    ts: Seq<StoredTensor>,
    data: Seq<u8>,
    res: Result<GgufFile<'_>, GgufError>,
    i: int,
)
    requires
        version == 2 || version == 3,
        fits(kv, ts),
        bytes@ == file(version, kv, ts) + data,
        bytes@.len() <= isize::MAX,
        call_ensures(GgufFile::parse, (bytes,), res),
        0 <= i < ts.len(),
    ensures
        res is Ok,
        ({
            let f = res->Ok_0;
            let base = f.data_offset;
            let t = f.table()[i];
            &&& base % 32 == 0
            &&& file(version, kv, ts).len() <= base < file(version, kv, ts).len() + 32
            &&& f.table().len() == ts.len()
            &&& t.name == utf8_lossy(ts[i].name) && t.shape == ts[i].shape && t.dtype == ts[i].dtype
            &&& base + ts[i].offset <= u64::MAX ==> t.offset == base + ts[i].offset
            &&& f.bytes() == bytes@
        }),
        forall|k: int|
            0 <= k < kv.len() && (forall|m: int|
                k < m < kv.len() ==> utf8_lossy((#[trigger] kv[m]).0) != utf8_lossy(kv[k].0)) ==> {
                let key = utf8_lossy((#[trigger] kv[k]).0);
                res->Ok_0.metadata@.contains_key(key) && res->Ok_0.metadata@[key] == kv[k].1.value()
            },
{
    law_file_read_back(version, kv, ts, data);
    law_aligned(file(version, kv, ts).len());
    let f = res->Ok_0;
    let tvs = tensor_values(ts);
    let base = f.data_offset as nat;
    assert(f.table()[i] == rebased(tvs[i], base));
    let kvs = entry_values(kv);
    assert forall|k: int|
        0 <= k < kv.len() && (forall|m: int|
            k < m < kv.len() ==> utf8_lossy((#[trigger] kv[m]).0) != utf8_lossy(kv[k].0)) implies {
        let key = utf8_lossy((#[trigger] kv[k]).0);
        f.metadata@.contains_key(key) && f.metadata@[key] == kv[k].1.value()
    } by {
        assert forall|m: int| k < m < kvs.len() implies (#[trigger] kvs[m]).0 != kvs[k].0 by {
            assert(kvs[m].0 == utf8_lossy(kv[m].0));
        }
        law_last_entry_counts(kvs, k);
    }
}

} // verus!
