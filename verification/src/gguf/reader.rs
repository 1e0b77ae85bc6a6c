//! A little-endian cursor over bytes.

use vstd::prelude::*;
use vstd::utf8::*;

use crate::gguf::error::GgufError;
use crate::gguf::error::ReadOp;

verus! {

/// What a read from a position gives: the value or the error, and the position after it.
pub type Outcome<T> = (Result<T, GgufError>, nat);

/// Little-endian value of `n` bytes of `d` from `p` on.
pub open spec fn le(d: Seq<u8>, p: int, n: nat) -> nat
    decreases n,
{
    if n == 0 {
        0
    } else {
        d[p] as nat + 256 * le(d, p + 1, (n - 1) as nat)
    }
}

pub open spec fn u8_at(d: Seq<u8>, p: nat) -> Outcome<u8> {
    if p + 1 <= d.len() {
        (Ok(d[p as int]), p + 1)
    } else {
        (Err(GgufError::Io(ReadOp::U8)), p)
    }
}

pub open spec fn u16_at(d: Seq<u8>, p: nat) -> Outcome<u16> {
    if p + 2 <= d.len() {
        (Ok(le(d, p as int, 2) as u16), p + 2)
    } else {
        (Err(GgufError::Io(ReadOp::U16)), p)
    }
}

pub open spec fn u32_at(d: Seq<u8>, p: nat) -> Outcome<u32> {
    if p + 4 <= d.len() {
        (Ok(le(d, p as int, 4) as u32), p + 4)
    } else {
        (Err(GgufError::Io(ReadOp::U32)), p)
    }
}

pub open spec fn u64_at(d: Seq<u8>, p: nat) -> Outcome<u64> {
    if p + 8 <= d.len() {
        (Ok(le(d, p as int, 8) as u64), p + 8)
    } else {
        (Err(GgufError::Io(ReadOp::U64)), p)
    }
}

/// An outcome with its value mapped.
pub open spec fn mapped<T, U>(o: Outcome<T>, f: spec_fn(T) -> U) -> Outcome<U> {
    match o.0 {
        Ok(v) => (Ok(f(v)), o.1),
        Err(e) => (Err(e), o.1),
    }
}

/// Two's complement value of the low bits of `v`, where `half` is the weight of the sign bit.
pub open spec fn signed(v: int, half: int) -> int {
    if v < half {
        v
    } else {
        v - 2 * half
    }
}

pub open spec fn i8_at(d: Seq<u8>, p: nat) -> Outcome<i8> {
    mapped(u8_at(d, p), |v: u8| signed(v as int, 0x80) as i8)
}

pub open spec fn i16_at(d: Seq<u8>, p: nat) -> Outcome<i16> {
    mapped(u16_at(d, p), |v: u16| signed(v as int, 0x8000) as i16)
}

pub open spec fn i32_at(d: Seq<u8>, p: nat) -> Outcome<i32> {
    mapped(u32_at(d, p), |v: u32| signed(v as int, 0x8000_0000) as i32)
}

pub open spec fn i64_at(d: Seq<u8>, p: nat) -> Outcome<i64> {
    mapped(u64_at(d, p), |v: u64| signed(v as int, 0x8000_0000_0000_0000) as i64)
}

pub open spec fn bool_at(d: Seq<u8>, p: nat) -> Outcome<bool> {
    mapped(u8_at(d, p), |v: u8| v != 0)
}

/// A string: its length in bytes as 64 bits, then the bytes.
pub open spec fn string_at(d: Seq<u8>, p: nat) -> Outcome<Seq<char>> {
    let (r, q) = u64_at(d, p);
    match r {
        Err(e) => (Err(e), q),
        Ok(n) => if q + n <= d.len() {
            (Ok(utf8_lossy(d.subrange(q as int, q + n))), q + n as nat)
        } else {
            (Err(GgufError::Io(ReadOp::String)), q)
        },
    }
}

/// `n` reads by `f` one after the other, up to the first that fails.
pub open spec fn many_at<T>(
    f: spec_fn(Seq<u8>, nat) -> Outcome<T>,
    d: Seq<u8>,
    p: nat,
    n: nat,
) -> Outcome<Seq<T>>
    decreases n,
{
    if n == 0 {
        (Ok(Seq::empty()), p)
    } else {
        let (r, q) = many_at(f, d, p, (n - 1) as nat);
        match r {
            Err(e) => (Err(e), q),
            Ok(s) => mapped(f(d, q), |v: T| s.push(v)),
        }
    }
}

/// A failed read is where the whole run of reads ends.
pub proof fn lemma_many_fails<T>(
    f: spec_fn(Seq<u8>, nat) -> Outcome<T>,
    d: Seq<u8>,
    p: nat,
    i: nat,
    n: nat,
)
    requires
        i <= n,
        many_at(f, d, p, i).0 is Err,
    ensures
        many_at(f, d, p, n) == many_at(f, d, p, i),
    decreases n,
{
    if i < n {
        lemma_many_fails(f, d, p, i, (n - 1) as nat);
    }
}

/// What `String::from_utf8_lossy` makes of the bytes.
pub uninterp spec fn utf8_lossy(bytes: Seq<u8>) -> Seq<char>;

/// `String::from_utf8_lossy`: the text that the bytes encode, with what is not UTF-8
/// replaced. Valid UTF-8 comes back as the characters that it encodes; what stands in
/// place of invalid sequences goes by the name alone.
#[verifier::external_body]
fn from_utf8_lossy(bytes: &[u8]) -> (s: String)
    ensures
        s@ == utf8_lossy(bytes@),
        valid_utf8(bytes@) ==> s@ == decode_utf8(bytes@),
{
    String::from_utf8_lossy(bytes).into_owned()
}

/// A cursor over a byte slice.
pub struct Reader<'a> {
    data: &'a [u8],
    pos: usize,
}

impl<'a> Reader<'a> {
    /// The bytes that are read.
    pub closed spec fn bytes(&self) -> Seq<u8> {
        self.data@
    }

    /// The position of the next read.
    pub closed spec fn at(&self) -> nat {
        self.pos as nat
    }

    /// The position lies within the data.
    pub open spec fn wf(&self) -> bool {
        self.at() <= self.bytes().len()
    }

    /// That `res` and the state `post` are what the outcome `o` says.
    pub open spec fn gives<T: View>(
        self,
        post: Self,
        res: Result<T, GgufError>,
        o: Outcome<T::V>,
    ) -> bool {
        &&& post.wf()
        &&& post.bytes() == self.bytes()
        &&& post.at() == o.1
        &&& match res {
            Ok(v) => o.0 == Ok::<T::V, GgufError>(v@),
            Err(e) => o.0 == Err::<T::V, GgufError>(e),
        }
    }

    pub fn new(data: &'a [u8]) -> (r: Reader<'a>)
        ensures
            r.wf(),
            r.bytes() == data@,
            r.at() == 0,
    {
        Reader { data, pos: 0 }
    }

    pub fn pos(&self) -> (p: usize)
        ensures
            p == self.at(),
    {
        self.pos
    }

    /// The next byte.
    pub fn read_u8(&mut self) -> (res: Result<u8, GgufError>)
        requires
            old(self).wf(),
        ensures
            old(self).gives(*final(self), res, u8_at(old(self).bytes(), old(self).at())),
    {
        if self.data.len() - self.pos < 1 {
            return Err(GgufError::Io(ReadOp::U8));
        }
        let b = self.data[self.pos];
        self.pos += 1;
        Ok(b)
    }

    /// The next byte as a signed number.
    pub fn read_i8(&mut self) -> (res: Result<i8, GgufError>)
        requires
            old(self).wf(),
        ensures
            old(self).gives(*final(self), res, i8_at(old(self).bytes(), old(self).at())),
    {
        match self.read_u8() {
            Ok(v) => {
                assert(v as i8 == if v < 0x80 {
                    v as int
                } else {
                    v - 0x100
                }) by (bit_vector);
                Ok(v as i8)
            },
            Err(e) => Err(e),
        }
    }

    /// The next two bytes.
    pub fn read_u16(&mut self) -> (res: Result<u16, GgufError>)
        requires
            old(self).wf(),
        ensures
            old(self).gives(*final(self), res, u16_at(old(self).bytes(), old(self).at())),
    {
        if self.data.len() - self.pos < 2 {
            return Err(GgufError::Io(ReadOp::U16));
        }
        let p = self.pos;
        let v: u16 = self.data[p] as u16 + 0x100 * self.data[p + 1] as u16;
        proof {
            reveal_with_fuel(le, 3);
        }
        self.pos += 2;
        Ok(v)
    }

    /// The next two bytes as a signed number.
    pub fn read_i16(&mut self) -> (res: Result<i16, GgufError>)
        requires
            old(self).wf(),
        ensures
            old(self).gives(*final(self), res, i16_at(old(self).bytes(), old(self).at())),
    {
        match self.read_u16() {
            Ok(v) => {
                assert(v as i16 == if v < 0x8000 {
                    v as int
                } else {
                    v - 0x1_0000
                }) by (bit_vector);
                Ok(v as i16)
            },
            Err(e) => Err(e),
        }
    }

    /// The next four bytes.
    pub fn read_u32(&mut self) -> (res: Result<u32, GgufError>)
        requires
            old(self).wf(),
        ensures
            old(self).gives(*final(self), res, u32_at(old(self).bytes(), old(self).at())),
    {
        if self.data.len() - self.pos < 4 {
            return Err(GgufError::Io(ReadOp::U32));
        }
        let p = self.pos;
        let v: u32 = self.data[p] as u32 + 0x100 * self.data[p + 1] as u32 + 0x1_0000
            * self.data[p + 2] as u32 + 0x100_0000 * self.data[p + 3] as u32;
        proof {
            reveal_with_fuel(le, 5);
        }
        self.pos += 4;
        Ok(v)
    }

    /// The next four bytes as a signed number.
    pub fn read_i32(&mut self) -> (res: Result<i32, GgufError>)
        requires
            old(self).wf(),
        ensures
            old(self).gives(*final(self), res, i32_at(old(self).bytes(), old(self).at())),
    {
        match self.read_u32() {
            Ok(v) => {
                assert(v as i32 == if v < 0x8000_0000 {
                    v as int
                } else {
                    v - 0x1_0000_0000
                }) by (bit_vector);
                Ok(v as i32)
            },
            Err(e) => Err(e),
        }
    }

    /// The next eight bytes.
    pub fn read_u64(&mut self) -> (res: Result<u64, GgufError>)
        requires
            old(self).wf(),
        ensures
            old(self).gives(*final(self), res, u64_at(old(self).bytes(), old(self).at())),
    {
        if self.data.len() - self.pos < 8 {
            return Err(GgufError::Io(ReadOp::U64));
        }
        let p = self.pos;
        let v: u64 = self.data[p] as u64 + 0x100 * self.data[p + 1] as u64 + 0x1_0000
            * self.data[p + 2] as u64 + 0x100_0000 * self.data[p + 3] as u64 + 0x1_0000_0000
            * self.data[p + 4] as u64 + 0x100_0000_0000 * self.data[p + 5] as u64
            + 0x1_0000_0000_0000 * self.data[p + 6] as u64 + 0x100_0000_0000_0000
            * self.data[p + 7] as u64;
        proof {
            reveal_with_fuel(le, 9);
        }
        self.pos += 8;
        Ok(v)
    }

    /// The next eight bytes as a signed number.
    pub fn read_i64(&mut self) -> (res: Result<i64, GgufError>)
        requires
            old(self).wf(),
        ensures
            old(self).gives(*final(self), res, i64_at(old(self).bytes(), old(self).at())),
    {
        match self.read_u64() {
            Ok(v) => {
                assert(v as i64 == if v < 0x8000_0000_0000_0000 {
                    v as int
                } else {
                    v - 0x1_0000_0000_0000_0000
                }) by (bit_vector);
                Ok(v as i64)
            },
            Err(e) => Err(e),
        }
    }

    /// The bit pattern of the next single-precision number.
    pub fn read_f32(&mut self) -> (res: Result<u32, GgufError>)
        requires
            old(self).wf(),
        ensures
            old(self).gives(*final(self), res, u32_at(old(self).bytes(), old(self).at())),
    {
        self.read_u32()
    }

    /// The bit pattern of the next double-precision number.
    pub fn read_f64(&mut self) -> (res: Result<u64, GgufError>)
        requires
            old(self).wf(),
        ensures
            old(self).gives(*final(self), res, u64_at(old(self).bytes(), old(self).at())),
    {
        self.read_u64()
    }

    /// Whether the next byte is not zero.
    pub fn read_bool(&mut self) -> (res: Result<bool, GgufError>)
        requires
            old(self).wf(),
        ensures
            old(self).gives(*final(self), res, bool_at(old(self).bytes(), old(self).at())),
    {
        match self.read_u8() {
            Ok(v) => Ok(v != 0),
            Err(e) => Err(e),
        }
    }

    /// The next length-prefixed string. Valid UTF-8 comes back as the characters that it
    /// encodes.
    pub fn read_string(&mut self) -> (res: Result<String, GgufError>)
        requires
            old(self).wf(),
        ensures
            old(self).gives(*final(self), res, string_at(old(self).bytes(), old(self).at())),
            res matches Ok(s) ==> {
                let b = old(self).bytes().subrange(
                    (old(self).at() + 8) as int,
                    final(self).at() as int,
                );
                valid_utf8(b) ==> s@ == decode_utf8(b)
            },
    {
        let n: u64 = match self.read_u64() {
            Ok(n) => n,
            Err(e) => {
                return Err(e);
            },
        };
        if n > (self.data.len() - self.pos) as u64 {
            return Err(GgufError::Io(ReadOp::String));
        }
        let len: usize = n as usize;
        let s = from_utf8_lossy(vstd::slice::slice_subrange(self.data, self.pos, self.pos + len));
        self.pos += len;
        Ok(s)
    }

    /// The next `n` bytes.
    pub fn read_bytes(&mut self, n: usize) -> (res: Result<&'a [u8], GgufError>)
        requires
            old(self).wf(),
        ensures
            final(self).wf(),
            final(self).bytes() == old(self).bytes(),
            match res {
                Ok(s) => {
                    &&& old(self).at() + n <= old(self).bytes().len()
                    &&& s@ == old(self).bytes().subrange(
                        old(self).at() as int,
                        old(self).at() + n,
                    )
                    &&& final(self).at() == old(self).at() + n
                },
                Err(e) => {
                    &&& old(self).at() + n > old(self).bytes().len()
                    &&& e == GgufError::Io(ReadOp::Bytes)
                    &&& final(self).at() == old(self).at()
                },
            },
    {
        if n > self.data.len() - self.pos {
            return Err(GgufError::Io(ReadOp::Bytes));
        }
        let s = vstd::slice::slice_subrange(self.data, self.pos, self.pos + n);
        self.pos += n;
        Ok(s)
    }
}

/// A value that is read by one kind of read.
pub trait Field: Sized + View {
    spec fn parse(d: Seq<u8>, p: nat) -> Outcome<Self::V>;

    fn read(r: &mut Reader<'_>) -> (res: Result<Self, GgufError>)
        requires
            old(r).wf(),
        ensures
            old(r).gives(*final(r), res, Self::parse(old(r).bytes(), old(r).at())),
    ;
}

impl Field for u8 {
    open spec fn parse(d: Seq<u8>, p: nat) -> Outcome<u8> {
        u8_at(d, p)
    }

    fn read(r: &mut Reader<'_>) -> (res: Result<u8, GgufError>) {
        r.read_u8()
    }
}

impl Field for i8 {
    open spec fn parse(d: Seq<u8>, p: nat) -> Outcome<i8> {
        i8_at(d, p)
    }

    fn read(r: &mut Reader<'_>) -> (res: Result<i8, GgufError>) {
        r.read_i8()
    }
}

impl Field for u16 {
    open spec fn parse(d: Seq<u8>, p: nat) -> Outcome<u16> {
        u16_at(d, p)
    }

    fn read(r: &mut Reader<'_>) -> (res: Result<u16, GgufError>) {
        r.read_u16()
    }
}

impl Field for i16 {
    open spec fn parse(d: Seq<u8>, p: nat) -> Outcome<i16> {
        i16_at(d, p)
    }

    fn read(r: &mut Reader<'_>) -> (res: Result<i16, GgufError>) {
        r.read_i16()
    }
}

impl Field for u32 {
    open spec fn parse(d: Seq<u8>, p: nat) -> Outcome<u32> {
        u32_at(d, p)
    }

    fn read(r: &mut Reader<'_>) -> (res: Result<u32, GgufError>) {
        r.read_u32()
    }
}

impl Field for i32 {
    open spec fn parse(d: Seq<u8>, p: nat) -> Outcome<i32> {
        i32_at(d, p)
    }

    fn read(r: &mut Reader<'_>) -> (res: Result<i32, GgufError>) {
        r.read_i32()
    }
}

impl Field for u64 {
    open spec fn parse(d: Seq<u8>, p: nat) -> Outcome<u64> {
        u64_at(d, p)
    }

    fn read(r: &mut Reader<'_>) -> (res: Result<u64, GgufError>) {
        r.read_u64()
    }
}

impl Field for i64 {
    open spec fn parse(d: Seq<u8>, p: nat) -> Outcome<i64> {
        i64_at(d, p)
    }

    fn read(r: &mut Reader<'_>) -> (res: Result<i64, GgufError>) {
        r.read_i64()
    }
}

impl Field for bool {
    open spec fn parse(d: Seq<u8>, p: nat) -> Outcome<bool> {
        bool_at(d, p)
    }

    fn read(r: &mut Reader<'_>) -> (res: Result<bool, GgufError>) {
        r.read_bool()
    }
}

impl Field for String {
    open spec fn parse(d: Seq<u8>, p: nat) -> Outcome<Seq<char>> {
        string_at(d, p)
    }

    fn read(r: &mut Reader<'_>) -> (res: Result<String, GgufError>) {
        r.read_string()
    }
}

/// The views of the items of a sequence.
pub open spec fn views<T: View>(s: Seq<T>) -> Seq<T::V> {
    s.map_values(|x: T| x@)
}

/// The reads of `n` fields of one type.
pub open spec fn fields_at<T: Field>(d: Seq<u8>, p: nat, n: nat) -> Outcome<Seq<T::V>> {
    many_at(|d: Seq<u8>, p: nat| T::parse(d, p), d, p, n)
}

/// Reads `n` fields of one type.
pub fn read_fields<T: Field>(r: &mut Reader<'_>, n: u64) -> (res: Result<Vec<T>, GgufError>)
    requires
        old(r).wf(),
    ensures
        final(r).wf(),
        final(r).bytes() == old(r).bytes(),
        final(r).at() == fields_at::<T>(old(r).bytes(), old(r).at(), n as nat).1,
        match res {
            Ok(v) => fields_at::<T>(old(r).bytes(), old(r).at(), n as nat).0 == Ok::<
                Seq<T::V>,
                GgufError,
            >(views(v@)),
            Err(e) => fields_at::<T>(old(r).bytes(), old(r).at(), n as nat).0 == Err::<
                Seq<T::V>,
                GgufError,
            >(e),
        },
{
    let mut out: Vec<T> = Vec::new();
    let ghost d = r.bytes();
    let ghost p = r.at();
    let ghost f = |d: Seq<u8>, p: nat| T::parse(d, p);
    let mut i: u64 = 0;
    assert(views(out@) =~= Seq::<T::V>::empty());
    while i < n
        invariant
            i <= n,
            r.wf(),
            r.bytes() == d,
            f == (|d: Seq<u8>, p: nat| T::parse(d, p)),
            d == old(r).bytes(),
            p == old(r).at(),
            many_at(f, d, p, i as nat) == (Ok::<Seq<T::V>, GgufError>(views(out@)), r.at()),
        decreases n - i,
    {
        let ghost before = out@;
        match T::read(r) {
            Ok(v) => {
                out.push(v);
                assert(views(out@) =~= views(before).push(v@));
            },
            Err(e) => {
                proof {
                    lemma_many_fails(f, d, p, (i + 1) as nat, n as nat);
                }
                return Err(e);
            },
        }
        i += 1;
    }
    Ok(out)
}

} // verus!
