//! A parsed model file: header, metadata, tensor table and tensor data.

use vstd::prelude::*;

use crate::gguf::dtype::GgmlDType;
use crate::gguf::error::GgufError;
use crate::gguf::error::ReadOp;
use crate::gguf::metadata::arch_of;
use crate::gguf::metadata::entries_map;
use crate::gguf::metadata::parse_metadata_value;
use crate::gguf::metadata::value_at;
use crate::gguf::metadata::Metadata;
use crate::gguf::metadata::ValueView;
use crate::gguf::reader::fields_at;
use crate::gguf::reader::lemma_many_fails;
use crate::gguf::reader::many_at;
use crate::gguf::reader::mapped;
use crate::gguf::reader::read_fields;
use crate::gguf::reader::string_at;
use crate::gguf::reader::u32_at;
use crate::gguf::reader::u64_at;
use crate::gguf::reader::views;
use crate::gguf::reader::Field;
use crate::gguf::reader::Outcome;
use crate::gguf::reader::Reader;
use crate::gguf::tensor_info::decoded_into;
use crate::gguf::tensor_info::decoded_tensor;
use crate::gguf::tensor_info::file_text;
use crate::gguf::tensor_info::product_fits;
use crate::gguf::tensor_info::TensorInfo;
use crate::gguf::tensor_info::TensorView;
use crate::quant::Weight;
use crate::text::same_text;

verus! {

/// Tensor data starts at a multiple of this many bytes.
pub const GGUF_ALIGNMENT: u64 = 32;

/// The bytes `GGUF`.
pub open spec fn magic() -> Seq<u8> {
    seq![0x47u8, 0x47u8, 0x55u8, 0x46u8]
}

/// A count: 64 bits, or 32 in the first version of the format.
pub open spec fn count_at(d: Seq<u8>, p: nat, version: u32) -> Outcome<u64> {
    if version >= 2 {
        u64_at(d, p)
    } else {
        mapped(u32_at(d, p), |v: u32| v as u64)
    }
}

/// A metadata entry: key, type code, value.
pub open spec fn entry_at(d: Seq<u8>, p: nat) -> Outcome<(Seq<char>, ValueView)> {
    let (key, q) = string_at(d, p);
    match key {
        Err(e) => (Err(e), q),
        Ok(key) => {
            let (ty, q2) = u32_at(d, q);
            match ty {
                Err(e) => (Err(e), q2),
                Ok(ty) => mapped(value_at(d, q2, ty), |v: ValueView| (key, v)),
            }
        },
    }
}

/// The dimensions of a tensor.
pub open spec fn dims_at(d: Seq<u8>, p: nat, version: u32, n: nat) -> Outcome<Seq<u64>> {
    if version >= 2 {
        fields_at::<u64>(d, p, n)
    } else {
        mapped(fields_at::<u32>(d, p, n), |s: Seq<u32>| s.map_values(|v: u32| v as u64))
    }
}

/// The type code and the offset that follow the dimensions.
pub open spec fn tail_at(d: Seq<u8>, p: nat) -> Outcome<(GgmlDType, u64)> {
    let (code, q) = u32_at(d, p);
    match code {
        Err(e) => (Err(e), q),
        Ok(code) => if exists|t: GgmlDType| #[trigger] t.code() == code {
            let t = choose|t: GgmlDType| #[trigger] t.code() == code;
            mapped(u64_at(d, q), |off: u64| (t, off))
        } else {
            (Err(GgufError::UnknownDType(code)), q)
        },
    }
}

/// A tensor description: name, number of dimensions, dimensions, type code, offset.
pub open spec fn tensor_at(d: Seq<u8>, p: nat, version: u32) -> Outcome<TensorView> {
    let (name, q) = string_at(d, p);
    match name {
        Err(e) => (Err(e), q),
        Ok(name) => {
            let (n, q2) = u32_at(d, q);
            match n {
                Err(e) => (Err(e), q2),
                Ok(n) => {
                    let (shape, q3) = dims_at(d, q2, version, n as nat);
                    match shape {
                        Err(e) => (Err(e), q3),
                        Ok(shape) => mapped(
                            tail_at(d, q3),
                            |t: (GgmlDType, u64)|
                                TensorView { name, shape, dtype: t.0, offset: t.1 },
                        ),
                    }
                },
            }
        },
    }
}

/// The metadata entries and the tensor table after the header.
pub open spec fn tables_at(d: Seq<u8>, p: nat, version: u32) -> Outcome<
    (Seq<(Seq<char>, ValueView)>, Seq<TensorView>),
> {
    let (n_tensors, q) = count_at(d, p, version);
    match n_tensors {
        Err(e) => (Err(e), q),
        Ok(n_tensors) => {
            let (n_kv, q2) = count_at(d, q, version);
            match n_kv {
                Err(e) => (Err(e), q2),
                Ok(n_kv) => {
                    let (kv, q3) = entries_at(d, q2, n_kv as nat);
                    match kv {
                        Err(e) => (Err(e), q3),
                        Ok(kv) => mapped(
                            tensors_at(d, q3, version, n_tensors as nat),
                            |ts: Seq<TensorView>| (kv, ts),
                        ),
                    }
                },
            }
        },
    }
}

pub open spec fn entries_at(d: Seq<u8>, p: nat, n: nat) -> Outcome<Seq<(Seq<char>, ValueView)>> {
    many_at(|d: Seq<u8>, p: nat| entry_at(d, p), d, p, n)
}

pub open spec fn tensors_at(d: Seq<u8>, p: nat, version: u32, n: nat) -> Outcome<Seq<TensorView>> {
    many_at(|d: Seq<u8>, p: nat| tensor_at(d, p, version), d, p, n)
}

/// The header and the tables of a whole file.
pub open spec fn file_at(d: Seq<u8>) -> Outcome<
    (Seq<(Seq<char>, ValueView)>, Seq<TensorView>),
> {
    if d.len() < 4 {
        (Err(GgufError::Io(ReadOp::Bytes)), 0)
    } else if d.subrange(0, 4) != magic() {
        (Err(GgufError::InvalidMagic([d[0], d[1], d[2], d[3]])), 4)
    } else {
        let (version, q) = u32_at(d, 4);
        match version {
            Err(e) => (Err(e), q),
            Ok(v) => if v < 1 || v > 3 {
                (Err(GgufError::UnsupportedVersion(v)), q)
            } else {
                tables_at(d, q, v)
            },
        }
    }
}

/// `n` rounded up to the alignment.
pub open spec fn aligned(n: nat) -> nat {
    ((n + GGUF_ALIGNMENT - 1) / GGUF_ALIGNMENT as int * GGUF_ALIGNMENT) as nat
}

/// A tensor description with its offset counted from the start of the file.
pub open spec fn rebased(t: TensorView, base: nat) -> TensorView {
    TensorView { offset: ((t.offset + base) % 0x1_0000_0000_0000_0000) as u64, ..t }
}

/// A parsed model file over its bytes.
pub struct GgufFile<'a> {
    pub data: &'a [u8],
    pub metadata: Metadata,
    pub tensors: Vec<TensorInfo>,
    /// Where the tensor data starts.
    pub data_offset: usize,
}

fn read_count(r: &mut Reader<'_>, version: u32) -> (res: Result<u64, GgufError>)
    requires
        old(r).wf(),
    ensures
        old(r).gives(*final(r), res, count_at(old(r).bytes(), old(r).at(), version)),
{
    if version >= 2 {
        r.read_u64()
    } else {
        match r.read_u32() {
            Ok(v) => Ok(v as u64),
            Err(e) => Err(e),
        }
    }
}

fn read_dims(r: &mut Reader<'_>, version: u32, n: u32) -> (res: Result<Vec<u64>, GgufError>)
    requires
        old(r).wf(),
    ensures
        old(r).gives(*final(r), res, dims_at(old(r).bytes(), old(r).at(), version, n as nat)),
{
    if version >= 2 {
        match read_fields::<u64>(r, n as u64) {
            Ok(v) => {
                assert(views(v@) =~= v@);
                Ok(v)
            },
            Err(e) => Err(e),
        }
    } else {
        match read_fields::<u32>(r, n as u64) {
            Ok(v) => {
                let mut wide: Vec<u64> = Vec::new();
                let mut i: usize = 0;
                while i < v.len()
                    invariant
                        i <= v@.len(),
                        wide@ == v@.take(i as int).map_values(|x: u32| x as u64),
                    decreases v@.len() - i,
                {
                    wide.push(v[i] as u64);
                    i += 1;
                    assert(wide@ =~= v@.take(i as int).map_values(|x: u32| x as u64));
                }
                assert(views(v@) =~= v@);
                assert(v@.take(i as int) =~= v@);
                Ok(wide)
            },
            Err(e) => Err(e),
        }
    }
}

fn read_tensor_info(r: &mut Reader<'_>, version: u32) -> (res: Result<TensorInfo, GgufError>)
    requires
        old(r).wf(),
    ensures
        old(r).gives(*final(r), res, tensor_at(old(r).bytes(), old(r).at(), version)),
{
    let name = match r.read_string() {
        Ok(s) => s,
        Err(e) => {
            return Err(e);
        },
    };
    let n_dims: u32 = match r.read_u32() {
        Ok(n) => n,
        Err(e) => {
            return Err(e);
        },
    };
    let shape = match read_dims(r, version, n_dims) {
        Ok(s) => s,
        Err(e) => {
            return Err(e);
        },
    };
    let code: u32 = match r.read_u32() {
        Ok(c) => c,
        Err(e) => {
            return Err(e);
        },
    };
    let dtype = match GgmlDType::from_u32(code) {
        Ok(t) => t,
        Err(e) => {
            return Err(e);
        },
    };
    proof {
        let t = choose|t: GgmlDType| #[trigger] t.code() == code;
        assert(t.code() == dtype.code());
        assert(t == dtype);
    }
    let offset: u64 = match r.read_u64() {
        Ok(o) => o,
        Err(e) => {
            return Err(e);
        },
    };
    Ok(TensorInfo { name, shape, dtype, offset })
}

fn read_tensor_infos(r: &mut Reader<'_>, version: u32, n: u64) -> (res: Result<
    Vec<TensorInfo>,
    GgufError,
>)
    requires
        old(r).wf(),
    ensures
        final(r).wf(),
        final(r).bytes() == old(r).bytes(),
        ({
            let o = tensors_at(old(r).bytes(), old(r).at(), version, n as nat);
            &&& final(r).at() == o.1
            &&& match res {
                Ok(v) => o.0 == Ok::<Seq<TensorView>, GgufError>(views(v@)),
                Err(e) => o.0 == Err::<Seq<TensorView>, GgufError>(e),
            }
        }),
{
    let mut out: Vec<TensorInfo> = Vec::new();
    let ghost d = r.bytes();
    let ghost p = r.at();
    let ghost f = |d: Seq<u8>, p: nat| tensor_at(d, p, version);
    let mut i: u64 = 0;
    assert(views(out@) =~= Seq::<TensorView>::empty());
    while i < n
        invariant
            i <= n,
            r.wf(),
            r.bytes() == d,
            d == old(r).bytes(),
            p == old(r).at(),
            f == (|d: Seq<u8>, p: nat| tensor_at(d, p, version)),
            many_at(f, d, p, i as nat) == (Ok::<Seq<TensorView>, GgufError>(views(out@)), r.at()),
        decreases n - i,
    {
        let ghost before = out@;
        match read_tensor_info(r, version) {
            Ok(t) => {
                out.push(t);
                assert(views(out@) =~= views(before).push(t@));
            },
            Err(e) => {
                proof {
                    lemma_many_fails(f, d, p, (i + 1) as nat, n as nat);
                }
                return Err(e);
            },
        }
        i += 1;
    }
    Ok(out)
}

/// The metadata that entries stand for grows by one entry at the end.
proof fn lemma_entries_push(s: Seq<(Seq<char>, ValueView)>, e: (Seq<char>, ValueView))
    ensures
        entries_map(s.push(e)) == entries_map(s).insert(e.0, e.1),
{
    assert(s.push(e).drop_last() =~= s);
}

fn read_metadata(r: &mut Reader<'_>, n: u64) -> (res: Result<Metadata, GgufError>)
    requires
        old(r).wf(),
    ensures
        final(r).wf(),
        final(r).bytes() == old(r).bytes(),
        ({
            let o = entries_at(old(r).bytes(), old(r).at(), n as nat);
            &&& final(r).at() == o.1
            &&& match res {
                Ok(m) => o.0 is Ok && m@ == entries_map(o.0->Ok_0),
                Err(e) => o.0 == Err::<Seq<(Seq<char>, ValueView)>, GgufError>(e),
            }
        }),
{
    let mut out = Metadata::new();
    let ghost mut list: Seq<(Seq<char>, ValueView)> = Seq::empty();
    let ghost d = r.bytes();
    let ghost p = r.at();
    let ghost f = |d: Seq<u8>, p: nat| entry_at(d, p);
    let mut i: u64 = 0;
    while i < n
        invariant
            i <= n,
            r.wf(),
            r.bytes() == d,
            d == old(r).bytes(),
            p == old(r).at(),
            f == (|d: Seq<u8>, p: nat| entry_at(d, p)),
            out@ == entries_map(list),
            many_at(f, d, p, i as nat) == (
                Ok::<Seq<(Seq<char>, ValueView)>, GgufError>(list),
                r.at(),
            ),
        decreases n - i,
    {
        let ghost q = r.at();
        assert(many_at(f, d, p, (i + 1) as nat) == mapped(
            f(d, q),
            |v: (Seq<char>, ValueView)| list.push(v),
        ));
        let key = match r.read_string() {
            Ok(s) => s,
            Err(e) => {
                proof {
                    lemma_many_fails(f, d, p, (i + 1) as nat, n as nat);
                }
                return Err(e);
            },
        };
        let ty: u32 = match r.read_u32() {
            Ok(t) => t,
            Err(e) => {
                proof {
                    lemma_many_fails(f, d, p, (i + 1) as nat, n as nat);
                }
                return Err(e);
            },
        };
        match parse_metadata_value(r, ty) {
            Ok(v) => {
                proof {
                    lemma_entries_push(list, (key@, v@));
                    list = list.push((key@, v@));
                }
                out.insert(key, v);
            },
            Err(e) => {
                proof {
                    lemma_many_fails(f, d, p, (i + 1) as nat, n as nat);
                }
                return Err(e);
            },
        }
        i += 1;
    }
    Ok(out)
}

/// Counts the offsets of the tensors from the start of the file.
fn rebase(tensors: Vec<TensorInfo>, base: usize) -> (r: Vec<TensorInfo>)
    ensures
        views(r@) == views(tensors@).map_values(|t: TensorView| rebased(t, base as nat)),
{
    let mut rest = tensors;
    let mut i: usize = 0;
    let ghost orig = views(tensors@);
    while i < rest.len()
        invariant
            i <= rest@.len(),
            rest@.len() == orig.len(),
            orig == views(tensors@),
            forall|k: int| 0 <= k < i ==> (#[trigger] rest@[k])@ == rebased(orig[k], base as nat),
            forall|k: int| i <= k < orig.len() ==> (#[trigger] rest@[k])@ == orig[k],
        decreases rest@.len() - i,
    {
        let off: u64 = rest[i].offset.wrapping_add(base as u64);
        rest[i].offset = off;
        i += 1;
    }
    assert(views(rest@) =~= orig.map_values(|t: TensorView| rebased(t, base as nat)));
    rest
}

impl<'a> GgufFile<'a> {
    /// The bytes of the file.
    pub open spec fn bytes(&self) -> Seq<u8> {
        self.data@
    }

    /// The descriptions of the tensors.
    pub open spec fn table(&self) -> Seq<TensorView> {
        views(self.tensors@)
    }

    /// Where the first tensor with a name stands in the table.
    pub open spec fn first_named(&self, name: Seq<char>, i: int) -> bool {
        &&& 0 <= i < self.tensors@.len()
        &&& self.tensors@[i].name@ == name
        &&& forall|k: int| 0 <= k < i ==> (#[trigger] self.tensors@[k]).name@ != name
    }

    pub open spec fn no_such(&self, name: Seq<char>) -> bool {
        forall|k: int|
            0 <= k < self.tensors@.len() ==> (#[trigger] self.tensors@[k]).name@ != name
    }

    /// Parses a file. Offsets in the tensor table are counted from the start of the
    /// tensor data; in the result they are counted from the start of the file, modulo
    /// 2^64.
    pub fn parse(data: &'a [u8]) -> (res: Result<GgufFile<'a>, GgufError>)
        requires
            data@.len() <= isize::MAX,
        ensures
            match res {
                Ok(f) => {
                    &&& file_at(data@).0 matches Ok((kv, ts))
                    &&& f.bytes() == data@
                    &&& f.metadata@ == entries_map(kv)
                    &&& f.data_offset == aligned(file_at(data@).1)
                    &&& f.table() == ts.map_values(
                        |t: TensorView| rebased(t, f.data_offset as nat),
                    )
                },
                Err(e) => match (file_at(data@).0, e) {
                    (Err(GgufError::InvalidMagic(a)), GgufError::InvalidMagic(b)) => a@ == b@,
                    (Err(x), _) => x == e,
                    (Ok(_), _) => false,
                },
            },
    {
        let mut r = Reader::new(data);
        let head = match r.read_bytes(4) {
            Ok(s) => s,
            Err(e) => {
                return Err(e);
            },
        };
        if head[0] != 0x47 || head[1] != 0x47 || head[2] != 0x55 || head[3] != 0x46 {
            assert(data@.subrange(0, 4)[0] == head[0]);
            assert(data@.subrange(0, 4)[1] == head[1]);
            assert(data@.subrange(0, 4)[2] == head[2]);
            assert(data@.subrange(0, 4)[3] == head[3]);
            return Err(GgufError::InvalidMagic([head[0], head[1], head[2], head[3]]));
        }
        assert(data@.subrange(0, 4) =~= magic());
        let version: u32 = match r.read_u32() {
            Ok(v) => v,
            Err(e) => {
                return Err(e);
            },
        };
        if version < 1 || version > 3 {
            return Err(GgufError::UnsupportedVersion(version));
        }
        let tensor_count: u64 = match read_count(&mut r, version) {
            Ok(n) => n,
            Err(e) => {
                return Err(e);
            },
        };
        let kv_count: u64 = match read_count(&mut r, version) {
            Ok(n) => n,
            Err(e) => {
                return Err(e);
            },
        };
        let metadata = match read_metadata(&mut r, kv_count) {
            Ok(m) => m,
            Err(e) => {
                return Err(e);
            },
        };
        let tensors = match read_tensor_infos(&mut r, version, tensor_count) {
            Ok(t) => t,
            Err(e) => {
                return Err(e);
            },
        };
        let data_offset: usize = (r.pos() + 31) / 32 * 32;
        let tensors = rebase(tensors, data_offset);
        Ok(GgufFile { data, metadata, tensors, data_offset })
    }

    /// The tensor with a name.
    pub fn tensor(&self, name: &str) -> (r: Option<&TensorInfo>)
        ensures
            match r {
                Some(t) => exists|i: int| #[trigger]
                    self.first_named(name@, i) && *t == self.tensors@[i],
                None => self.no_such(name@),
            },
    {
        let mut i: usize = 0;
        while i < self.tensors.len()
            invariant
                i <= self.tensors@.len(),
                forall|k: int| 0 <= k < i ==> (#[trigger] self.tensors@[k]).name@ != name@,
            decreases self.tensors@.len() - i,
        {
            if same_text(self.tensors[i].name.as_str(), name) {
                assert(self.first_named(name@, i as int));
                return Some(&self.tensors[i]);
            }
            i += 1;
        }
        None
    }

    /// The tensor with a name, or an error that names it.
    pub fn tensor_or_err(&self, name: &str) -> (r: Result<&TensorInfo, GgufError>)
        ensures
            match r {
                Ok(t) => exists|i: int| #[trigger]
                    self.first_named(name@, i) && *t == self.tensors@[i],
                Err(e) => self.no_such(name@) && (e matches GgufError::TensorNotFound(n) && n@
                    == name@),
            },
    {
        match self.tensor(name) {
            Some(t) => Ok(t),
            None => Err(GgufError::TensorNotFound(name.to_owned())),
        }
    }

    /// The bytes from the start of the tensor data on.
    pub fn data(&self) -> (r: &[u8])
        requires
            self.data_offset <= self.bytes().len(),
        ensures
            r@ == self.bytes().subrange(self.data_offset as int, self.bytes().len() as int),
    {
        vstd::slice::slice_subrange(self.data, self.data_offset, self.data.len())
    }

    /// The bytes of a tensor.
    pub fn tensor_raw_bytes(&self, info: &TensorInfo) -> (r: Result<&[u8], GgufError>)
        ensures
            r is Ok <==> info@.within(self.bytes().len()),
            match r {
                Ok(s) => s@ == self.bytes().subrange(
                    info.offset as int,
                    info.offset + info@.bytes(),
                ),
                Err(e) => e matches GgufError::InvalidTensor(m) && m@ == file_text(
                    info@,
                    self.bytes().len(),
                ),
            },
    {
        info.file_bytes(self.data)
    }

    pub fn n_tensors(&self) -> (n: usize)
        ensures
            n == self.tensors@.len(),
    {
        self.tensors.len()
    }

    pub fn architecture(&self) -> (s: &str)
        ensures
            s@ == arch_of(self.metadata@),
    {
        self.metadata.architecture()
    }

    /// Size of the file in bytes.
    pub fn file_size(&self) -> (n: usize)
        ensures
            n == self.bytes().len(),
    {
        self.data.len()
    }

    /// Decodes a tensor into the first entries of `dst`.
    pub fn dequantize_tensor(&self, info: &TensorInfo, dst: &mut Vec<Weight>) -> (r: Result<
        (),
        GgufError,
    >)
        requires
            product_fits(info.shape@),
            info@.elems() <= usize::MAX / 4,
        ensures
            decoded_into(info@, self.bytes(), old(dst)@, final(dst)@, r),
    {
        info.dequantize_into(self.data, dst)
    }

    /// Decodes a tensor.
    pub fn dequantize_tensor_alloc(&self, info: &TensorInfo) -> (r: Result<
        Vec<Weight>,
        GgufError,
    >)
        requires
            product_fits(info.shape@),
            info@.elems() <= usize::MAX / 4,
        ensures
            decoded_tensor(info@, self.bytes(), r),
    {
        info.dequantize(self.data)
    }

    /// Offset and size in bytes of the tensor with a name; nothing where the size is
    /// out of range.
    pub fn tensor_raw_offset_len(&self, name: &str) -> (r: Option<(u64, usize)>)
        ensures
            match r {
                Some((off, len)) => exists|i: int| #[trigger]
                    self.first_named(name@, i) && self.tensors@[i]@.sized() && off
                        == self.tensors@[i].offset && len == self.tensors@[i]@.bytes(),
                None => self.no_such(name@) || exists|i: int| #[trigger]
                    self.first_named(name@, i) && !self.tensors@[i]@.sized(),
            },
    {
        match self.tensor(name) {
            Some(t) => match t.checked_nbytes() {
                Some(n) => Some((t.offset, n)),
                None => None,
            },
            None => None,
        }
    }
}

/// Tensor data starts at the first aligned position that is not before the tables' end.
pub proof fn law_aligned(n: nat)
    ensures
        aligned(n) % (GGUF_ALIGNMENT as nat) == 0,
        n <= aligned(n) < n + GGUF_ALIGNMENT,
{
}

/// In a file whose offsets do not wrap, every tensor lies behind the tables, as far as its
/// offset in the table says.
pub proof fn law_rebased_offset(t: TensorView, base: nat)
    requires
        t.offset + base <= u64::MAX,
    ensures
        rebased(t, base).offset == t.offset + base,
        rebased(t, base).name == t.name,
        rebased(t, base).shape == t.shape,
        rebased(t, base).dtype == t.dtype,
{
}

/// Reading stops at the end: what the tables take up lies within the file.
pub proof fn law_tables_within(d: Seq<u8>)
    ensures
        file_at(d).1 <= d.len(),
{
    if d.len() >= 4 && d.subrange(0, 4) == magic() {
        let (version, q) = u32_at(d, 4);
        if let Ok(v) = version {
            if 1 <= v && v <= 3 {
                lemma_tables_within(d, q, v);
            }
        }
    }
}

proof fn lemma_tables_within(d: Seq<u8>, p: nat, version: u32)
    requires
        p <= d.len(),
    ensures
        tables_at(d, p, version).1 <= d.len(),
{
    let (n_tensors, q) = count_at(d, p, version);
    if let Ok(nt) = n_tensors {
        let (n_kv, q2) = count_at(d, q, version);
        if let Ok(nk) = n_kv {
            let f = |d: Seq<u8>, p: nat| entry_at(d, p);
            assert forall|p: nat| p <= d.len() implies (#[trigger] f(d, p)).1 <= d.len() by {
                lemma_entry_within(d, p);
            }
            lemma_many_within(f, d, q2, nk as nat);
            let (kv, q3) = entries_at(d, q2, nk as nat);
            if kv is Ok {
                let g = |d: Seq<u8>, p: nat| tensor_at(d, p, version);
                assert forall|p: nat| p <= d.len() implies (#[trigger] g(d, p)).1 <= d.len() by {
                    lemma_tensor_within(d, p, version);
                }
                lemma_many_within(g, d, q3, nt as nat);
            }
        }
    }
}

proof fn lemma_many_within<T>(
    f: spec_fn(Seq<u8>, nat) -> Outcome<T>,
    d: Seq<u8>,
    p: nat,
    n: nat,
)
    requires
        p <= d.len(),
        forall|p: nat| p <= d.len() ==> (#[trigger] f(d, p)).1 <= d.len(),
    ensures
        many_at(f, d, p, n).1 <= d.len(),
    decreases n,
{
    if n > 0 {
        lemma_many_within(f, d, p, (n - 1) as nat);
    }
}

proof fn lemma_fields_within<T: Field>(d: Seq<u8>, p: nat, n: nat)
    requires
        p <= d.len(),
        forall|p: nat| p <= d.len() ==> (#[trigger] T::parse(d, p)).1 <= d.len(),
    ensures
        fields_at::<T>(d, p, n).1 <= d.len(),
{
    let f = |d: Seq<u8>, p: nat| T::parse(d, p);
    assert forall|p: nat| p <= d.len() implies (#[trigger] f(d, p)).1 <= d.len() by {
        assert(T::parse(d, p).1 <= d.len());
    }
    lemma_many_within(f, d, p, n);
}

proof fn lemma_entry_within(d: Seq<u8>, p: nat)
    requires
        p <= d.len(),
    ensures
        entry_at(d, p).1 <= d.len(),
{
    let (key, q) = string_at(d, p);
    if key is Ok {
        let (ty, q2) = u32_at(d, q);
        if let Ok(ty) = ty {
            if ty == 9 {
                let (et, q3) = u32_at(d, q2);
                if et is Ok {
                    let (n, q4) = u64_at(d, q3);
                    if let Ok(n) = n {
                        lemma_fields_within::<u8>(d, q4, n as nat);
                        lemma_fields_within::<i8>(d, q4, n as nat);
                        lemma_fields_within::<u16>(d, q4, n as nat);
                        lemma_fields_within::<i16>(d, q4, n as nat);
                        lemma_fields_within::<u32>(d, q4, n as nat);
                        lemma_fields_within::<i32>(d, q4, n as nat);
                        lemma_fields_within::<u64>(d, q4, n as nat);
                        lemma_fields_within::<i64>(d, q4, n as nat);
                        lemma_fields_within::<bool>(d, q4, n as nat);
                        lemma_fields_within::<String>(d, q4, n as nat);
                    }
                }
            }
        }
    }
}

proof fn lemma_tensor_within(d: Seq<u8>, p: nat, version: u32)
    requires
        p <= d.len(),
    ensures
        tensor_at(d, p, version).1 <= d.len(),
{
    let (name, q) = string_at(d, p);
    if name is Ok {
        let (n, q2) = u32_at(d, q);
        if let Ok(n) = n {
            lemma_fields_within::<u64>(d, q2, n as nat);
            lemma_fields_within::<u32>(d, q2, n as nat);
        }
    }
}

} // verus!
