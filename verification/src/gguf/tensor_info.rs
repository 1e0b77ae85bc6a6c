//! Where a tensor lies in the data, and how large it is.

use vstd::prelude::*;

use crate::gguf::dtype::GgmlDType;
use crate::gguf::error::GgufError;
use crate::quant;
use crate::quant::dequantized;
use crate::quant::Weight;
use crate::text::decimal;
use crate::text::push_decimal;

verus! {

/// A tensor of a model file.
#[derive(Debug)]
pub struct TensorInfo {
    pub name: String,
    pub shape: Vec<u64>,
    pub dtype: GgmlDType,
    /// Byte offset of the tensor's data.
    pub offset: u64,
}

/// What a tensor description says.
pub struct TensorView {
    pub name: Seq<char>,
    pub shape: Seq<u64>,
    pub dtype: GgmlDType,
    pub offset: u64,
}

impl View for TensorInfo {
    type V = TensorView;

    open spec fn view(&self) -> TensorView {
        TensorView {
            name: self.name@,
            shape: self.shape@,
            dtype: self.dtype,
            offset: self.offset,
        }
    }
}

/// The product of the dimensions.
pub open spec fn product(shape: Seq<u64>) -> nat
    decreases shape.len(),
{
    if shape.len() == 0 {
        1
    } else {
        product(shape.drop_last()) * shape.last() as nat
    }
}

/// The dimensions, multiplied up from the first, stay in range.
pub open spec fn product_fits(shape: Seq<u64>) -> bool {
    forall|i: int| 0 <= i <= shape.len() ==> product(#[trigger] shape.take(i)) <= usize::MAX
}

/// The dimensions as text, separated by commas.
pub open spec fn joined(shape: Seq<u64>) -> Seq<char>
    decreases shape.len(),
{
    if shape.len() == 0 {
        Seq::empty()
    } else if shape.len() == 1 {
        decimal(shape[0] as nat)
    } else {
        joined(shape.drop_last()) + ", "@ + decimal(shape.last() as nat)
    }
}

impl TensorView {
    pub open spec fn elems(self) -> nat {
        product(self.shape)
    }

    pub open spec fn bytes(self) -> nat {
        self.dtype.spec_nbytes_for(self.elems())
    }

    /// The number of elements and of bytes can be computed.
    pub open spec fn sized(self) -> bool {
        &&& product_fits(self.shape)
        &&& self.elems() + self.dtype.spec_block_size() <= usize::MAX
        &&& self.bytes() <= usize::MAX
    }

    /// The tensor's bytes lie within data of length `len`.
    pub open spec fn within(self, len: nat) -> bool {
        self.sized() && self.offset + self.bytes() <= len
    }
}

impl TensorInfo {
    /// Number of elements.
    pub fn n_elems(&self) -> (r: usize)
        requires
            product_fits(self.shape@),
        ensures
            r == self@.elems(),
    {
        let r = self.checked_n_elems();
        r.unwrap()
    }

    /// The number of elements, where multiplying up the dimensions stays in range.
    pub fn checked_n_elems(&self) -> (r: Option<usize>)
        ensures
            r is Some <==> product_fits(self.shape@),
            r matches Some(n) ==> n == self@.elems(),
    {
        let ghost s = self.shape@;
        let mut acc: usize = 1;
        let mut i: usize = 0;
        assert(s.take(0) =~= Seq::<u64>::empty());
        while i < self.shape.len()
            invariant
                s == self.shape@,
                i <= s.len(),
                acc == product(s.take(i as int)),
                forall|k: int| 0 <= k <= i ==> product(#[trigger] s.take(k)) <= usize::MAX,
            decreases s.len() - i,
        {
            let dim: u64 = self.shape[i];
            proof {
                assert(s.take(i + 1).drop_last() =~= s.take(i as int));
                assert(s.take(i + 1).last() == dim);
            }
            assert(0 <= acc * dim <= 0xFFFF_FFFF_FFFF_FFFF * 0xFFFF_FFFF_FFFF_FFFF)
                by (nonlinear_arith)
                requires
                    acc <= 0xFFFF_FFFF_FFFF_FFFF,
                    dim <= 0xFFFF_FFFF_FFFF_FFFF,
            ;
            let wide: u128 = (acc as u128) * (dim as u128);
            if wide > usize::MAX as u128 {
                assert(product(s.take(i + 1)) > usize::MAX);
                return None;
            }
            acc = wide as usize;
            i += 1;
        }
        assert(s.take(i as int) =~= s);
        Some(acc)
    }

    /// Number of bytes.
    pub fn nbytes(&self) -> (r: usize)
        requires
            self@.sized(),
        ensures
            r == self@.bytes(),
    {
        self.dtype.nbytes_for(self.n_elems())
    }

    /// The number of bytes, where it can be computed.
    pub fn checked_nbytes(&self) -> (r: Option<usize>)
        ensures
            r is Some <==> self@.sized(),
            r matches Some(n) ==> n == self@.bytes(),
    {
        proof {
            assert(self.shape@.take(self.shape@.len() as int) =~= self.shape@);
        }
        match self.checked_n_elems() {
            Some(n) => {
                if n > usize::MAX - self.dtype.block_size() {
                    None
                } else {
                    self.dtype.checked_nbytes_for(n)
                }
            },
            None => None,
        }
    }

    /// The first `n` bytes of `data` from the tensor's offset on, where they are there.
    fn slice_of<'a>(&self, data: &'a [u8], n: usize) -> (r: Option<&'a [u8]>)
        ensures
            match r {
                Some(s) => self.offset + n <= data@.len() && s@ == data@.subrange(
                    self.offset as int,
                    self.offset + n,
                ),
                None => self.offset + n > data@.len(),
            },
    {
        if self.offset > data.len() as u64 {
            return None;
        }
        let start: usize = self.offset as usize;
        if n > data.len() - start {
            return None;
        }
        Some(vstd::slice::slice_subrange(data, start, start + n))
    }

    /// The tensor's bytes in `data`.
    pub fn raw_bytes<'a>(&self, data: &'a [u8]) -> (r: Result<&'a [u8], GgufError>)
        ensures
            r is Ok <==> self@.within(data@.len()),
            match r {
                Ok(s) => s@ == data@.subrange(self.offset as int, self.offset + self@.bytes()),
                Err(e) => e matches GgufError::InvalidTensor(m) && m@ == (if self@.sized() {
                    outside_text(self@, data@.len())
                } else {
                    oversize_text(self@)
                }),
            },
    {
        match self.checked_nbytes() {
            Some(n) => match self.slice_of(data, n) {
                Some(s) => Ok(s),
                None => {
                    let mut m = self.name.clone();
                    m.append(": offset ");
                    push_decimal(&mut m, self.offset);
                    m.append(" + ");
                    push_decimal(&mut m, n as u64);
                    m.append(" bytes > data len ");
                    push_decimal(&mut m, data.len() as u64);
                    assert(m@ =~= outside_text(self@, data@.len()));
                    Err(GgufError::InvalidTensor(m))
                },
            },
            None => Err(self.oversize()),
        }
    }

    /// The tensor's bytes in the whole file.
    pub fn file_bytes<'a>(&self, data: &'a [u8]) -> (r: Result<&'a [u8], GgufError>)
        ensures
            r is Ok <==> self@.within(data@.len()),
            match r {
                Ok(s) => s@ == data@.subrange(self.offset as int, self.offset + self@.bytes()),
                Err(e) => e matches GgufError::InvalidTensor(m) && m@ == file_text(
                    self@,
                    data@.len(),
                ),
            },
    {
        match self.checked_nbytes() {
            Some(n) => match self.slice_of(data, n) {
                Some(s) => Ok(s),
                None => {
                    let mut m = self.name.clone();
                    match self.offset.checked_add(n as u64) {
                        Some(end) => {
                            m.append(": range ");
                            push_decimal(&mut m, self.offset);
                            m.append("..");
                            push_decimal(&mut m, end);
                            m.append(" fora do mmap (");
                            push_decimal(&mut m, data.len() as u64);
                            m.append(")");
                            assert(m@ =~= range_text(self@, data@.len()));
                        },
                        None => {
                            m.append(": offset ");
                            push_decimal(&mut m, self.offset);
                            m.append(" + ");
                            push_decimal(&mut m, n as u64);
                            m.append(" bytes > data len ");
                            push_decimal(&mut m, data.len() as u64);
                            assert(m@ =~= outside_text(self@, data@.len()));
                        },
                    }
                    Err(GgufError::InvalidTensor(m))
                },
            },
            None => Err(self.oversize()),
        }
    }

    /// Decodes the tensor's elements in `data` into the first entries of `dst`.
    pub fn dequantize_into(&self, data: &[u8], dst: &mut Vec<Weight>) -> (r: Result<(), GgufError>)
        requires
            product_fits(self.shape@),
            self@.elems() <= usize::MAX / 4,
        ensures
            decoded_into(self@, data@, old(dst)@, final(dst)@, r),
    {
        let n = self.n_elems();
        if dst.len() < n {
            return Err(GgufError::BufferTooSmall { needed: n, got: dst.len() });
        }
        let ghost before = dst@;
        let v = self.dequantize(data);
        let ghost res = v;
        proof {
            lemma_decoded_len(self@, data@, v);
            assert(decoded_tensor(self@, data@, res));
        }
        match v {
            Ok(w) => {
                let mut i: usize = 0;
                while i < w.len()
                    invariant
                        i <= w@.len(),
                        w@.len() <= before.len(),
                        dst@ =~= w@.take(i as int) + before.skip(i as int),
                    decreases w@.len() - i,
                {
                    dst.set(i, w[i]);
                    i += 1;
                }
                assert(w@.take(i as int) =~= w@);
                Ok(())
            },
            Err(e) => Err(e),
        }
    }

    /// Decodes the tensor's elements in `data`.
    pub fn dequantize(&self, data: &[u8]) -> (r: Result<Vec<Weight>, GgufError>)
        requires
            product_fits(self.shape@),
            self@.elems() <= usize::MAX / 4,
        ensures
            decoded_tensor(self@, data@, r),
    {
        let n = self.n_elems();
        match self.raw_bytes(data) {
            Ok(raw) => quant::dequantize(self.dtype, raw, n),
            Err(e) => Err(e),
        }
    }

    fn oversize(&self) -> (e: GgufError)
        ensures
            e matches GgufError::InvalidTensor(m) && m@ == oversize_text(self@),
    {
        let mut m = self.name.clone();
        m.append(": size out of range");
        GgufError::InvalidTensor(m)
    }

    /// The shape as a bracketed list.
    pub fn shape_str(&self) -> (r: String)
        ensures
            r@ == "["@ + joined(self.shape@) + "]"@,
    {
        let ghost s = self.shape@;
        let mut out = String::new();
        out.append("[");
        let mut i: usize = 0;
        assert(s.take(0) =~= Seq::<u64>::empty());
        assert(out@ =~= "["@ + joined(s.take(0)));
        while i < self.shape.len()
            invariant
                s == self.shape@,
                i <= s.len(),
                out@ == "["@ + joined(s.take(i as int)),
            decreases s.len() - i,
        {
            proof {
                assert(s.take(i + 1).drop_last() =~= s.take(i as int));
                assert(s.take(i + 1).last() == s[i as int]);
            }
            if i > 0 {
                out.append(", ");
            }
            push_decimal(&mut out, self.shape[i]);
            assert(out@ =~= "["@ + joined(s.take(i + 1)));
            i += 1;
        }
        assert(s.take(i as int) =~= s);
        out.append("]");
        out
    }
}

/// What decoding a tensor of `data` gives: its elements, or the report that `data` does
/// not hold it, or that its type cannot be decoded.
pub open spec fn decoded_tensor(
    t: TensorView,
    data: Seq<u8>,
    r: Result<Vec<Weight>, GgufError>,
) -> bool {
    if t.within(data.len()) {
        dequantized(t.dtype, data.subrange(t.offset as int, t.offset + t.bytes()), t.elems(), r)
    } else {
        r matches Err(GgufError::InvalidTensor(m)) && m@ == (if t.sized() {
            outside_text(t, data.len())
        } else {
            oversize_text(t)
        })
    }
}

/// That decoding a tensor of `data` turns `before` into `after` and gives `r`: the elements
/// come first and the rest stays, or nothing changes and the fault is reported.
pub open spec fn decoded_into(
    t: TensorView,
    data: Seq<u8>,
    before: Seq<Weight>,
    after: Seq<Weight>,
    r: Result<(), GgufError>,
) -> bool {
    &&& r is Err ==> after == before
    &&& if before.len() < t.elems() {
        r == Err::<(), GgufError>(
            GgufError::BufferTooSmall { needed: t.elems() as usize, got: before.len() as usize },
        )
    } else {
        exists|v: Result<Vec<Weight>, GgufError>|
            {
                &&& #[trigger] decoded_tensor(t, data, v)
                &&& match (v, r) {
                    (Ok(w), Ok(())) => after == w@ + before.skip(w@.len() as int),
                    (Err(a), Err(b)) => a == b,
                    _ => false,
                }
            }
    }
}

proof fn lemma_decoded_len(t: TensorView, data: Seq<u8>, r: Result<Vec<Weight>, GgufError>)
    requires
        decoded_tensor(t, data, r),
    ensures
        r matches Ok(v) ==> v@.len() == t.elems(),
{
}

/// The report on data that ends before the tensor does.
pub open spec fn outside_text(t: TensorView, len: nat) -> Seq<char> {
    t.name + ": offset "@ + decimal(t.offset as nat) + " + "@ + decimal(t.bytes())
        + " bytes > data len "@ + decimal(len)
}

/// The report on a file that ends before the tensor does.
pub open spec fn range_text(t: TensorView, len: nat) -> Seq<char> {
    t.name + ": range "@ + decimal(t.offset as nat) + ".."@ + decimal(
        (t.offset + t.bytes()) as nat,
    ) + " fora do mmap ("@ + decimal(len) + ")"@
}

/// The report on a tensor that a file does not hold.
pub open spec fn file_text(t: TensorView, len: nat) -> Seq<char> {
    if !t.sized() {
        oversize_text(t)
    } else if t.offset + t.bytes() > u64::MAX {
        outside_text(t, len)
    } else {
        range_text(t, len)
    }
}

/// The report on a tensor whose size cannot be computed.
pub open spec fn oversize_text(t: TensorView) -> Seq<char> {
    t.name + ": size out of range"@
}

/// The size of a tensor: one element without dimensions, and one more dimension multiplies the
/// elements by it.
pub proof fn law_elements_multiply(a: &TensorInfo, b: &TensorInfo, d: u64, na: usize, nb: Option<usize>)
    requires
        b.shape@ == a.shape@.push(d),
        call_ensures(TensorInfo::checked_n_elems, (a,), Some(na)),
        call_ensures(TensorInfo::checked_n_elems, (b,), nb),
    ensures
        a.shape@.len() == 0 ==> na == 1,
        nb is Some <==> na * d <= usize::MAX,
        nb matches Some(n) ==> n == na * d,
{
    let s = a.shape@;
    let t = b.shape@;
    assert(t.drop_last() =~= s);
    assert(product(t) == product(s) * d as nat);
    assert(s.take(s.len() as int) =~= s);
    if product_fits(t) {
        assert(t.take(t.len() as int) =~= t);
        assert(product(t.take(t.len() as int)) <= usize::MAX);
    }
    if na * d <= usize::MAX {
        assert forall|i: int| 0 <= i <= t.len() implies product(#[trigger] t.take(i))
            <= usize::MAX by {
            if i < t.len() {
                assert(t.take(i) =~= s.take(i));
            } else {
                assert(t.take(i) =~= t);
            }
        }
    }
}

/// The text of a shape: the dimensions in their order, with a comma and a space between them, in
/// square brackets.
pub proof fn law_shape_text(a: &TensorInfo, b: &TensorInfo, d: u64, ra: String, rb: String, n: String)
    requires
        b.shape@ == a.shape@.push(d),
        call_ensures(TensorInfo::shape_str, (a,), ra),
        call_ensures(TensorInfo::shape_str, (b,), rb),
        call_ensures(crate::text::decimal_string, (d,), n),
    ensures
        a.shape@.len() == 0 ==> ra@ == seq!['[', ']'] && rb@ == seq!['['] + n@ + seq![']'],
        a.shape@.len() > 0 ==> rb@ == ra@.drop_last() + seq![',', ' '] + n@ + seq![']'],
{
    reveal_strlit("[");
    reveal_strlit("]");
    reveal_strlit(", ");
    let s = a.shape@;
    assert(b.shape@.drop_last() =~= s);
    assert("["@ =~= seq!['[']);
    assert("]"@ =~= seq![']']);
    assert(", "@ =~= seq![',', ' ']);
    if s.len() == 0 {
        assert(ra@ =~= seq!['[', ']']);
    } else {
        assert(ra@.drop_last() =~= "["@ + joined(s));
        assert(rb@ =~= ra@.drop_last() + seq![',', ' '] + n@ + seq![']']);
    }
}

/// The bytes of a tensor are as many as it takes, from its offset on; they are refused exactly
/// where the data ends before they do or their number cannot be told.
pub proof fn law_bytes_from_offset(
    t: &TensorInfo,
    data: &[u8],
    n: Option<usize>,
    r: Result<&[u8], GgufError>,
    f: Result<&[u8], GgufError>,
)
    requires
        call_ensures(TensorInfo::checked_nbytes, (t,), n),
        call_ensures(TensorInfo::raw_bytes, (t, data), r),
        call_ensures(TensorInfo::file_bytes, (t, data), f),
    ensures
        r is Ok <==> (n matches Some(m) && t.offset + m <= data@.len()),
        f is Ok <==> r is Ok,
        r matches Ok(s) ==> {
            &&& n == Some(s@.len() as usize)
            &&& forall|k: int| 0 <= k < s@.len() ==> #[trigger] s@[k] == data@[t.offset + k]
        },
        r is Ok && f is Ok ==> r->Ok_0@ == f->Ok_0@,
        r is Err ==> r->Err_0 is InvalidTensor,
{
}

/// What a tensor decodes to goes by its bytes alone: it is what they decode to by themselves.
pub proof fn law_decoded_from_bytes(
    t: &TensorInfo,
    data: &[u8],
    n: usize,
    raw: &[u8],
    whole: Result<Vec<Weight>, GgufError>,
)
    requires
        product_fits(t.shape@),
        t@.elems() <= usize::MAX / 4,
        call_ensures(TensorInfo::n_elems, (t,), n),
        call_ensures(TensorInfo::raw_bytes, (t, data), Ok(raw)),
        call_ensures(TensorInfo::dequantize, (t, data), whole),
    ensures
        dequantized(t.dtype, raw@, n as nat, whole),
{
}

} // verus!
