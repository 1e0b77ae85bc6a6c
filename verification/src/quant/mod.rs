//! Decoding of quantized tensor data.
//!
//! A block holds a fixed number of elements. Each element is given by small integers
//! and by the block's scale factors, which are floating-point numbers: see [`Weight`].

use vstd::prelude::*;

use crate::gguf::dtype::GgmlDType;
use crate::gguf::error::GgufError;
use crate::gguf::reader::signed;
use crate::halves::f16_to_f32_bits;
use crate::halves::f16_widened;

pub mod floats;
pub mod iq2_xxs;
pub mod q2_k;
pub mod q3_k;
pub mod q4_0;
pub mod q4_k;
pub mod q5_k;
pub mod q6_k;
pub mod q8_0;

verus! {

/// A decoded element: the number `d * scale * q / 2^shift - dmin * min`, where `d` and
/// `dmin` are single-precision bit patterns.
#[derive(Clone, Copy, Debug, PartialEq, Eq, Structural)]
pub struct Weight {
    pub d: u32,
    pub dmin: u32,
    pub scale: i16,
    pub min: i16,
    pub q: i16,
    pub shift: u8,
}

/// The integers of an element.
#[derive(Clone, Copy, Debug, PartialEq, Eq, Structural)]
pub struct Terms {
    pub scale: i16,
    pub min: i16,
    pub q: i16,
}

/// An element that is the number with a single-precision pattern.
pub open spec fn plain(bits: u32) -> Weight {
    Weight { d: bits, dmin: 0, scale: 1, min: 0, q: 1, shift: 0 }
}

/// A 16-bit little-endian value.
pub open spec fn le16(s: Seq<u8>, at: int) -> u16 {
    (s[at] + 0x100 * s[at + 1]) as u16
}

pub(crate) fn read_le16(s: &[u8], at: usize) -> (r: u16)
    requires
        at + 1 < s@.len(),
    ensures
        r == le16(s@, at as int),
{
    s[at] as u16 + 0x100 * s[at + 1] as u16
}

/// The low (`false`) or high (`true`) half of a byte.
pub open spec fn nibble(b: u8, high: bool) -> int {
    if high {
        b as int / 16
    } else {
        b as int % 16
    }
}

pub(crate) fn get_nibble(b: u8, high: bool) -> (r: u8)
    ensures
        r == nibble(b, high),
        r < 16,
{
    if high {
        b / 16
    } else {
        b % 16
    }
}

/// The two bits at position `2 * k` of a byte.
pub open spec fn crumb(b: u8, k: int) -> int {
    if k == 0 {
        b as int % 4
    } else if k == 1 {
        b as int / 4 % 4
    } else if k == 2 {
        b as int / 16 % 4
    } else {
        b as int / 64
    }
}

pub(crate) fn get_crumb(b: u8, k: usize) -> (r: u8)
    requires
        k < 4,
    ensures
        r == crumb(b, k as int),
        r < 4,
{
    if k == 0 {
        b % 4
    } else if k == 1 {
        b / 4 % 4
    } else if k == 2 {
        b / 16 % 4
    } else {
        b / 64
    }
}

/// The bit at position `k` of a byte.
pub open spec fn bit(b: u8, k: int) -> bool {
    crumb(b, k / 2) / (if k % 2 == 0 {
        1int
    } else {
        2
    }) % 2 == 1
}

pub(crate) fn get_bit(b: u8, k: usize) -> (r: bool)
    requires
        k < 8,
    ensures
        r == bit(b, k as int),
{
    let c = get_crumb(b, k / 2);
    if k % 2 == 0 {
        c % 2 == 1
    } else {
        c / 2 == 1
    }
}

/// A byte as a signed number.
pub(crate) fn signed_byte(b: u8) -> (r: i16)
    ensures
        r == signed(b as int, 0x80),
{
    if b < 0x80 {
        b as i16
    } else {
        b as i16 - 0x100
    }
}

/// A block format: how many elements and bytes a block has, where its scale factors
/// stand, and the integers of each element.
pub trait BlockFormat: Sized {
    spec fn spec_elems() -> nat;

    spec fn spec_bytes() -> nat;

    /// Where the half-precision factor `d` stands in a block.
    spec fn spec_d_at() -> nat;

    /// Where the half-precision factor `dmin` stands in a block, for formats that have it.
    spec fn spec_dmin_at() -> Option<nat>;

    spec fn spec_shift() -> u8;

    /// The integers of element `i` of a block.
    spec fn spec_terms(block: Seq<u8>, i: int) -> Terms;

    proof fn lemma_layout()
        ensures
            1 <= Self::spec_elems() <= 256,
            2 <= Self::spec_bytes() <= 256,
            Self::spec_bytes() <= 2 * Self::spec_elems(),
            Self::spec_d_at() + 2 <= Self::spec_bytes(),
            Self::spec_dmin_at() matches Some(m) ==> m + 2 <= Self::spec_bytes(),
    ;

    fn elems() -> (r: usize)
        ensures
            r == Self::spec_elems(),
    ;

    fn bytes() -> (r: usize)
        ensures
            r == Self::spec_bytes(),
    ;

    fn d_at() -> (r: usize)
        ensures
            r == Self::spec_d_at(),
    ;

    fn dmin_at() -> (r: Option<usize>)
        ensures
            match r {
                Some(m) => Self::spec_dmin_at() == Some(m as nat),
                None => Self::spec_dmin_at() is None,
            },
    ;

    fn shift() -> (r: u8)
        ensures
            r == Self::spec_shift(),
    ;

    fn terms(block: &[u8], i: usize) -> (r: Terms)
        requires
            block@.len() == Self::spec_bytes(),
            i < Self::spec_elems(),
        ensures
            r == Self::spec_terms(block@, i as int),
    ;
}

/// An element from its integers and the factors of its block.
pub open spec fn weight_of<F: BlockFormat>(t: Terms, d: u32, dmin: u32) -> Weight {
    Weight { d, dmin, scale: t.scale, min: t.min, q: t.q, shift: F::spec_shift() }
}

/// The factor `d` of a block.
pub open spec fn block_d<F: BlockFormat>(block: Seq<u8>) -> u32 {
    f16_widened(le16(block, F::spec_d_at() as int))
}

/// The factor `dmin` of a block, zero for formats that have none.
pub open spec fn block_dmin<F: BlockFormat>(block: Seq<u8>) -> u32 {
    match F::spec_dmin_at() {
        Some(m) => f16_widened(le16(block, m as int)),
        None => 0,
    }
}

/// The bytes of block `b`.
pub open spec fn block_of<F: BlockFormat>(raw: Seq<u8>, b: int) -> Seq<u8> {
    raw.subrange(b * F::spec_bytes(), (b + 1) * F::spec_bytes())
}

/// Element `g` of a run of blocks.
pub open spec fn element<F: BlockFormat>(raw: Seq<u8>, g: int) -> Weight {
    let block = block_of::<F>(raw, g / F::spec_elems() as int);
    weight_of::<F>(
        F::spec_terms(block, g % F::spec_elems() as int),
        block_d::<F>(block),
        block_dmin::<F>(block),
    )
}

/// Blocks for `n` elements.
pub open spec fn blocks<F: BlockFormat>(n: nat) -> nat {
    ((n + F::spec_elems() - 1) / F::spec_elems() as int) as nat
}

/// What decoding `n` elements of one block format gives.
pub open spec fn decoded<F: BlockFormat>(
    raw: Seq<u8>,
    n: nat,
    r: Result<Vec<Weight>, GgufError>,
) -> bool {
    let needed = blocks::<F>(n) * F::spec_bytes();
    match r {
        Ok(v) => {
            &&& raw.len() >= needed
            &&& v@ == Seq::new(n, |g: int| element::<F>(raw, g))
        },
        Err(e) => {
            &&& raw.len() < needed
            &&& e == GgufError::BufferTooSmall { needed: needed as usize, got: raw.len() as usize }
        },
    }
}

/// Decodes the first `count` elements of a block.
fn decode_block<F: BlockFormat>(block: &[u8], count: usize, out: &mut Vec<Weight>)
    requires
        block@.len() == F::spec_bytes(),
        count <= F::spec_elems(),
    ensures
        final(out)@ == old(out)@ + Seq::new(
            count as nat,
            |i: int|
                weight_of::<F>(
                    F::spec_terms(block@, i),
                    block_d::<F>(block@),
                    block_dmin::<F>(block@),
                ),
        ),
{
    proof {
        F::lemma_layout();
    }
    let d: u32 = f16_to_f32_bits(read_le16(block, F::d_at()));
    let dmin: u32 = match F::dmin_at() {
        Some(m) => f16_to_f32_bits(read_le16(block, m)),
        None => 0,
    };
    let shift: u8 = F::shift();
    let ghost f = |i: int|
        weight_of::<F>(F::spec_terms(block@, i), block_d::<F>(block@), block_dmin::<F>(block@));
    let mut i: usize = 0;
    while i < count
        invariant
            i <= count,
            count <= F::spec_elems(),
            block@.len() == F::spec_bytes(),
            d == block_d::<F>(block@),
            dmin == block_dmin::<F>(block@),
            shift == F::spec_shift(),
            f == (|i: int|
                weight_of::<F>(
                    F::spec_terms(block@, i),
                    block_d::<F>(block@),
                    block_dmin::<F>(block@),
                )),
            out@ =~= old(out)@ + Seq::new(i as nat, f),
        decreases count - i,
    {
        let t = F::terms(block, i);
        out.push(Weight { d, dmin, scale: t.scale, min: t.min, q: t.q, shift });
        i += 1;
    }
}

/// Decodes `n` elements of one block format.
pub fn decode<F: BlockFormat>(raw: &[u8], n: usize) -> (r: Result<Vec<Weight>, GgufError>)
    requires
        n <= usize::MAX / 4,
    ensures
        decoded::<F>(raw@, n as nat, r),
{
    proof {
        F::lemma_layout();
    }
    let bs = F::elems();
    let bb = F::bytes();
    let n_blocks = (n + bs - 1) / bs;
    proof {
        vstd::arithmetic::div_mod::lemma_fundamental_div_mod(n + bs - 1, bs as int);
        assert(n_blocks <= n) by (nonlinear_arith)
            requires
                bs >= 1,
                n_blocks == (n + bs - 1) / (bs as int),
                n >= 0,
        ;
        assert(n_blocks * bb <= 2 * (n + bs - 1)) by (nonlinear_arith)
            requires
                bs >= 1,
                n_blocks == (n + bs - 1) / (bs as int),
                n >= 0,
                0 <= bb <= 2 * bs,
        ;
    }
    let needed = n_blocks * bb;
    if raw.len() < needed {
        return Err(GgufError::BufferTooSmall { needed, got: raw.len() });
    }
    let mut out: Vec<Weight> = Vec::new();
    let mut b: usize = 0;
    while b < n_blocks
        invariant
            b <= n_blocks,
            bs == F::spec_elems(),
            bb == F::spec_bytes(),
            1 <= bs <= 256,
            2 <= bb <= 256,
            n <= usize::MAX / 4,
            n_blocks == (n + bs - 1) / (bs as int),
            n_blocks <= n,
            needed == n_blocks * bb,
            needed <= raw@.len(),
            out@.len() == (if b * bs <= n {
                b * bs
            } else {
                n as int
            }),
            out@ == Seq::new(out@.len(), |g: int| element::<F>(raw@, g)),
        decreases n_blocks - b,
    {
        proof {
            lemma_block_range(b as int, n as int, bs as int, n_blocks as int, bb as int);
        }
        let start = b * bb;
        let left = n - b * bs;
        let count = if left < bs {
            left
        } else {
            bs
        };
        let block = vstd::slice::slice_subrange(raw, start, start + bb);
        let ghost before = out@;
        decode_block::<F>(block, count, &mut out);
        proof {
            assert((b + 1) * bb == b * bb + bb) by (nonlinear_arith);
            assert((b + 1) * bs == b * bs + bs) by (nonlinear_arith);
            assert(block@ =~= block_of::<F>(raw@, b as int));
            assert forall|g: int| b * bs <= g < b * bs + count implies #[trigger] out@[g]
                == element::<F>(raw@, g) by {
                lemma_div_in_block(g, b as int, bs as int);
                assert(out@[g] == before.add(
                    Seq::new(
                        count as nat,
                        |i: int|
                            weight_of::<F>(
                                F::spec_terms(block@, i),
                                block_d::<F>(block@),
                                block_dmin::<F>(block@),
                            ),
                    ),
                )[g]);
            }
            assert forall|g: int| 0 <= g < b * bs implies #[trigger] out@[g] == element::<F>(
                raw@,
                g,
            ) by {
                assert(out@[g] == before[g]);
            }
            assert(out@ =~= Seq::new(out@.len(), |g: int| element::<F>(raw@, g)));
        }
        b += 1;
    }
    proof {
        assert(n_blocks * bs >= n) by (nonlinear_arith)
            requires
                bs >= 1,
                n_blocks == (n + bs - 1) / (bs as int),
        ;
    }
    Ok(out)
}

proof fn lemma_block_range(b: int, n: int, bs: int, n_blocks: int, bb: int)
    by (nonlinear_arith)
    requires
        0 <= b < n_blocks,
        n_blocks == (n + bs - 1) / bs,
        1 <= bs,
        2 <= bb,
        0 <= n,
    ensures
        0 <= b * bs < n,
        0 <= b * bb,
        b * bb + bb <= n_blocks * bb,
{
}

proof fn lemma_div_in_block(g: int, b: int, bs: int)
    requires
        bs >= 1,
        b * bs <= g < b * bs + bs,
    ensures
        g / bs == b,
        g % bs == g - b * bs,
{
    vstd::arithmetic::div_mod::lemma_fundamental_div_mod_converse(g, bs, b, g - b * bs);
}

/// Decodes single-precision elements.
fn dequant_f32(raw: &[u8], n: usize) -> (r: Result<Vec<Weight>, GgufError>)
    requires
        n <= usize::MAX / 4,
    ensures
        decoded_wide(raw@, n as nat, r),
{
    if raw.len() < n * 4 {
        return Err(GgufError::BufferTooSmall { needed: n * 4, got: raw.len() });
    }
    let mut out: Vec<Weight> = Vec::new();
    let mut i: usize = 0;
    while i < n
        invariant
            i <= n,
            n <= usize::MAX / 4,
            raw@.len() >= n * 4,
            out@ =~= Seq::new(i as nat, |g: int| plain(le32(raw@, 4 * g))),
        decreases n - i,
    {
        let p = 4 * i;
        let bits: u32 = raw[p] as u32 + 0x100 * raw[p + 1] as u32 + 0x1_0000 * raw[p + 2] as u32
            + 0x100_0000 * raw[p + 3] as u32;
        out.push(Weight { d: bits, dmin: 0, scale: 1, min: 0, q: 1, shift: 0 });
        i += 1;
    }
    Ok(out)
}

/// A 32-bit little-endian value.
pub open spec fn le32(s: Seq<u8>, at: int) -> u32 {
    (s[at] + 0x100 * s[at + 1] + 0x1_0000 * s[at + 2] + 0x100_0000 * s[at + 3]) as u32
}

/// What decoding `n` single-precision elements gives.
pub open spec fn decoded_wide(raw: Seq<u8>, n: nat, r: Result<Vec<Weight>, GgufError>) -> bool {
    match r {
        Ok(v) => raw.len() >= n * 4 && v@ == Seq::new(n, |g: int| plain(le32(raw, 4 * g))),
        Err(e) => raw.len() < n * 4 && e == GgufError::BufferTooSmall {
            needed: (n * 4) as usize,
            got: raw.len() as usize,
        },
    }
}

/// What decoding `n` elements of a type gives.
pub open spec fn dequantized(
    dtype: GgmlDType,
    raw: Seq<u8>,
    n: nat,
    r: Result<Vec<Weight>, GgufError>,
) -> bool {
    match dtype {
        GgmlDType::F32 => decoded_wide(raw, n, r),
        GgmlDType::F16 => floats::decoded_half(raw, n, r),
        GgmlDType::BF16 => floats::decoded_bf16(raw, n, r),
        GgmlDType::Q4_0 => decoded::<q4_0::Q4_0>(raw, n, r),
        GgmlDType::Q4_K => decoded::<q4_k::Q4K>(raw, n, r),
        GgmlDType::Q5_K => decoded::<q5_k::Q5K>(raw, n, r),
        GgmlDType::Q6_K => decoded::<q6_k::Q6K>(raw, n, r),
        GgmlDType::Q8_0 => decoded::<q8_0::Q8_0>(raw, n, r),
        GgmlDType::Q2_K => decoded::<q2_k::Q2K>(raw, n, r),
        GgmlDType::Q3_K => decoded::<q3_k::Q3K>(raw, n, r),
        GgmlDType::IQ2_XXS => decoded::<iq2_xxs::Iq2Xxs>(raw, n, r),
        t => r matches Err(GgufError::Dequant(m)) && m@
            == "dequantizacao nao implementada para "@ + t.spec_name(),
    }
}

/// Decodes `n` elements of type `dtype`.
pub fn dequantize(dtype: GgmlDType, raw: &[u8], n: usize) -> (r: Result<Vec<Weight>, GgufError>)
    requires
        n <= usize::MAX / 4,
    ensures
        dequantized(dtype, raw@, n as nat, r),
{
    match dtype {
        GgmlDType::F32 => dequant_f32(raw, n),
        GgmlDType::F16 => floats::dequant_f16(raw, n),
        GgmlDType::BF16 => floats::dequant_bf16(raw, n),
        GgmlDType::Q4_0 => q4_0::dequant(raw, n),
        GgmlDType::Q4_K => q4_k::dequant_q4k(raw, n),
        GgmlDType::Q5_K => q5_k::dequant_q5k(raw, n),
        GgmlDType::Q6_K => q6_k::dequant_q6k(raw, n),
        GgmlDType::Q8_0 => q8_0::dequant(raw, n),
        GgmlDType::Q2_K => q2_k::dequant_q2k(raw, n),
        GgmlDType::Q3_K => q3_k::dequant_q3k(raw, n),
        GgmlDType::IQ2_XXS => iq2_xxs::dequant(raw, n),
        t => {
            let mut m = "dequantizacao nao implementada para ".to_owned();
            m.append(t.name());
            Err(GgufError::Dequant(m))
        },
    }
}

/// In one block, elements and factors are those of the block.
pub proof fn lemma_one_block<F: BlockFormat>(block: Seq<u8>, i: int)
    requires
        block.len() == F::spec_bytes(),
        0 <= i < F::spec_elems(),
    ensures
        element::<F>(block, i) == weight_of::<F>(
            F::spec_terms(block, i),
            block_d::<F>(block),
            block_dmin::<F>(block),
        ),
{
    F::lemma_layout();
    vstd::arithmetic::div_mod::lemma_small_mod(i as nat, F::spec_elems());
    vstd::arithmetic::div_mod::lemma_basic_div(i, F::spec_elems() as int);
    let n = F::spec_bytes() as int;
    assert(0 * n == 0 && (0 + 1) * n == n) by (nonlinear_arith);
    assert(block_of::<F>(block, 0) =~= block);
}

/// Blocks are decoded one by one: behind whole blocks, elements are those of the rest alone,
/// and the rest changes nothing before it.
pub proof fn law_blocks_decode_apart<F: BlockFormat>(front: Seq<u8>, k: nat, rest: Seq<u8>, g: int)
    requires
        front.len() == k * F::spec_bytes(),
        0 <= g,
        (g / F::spec_elems() as int + 1) * F::spec_bytes() <= front.len() + rest.len(),
    ensures
        g < k * F::spec_elems() ==> element::<F>(front + rest, g) == element::<F>(front, g),
        g >= k * F::spec_elems() ==> element::<F>(front + rest, g) == element::<F>(
            rest,
            g - k * F::spec_elems(),
        ),
{
    F::lemma_layout();
    let e = F::spec_elems() as int;
    let n = F::spec_bytes() as int;
    let b = g / e;
    vstd::arithmetic::div_mod::lemma_fundamental_div_mod(g, e);
    vstd::arithmetic::div_mod::lemma_mod_bound(g, e);
    assert(0 <= b) by (nonlinear_arith)
        requires
            g >= 0,
            e >= 1,
            b == g / e,
    ;
    assert((b + 1) * n == b * n + n && 0 <= b * n) by (nonlinear_arith)
        requires
            b >= 0,
            n >= 0,
    ;
    if g < k * e {
        assert(b < k) by (nonlinear_arith)
            requires
                g < k * e,
                g == e * b + g % e,
                g % e >= 0,
                e >= 1,
        ;
        assert(b * n + n <= k * n) by (nonlinear_arith)
            requires
                b + 1 <= k,
                n >= 0,
        ;
        assert(block_of::<F>(front + rest, b) =~= block_of::<F>(front, b));
    } else {
        let h = g - k * e;
        assert(k * e == e * k) by (nonlinear_arith);
        assert(e * b + g % e - e * k == e * (b - k) + g % e) by (nonlinear_arith);
        vstd::arithmetic::div_mod::lemma_fundamental_div_mod_converse(h, e, b - k, g % e);
        assert(b >= k) by (nonlinear_arith)
            requires
                e * (b - k) + g % e >= 0,
                g % e < e,
                e >= 1,
        ;
        assert((b - k) * n == b * n - k * n && (b - k + 1) * n == b * n - k * n + n && (b - k) * n
            >= 0) by (nonlinear_arith)
            requires
                b >= k,
                n >= 0,
        ;
        assert(block_of::<F>(front + rest, b) =~= block_of::<F>(rest, b - k));
    }
}

/// As many blocks are needed as hold the elements, and no more.
pub proof fn law_blocks_hold<F: BlockFormat>(n: nat)
    ensures
        n <= blocks::<F>(n) * F::spec_elems() < n + F::spec_elems(),
{
    F::lemma_layout();
    let e = F::spec_elems() as int;
    let q = (n + e - 1) / e;
    vstd::arithmetic::div_mod::lemma_fundamental_div_mod(n + e - 1, e);
    vstd::arithmetic::div_mod::lemma_mod_bound(n + e - 1, e);
    assert(e * q == q * e) by (nonlinear_arith);
    assert(q >= 0) by (nonlinear_arith)
        requires
            e * q > n - e,
            e >= 1,
            n >= 0,
            e * q == q * e,
    ;
}

/// The halves, the crumbs and the bits of a byte make it up.
pub proof fn law_byte_parts(b: u8)
    ensures
        b == nibble(b, false) + 16 * nibble(b, true),
        b == crumb(b, 0) + 4 * crumb(b, 1) + 16 * crumb(b, 2) + 64 * crumb(b, 3),
        b == one_if(bit(b, 0)) + 2 * one_if(bit(b, 1)) + 4 * one_if(bit(b, 2)) + 8 * one_if(bit(b, 3))
            + 16 * one_if(bit(b, 4)) + 32 * one_if(bit(b, 5)) + 64 * one_if(bit(b, 6)) + 128 * one_if(
            bit(b, 7),
        ),
        0 <= nibble(b, false) < 16,
        0 <= nibble(b, true) < 16,
        forall|k: int| 0 <= #[trigger] crumb(b, k) < 4,
{
}

/// One where something holds, else zero.
pub open spec fn one_if(b: bool) -> int {
    if b {
        1
    } else {
        0
    }
}

/// A number of six bits in its four low bits and its two high ones.
pub proof fn lemma_six_bits(low: int, high: int)
    requires
        0 <= low < 16,
        0 <= high < 4,
    ensures
        (low + 16 * high) % 16 == low,
        (low + 16 * high) / 16 == high,
{
}

/// Decoding needs the bytes that the type says for the elements, and no more; it gives as many
/// elements as were asked for.
pub proof fn law_decoding_needs_nbytes(
    dtype: GgmlDType,
    raw: &[u8],
    n: usize,
    r: Result<Vec<Weight>, GgufError>,
)
    requires
        n <= usize::MAX / 4,
        call_ensures(dequantize, (dtype, raw, n), r),
        dtype is F32 || dtype is F16 || dtype is BF16 || dtype is Q4_0 || dtype is Q8_0 || dtype is Q2_K
            || dtype is Q3_K || dtype is Q4_K || dtype is Q5_K || dtype is Q6_K || dtype is IQ2_XXS,
    ensures
        r is Ok <==> raw@.len() >= dtype.spec_nbytes_for(n as nat),
        r matches Ok(v) ==> v@.len() == n,
        r is Err ==> r == Err::<Vec<Weight>, GgufError>(
            GgufError::BufferTooSmall {
                needed: dtype.spec_nbytes_for(n as nat) as usize,
                got: raw@.len() as usize,
            },
        ),
{
    let bs = dtype.spec_block_size();
    let m = n as nat;
    if bs == 1 {
        assert(dtype.blocks_for(m) == m);
    } else {
        assert(dtype.blocks_for(m) == (m + bs - 1) / bs as int);
    }
}

/// Plain numbers are decoded one by one: a single-precision one is its own four bytes, the lowest
/// first.
pub proof fn law_plain_numbers(
    raw: &[u8],
    n: usize,
    r: Result<Vec<Weight>, GgufError>,
    i: int,
)
    requires
        n <= usize::MAX / 4,
        call_ensures(dequantize, (GgmlDType::F32, raw, n), r),
        r is Ok,
        0 <= i < n,
    ensures
        ({
            let w = r->Ok_0@[i];
            &&& w.d == raw@[4 * i] + 0x100 * raw@[4 * i + 1] + 0x1_0000 * raw@[4 * i + 2]
                + 0x100_0000 * raw@[4 * i + 3]
            &&& w == plain(w.d)
        }),
{
}

/// Half-precision numbers are decoded one by one, two bytes each, the lowest first, to the
/// single-precision numbers that they are.
pub proof fn law_half_numbers(
    raw: &[u8],
    n: usize,
    r: Result<Vec<Weight>, GgufError>,
    i: int,
    wide: u32,
)
    requires
        n <= usize::MAX / 4,
        call_ensures(dequantize, (GgmlDType::F16, raw, n), r),
        r is Ok,
        0 <= i < n,
        call_ensures(
            f16_to_f32_bits,
            ((raw@[2 * i] + 0x100 * raw@[2 * i + 1]) as u16,),
            wide,
        ),
    ensures
        r->Ok_0@[i] == plain(wide),
{
}

/// Numbers of the upper half of a single-precision one are decoded one by one, two bytes each.
pub proof fn law_bf16_numbers(raw: &[u8], n: usize, r: Result<Vec<Weight>, GgufError>, i: int)
    requires
        n <= usize::MAX / 4,
        call_ensures(dequantize, (GgmlDType::BF16, raw, n), r),
        r is Ok,
        0 <= i < n,
        raw@[2 * i + 1] as int % 128 * 256 + raw@[2 * i] <= 0x7f80,
    ensures
        r->Ok_0@[i] == plain((0x1_0000 * raw@[2 * i] + 0x100_0000 * raw@[2 * i + 1]) as u32),
{
}

} // verus!
