//! Fused matrix-vector product with Q6_K weights.

use vstd::prelude::*;

use crate::halves::f16_to_f32_bits;
use crate::quant::block_of;
use crate::quant::element;
use crate::quant::le16;
use crate::quant::q6_k::Q6K;
use crate::quant::read_le16;
use crate::quant::BlockFormat;
use crate::quant::Weight;

verus! {

/// The single-precision pattern that a block's factor is read as: sign, exponent rebiased,
/// fraction widened. The zero exponent has a pattern of its own.
pub open spec fn factor_bits(v: u16) -> u32 {
    let sign = (v / 0x8000) as int;
    let exp = ((v / 0x400) % 0x20) as int;
    let mant = (v % 0x400) as int;
    if exp == 0 {
        (0xF880_0000 + mant * 0x2000) as u32
    } else {
        (sign * 0x8000_0000 + (exp + 112) * 0x80_0000 + mant * 0x2000) as u32
    }
}

/// Widens the pattern of a block's factor.
pub fn f16_to_f32_raw(v: u16) -> (r: u32)
    ensures
        r == factor_bits(v),
{
    let sign: u32 = (v / 0x8000) as u32;
    let exp: u32 = ((v / 0x400) % 0x20) as u32;
    let mant: u32 = (v % 0x400) as u32;
    if exp == 0 {
        0xF880_0000 + mant * 0x2000
    } else {
        sign * 0x8000_0000 + (exp + 112) * 0x80_0000 + mant * 0x2000
    }
}

/// Element `i` of a block.
pub open spec fn factor_weight(block: Seq<u8>, i: int) -> Weight {
    let t = Q6K::spec_terms(block, i);
    Weight {
        d: factor_bits(le16(block, 208)),
        dmin: 0,
        scale: t.scale,
        min: t.min,
        q: t.q,
        shift: 0,
    }
}

/// The weights of row `row`, in order.
pub open spec fn row_of(w: Seq<u8>, row: int, n_blocks: int) -> Seq<Weight> {
    Seq::new(
        (n_blocks * 256) as nat,
        |j: int| factor_weight(block_of::<Q6K>(w, row * n_blocks + j / 256), j % 256),
    )
}

proof fn lemma_row_block(row: int, n_rows: int, blk: int, n_blocks: int, len: int)
    by (nonlinear_arith)
    requires
        0 <= row < n_rows,
        0 <= blk < n_blocks,
        len >= n_rows * n_blocks * 210,
    ensures
        0 <= row * n_blocks <= len,
        row * n_blocks + blk <= len,
        row * n_blocks + blk + 1 <= n_rows * n_blocks,
        (row * n_blocks + blk) * 210 + 210 <= len,
        (row * n_blocks + blk + 1) * 210 == (row * n_blocks + blk) * 210 + 210,
        0 <= (row * n_blocks + blk) * 210,
{
}

/// The weights of one row, in order: the row's entry of the product with a vector is the
/// sum of their products with its entries.
pub fn fused_gemv_q6k(raw: &[u8], row: usize, n_rows: usize, n_cols: usize) -> (r: Vec<Weight>)
    requires
        row < n_rows,
        raw@.len() >= n_rows * (n_cols / 256) * 210,
    ensures
        r@ == row_of(raw@, row as int, n_cols as int / 256),
{
    let n_blocks: usize = n_cols / 256;
    let len: usize = raw.len();
    let mut out: Vec<Weight> = Vec::new();
    let ghost all = row_of(raw@, row as int, n_blocks as int);
    let mut blk: usize = 0;
    while blk < n_blocks
        invariant
            blk <= n_blocks,
            row < n_rows,
            n_blocks == n_cols / 256,
            len == raw@.len(),
            raw@.len() >= n_rows * n_blocks * 210,
            all == row_of(raw@, row as int, n_blocks as int),
            out@ =~= all.take(blk * 256),
        decreases n_blocks - blk,
    {
        proof {
            lemma_row_block(
                row as int,
                n_rows as int,
                blk as int,
                n_blocks as int,
                raw@.len() as int,
            );
        }
        let base = (row * n_blocks + blk) * 210;
        let block = vstd::slice::slice_subrange(raw, base, base + 210);
        assert(block@ =~= block_of::<Q6K>(raw@, row * n_blocks + blk));
        let d: u32 = f16_to_f32_raw(read_le16(block, 208));
        let mut i: usize = 0;
        while i < 256
            invariant
                i <= 256,
                blk < n_blocks,
                block@.len() == 210,
                all == row_of(raw@, row as int, n_blocks as int),
                block@ == block_of::<Q6K>(raw@, row * n_blocks + blk),
                d == factor_bits(le16(block@, 208)),
                out@ =~= all.take(blk * 256 + i),
            decreases 256 - i,
        {
            let t = Q6K::terms(block, i);
            out.push(Weight { d, dmin: 0, scale: t.scale, min: t.min, q: t.q, shift: 0 });
            assert(all[blk * 256 + i] == factor_weight(block@, i as int)) by {
                assert((blk * 256 + i) / 256 == blk);
                assert((blk * 256 + i) % 256 == i);
            }
            i += 1;
        }
        blk += 1;
    }
    assert(all.take(blk * 256) =~= all);
    out
}

/// The weights of a row are those that decoding the matrix gives, in order, where the factor of
/// their block is a normal number.
pub proof fn law_row_is_decoded(
    raw: &[u8],
    row: usize,
    n_rows: usize,
    n_cols: usize,
    r: Vec<Weight>,
    j: int,
)
    requires
        row < n_rows,
        n_cols % 256 == 0,
        raw@.len() >= n_rows * (n_cols / 256) * 210,
        call_ensures(fused_gemv_q6k, (raw, row, n_rows, n_cols), r),
        0 <= j < n_cols,
    ensures
        r@.len() == n_cols,
        ({
            let w = element::<Q6K>(raw@, row * n_cols + j);
            let v = r@[j];
            let h = le16(block_of::<Q6K>(raw@, (row * n_cols + j) / 256), 208);
            &&& v.q == w.q && v.scale == w.scale && v.min == 0 && v.dmin == 0 && v.shift == 0
            &&& 1 <= (h / 0x400) % 0x20 < 0x1f ==> v == w
        }),
{
    let nb = n_cols as int / 256;
    let at = row * n_cols + j;
    assert(row * n_cols == (row * nb) * 256) by (nonlinear_arith)
        requires
            n_cols == nb * 256,
    ;
    vstd::arithmetic::div_mod::lemma_fundamental_div_mod_converse(
        at,
        256,
        row * nb + j / 256,
        j % 256,
    );
}

/// A normal factor is widened to the number that it is.
pub proof fn law_factor_exact(v: u16, r: u32, wide: u32)
    requires
        call_ensures(f16_to_f32_raw, (v,), r),
        call_ensures(f16_to_f32_bits, (v,), wide),
        1 <= (v / 0x400) % 0x20 < 0x1f,
    ensures
        r == wide,
{
}

} // verus!
