//! Fused matrix-vector product with Q4_K weights.
//!
//! For each row `i` of the weight matrix, `out[i] = sum over j of W[i, j] * x[j]`. The
//! vector is quantized to signed bytes; within a sub-block of 32 weights the scale and
//! the minimum are constant, so the product needs two integers of it: the sum of
//! `q * x`, and the sum of `x` for the minimum.

use vstd::prelude::*;

use crate::gguf::error::GgufError;
use crate::halves::f16_to_f32_bits;
use crate::quant::block_d;
use crate::quant::block_dmin;
use crate::quant::block_of;
use crate::quant::element;
use crate::quant::q4_k::dequant_q4k;
use crate::quant::q4_k::packed_min;
use crate::quant::q4_k::packed_scale;
use crate::quant::q4_k::unpack_scales;
use crate::quant::q4_k::Q4K;
use crate::quant::read_le16;
use crate::quant::BlockFormat;
use crate::quant::Weight;
use crate::sums::lemma_total_groups;
use crate::sums::lemma_total_same;
use crate::sums::total;

verus! {

/// The 8 scales and the 8 minima of the 12 packed bytes.
pub fn unpack_scales_q4k(sc: &[u8]) -> (r: ([u8; 8], [u8; 8]))
    requires
        sc@.len() >= 12,
    ensures
        forall|j: int| 0 <= j < 8 ==> #[trigger] r.0@[j] == packed_scale(sc@, j),
        forall|j: int| 0 <= j < 8 ==> #[trigger] r.1@[j] == packed_min(sc@, j),
{
    unpack_scales(sc)
}

/// The operands of a product fit together: whole blocks in a row, all rows there.
pub open spec fn shapes_fit(w: nat, x: nat, out: nat, n_rows: nat, n_cols: nat) -> bool {
    &&& n_cols % 256 == 0
    &&& w == n_rows * (n_cols / 256) * 144
    &&& x == n_cols
    &&& out >= n_rows
}

/// Whether the operands of a product fit together.
pub fn shapes_match(w: usize, x: usize, out: usize, n_rows: usize, n_cols: usize) -> (r: bool)
    ensures
        r == shapes_fit(w as nat, x as nat, out as nat, n_rows as nat, n_cols as nat),
{
    if n_cols % 256 != 0 || x != n_cols || out < n_rows {
        return false;
    }
    let per_row: u128 = (n_cols / 256) as u128 * 144;
    assert(0 <= n_rows * per_row <= 0xFFFF_FFFF_FFFF_FFFF * 0xFFFF_FFFF_FFFF_FFFF)
        by (nonlinear_arith)
        requires
            n_rows <= 0xFFFF_FFFF_FFFF_FFFF,
            per_row <= 0xFFFF_FFFF_FFFF_FFFF,
    ;
    assert(n_rows * per_row == n_rows * (n_cols / 256) * 144) by (nonlinear_arith)
        requires
            per_row == (n_cols / 256) * 144,
    ;
    w as u128 == n_rows as u128 * per_row
}

/// The weights of row `row`, in order.
pub open spec fn row_of(w: Seq<u8>, row: int, n_blocks: int) -> Seq<Weight> {
    Seq::new((n_blocks * 256) as nat, |j: int| element::<Q4K>(w, row * n_blocks * 256 + j))
}

/// Sum of `q * x` over the first `n` elements of sub-block `sb`.
pub open spec fn dot_upto(block: Seq<u8>, x: Seq<i8>, sb: int, n: nat) -> int
    decreases n,
{
    if n == 0 {
        0
    } else {
        dot_upto(block, x, sb, (n - 1) as nat) + Q4K::spec_terms(block, sb * 32 + n - 1).q
            * x[sb * 32 + n - 1]
    }
}

/// Sum of the first `n` entries of `x` in sub-block `sb`.
pub open spec fn sum_upto(x: Seq<i8>, sb: int, n: nat) -> int
    decreases n,
{
    if n == 0 {
        0
    } else {
        sum_upto(x, sb, (n - 1) as nat) + x[sb * 32 + n - 1]
    }
}

/// What a sub-block adds to a product: `d * scale * dot - dmin * min * sum`, where `d` and
/// `dmin` are single-precision bit patterns.
#[derive(Clone, Copy, Debug, PartialEq, Eq, Structural)]
pub struct SubDot {
    pub d: u32,
    pub dmin: u32,
    pub scale: u8,
    pub min: u8,
    pub dot: i32,
    pub sum: i32,
}

/// The contribution of sub-block `sb` of a block, for the 256 entries of `x` at it.
pub open spec fn sub_dot(block: Seq<u8>, x: Seq<i8>, sb: int) -> SubDot {
    SubDot {
        d: block_d::<Q4K>(block),
        dmin: block_dmin::<Q4K>(block),
        scale: packed_scale(block.subrange(4, 16), sb) as u8,
        min: packed_min(block.subrange(4, 16), sb) as u8,
        dot: dot_upto(block, x, sb, 32) as i32,
        sum: sum_upto(x, sb, 32) as i32,
    }
}

/// The contributions to row `row`, block by block and sub-block by sub-block.
pub open spec fn row_dots(w: Seq<u8>, x: Seq<i8>, row: int, n_blocks: int) -> Seq<SubDot> {
    Seq::new(
        (n_blocks * 8) as nat,
        |k: int|
            sub_dot(
                block_of::<Q4K>(w, row * n_blocks + k / 8),
                x.subrange(k / 8 * 256, k / 8 * 256 + 256),
                k % 8,
            ),
    )
}

/// The contributions to each row.
pub open spec fn product_dots(w: Seq<u8>, x: Seq<i8>, n_rows: nat, n_cols: nat) -> Seq<
    Seq<SubDot>,
> {
    Seq::new(n_rows, |row: int| row_dots(w, x, row, n_cols as int / 256))
}

/// The contents of the rows.
pub open spec fn contents(v: Seq<Vec<SubDot>>) -> Seq<Seq<SubDot>> {
    v.map_values(|r: Vec<SubDot>| r@)
}

/// The contribution of one sub-block.
fn sub_block(block: &[u8], x: &[i8], sb: usize) -> (r: SubDot)
    requires
        block@.len() == 144,
        x@.len() == 256,
        sb < 8,
    ensures
        r == sub_dot(block@, x@, sb as int),
        -61440 <= r.dot <= 61440,
        -4096 <= r.sum <= 4096,
{
    let mut dot: i32 = 0;
    let mut sum: i32 = 0;
    let mut i: usize = 0;
    while i < 32
        invariant
            i <= 32,
            sb < 8,
            block@.len() == 144,
            x@.len() == 256,
            dot == dot_upto(block@, x@, sb as int, i as nat),
            sum == sum_upto(x@, sb as int, i as nat),
            -1920 * i <= dot <= 1920 * i,
            -128 * i <= sum <= 128 * i,
        decreases 32 - i,
    {
        let t = Q4K::terms(block, sb * 32 + i);
        let v: i8 = x[sb * 32 + i];
        let q: i16 = t.q;
        assert(0 <= q <= 15);
        assert(-1920 <= q * v <= 1920) by (nonlinear_arith)
            requires
                0 <= q <= 15,
                -128 <= v <= 127,
        ;
        dot = dot + q as i32 * v as i32;
        sum = sum + v as i32;
        i += 1;
    }
    let sc = vstd::slice::slice_subrange(block, 4, 16);
    let (scales, mins) = unpack_scales_q4k(sc);
    let ghost _ = scales@[sb as int];
    let ghost _ = mins@[sb as int];
    SubDot {
        d: f16_to_f32_bits(read_le16(block, 0)),
        dmin: f16_to_f32_bits(read_le16(block, 2)),
        scale: scales[sb],
        min: mins[sb],
        dot,
        sum,
    }
}

proof fn lemma_row_block(row: int, n_rows: int, blk: int, n_blocks: int, len: int)
    by (nonlinear_arith)
    requires
        0 <= row < n_rows,
        0 <= blk < n_blocks,
        len >= n_rows * n_blocks * 144,
    ensures
        0 <= row * n_blocks <= len,
        row * n_blocks + blk <= len,
        row * n_blocks + blk + 1 <= n_rows * n_blocks,
        (row * n_blocks + blk) * 144 + 144 <= len,
        (row * n_blocks + blk + 1) * 144 == (row * n_blocks + blk) * 144 + 144,
        0 <= (row * n_blocks + blk) * 144,
{
}

/// The contributions to one row.
fn gemv_row(w_raw: &[u8], x: &[i8], row: usize, n_rows: usize, n_cols: usize) -> (r: Vec<SubDot>)
    requires
        row < n_rows,
        n_cols % 256 == 0,
        w_raw@.len() >= n_rows * (n_cols / 256) * 144,
        x@.len() >= n_cols,
    ensures
        r@ == row_dots(w_raw@, x@, row as int, n_cols as int / 256),
{
    let n_blocks: usize = n_cols / 256;
    let len: usize = w_raw.len();
    let mut out: Vec<SubDot> = Vec::new();
    let ghost all = row_dots(w_raw@, x@, row as int, n_blocks as int);
    let mut blk: usize = 0;
    while blk < n_blocks
        invariant
            blk <= n_blocks,
            row < n_rows,
            n_blocks == n_cols / 256,
            len == w_raw@.len(),
            n_cols % 256 == 0,
            w_raw@.len() >= n_rows * n_blocks * 144,
            x@.len() >= n_cols,
            all == row_dots(w_raw@, x@, row as int, n_blocks as int),
            out@ =~= all.take(blk * 8),
        decreases n_blocks - blk,
    {
        proof {
            lemma_row_block(
                row as int,
                n_rows as int,
                blk as int,
                n_blocks as int,
                w_raw@.len() as int,
            );
        }
        let base = (row * n_blocks + blk) * 144;
        let block = vstd::slice::slice_subrange(w_raw, base, base + 144);
        let xs = vstd::slice::slice_subrange(x, blk * 256, blk * 256 + 256);
        assert(block@ =~= block_of::<Q4K>(w_raw@, row * n_blocks + blk));
        let mut sb: usize = 0;
        while sb < 8
            invariant
                sb <= 8,
                blk < n_blocks,
                block@.len() == 144,
                xs@.len() == 256,
                all == row_dots(w_raw@, x@, row as int, n_blocks as int),
                block@ == block_of::<Q4K>(w_raw@, row * n_blocks + blk),
                xs@ == x@.subrange(blk * 256, blk * 256 + 256),
                out@ =~= all.take(blk * 8 + sb),
            decreases 8 - sb,
        {
            out.push(sub_block(block, xs, sb));
            assert(all[blk * 8 + sb] == sub_dot(block@, xs@, sb as int)) by {
                assert((blk * 8 + sb) / 8 == blk);
                assert((blk * 8 + sb) % 8 == sb);
            }
            sb += 1;
        }
        blk += 1;
    }
    assert(all.take(blk * 8) =~= all);
    out
}

/// The contributions to each row, where more than the rows may be there.
fn gemv_rows(w_raw: &[u8], x: &[i8], n_rows: usize, n_cols: usize) -> (r: Vec<Vec<SubDot>>)
    requires
        n_cols % 256 == 0,
        w_raw@.len() >= n_rows * (n_cols / 256) * 144,
        x@.len() >= n_cols,
    ensures
        contents(r@) == product_dots(w_raw@, x@, n_rows as nat, n_cols as nat),
{
    let mut out: Vec<Vec<SubDot>> = Vec::new();
    let mut row: usize = 0;
    while row < n_rows
        invariant
            row <= n_rows,
            n_cols % 256 == 0,
            w_raw@.len() >= n_rows * (n_cols / 256) * 144,
            x@.len() >= n_cols,
            contents(out@) =~= product_dots(w_raw@, x@, row as nat, n_cols as nat),
        decreases n_rows - row,
    {
        let r = gemv_row(w_raw, x, row, n_rows, n_cols);
        let ghost before = out@;
        out.push(r);
        assert(contents(out@) =~= contents(before).push(r@));
        row += 1;
    }
    out
}

/// The integer side of the product of a matrix and a quantized vector.
pub fn fused_gemv_q4k(w_raw: &[u8], x: &[i8], n_rows: usize, n_cols: usize) -> (r: Vec<
    Vec<SubDot>,
>)
    requires
        n_cols % 256 == 0,
        w_raw@.len() == n_rows * (n_cols / 256) * 144,
        x@.len() == n_cols,
    ensures
        contents(r@) == product_dots(w_raw@, x@, n_rows as nat, n_cols as nat),
{
    gemv_rows(w_raw, x, n_rows, n_cols)
}

/// The contents of the rows of several products.
pub open spec fn all_contents(v: Seq<Vec<Vec<SubDot>>>) -> Seq<Seq<Seq<SubDot>>> {
    v.map_values(|r: Vec<Vec<SubDot>>| contents(r@))
}

/// The integer side of the products of several matrices and one vector.
pub fn fused_gemv_q4k_multi(raws: &Vec<&[u8]>, x: &[i8], row_counts: &Vec<usize>, n_cols: usize)
    -> (r: Vec<Vec<Vec<SubDot>>>)
    requires
        n_cols % 256 == 0,
        x@.len() >= n_cols,
        raws@.len() == row_counts@.len(),
        forall|m: int|
            0 <= m < raws@.len() ==> (#[trigger] raws@[m])@.len() >= row_counts@[m] * (n_cols
                / 256) * 144,
    ensures
        all_contents(r@) == Seq::new(
            raws@.len(),
            |m: int| product_dots(raws@[m]@, x@, row_counts@[m] as nat, n_cols as nat),
        ),
{
    let mut out: Vec<Vec<Vec<SubDot>>> = Vec::new();
    let mut m: usize = 0;
    while m < raws.len()
        invariant
            m <= raws@.len(),
            n_cols % 256 == 0,
            x@.len() >= n_cols,
            raws@.len() == row_counts@.len(),
            forall|m: int|
                0 <= m < raws@.len() ==> (#[trigger] raws@[m])@.len() >= row_counts@[m] * (n_cols
                    / 256) * 144,
            all_contents(out@) =~= Seq::new(
                m as nat,
                |m: int| product_dots(raws@[m]@, x@, row_counts@[m] as nat, n_cols as nat),
            ),
        decreases raws@.len() - m,
    {
        let ghost _ = raws@[m as int];
        let r = gemv_rows(raws[m], x, row_counts[m], n_cols);
        let ghost before = out@;
        out.push(r);
        assert(all_contents(out@) =~= all_contents(before).push(contents(r@)));
        m += 1;
    }
    out
}

/// The integer side of the products of one matrix and a batch of vectors.
pub fn fused_gemv_q4k_batched(w_raw: &[u8], xs: &Vec<&[i8]>, n_rows: usize, n_cols: usize) -> (r:
    Vec<Vec<Vec<SubDot>>>)
    requires
        n_cols % 256 == 0,
        w_raw@.len() >= n_rows * (n_cols / 256) * 144,
        forall|t: int| 0 <= t < xs@.len() ==> (#[trigger] xs@[t])@.len() >= n_cols,
    ensures
        all_contents(r@) == Seq::new(
            xs@.len(),
            |t: int| product_dots(w_raw@, xs@[t]@, n_rows as nat, n_cols as nat),
        ),
{
    let mut out: Vec<Vec<Vec<SubDot>>> = Vec::new();
    let mut t: usize = 0;
    while t < xs.len()
        invariant
            t <= xs@.len(),
            n_cols % 256 == 0,
            w_raw@.len() >= n_rows * (n_cols / 256) * 144,
            forall|t: int| 0 <= t < xs@.len() ==> (#[trigger] xs@[t])@.len() >= n_cols,
            all_contents(out@) =~= Seq::new(
                t as nat,
                |t: int| product_dots(w_raw@, xs@[t]@, n_rows as nat, n_cols as nat),
            ),
        decreases xs@.len() - t,
    {
        let ghost _ = xs@[t as int];
        let r = gemv_rows(w_raw, xs[t], n_rows, n_cols);
        let ghost before = out@;
        out.push(r);
        assert(all_contents(out@) =~= all_contents(before).push(contents(r@)));
        t += 1;
    }
    out
}

/// The weights of one row, in order.
pub fn row_weights(w_raw: &[u8], row: usize, n_rows: usize, n_cols: usize) -> (r: Vec<Weight>)
    requires
        row < n_rows,
        n_cols % 256 == 0,
        w_raw@.len() >= n_rows * (n_cols / 256) * 144,
    ensures
        r@ == row_of(w_raw@, row as int, n_cols as int / 256),
{
    let n_blocks: usize = n_cols / 256;
    let len: usize = w_raw.len();
    let mut out: Vec<Weight> = Vec::new();
    let ghost all = row_of(w_raw@, row as int, n_blocks as int);
    let mut blk: usize = 0;
    while blk < n_blocks
        invariant
            blk <= n_blocks,
            row < n_rows,
            n_blocks == n_cols / 256,
            len == w_raw@.len(),
            n_cols % 256 == 0,
            w_raw@.len() >= n_rows * n_blocks * 144,
            all == row_of(w_raw@, row as int, n_blocks as int),
            out@ =~= all.take(blk * 256),
        decreases n_blocks - blk,
    {
        proof {
            lemma_row_block(
                row as int,
                n_rows as int,
                blk as int,
                n_blocks as int,
                w_raw@.len() as int,
            );
        }
        let base = (row * n_blocks + blk) * 144;
        let block = vstd::slice::slice_subrange(w_raw, base, base + 144);
        assert(block@ =~= block_of::<Q4K>(w_raw@, row * n_blocks + blk));
        let d: u32 = f16_to_f32_bits(read_le16(block, 0));
        let dmin: u32 = f16_to_f32_bits(read_le16(block, 2));
        let mut i: usize = 0;
        while i < 256
            invariant
                i <= 256,
                blk < n_blocks,
                block@.len() == 144,
                all == row_of(w_raw@, row as int, n_blocks as int),
                block@ == block_of::<Q4K>(w_raw@, row * n_blocks + blk),
                d == block_d::<Q4K>(block@),
                dmin == block_dmin::<Q4K>(block@),
                out@ =~= all.take(blk * 256 + i),
            decreases 256 - i,
        {
            let t = Q4K::terms(block, i);
            out.push(Weight { d, dmin, scale: t.scale, min: t.min, q: t.q, shift: 0 });
            proof {
                let g = row * n_blocks * 256 + blk * 256 + i;
                assert(g == (row * n_blocks + blk) * 256 + i) by (nonlinear_arith)
                    requires
                        g == row * n_blocks * 256 + blk * 256 + i,
                ;
                vstd::arithmetic::div_mod::lemma_fundamental_div_mod_converse(
                    g,
                    256,
                    row * n_blocks + blk,
                    i as int,
                );
                assert(all[blk * 256 + i] == element::<Q4K>(w_raw@, g));
            }
            i += 1;
        }
        blk += 1;
    }
    assert(all.take(blk * 256) =~= all);
    out
}

/// Sum over the first `n` elements of sub-block `sb` of `(d * scale * q - dmin * min) * x`.
pub open spec fn product_upto(
    block: Seq<u8>,
    x: Seq<i8>,
    sb: int,
    n: nat,
    d: int,
    dmin: int,
) -> int
    decreases n,
{
    if n == 0 {
        0
    } else {
        let t = Q4K::spec_terms(block, sb * 32 + n - 1);
        product_upto(block, x, sb, (n - 1) as nat, d, dmin) + (d * t.scale * t.q - dmin * t.min)
            * x[sb * 32 + n - 1]
    }
}

/// The two integer sums of a sub-block give the sub-block's part of the product of the
/// weights and the vector, whatever the factors `d` and `dmin` are.
pub proof fn law_sub_dot_is_product(block: Seq<u8>, x: Seq<i8>, sb: int, d: int, dmin: int)
    requires
        block.len() == 144,
        x.len() == 256,
        0 <= sb < 8,
    ensures
        product_upto(block, x, sb, 32, d, dmin) == d * sub_dot(block, x, sb).scale * sub_dot(
            block,
            x,
            sb,
        ).dot - dmin * sub_dot(block, x, sb).min * sub_dot(block, x, sb).sum,
{
    lemma_product_upto(block, x, sb, 32, d, dmin);
    lemma_dot_bounds(block, x, sb, 32);
}

proof fn lemma_dot_bounds(block: Seq<u8>, x: Seq<i8>, sb: int, n: nat)
    requires
        block.len() == 144,
        x.len() == 256,
        0 <= sb < 8,
        n <= 32,
    ensures
        -1920 * n <= dot_upto(block, x, sb, n) <= 1920 * n,
        -128 * n <= sum_upto(x, sb, n) <= 128 * n,
    decreases n,
{
    if n > 0 {
        lemma_dot_bounds(block, x, sb, (n - 1) as nat);
        let q = Q4K::spec_terms(block, sb * 32 + n - 1).q;
        let v = x[sb * 32 + n - 1];
        assert(0 <= q <= 15);
        assert(-1920 <= q * v <= 1920) by (nonlinear_arith)
            requires
                0 <= q <= 15,
                -128 <= v <= 127,
        ;
    }
}

proof fn lemma_product_upto(block: Seq<u8>, x: Seq<i8>, sb: int, n: nat, d: int, dmin: int)
    requires
        block.len() == 144,
        x.len() == 256,
        0 <= sb < 8,
        n <= 32,
    ensures
        product_upto(block, x, sb, n, d, dmin) == d * packed_scale(block.subrange(4, 16), sb)
            * dot_upto(block, x, sb, n) - dmin * packed_min(block.subrange(4, 16), sb) * sum_upto(
            x,
            sb,
            n,
        ),
    decreases n,
{
    let s = packed_scale(block.subrange(4, 16), sb);
    let m = packed_min(block.subrange(4, 16), sb);
    if n > 0 {
        lemma_product_upto(block, x, sb, (n - 1) as nat, d, dmin);
        let i = sb * 32 + n - 1;
        let t = Q4K::spec_terms(block, i);
        assert(i / 32 == sb);
        crate::quant::q4_k::law_packed_six_bits(block.subrange(4, 16), sb);
        assert(t.scale == s);
        assert(t.min == m);
        let a = dot_upto(block, x, sb, (n - 1) as nat);
        let b = sum_upto(x, sb, (n - 1) as nat);
        let q = t.q as int;
        let v = x[i] as int;
        assert(d * s * a - dmin * m * b + (d * s * q - dmin * m) * v == d * s * (a + q * v) - dmin
            * m * (b + v)) by (nonlinear_arith);
    } else {
        assert(d * s * 0 - dmin * m * 0 == 0) by (nonlinear_arith);
    }
}

/// A batch of one vector gives what the vector alone gives.
pub proof fn law_batch_of_one(w: Seq<u8>, x: Seq<i8>, n_rows: nat, n_cols: nat)
    ensures
        Seq::new(1, |t: int| product_dots(w, seq![x][t], n_rows, n_cols)) == seq![
            product_dots(w, x, n_rows, n_cols),
        ],
{
    assert(Seq::new(1, |t: int| product_dots(w, seq![x][t], n_rows, n_cols)) =~= seq![
        product_dots(w, x, n_rows, n_cols),
    ]);
}

/// The number that a weight stands for, given the numbers that patterns stand for.
pub open spec fn weight_number(w: Weight, value: spec_fn(u32) -> int) -> int {
    value(w.d) * w.scale * w.q - value(w.dmin) * w.min
}

/// What a contribution adds, given the numbers that patterns stand for.
pub open spec fn added(s: SubDot, value: spec_fn(u32) -> int) -> int {
    value(s.d) * s.scale * s.dot - value(s.dmin) * s.min * s.sum
}

/// The contributions to a row add up to the product of the row and the vector: over all
/// columns, the weight that decoding gives there, times the vector's own entry.
pub proof fn law_row_is_product(
    w_raw: &[u8],
    x: &[i8],
    n_rows: usize,
    n_cols: usize,
    r: Vec<Vec<SubDot>>,
    row: int,
    value: spec_fn(u32) -> int,
)
    requires
        n_cols % 256 == 0,
        w_raw@.len() == n_rows * (n_cols / 256) * 144,
        x@.len() == n_cols,
        call_ensures(fused_gemv_q4k, (w_raw, x, n_rows, n_cols), r),
        0 <= row < n_rows,
    ensures
        r@.len() == n_rows,
        total(|k: int| added(r@[row]@[k], value), r@[row]@.len()) == total(
            |j: int| weight_number(element::<Q4K>(w_raw@, row * n_cols + j), value) * x@[j],
            n_cols as nat,
        ),
        forall|j: int|
            0 <= j < n_cols ==> (#[trigger] element::<Q4K>(w_raw@, row * n_cols + j)).shift == 0,
{
    let nb = n_cols as int / 256;
    let dots = row_dots(w_raw@, x@, row, nb);
    assert(r@.len() == contents(r@).len());
    assert(contents(r@)[row] == r@[row]@);
    assert(r@[row]@ == dots);
    let f = |j: int| weight_number(element::<Q4K>(w_raw@, row * n_cols + j), value) * x@[j];
    let g = |k: int| added(dots[k], value);
    assert forall|k: int| 0 <= k < nb * 8 implies #[trigger] g(k) == total(
        |i: int| f(k * 32 + i),
        32,
    ) by {
        lemma_sub_row(w_raw@, x@, n_rows as int, n_cols as int, row, k, value);
        let h = |i: int|
            weight_number(element::<Q4K>(w_raw@, row * n_cols + (k * 32 + i)), value) * x@[k * 32
                + i];
        lemma_total_same(|i: int| f(k * 32 + i), h, 32);
    }
    lemma_total_groups(f, g, 32, (nb * 8) as nat);
    assert((nb * 8) * 32 == n_cols);
    lemma_total_same(|k: int| added(r@[row]@[k], value), g, (nb * 8) as nat);
}

proof fn lemma_sub_row(
    w: Seq<u8>,
    x: Seq<i8>,
    n_rows: int,
    n_cols: int,
    row: int,
    k: int,
    value: spec_fn(u32) -> int,
)
    requires
        n_cols % 256 == 0,
        w.len() == n_rows * (n_cols / 256) * 144,
        x.len() == n_cols,
        0 <= row < n_rows,
        0 <= k < n_cols / 256 * 8,
    ensures
        added(row_dots(w, x, row, n_cols / 256)[k], value) == total(
            |i: int|
                weight_number(element::<Q4K>(w, row * n_cols + (k * 32 + i)), value) * x[k * 32
                    + i],
            32,
        ),
{
    let nb = n_cols / 256;
    let b = k / 8;
    let sb = k % 8;
    lemma_row_block(row, n_rows, b, nb, w.len() as int);
    let block = block_of::<Q4K>(w, row * nb + b);
    let xs = x.subrange(b * 256, b * 256 + 256);
    let d = value(block_d::<Q4K>(block));
    let dmin = value(block_dmin::<Q4K>(block));
    law_sub_dot_is_product(block, xs, sb, d, dmin);
    assert(row_dots(w, x, row, nb)[k] == sub_dot(block, xs, sb));
    let h = |i: int|
        weight_number(element::<Q4K>(w, row * n_cols + (k * 32 + i)), value) * x[k * 32 + i];
    assert forall|i: int| 0 <= i < 32 implies {
        let t = Q4K::spec_terms(block, sb * 32 + i);
        #[trigger] h(i) == (d * t.scale * t.q - dmin * t.min) * xs[sb * 32 + i]
    } by {
        let at = row * n_cols + (k * 32 + i);
        assert(row * n_cols == (row * nb) * 256) by (nonlinear_arith)
            requires
                n_cols == nb * 256,
        ;
        assert(at == (row * nb + b) * 256 + (sb * 32 + i));
        vstd::arithmetic::div_mod::lemma_fundamental_div_mod_converse(
            at,
            256,
            row * nb + b,
            sb * 32 + i,
        );
        assert(xs[sb * 32 + i] == x[k * 32 + i]);
    }
    lemma_product_total(block, xs, sb, 32, d, dmin, h);
}

proof fn lemma_product_total(
    block: Seq<u8>,
    x: Seq<i8>,
    sb: int,
    n: nat,
    d: int,
    dmin: int,
    h: spec_fn(int) -> int,
)
    requires
        n <= 32,
        forall|i: int|
            0 <= i < 32 ==> {
                let t = Q4K::spec_terms(block, sb * 32 + i);
                #[trigger] h(i) == (d * t.scale * t.q - dmin * t.min) * x[sb * 32 + i]
            },
    ensures
        product_upto(block, x, sb, n, d, dmin) == total(h, n),
    decreases n,
{
    if n > 0 {
        lemma_product_total(block, x, sb, (n - 1) as nat, d, dmin, h);
        assert(h(n - 1) == h((n - 1) as int));
    }
}

/// Several matrices with one vector: each product is the one that its matrix and the vector
/// give alone.
pub proof fn law_multi_is_each(
    raws: &Vec<&[u8]>,
    x: &[i8],
    row_counts: &Vec<usize>,
    n_cols: usize,
    r: Vec<Vec<Vec<SubDot>>>,
    m: int,
    alone: Vec<Vec<SubDot>>,
)
    requires
        raws@.len() == row_counts@.len(),
        0 <= m < raws@.len(),
        call_ensures(fused_gemv_q4k_multi, (raws, x, row_counts, n_cols), r),
        call_ensures(fused_gemv_q4k, (raws@[m], x, row_counts@[m], n_cols), alone),
    ensures
        r@.len() == raws@.len(),
        contents(r@[m]@) == contents(alone@),
{
    assert(all_contents(r@).len() == r@.len());
    assert(all_contents(r@)[m] == contents(r@[m]@));
}

/// One matrix with a batch of vectors: each product is the one that the matrix and its vector
/// give alone.
pub proof fn law_batched_is_each(
    w_raw: &[u8],
    xs: &Vec<&[i8]>,
    n_rows: usize,
    n_cols: usize,
    r: Vec<Vec<Vec<SubDot>>>,
    t: int,
    alone: Vec<Vec<SubDot>>,
)
    requires
        0 <= t < xs@.len(),
        call_ensures(fused_gemv_q4k_batched, (w_raw, xs, n_rows, n_cols), r),
        call_ensures(fused_gemv_q4k, (w_raw, xs@[t], n_rows, n_cols), alone),
    ensures
        r@.len() == xs@.len(),
        contents(r@[t]@) == contents(alone@),
{
    assert(all_contents(r@).len() == r@.len());
    assert(all_contents(r@)[t] == contents(r@[t]@));
}

/// The weights of a row are those that decoding the whole matrix gives, in order.
pub proof fn law_row_weights_are_decoded(
    w_raw: &[u8],
    row: usize,
    n_rows: usize,
    n_cols: usize,
    r: Vec<Weight>,
    all: Result<Vec<Weight>, GgufError>,
    j: int,
)
    requires
        row < n_rows,
        n_cols % 256 == 0,
        n_rows * n_cols <= usize::MAX,
        w_raw@.len() >= n_rows * (n_cols / 256) * 144,
        call_ensures(row_weights, (w_raw, row, n_rows, n_cols), r),
        call_ensures(dequant_q4k, (w_raw, (n_rows * n_cols) as usize), all),
        0 <= j < n_cols,
    ensures
        r@.len() == n_cols,
        all matches Ok(v) ==> r@[j] == v@[row * n_cols + j],
{
    let nb = n_cols as int / 256;
    assert(row * nb * 256 == row * n_cols) by (nonlinear_arith)
        requires
            n_cols == nb * 256,
    ;
    if let Ok(v) = all {
        assert(row * n_cols + j < n_rows * n_cols) by (nonlinear_arith)
            requires
                0 <= row < n_rows,
                0 <= j < n_cols,
        ;
        assert(0 <= row * n_cols) by (nonlinear_arith)
            requires
                row >= 0,
                n_cols >= 0,
        ;
        assert(v@[row * n_cols + j] == element::<Q4K>(w_raw@, row * n_cols + j));
    }
}

/// The shapes of a product match where the matrix has as many bytes as its rows take, the vector an
/// entry for each column, and the result room for each row.
pub proof fn law_shapes_by_bytes(
    w: usize,
    x: usize,
    out: usize,
    n_rows: usize,
    n_cols: usize,
    r: bool,
    row_bytes: usize,
)
    requires
        call_ensures(shapes_match, (w, x, out, n_rows, n_cols), r),
        call_ensures(
            crate::gguf::dtype::GgmlDType::nbytes_for,
            (&crate::gguf::dtype::GgmlDType::Q4_K, n_cols),
            row_bytes,
        ),
    ensures
        r <==> n_cols % 256 == 0 && w == n_rows * row_bytes && x == n_cols && out >= n_rows,
{
    if n_cols % 256 == 0 {
        let b = n_cols as int / 256;
        assert((n_cols + 255) / 256 == b);
        assert(row_bytes == b * 144);
        assert(n_rows * b * 144 == n_rows * (b * 144)) by (nonlinear_arith);
    }
}

} // verus!
