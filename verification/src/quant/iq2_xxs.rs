//! IQ2_XXS: blocks of 256 elements in 66 bytes.
//!
//! `d`, then 32 groups of two bytes for 8 elements: the index of a grid entry, and a byte
//! with a scale in its low half and four signs, each for two elements, in its high half.

use vstd::prelude::*;

use crate::gguf::error::GgufError;
use crate::halves::f16_widened;
use crate::quant::bit;
use crate::quant::element;
use crate::quant::lemma_one_block;
use crate::quant::le16;
use crate::quant::decode;
use crate::quant::decoded;
use crate::quant::get_bit;
use crate::quant::get_nibble;
use crate::quant::nibble;
use crate::quant::BlockFormat;
use crate::quant::Terms;
use crate::quant::Weight;

verus! {

/// The grid: an entry packs 8 values of 7 bits, one per byte.
pub const GRID: [u64; 256] = [
    0x0808080808080808, 0x080808080808082b, 0x0808080808082108, 0x080808080808212b,
    0x0808080808210808, 0x080808080821082b, 0x0808080808212108, 0x080808080821212b,
    0x0808080821080808, 0x080808082108082b, 0x0808080821082108, 0x080808082108212b,
    0x0808080821210808, 0x080808082121082b, 0x0808080821212108, 0x080808082121212b,
    0x0808082108080808, 0x080808210808082b, 0x0808082108082108, 0x080808210808212b,
    0x0808082108210808, 0x080808210821082b, 0x0808082108212108, 0x080808210821212b,
    0x0808082121080808, 0x080808212108082b, 0x0808082121082108, 0x080808212108212b,
    0x0808082121210808, 0x080808212121082b, 0x0808082121212108, 0x080808212121212b,
    0x0821080808080808, 0x082108080808082b, 0x0821080808082108, 0x082108080808212b,
    0x0821080808210808, 0x082108080821082b, 0x0821080808212108, 0x082108080821212b,
    0x0821080821080808, 0x082108082108082b, 0x0821080821082108, 0x082108082108212b,
    0x0821080821210808, 0x082108082121082b, 0x0821080821212108, 0x082108082121212b,
    0x0821082108080808, 0x082108210808082b, 0x0821082108082108, 0x082108210808212b,
    0x0821082108210808, 0x082108210821082b, 0x0821082108212108, 0x082108210821212b,
    0x0821082121080808, 0x082108212108082b, 0x0821082121082108, 0x082108212108212b,
    0x0821082121210808, 0x082108212121082b, 0x0821082121212108, 0x082108212121212b,
    0x2108080808080808, 0x210808080808082b, 0x2108080808082108, 0x210808080808212b,
    0x2108080808210808, 0x210808080821082b, 0x2108080808212108, 0x210808080821212b,
    0x2108080821080808, 0x210808082108082b, 0x2108080821082108, 0x210808082108212b,
    0x2108080821210808, 0x210808082121082b, 0x2108080821212108, 0x210808082121212b,
    0x2108082108080808, 0x210808210808082b, 0x2108082108082108, 0x210808210808212b,
    0x2108082108210808, 0x210808210821082b, 0x2108082108212108, 0x210808210821212b,
    0x2108082121080808, 0x210808212108082b, 0x2108082121082108, 0x210808212108212b,
    0x2108082121210808, 0x210808212121082b, 0x2108082121212108, 0x210808212121212b,
    0x2121080808080808, 0x212108080808082b, 0x2121080808082108, 0x212108080808212b,
    0x2121080808210808, 0x212108080821082b, 0x2121080808212108, 0x212108080821212b,
    0x2121080821080808, 0x212108082108082b, 0x2121080821082108, 0x212108082108212b,
    0x2121080821210808, 0x212108082121082b, 0x2121080821212108, 0x212108082121212b,
    0x2121082108080808, 0x212108210808082b, 0x2121082108082108, 0x212108210808212b,
    0x2121082108210808, 0x212108210821082b, 0x2121082108212108, 0x212108210821212b,
    0x2121082121080808, 0x212108212108082b, 0x2121082121082108, 0x212108212108212b,
    0x2121082121210808, 0x212108212121082b, 0x2121082121212108, 0x212108212121212b,
    0x2b08080808080808, 0x2b0808080808082b, 0x2b08080808082108, 0x2b0808080808212b,
    0x2b08080808210808, 0x2b0808080821082b, 0x2b08080808212108, 0x2b0808080821212b,
    0x2b08080821080808, 0x2b0808082108082b, 0x2b08080821082108, 0x2b0808082108212b,
    0x2b08080821210808, 0x2b0808082121082b, 0x2b08080821212108, 0x2b0808082121212b,
    0x2b08082108080808, 0x2b08082108082b08, 0x2b0808210808082b, 0x2b08082108210808,
    0x2b08082108212108, 0x2b08082121080808, 0x2b0808212108082b, 0x2b08082121082108,
    0x2b08082121210808, 0x2b08210808080808, 0x2b08210808082108, 0x2b08210808212108,
    0x2b08210821080808, 0x2b0821082108082b, 0x2b08210821082108, 0x2b08210821212108,
    0x2b08212108080808, 0x2b08212108082b08, 0x2b0821210808082b, 0x2b08212108210808,
    0x2b08212108212108, 0x2b08212121080808, 0x2b0821212108082b, 0x2b08212121082108,
    0x2b08212121210808, 0x2b21080808080808, 0x2b2108080808082b, 0x2b21080808082108,
    0x2b21080808210808, 0x2b21080808212108, 0x2b21080821080808, 0x2b2108082108082b,
    0x2b21080821082108, 0x2b21080821210808, 0x2b21080821212108, 0x2b21082108080808,
    0x2b2108210808082b, 0x2b21082108082108, 0x2b21082108210808, 0x2b21082108212108,
    0x2b21082121080808, 0x2b2108212108082b, 0x2b21082121082108, 0x2b21082121210808,
    0x2b21210808080808, 0x2b2121080808082b, 0x2b21210808082108, 0x2b21210808210808,
    0x2b21210808212108, 0x2b21210821080808, 0x2b2121082108082b, 0x2b21210821082108,
    0x2b21210821210808, 0x2b21212108080808, 0x2b2121210808082b, 0x2b21212108082108,
    0x2b21212108210808, 0x2b21212121080808, 0x2b21212121210808, 0x2b21212121212108,
    0x2b21212121212121, 0x2b21212121212b21, 0x2b212121212121ab, 0x2b2121212121ab21,
    0xab08080808080808, 0xab0808080808082b, 0xab08080808082108, 0xab0808080808212b,
    0xab08080808210808, 0xab0808080821082b, 0xab08080808212108, 0xab0808080821212b,
    0xab08080821080808, 0xab0808082108082b, 0xab08080821082108, 0xab0808082108212b,
    0xab08080821210808, 0xab0808082121082b, 0xab08080821212108, 0xab0808082121212b,
    0xab08082108080808, 0xab0808210808082b, 0xab08082108082108, 0xab0808210808212b,
    0xab08082108210808, 0xab0808210821082b, 0xab08082108212108, 0xab0808210821212b,
    0xab08082121080808, 0xab0808212108082b, 0xab08082121082108, 0xab0808212108212b,
    0xab08082121210808, 0xab0808212121082b, 0xab08082121212108, 0xab0808212121212b,
    0xab21080808080808, 0xab2108080808082b, 0xab21080808082108, 0xab2108080808212b,
    0xab21080808210808, 0xab2108080821082b, 0xab21080808212108, 0xab2108080821212b,
    0xab21080821080808, 0xab2108082108082b, 0xab21080821082108, 0xab2108082108212b,
    0xab21080821210808, 0xab2108082121082b, 0xab21080821212108, 0xab2108082121212b,
];

/// `2^(8 * j)`.
pub open spec fn byte_weight(j: int) -> int {
    if j == 0 {
        1
    } else if j == 1 {
        0x100
    } else if j == 2 {
        0x1_0000
    } else if j == 3 {
        0x100_0000
    } else if j == 4 {
        0x1_0000_0000
    } else if j == 5 {
        0x100_0000_0000
    } else if j == 6 {
        0x1_0000_0000_0000
    } else {
        0x100_0000_0000_0000
    }
}

/// Value `j` of grid entry `idx`.
pub open spec fn grid_value(idx: int, j: int) -> int {
    GRID@[idx] as int / byte_weight(j) % 0x80
}

fn get_grid_value(idx: u8, j: usize) -> (r: u8)
    requires
        j < 8,
    ensures
        r == grid_value(idx as int, j as int),
        r < 0x80,
{
    let entry: u64 = GRID[idx as usize];
    let shifted: u64 = if j == 0 {
        entry
    } else if j == 1 {
        entry / 0x100
    } else if j == 2 {
        entry / 0x1_0000
    } else if j == 3 {
        entry / 0x100_0000
    } else if j == 4 {
        entry / 0x1_0000_0000
    } else if j == 5 {
        entry / 0x100_0000_0000
    } else if j == 6 {
        entry / 0x1_0000_0000_0000
    } else {
        entry / 0x100_0000_0000_0000
    };
    (shifted % 0x80) as u8
}

/// The IQ2_XXS block format. Its scale is `2 * s + 1` eighths of `d`.
#[allow(non_camel_case_types)]
pub struct Iq2Xxs {}

impl BlockFormat for Iq2Xxs {
    open spec fn spec_elems() -> nat {
        256
    }

    open spec fn spec_bytes() -> nat {
        66
    }

    open spec fn spec_d_at() -> nat {
        0
    }

    open spec fn spec_dmin_at() -> Option<nat> {
        None
    }

    open spec fn spec_shift() -> u8 {
        3
    }

    open spec fn spec_terms(block: Seq<u8>, i: int) -> Terms {
        let g = i / 8;
        let s = block[3 + 2 * g];
        let v = grid_value(block[2 + 2 * g] as int, i % 8);
        Terms {
            scale: (2 * nibble(s, false) + 1) as i16,
            min: 0,
            q: (if bit(s, 4 + i % 8 / 2) {
                -v
            } else {
                v
            }) as i16,
        }
    }

    proof fn lemma_layout() {
    }

    fn elems() -> (r: usize) {
        256
    }

    fn bytes() -> (r: usize) {
        66
    }

    fn d_at() -> (r: usize) {
        0
    }

    fn dmin_at() -> (r: Option<usize>) {
        None
    }

    fn shift() -> (r: u8) {
        3
    }

    fn terms(block: &[u8], i: usize) -> (r: Terms) {
        let g = i / 8;
        let s = block[3 + 2 * g];
        let v = get_grid_value(block[2 + 2 * g], i % 8);
        let q: i16 = if get_bit(s, 4 + i % 8 / 2) {
            -(v as i16)
        } else {
            v as i16
        };
        Terms { scale: 2 * get_nibble(s, false) as i16 + 1, min: 0, q }
    }
}

/// Decodes `n` elements.
pub fn dequant(raw: &[u8], n: usize) -> (r: Result<Vec<Weight>, GgufError>)
    requires
        n <= usize::MAX / 4,
    ensures
        decoded::<Iq2Xxs>(raw@, n as nat, r),
{
    decode::<Iq2Xxs>(raw, n)
}

/// What is decoded gives the block back, but for the index of the grid entry: in the second byte
/// of a group, half of a scale less one in the low half, and the signs of four pairs above it;
/// the amounts are the low seven bits of the bytes of the grid entry, the lowest first.
pub proof fn law_iq2_xxs_gives_block_back(block: Seq<u8>, g: int, j: int)
    requires
        block.len() == 66,
        0 <= g < 32,
        0 <= j < 8,
    ensures
        ({
            let a = element::<Iq2Xxs>(block, 8 * g + j);
            let entry = GRID@[block[2 + 2 * g] as int];
            let shift = (8 * j) as u64;
            let amount = (entry >> shift) & 0x7f;
            &&& a.q == amount || a.q == -amount
            &&& a.q == -amount <==> amount == 0 || (block[3 + 2 * g] >> (4 + j / 2) as u8) & 1 == 1
            &&& a.scale % 2 == 1
            &&& a.scale as int / 2 == block[3 + 2 * g] as int % 16
            &&& a.min == 0 && a.shift == 3 && a.dmin == 0
            &&& a.d == f16_widened(le16(block, 0))
        }),
{
    lemma_one_block::<Iq2Xxs>(block, 8 * g + j);
    let s = block[3 + 2 * g];
    let entry = GRID@[block[2 + 2 * g] as int];
    assert((8 * g + j) / 8 == g && (8 * g + j) % 8 == j);
    assert((entry >> 0) & 0x7f == entry % 0x80 && (entry >> 8) & 0x7f == (entry / 0x100) % 0x80 && (
    entry >> 16) & 0x7f == (entry / 0x1_0000) % 0x80 && (entry >> 24) & 0x7f == (entry
        / 0x100_0000) % 0x80 && (entry >> 32) & 0x7f == (entry / 0x1_0000_0000) % 0x80 && (entry
        >> 40) & 0x7f == (entry / 0x100_0000_0000) % 0x80 && (entry >> 48) & 0x7f == (entry
        / 0x1_0000_0000_0000) % 0x80 && (entry >> 56) & 0x7f == (entry / 0x100_0000_0000_0000)
        % 0x80) by (bit_vector);
    assert((s >> 4) & 1 == s / 16 % 2 && (s >> 5) & 1 == s / 32 % 2 && (s >> 6) & 1 == s / 64 % 2
        && (s >> 7) & 1 == s / 128) by (bit_vector);
}

} // verus!
