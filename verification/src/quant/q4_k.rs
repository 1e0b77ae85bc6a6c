//! Q4_K: blocks of 256 elements in 144 bytes.
//!
//! `d`, `dmin`, 12 bytes with 8 scales and 8 minima of 6 bits, then 256 elements of 4
//! bits. A scale and a minimum serve 32 elements; two runs of 32 share 32 bytes, the
//! first in the low halves.

use vstd::prelude::*;

use crate::gguf::error::GgufError;
use crate::halves::f16_widened;
use crate::quant::element;
use crate::quant::lemma_one_block;
use crate::quant::le16;
use crate::quant::law_byte_parts;
use crate::quant::lemma_six_bits;
use crate::quant::decode;
use crate::quant::decoded;
use crate::quant::get_nibble;
use crate::quant::nibble;
use crate::quant::BlockFormat;
use crate::quant::Terms;
use crate::quant::Weight;

verus! {

/// Scale `j` of the 12 packed bytes.
pub open spec fn packed_scale(sc: Seq<u8>, j: int) -> int {
    if j < 4 {
        sc[j] as int % 64
    } else {
        nibble(sc[j + 4], false) + 16 * (sc[j - 4] as int / 64)
    }
}

/// Minimum `j` of the 12 packed bytes.
pub open spec fn packed_min(sc: Seq<u8>, j: int) -> int {
    if j < 4 {
        sc[j + 4] as int % 64
    } else {
        nibble(sc[j + 4], true) + 16 * (sc[j] as int / 64)
    }
}

fn get_scale(sc: &[u8], j: usize) -> (r: u8)
    requires
        sc@.len() >= 12,
        j < 8,
    ensures
        r == packed_scale(sc@, j as int),
        r < 64,
{
    if j < 4 {
        sc[j] % 64
    } else {
        sc[j + 4] % 16 + 16 * (sc[j - 4] / 64)
    }
}

fn get_min(sc: &[u8], j: usize) -> (r: u8)
    requires
        sc@.len() >= 12,
        j < 8,
    ensures
        r == packed_min(sc@, j as int),
        r < 64,
{
    if j < 4 {
        sc[j + 4] % 64
    } else {
        sc[j + 4] / 16 + 16 * (sc[j] / 64)
    }
}

/// The 8 scales and the 8 minima of the 12 packed bytes.
pub fn unpack_scales(sc: &[u8]) -> (r: ([u8; 8], [u8; 8]))
    requires
        sc@.len() >= 12,
    ensures
        forall|j: int| 0 <= j < 8 ==> #[trigger] r.0@[j] == packed_scale(sc@, j),
        forall|j: int| 0 <= j < 8 ==> #[trigger] r.1@[j] == packed_min(sc@, j),
{
    let scales: [u8; 8] = [
        get_scale(sc, 0),
        get_scale(sc, 1),
        get_scale(sc, 2),
        get_scale(sc, 3),
        get_scale(sc, 4),
        get_scale(sc, 5),
        get_scale(sc, 6),
        get_scale(sc, 7),
    ];
    let mins: [u8; 8] = [
        get_min(sc, 0),
        get_min(sc, 1),
        get_min(sc, 2),
        get_min(sc, 3),
        get_min(sc, 4),
        get_min(sc, 5),
        get_min(sc, 6),
        get_min(sc, 7),
    ];
    (scales, mins)
}

/// Every scale and every minimum has six bits.
pub proof fn law_packed_six_bits(sc: Seq<u8>, j: int)
    requires
        sc.len() >= 12,
        0 <= j < 8,
    ensures
        0 <= packed_scale(sc, j) < 64,
        0 <= packed_min(sc, j) < 64,
{
}

/// The Q4_K block format.
#[allow(non_camel_case_types)]
pub struct Q4K {}

impl BlockFormat for Q4K {
    open spec fn spec_elems() -> nat {
        256
    }

    open spec fn spec_bytes() -> nat {
        144
    }

    open spec fn spec_d_at() -> nat {
        0
    }

    open spec fn spec_dmin_at() -> Option<nat> {
        Some(2)
    }

    open spec fn spec_shift() -> u8 {
        0
    }

    open spec fn spec_terms(block: Seq<u8>, i: int) -> Terms {
        let sb = i / 32;
        Terms {
            scale: packed_scale(block.subrange(4, 16), sb) as i16,
            min: packed_min(block.subrange(4, 16), sb) as i16,
            q: nibble(block[16 + sb / 2 * 32 + i % 32], sb % 2 == 1) as i16,
        }
    }

    proof fn lemma_layout() {
    }

    fn elems() -> (r: usize) {
        256
    }

    fn bytes() -> (r: usize) {
        144
    }

    fn d_at() -> (r: usize) {
        0
    }

    fn dmin_at() -> (r: Option<usize>) {
        Some(2)
    }

    fn shift() -> (r: u8) {
        0
    }

    fn terms(block: &[u8], i: usize) -> (r: Terms) {
        let sb = i / 32;
        let sc = vstd::slice::slice_subrange(block, 4, 16);
        let scale = get_scale(sc, sb);
        let min = get_min(sc, sb);
        let q = get_nibble(block[16 + sb / 2 * 32 + i % 32], sb % 2 == 1);
        Terms { scale: scale as i16, min: min as i16, q: q as i16 }
    }
}

/// Decodes `n` elements.
pub fn dequant_q4k(raw: &[u8], n: usize) -> (r: Result<Vec<Weight>, GgufError>)
    requires
        n <= usize::MAX / 4,
    ensures
        decoded::<Q4K>(raw@, n as nat, r),
{
    decode::<Q4K>(raw, n)
}

/// The elements give their bytes back: two that are 32 apart make one, the first its low half.
pub proof fn law_q4_k_elements(block: Seq<u8>, p: int, l: int)
    requires
        block.len() == 144,
        0 <= p < 4,
        0 <= l < 32,
    ensures
        block[16 + 32 * p + l] == element::<Q4K>(block, 64 * p + l).q + 16 * element::<Q4K>(
            block,
            64 * p + 32 + l,
        ).q,
{
    lemma_one_block::<Q4K>(block, 64 * p + l);
    lemma_one_block::<Q4K>(block, 64 * p + 32 + l);
    assert((64 * p + l) / 32 == 2 * p && (64 * p + l) % 32 == l);
    assert((64 * p + 32 + l) / 32 == 2 * p + 1 && (64 * p + 32 + l) % 32 == l);
    law_byte_parts(block[16 + 32 * p + l]);
}

/// The scales and minima of the runs of 32 give their bytes back: those of the first four runs
/// are the low six bits of eight bytes, those of the last four are in the rest.
pub proof fn law_q4_k_scales(block: Seq<u8>, p: int)
    requires
        block.len() == 144,
        0 <= p < 4,
    ensures
        ({
            let a = element::<Q4K>(block, 32 * p);
            let b = element::<Q4K>(block, 32 * (p + 4));
            &&& block[4 + p] == a.scale + 64 * (b.scale as int / 16)
            &&& block[8 + p] == a.min + 64 * (b.min as int / 16)
            &&& block[12 + p] == b.scale as int % 16 + 16 * (b.min as int % 16)
        }),
{
    lemma_one_block::<Q4K>(block, 32 * p);
    lemma_one_block::<Q4K>(block, 32 * (p + 4));
    lemma_packed(block, p);
    assert(element::<Q4K>(block, 32 * p).scale == Q4K::spec_terms(block, 32 * p).scale);
    assert(element::<Q4K>(block, 32 * p).min == Q4K::spec_terms(block, 32 * p).min);
    let b = element::<Q4K>(block, 32 * (p + 4));
    assert(b.scale == Q4K::spec_terms(block, 32 * (p + 4)).scale);
    assert(b.min == Q4K::spec_terms(block, 32 * (p + 4)).min);
}

proof fn lemma_packed(block: Seq<u8>, p: int)
    requires
        block.len() == 144,
        0 <= p < 4,
    ensures
        ({
            let a = Q4K::spec_terms(block, 32 * p);
            let b = Q4K::spec_terms(block, 32 * (p + 4));
            &&& block[4 + p] == a.scale + 64 * (b.scale as int / 16)
            &&& block[8 + p] == a.min + 64 * (b.min as int / 16)
            &&& block[12 + p] == b.scale as int % 16 + 16 * (b.min as int % 16)
        }),
{
    assert((32 * p) / 32 == p && (32 * (p + 4)) / 32 == p + 4);
    let sc = block.subrange(4, 16);
    assert(sc[p] == block[4 + p] && sc[p + 4] == block[8 + p] && sc[p + 8] == block[12 + p]);
    let (x, y, z) = (block[4 + p] as int, block[8 + p] as int, block[12 + p] as int);
    lemma_six_bits(z % 16, x / 64);
    lemma_six_bits(z / 16, y / 64);
    assert(packed_scale(sc, p) == x % 64 && packed_min(sc, p) == y % 64);
    assert(packed_scale(sc, p + 4) == z % 16 + 16 * (x / 64));
    assert(packed_min(sc, p + 4) == z / 16 + 16 * (y / 64));
}

/// A run of 32 elements shares a scale and a minimum, all of them the two factors in front.
pub proof fn law_q4_k_shared(block: Seq<u8>, j: int)
    requires
        block.len() == 144,
        0 <= j < 256,
    ensures
        ({
            let a = element::<Q4K>(block, j);
            let first = element::<Q4K>(block, j - j % 32);
            &&& 0 <= a.q < 16 && 0 <= a.scale < 64 && 0 <= a.min < 64 && a.shift == 0
            &&& a.scale == first.scale && a.min == first.min
            &&& a.d == f16_widened(le16(block, 0)) && a.dmin == f16_widened(le16(block, 2))
        }),
{
    lemma_one_block::<Q4K>(block, j);
    lemma_one_block::<Q4K>(block, j - j % 32);
    assert((j - j % 32) / 32 == j / 32);
    law_packed_six_bits(block.subrange(4, 16), j / 32);
    law_byte_parts(block[16 + j / 32 / 2 * 32 + j % 32]);
}

} // verus!
