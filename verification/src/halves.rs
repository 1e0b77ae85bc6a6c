//! Half-precision formats, on bit patterns.

use vstd::arithmetic::power2::pow2;
use vstd::prelude::*;

verus! {

/// Position of the highest set bit.
pub open spec fn top_bit(m: nat) -> nat
    decreases m,
{
    if m < 2 {
        0
    } else {
        1 + top_bit(m / 2)
    }
}

/// The single-precision pattern of the number with half-precision pattern `h`: sign, 5
/// exponent bits and 10 fraction bits become sign, 8 exponent bits and 23 fraction bits
/// of the same value. An infinity stays one, a NaN keeps its fraction and is made quiet,
/// a subnormal is normalised.
pub open spec fn f16_widened(h: u16) -> u32 {
    let sign = (h / 0x8000) as nat;
    let e = ((h / 0x400) % 0x20) as nat;
    let m = (h % 0x400) as nat;
    let magnitude: int = if e == 0x1F {
        if m == 0 {
            0x7F80_0000int
        } else {
            0x7FC0_0000 + (m as int % 0x200) * 0x2000
        }
    } else if e != 0 {
        (e as int + 112) * 0x80_0000 + m * 0x2000
    } else if m == 0 {
        0
    } else {
        (103 + top_bit(m)) * 0x80_0000 + (m - pow2(top_bit(m))) * pow2((23 - top_bit(m)) as nat)
    };
    (sign * 0x8000_0000 + magnitude) as u32
}

/// The single-precision pattern of the number with bfloat16 pattern `h`: the same bits
/// on top of zeros, a NaN made quiet.
pub open spec fn bf16_widened(h: u16) -> u32 {
    let quiet = if h % 0x8000 > 0x7F80 && (h / 0x40) % 2 == 0 {
        h + 0x40
    } else {
        h as int
    };
    (quiet * 0x1_0000) as u32
}

/// The single-precision number that is equal to the half-precision one, both as bit
/// patterns.
pub fn f16_to_f32_bits(h: u16) -> (r: u32)
    ensures
        r == f16_widened(h),
{
    let sign: u32 = (h / 0x8000) as u32 * 0x8000_0000;
    let e: u32 = ((h / 0x400) % 0x20) as u32;
    let m: u32 = (h % 0x400) as u32;
    if e == 0x1F {
        if m == 0 {
            sign + 0x7F80_0000
        } else {
            sign + 0x7FC0_0000 + (m % 0x200) * 0x2000
        }
    } else if e != 0 {
        sign + (e + 112) * 0x80_0000 + m * 0x2000
    } else if m == 0 {
        sign
    } else {
        sign + normalised(m)
    }
}

/// The single-precision pattern of `m * 2^-24`.
fn normalised(m: u32) -> (r: u32)
    requires
        0 < m < 0x400,
    ensures
        r == (103 + top_bit(m as nat)) * 0x80_0000 + (m - pow2(top_bit(m as nat))) * pow2(
            (23 - top_bit(m as nat)) as nat,
        ),
        r < 0x3880_0000,
{
    proof {
        reveal_with_fuel(top_bit, 11);
        vstd::arithmetic::power2::lemma2_to64();
    }
    if m >= 0x200 {
        proof {
            lemma_scaled(m as nat, 9, 0x200, 0x4000);
        }
        112 * 0x80_0000 + (m - 0x200) * 0x4000
    } else if m >= 0x100 {
        proof {
            lemma_scaled(m as nat, 8, 0x100, 0x8000);
        }
        111 * 0x80_0000 + (m - 0x100) * 0x8000
    } else if m >= 0x80 {
        proof {
            lemma_scaled(m as nat, 7, 0x80, 0x1_0000);
        }
        110 * 0x80_0000 + (m - 0x80) * 0x1_0000
    } else if m >= 0x40 {
        proof {
            lemma_scaled(m as nat, 6, 0x40, 0x2_0000);
        }
        109 * 0x80_0000 + (m - 0x40) * 0x2_0000
    } else if m >= 0x20 {
        proof {
            lemma_scaled(m as nat, 5, 0x20, 0x4_0000);
        }
        108 * 0x80_0000 + (m - 0x20) * 0x4_0000
    } else if m >= 0x10 {
        proof {
            lemma_scaled(m as nat, 4, 0x10, 0x8_0000);
        }
        107 * 0x80_0000 + (m - 0x10) * 0x8_0000
    } else if m >= 8 {
        proof {
            lemma_scaled(m as nat, 3, 8, 0x10_0000);
        }
        106 * 0x80_0000 + (m - 8) * 0x10_0000
    } else if m >= 4 {
        proof {
            lemma_scaled(m as nat, 2, 4, 0x20_0000);
        }
        105 * 0x80_0000 + (m - 4) * 0x20_0000
    } else if m >= 2 {
        proof {
            lemma_scaled(m as nat, 1, 2, 0x40_0000);
        }
        104 * 0x80_0000 + (m - 2) * 0x40_0000
    } else {
        proof {
            lemma_scaled(m as nat, 0, 1, 0x80_0000);
        }
        103 * 0x80_0000
    }
}

proof fn lemma_scaled(m: nat, k: nat, p: int, w: int)
    requires
        k <= 23,
        top_bit(m) == k,
        pow2(k) == p,
        pow2((23 - k) as nat) == w,
    ensures
        (m - pow2(top_bit(m))) * pow2((23 - top_bit(m)) as nat) == (m - p) * w,
{
}

/// `half::bf16::to_f32`: the single-precision number that is equal to the bfloat16 one,
/// both as bit patterns.
#[verifier::external_body]
pub(crate) fn bf16_to_f32_bits(h: u16) -> (r: u32)
    ensures
        r == bf16_widened(h),
{
    half::bf16::from_bits(h).to_f32().to_bits()
}

/// The amount of a finite half-precision number, in units of `2^-24`.
pub open spec fn half_units(h: u16) -> nat {
    let e = (h & 0x7fff) as nat / 0x400;
    let m = (h & 0x7fff) as nat % 0x400;
    if e == 0 {
        m
    } else {
        (0x400 + m) * pow2((e - 1) as nat)
    }
}

/// The amount of a finite single-precision number, in units of `2^-149`.
pub open spec fn single_units(s: u32) -> nat {
    let e = (s & 0x7fff_ffff) as nat / 0x80_0000;
    let m = (s & 0x7fff_ffff) as nat % 0x80_0000;
    if e == 0 {
        m
    } else {
        (0x80_0000 + m) * pow2((e - 1) as nat)
    }
}

/// Widening keeps the number: the sign, and the amount, which is exact; what is infinite stays
/// so, and what is not a number stays none.
pub proof fn law_widening_exact(h: u16, r: u32)
    requires
        call_ensures(f16_to_f32_bits, (h,), r),
    ensures
        r >= 0x8000_0000 <==> h >= 0x8000,
        h & 0x7c00 != 0x7c00 ==> single_units(r) == half_units(h) * pow2(125),
        h & 0x7fff == 0x7c00 ==> r & 0x7fff_ffff == 0x7f80_0000,
        h & 0x7fff > 0x7c00 ==> r & 0x7fff_ffff > 0x7f80_0000,
{
    let sign = (h / 0x8000) as nat;
    let e = ((h / 0x400) % 0x20) as nat;
    let m = (h % 0x400) as nat;
    assert(h & 0x7fff == h % 0x8000) by (bit_vector);
    assert((h & 0x7c00 != 0x7c00) == ((h / 0x400) % 0x20 != 0x1f)) by (bit_vector);
    assert(h % 0x8000 == 0x400 * ((h / 0x400) % 0x20) + h % 0x400) by (bit_vector);
    assert(r & 0x7fff_ffff == r % 0x8000_0000) by (bit_vector);
    let a = (r % 0x8000_0000) as nat;
    if e == 0x1f {
    } else if e != 0 {
        assert(a == (e + 112) * 0x80_0000 + m * 0x2000);
        assert(a / 0x80_0000 == e + 112 && a % 0x80_0000 == m * 0x2000);
        vstd::arithmetic::power2::lemma_pow2_adds((e - 1) as nat, 112);
        vstd::arithmetic::power2::lemma_pow2_adds(13, 112);
        assert(pow2(13) == 0x2000) by {
            vstd::arithmetic::power2::lemma2_to64();
        }
        let (p, q) = (pow2((e - 1) as nat), pow2(112));
        assert((0x80_0000 + m * 0x2000) * (p * q) == (0x400 + m) * p * (0x2000 * q))
            by (nonlinear_arith);
    } else if m == 0 {
        assert(a == 0);
        assert(0 * pow2(125) == 0);
    } else {
        lemma_subnormal(m);
        let k = top_bit(m);
        let p = pow2(k);
        let w = pow2((23 - k) as nat);
        vstd::arithmetic::power2::lemma_pow2_adds(k, (23 - k) as nat);
        assert(pow2(23) == 0x80_0000) by {
            vstd::arithmetic::power2::lemma2_to64();
        }
        assert((m - p) * w == m * w - p * w) by (nonlinear_arith);
        assert(0 <= m * w - 0x80_0000 < 0x80_0000) by (nonlinear_arith)
            requires
                p <= m < 2 * p,
                p * w == 0x80_0000,
        ;
        assert(a == (103 + k) * 0x80_0000 + (m * w - 0x80_0000));
        assert(a / 0x80_0000 == 103 + k && a % 0x80_0000 == m * w - 0x80_0000);
        vstd::arithmetic::power2::lemma_pow2_adds((23 - k) as nat, (102 + k) as nat);
        let z = pow2((102 + k) as nat);
        assert(m * w * z == m * (w * z)) by (nonlinear_arith);
    }
}

proof fn lemma_subnormal(m: nat)
    requires
        0 < m < 0x400,
    ensures
        pow2(top_bit(m)) <= m < 2 * pow2(top_bit(m)),
        top_bit(m) <= 9,
{
    reveal_with_fuel(top_bit, 11);
    vstd::arithmetic::power2::lemma2_to64();
}

/// A bfloat16 number is the upper half of the single-precision one; what is not a number stays
/// none.
pub proof fn law_bf16_is_upper_half(h: u16)
    ensures
        h & 0x7fff <= 0x7f80 ==> bf16_widened(h) == h * 0x1_0000,
        h & 0x7fff > 0x7f80 ==> bf16_widened(h) & 0x7fff_ffff > 0x7f80_0000 && bf16_widened(h)
            / 0x8000_0000 == h / 0x8000,
{
    let r = bf16_widened(h);
    assert(h & 0x7fff == h % 0x8000) by (bit_vector);
    assert(r & 0x7fff_ffff == r % 0x8000_0000) by (bit_vector);
    if h % 0x8000 > 0x7f80 {
        assert((h / 0x40) % 2 == 0 ==> h % 0x80 < 0x40) by (bit_vector);
    }
}

} // verus!
