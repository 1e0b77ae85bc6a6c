//! The integer side of operations on tensors: fixed-point exponentials and softmax, products
//! of quantised blocks, and where the elements of rows and matrices lie.

use vstd::arithmetic::div_mod::lemma_div_is_ordered;
use vstd::arithmetic::div_mod::lemma_fundamental_div_mod;
use vstd::arithmetic::div_mod::lemma_fundamental_div_mod_converse;
use vstd::arithmetic::power2::lemma2_to64;
use vstd::arithmetic::power2::lemma_pow2_pos;
use vstd::arithmetic::power2::lemma_pow2_strictly_increases;
use vstd::arithmetic::power2::lemma_pow2_unfold;
use vstd::arithmetic::power2::pow2;
use vstd::prelude::*;

use crate::halves::f16_to_f32_bits;
use crate::halves::f16_widened;
use crate::quant::get_nibble;
use crate::quant::nibble;
use crate::quant::Weight;
use crate::tensors::layout::lemma_suffix_at_most;
use crate::tensors::layout::lemma_zero_dimension;
use crate::tensors::layout::suffix_product;
use crate::tensors::tensor::CpuTensor;

verus! {

// ---------------------------------------------------------------------------
// Fixed-point exponentials
// ---------------------------------------------------------------------------

/// The cubic `1 + 0.693147 t + 0.240226 t^2 + 0.055504 t^3` at `t = f / 65536`, over the
/// denominator `10^6 * 65536^3`.
pub open spec fn cubic(f: int) -> int {
    281_474_976_710_656_000_000 + 2_977_043_696_320_512 * f + 15_743_451_136 * (f * f) + 55_504 * (f
        * f * f)
}

/// Two to the power of `f / 65536`, by the cubic, in units of 1/65536, rounded down.
pub open spec fn exp_fraction(f: int) -> int {
    cubic(f) / 4_294_967_296_000_000
}

/// The exponential of `x / 65536` in units of 1/65536: one where `x` is not negative, zero
/// below minus ten.
pub open spec fn spec_exp(x: int) -> int {
    if x < -655360 {
        0
    } else if x >= 0 {
        65536
    } else {
        let y = x * 94548 / 0x1_0000;
        exp_fraction(y % 0x1_0000) / pow2((-(y / 0x1_0000)) as nat) as int
    }
}

/// The cubic grows, from one to less than two.
proof fn lemma_cubic(f: int, g: int)
    requires
        0 <= f <= g < 0x1_0000,
    ensures
        exp_fraction(f) <= exp_fraction(g),
        65536 <= exp_fraction(f),
        exp_fraction(g) < 131072,
        0 <= cubic(g) < 562_949_953_421_312_000_000,
{
    assert(f * f <= g * g && 0 <= f * f) by (nonlinear_arith)
        requires
            0 <= f <= g,
    ;
    assert(g * g <= 0x1_0000 * 0x1_0000) by (nonlinear_arith)
        requires
            0 <= g <= 0x1_0000,
    ;
    assert(f * f * f <= g * g * g && 0 <= f * f * f) by (nonlinear_arith)
        requires
            0 <= f <= g,
            0 <= f * f <= g * g,
    ;
    assert(g * g * g <= 0x1_0000 * 0x1_0000 * 0x1_0000) by (nonlinear_arith)
        requires
            0 <= g <= 0x1_0000,
            0 <= g * g <= 0x1_0000 * 0x1_0000,
    ;
    let d: int = 4_294_967_296_000_000;
    lemma_div_is_ordered(cubic(f), cubic(g), d);
    lemma_fundamental_div_mod(cubic(f), d);
    lemma_fundamental_div_mod(cubic(g), d);
}

/// How `x`, from minus ten to zero, is made of whole powers of two and a fraction.
proof fn lemma_parts(x: int)
    requires
        -655360 <= x < 0,
    ensures
        ({
            let y = x * 94548 / 0x1_0000;
            let n = -(y / 0x1_0000);
            let t = (-x * 94548 + 0xFFFF) / 0x1_0000;
            &&& y == -t
            &&& n == (t + 0xFFFF) / 0x1_0000
            &&& y % 0x1_0000 == n * 0x1_0000 - t
            &&& 1 <= n <= 15
            &&& 1 <= t <= 945480
        }),
{
    let m = -x;
    let t = (m * 94548 + 0xFFFF) / 0x1_0000;
    let r = (m * 94548 + 0xFFFF) % 0x1_0000;
    lemma_fundamental_div_mod(m * 94548 + 0xFFFF, 0x1_0000);
    lemma_fundamental_div_mod_converse(x * 94548, 0x1_0000, -t, 0xFFFF - r);
    let n = (t + 0xFFFF) / 0x1_0000;
    let q = (t + 0xFFFF) % 0x1_0000;
    lemma_fundamental_div_mod(t + 0xFFFF, 0x1_0000);
    lemma_fundamental_div_mod_converse(-t, 0x1_0000, -n, 0xFFFF - q);
}

/// The exponential of `x_fixed / 65536` in units of 1/65536.
pub fn exp_q16_16(x_fixed: i32) -> (r: u32)
    ensures
        r == spec_exp(x_fixed as int),
        r <= 65536,
{
    if x_fixed < -655360 {
        return 0;
    }
    if x_fixed >= 0 {
        return 65536;
    }
    let m: u64 = (-x_fixed) as u64;
    let t: u64 = (m * 94548 + 0xFFFF) / 0x1_0000;
    let n: u64 = (t + 0xFFFF) / 0x1_0000;
    proof {
        lemma_parts(x_fixed as int);
        lemma_cubic(n * 0x1_0000 - t, n * 0x1_0000 - t);
    }
    let f: u128 = (n * 0x1_0000 - t) as u128;
    proof {
        assert(0 <= f * f < 0x1_0000_0000) by (nonlinear_arith)
            requires
                0 <= f < 0x1_0000,
        ;
        assert(0 <= f * f * f < 0x1_0000_0000_0000) by (nonlinear_arith)
            requires
                0 <= f < 0x1_0000,
                0 <= f * f < 0x1_0000_0000,
        ;
    }
    let c: u128 = 281_474_976_710_656_000_000 + 2_977_043_696_320_512 * f + 15_743_451_136 * (f * f)
        + 55_504 * (f * f * f);
    let res: u64 = (c / 4_294_967_296_000_000) as u64;
    let shift: u32 = n as u32;
    proof {
        vstd::bits::lemma_u64_shr_is_div(res, shift as u64);
        lemma_pow2_unfold(n as nat);
        lemma_pow2_pos((n - 1) as nat);
        lemma_half(res as int, pow2((n - 1) as nat) as int);
    }
    (res >> (shift as u64)) as u32
}

proof fn lemma_half(a: int, p: int)
    requires
        0 <= a < 131072,
        p >= 1,
    ensures
        0 <= a / (2 * p) <= 65535,
{
    lemma_fundamental_div_mod(a, 2 * p);
    let q = a / (2 * p);
    assert(q >= 0) by (nonlinear_arith)
        requires
            q == a / (2 * p),
            a >= 0,
            p >= 1,
    ;
    assert(2 * q <= 2 * p * q) by (nonlinear_arith)
        requires
            p >= 1,
            q >= 0,
    ;
}

/// The exponential lies between zero and one, is one at zero, and grows with its argument.
pub proof fn law_exp_monotone(x: int, z: int)
    requires
        x <= z,
    ensures
        0 <= spec_exp(x) <= spec_exp(z) <= 65536,
        spec_exp(0) == 65536,
{
    lemma_exp_range(x);
    lemma_exp_range(z);
    if -655360 <= x && z < 0 {
        lemma_parts(x);
        lemma_parts(z);
        let y = x * 94548 / 0x1_0000;
        let w = z * 94548 / 0x1_0000;
        lemma_div_is_ordered(x * 94548, z * 94548, 0x1_0000);
        let n = -(y / 0x1_0000);
        let k = -(w / 0x1_0000);
        lemma_div_is_ordered(y, w, 0x1_0000);
        let f = y % 0x1_0000;
        let g = w % 0x1_0000;
        lemma_pow2_pos(n as nat);
        lemma_pow2_pos(k as nat);
        lemma_fundamental_div_mod(y, 0x1_0000);
        lemma_fundamental_div_mod(w, 0x1_0000);
        if n == k {
            assert(f <= g);
            lemma_cubic(f, g);
            lemma_div_is_ordered(exp_fraction(f), exp_fraction(g), pow2(k as nat) as int);
        } else {
            assert(k + 1 <= n);
            lemma_cubic(f, f);
            lemma_cubic(g, g);
            let p = pow2(k as nat) as int;
            if k + 1 < n {
                lemma_pow2_strictly_increases((k + 1) as nat, n as nat);
            }
            lemma_pow2_unfold((k + 1) as nat);
            assert(pow2((k + 1) as nat) == 2 * p);
            lemma_steps(exp_fraction(f), pow2(n as nat) as int, exp_fraction(g), p);
        }
    }
}

proof fn lemma_steps(a: int, big: int, b: int, p: int)
    requires
        0 <= a < 131072,
        65536 <= b,
        p >= 1,
        big >= 2 * p,
    ensures
        a / big <= b / p,
{
    lemma_fundamental_div_mod(a, big);
    lemma_fundamental_div_mod(b, p);
    let q = a / big;
    let r = b / p;
    assert(q <= r) by (nonlinear_arith)
        requires
            big * q <= a,
            a < 131072,
            p * r + p > b,
            b >= 65536,
            big >= 2 * p,
            p >= 1,
            q >= 0 || q <= r,
            r >= 0,
    {
        if q > r {
            assert(q >= r + 1);
            assert(big * q >= 2 * p * (r + 1)) by (nonlinear_arith)
                requires
                    q >= r + 1,
                    big >= 2 * p,
                    p >= 1,
                    r >= 0,
            ;
        }
    }
}

proof fn lemma_exp_range(x: int)
    ensures
        0 <= spec_exp(x) <= 65536,
        x < 0 ==> spec_exp(x) <= 65535,
{
    if -655360 <= x < 0 {
        lemma_parts(x);
        let y = x * 94548 / 0x1_0000;
        let n = -(y / 0x1_0000);
        lemma_cubic(y % 0x1_0000, y % 0x1_0000);
        lemma_pow2_unfold(n as nat);
        lemma_pow2_pos((n - 1) as nat);
        lemma_half(exp_fraction(y % 0x1_0000), pow2((n - 1) as nat) as int);
    }
}

// ---------------------------------------------------------------------------
// Fixed-point softmax
// ---------------------------------------------------------------------------

/// The 32-bit signed number with the low 32 bits of a number.
pub open spec fn wrap32(v: int) -> int {
    (v + 0x8000_0000) % 0x1_0000_0000 - 0x8000_0000
}

fn wrap(v: i64) -> (r: i32)
    requires
        -0x1000_0000_0000_0000 <= v <= 0x1000_0000_0000_0000,
    ensures
        r == wrap32(v as int),
{
    let u: u64 = (v + 0x1000_0000_8000_0000) as u64 % 0x1_0000_0000;
    proof {
        lemma_fundamental_div_mod(v + 0x8000_0000, 0x1_0000_0000);
        lemma_fundamental_div_mod_converse(
            v + 0x1000_0000_8000_0000,
            0x1_0000_0000,
            (v + 0x8000_0000) / 0x1_0000_0000 + 0x1000_0000,
            (v + 0x8000_0000) % 0x1_0000_0000,
        );
    }
    (u as i64 - 0x8000_0000) as i32
}

/// A number of 32 bits divided by a power of two, rounded down.
fn floor_div(v: i64, d: u32) -> (r: i64)
    requires
        -0x1_0000_0000 <= v <= 0x1_0000_0000,
        d == 2 || d == 256,
    ensures
        r == v as int / d as int,
{
    let u: u64 = (v + 0x1_0000_0000) as u64 / d as u64;
    proof {
        lemma_fundamental_div_mod(v as int, d as int);
        let q = v as int / d as int;
        let m = v as int % d as int;
        if d == 2 {
            lemma_fundamental_div_mod_converse(v + 0x1_0000_0000, 2, q + 0x8000_0000, m);
        } else {
            lemma_fundamental_div_mod_converse(v + 0x1_0000_0000, 256, q + 0x100_0000, m);
        }
    }
    if d == 2 {
        u as i64 - 0x8000_0000
    } else {
        u as i64 - 0x100_0000
    }
}

/// The largest of some numbers.
pub open spec fn largest(s: Seq<i32>) -> i32
    decreases s.len(),
{
    if s.len() <= 1 {
        s[0]
    } else if s.last() > largest(s.drop_last()) {
        s.last()
    } else {
        largest(s.drop_last())
    }
}

/// The quadratic `1 + x + x^2 / 2` in units of 1/65536, in 32 bits.
pub open spec fn quadratic(x: int) -> int {
    wrap32(wrap32(65536 + x) + wrap32((x / 256) * (x / 256)) / 2)
}

/// The unscaled weight of a number: by the quadratic in whole groups of sixteen, by the
/// exponential after them.
pub open spec fn unscaled(s: Seq<i32>, i: int) -> int {
    let x = wrap32(s[i] - largest(s));
    if i < s.len() as int / 16 * 16 {
        quadratic(x)
    } else {
        spec_exp(x)
    }
}

/// The sum of the first `n` unscaled weights.
pub open spec fn unscaled_sum(s: Seq<i32>, n: nat) -> int
    decreases n,
{
    if n == 0 {
        0
    } else {
        unscaled_sum(s, (n - 1) as nat) + unscaled(s, n - 1)
    }
}

/// The sum of all unscaled weights: in 32 bits over the groups, then in 64 bits.
pub open spec fn weight_total(s: Seq<i32>) -> int {
    let m = (s.len() / 16 * 16) as nat;
    (wrap32(unscaled_sum(s, m)) + (unscaled_sum(s, s.len()) - unscaled_sum(s, m)))
        % 0x1_0000_0000_0000_0000
}

/// The weight of a number: its unscaled weight times the reciprocal of the sum, in 32 bits;
/// unscaled where the sum is zero.
pub open spec fn softmax_weight(s: Seq<i32>, i: int) -> int {
    let total = weight_total(s);
    let inv = 0x1_0000_0000int / total % 0x1_0000_0000;
    let e = unscaled(s, i);
    if total == 0 {
        e
    } else if i < s.len() as int / 16 * 16 {
        (e % 0x1_0000_0000) * inv % 0x1_0000_0000 / 0x1_0000
    } else {
        wrap32(e * inv / 0x1_0000)
    }
}

fn find_largest(s: &[i32]) -> (r: i32)
    requires
        s@.len() > 0,
    ensures
        r == largest(s@),
{
    let mut r: i32 = s[0];
    let mut i: usize = 1;
    assert(s@.take(1).len() == 1);
    while i < s.len()
        invariant
            1 <= i <= s@.len(),
            r == largest(s@.take(i as int)),
        decreases s@.len() - i,
    {
        assert(s@.take(i + 1).drop_last() =~= s@.take(i as int));
        assert(s@.take(i + 1).last() == s@[i as int]);
        if s[i] > r {
            r = s[i];
        }
        i += 1;
    }
    assert(s@.take(i as int) =~= s@);
    r
}

fn quadratic_exp(x: i32) -> (r: i32)
    ensures
        r == quadratic(x as int),
{
    let h: i64 = floor_div(x as i64, 256);
    assert(-0x80_0000 <= h <= 0x7F_FFFF);
    assert(0 <= h * h <= 0x80_0000 * 0x80_0000) by (nonlinear_arith)
        requires
            -0x80_0000 <= h <= 0x80_0000,
    ;
    let x2: i32 = wrap(h * h);
    let half: i64 = floor_div(x2 as i64, 2);
    wrap(wrap(65536 + x as i64) as i64 + half)
}

proof fn lemma_wrap_sum(a: int, b: int)
    ensures
        wrap32(wrap32(a) + b) == wrap32(a + b),
{
    let k: int = 0x1_0000_0000;
    lemma_fundamental_div_mod(a + 0x8000_0000, k);
    let q = (a + 0x8000_0000) / k;
    let w = wrap32(a);
    lemma_fundamental_div_mod(w + b + 0x8000_0000, k);
    let q2 = (w + b + 0x8000_0000) / k;
    lemma_fundamental_div_mod_converse(
        a + b + 0x8000_0000,
        k,
        q + q2,
        (w + b + 0x8000_0000) % k,
    );
}

/// The fixed-point softmax of some numbers in units of 1/65536.
pub fn softmax_padic_avx512(logits: &[i32]) -> (r: Vec<i32>)
    requires
        logits@.len() >= 16,
    ensures
        r@.len() == logits@.len(),
        forall|i: int| 0 <= i < r@.len() ==> #[trigger] r@[i] == softmax_weight(logits@, i),
{
    let n: usize = logits.len();
    let m: usize = n / 16 * 16;
    let max: i32 = find_largest(logits);
    let mut probs: Vec<i32> = Vec::new();
    let mut acc: i32 = 0;
    let mut i: usize = 0;
    while i < m
        invariant
            i <= m <= n,
            n == logits@.len(),
            m == n as int / 16 * 16,
            max == largest(logits@),
            probs@.len() == i,
            forall|k: int| 0 <= k < i ==> #[trigger] probs@[k] == unscaled(logits@, k),
            acc == wrap32(unscaled_sum(logits@, i as nat)),
        decreases m - i,
    {
        let e: i32 = quadratic_exp(wrap(logits[i] as i64 - max as i64));
        probs.push(e);
        proof {
            lemma_wrap_sum(unscaled_sum(logits@, i as nat), e as int);
        }
        acc = wrap(acc as i64 + e as i64);
        i += 1;
    }
    let ghost low = unscaled_sum(logits@, m as nat);
    let mut sum: u64 = if acc >= 0 {
        acc as u64
    } else {
        0xFFFF_FFFF_FFFF_FFFF - (-(acc as i64 + 1)) as u64
    };
    while i < n
        invariant
            m <= i <= n,
            n == logits@.len(),
            m == n as int / 16 * 16,
            max == largest(logits@),
            probs@.len() == i,
            forall|k: int| 0 <= k < i ==> #[trigger] probs@[k] == unscaled(logits@, k),
            forall|k: int| m <= k < i ==> 0 <= #[trigger] probs@[k] <= 65536,
            low == unscaled_sum(logits@, m as nat),
            sum == (wrap32(low) + (unscaled_sum(logits@, i as nat) - low))
                % 0x1_0000_0000_0000_0000,
        decreases n - i,
    {
        let e: u32 = exp_q16_16(wrap(logits[i] as i64 - max as i64));
        probs.push(e as i32);
        proof {
            lemma_wide_sum(
                wrap32(low) + (unscaled_sum(logits@, i as nat) - low),
                sum as int,
                e as int,
            );
        }
        sum = sum.wrapping_add(e as u64);
        i += 1;
    }
    assert(sum == weight_total(logits@));
    if sum > 0 {
        let inv: u64 = 0x1_0000_0000 / sum % 0x1_0000_0000;
        let mut j: usize = 0;
        while j < n
            invariant
                j <= n,
                m <= n,
                n == logits@.len(),
                m == n as int / 16 * 16,
                probs@.len() == n,
                sum == weight_total(logits@),
                sum > 0,
                inv == 0x1_0000_0000int / sum as int % 0x1_0000_0000,
                inv < 0x1_0000_0000,
                forall|k: int|
                    0 <= k < j ==> #[trigger] probs@[k] == softmax_weight(logits@, k),
                forall|k: int| j <= k < n ==> #[trigger] probs@[k] == unscaled(logits@, k),
                forall|k: int| j <= k < n && m <= k ==> 0 <= #[trigger] probs@[k] <= 65536,
            decreases n - j,
        {
            let e: i32 = probs[j];
            assert(e == unscaled(logits@, j as int));
            if j < m {
                let low32: u64 = if e >= 0 {
                    e as u64
                } else {
                    (e as i64 + 0x1_0000_0000) as u64
                };
                proof {
                    if e < 0 {
                        lemma_fundamental_div_mod_converse(
                            e as int,
                            0x1_0000_0000,
                            -1,
                            e + 0x1_0000_0000,
                        );
                    }
                    assert(low32 == e as int % 0x1_0000_0000);
                    assert(0 <= low32 * inv <= 0xFFFF_FFFF * 0xFFFF_FFFF) by (nonlinear_arith)
                        requires
                            0 <= low32 <= 0xFFFF_FFFF,
                            0 <= inv <= 0xFFFF_FFFF,
                    ;
                }
                probs.set(j, (low32 * inv % 0x1_0000_0000 / 0x1_0000) as i32);
            } else {
                assert(0 <= e * inv <= 65536 * 0xFFFF_FFFF) by (nonlinear_arith)
                    requires
                        0 <= e <= 65536,
                        0 <= inv <= 0xFFFF_FFFF,
                ;
                probs.set(j, wrap((e as u64 * inv / 0x1_0000) as i64));
            }
            j += 1;
        }
    }
    probs
}

proof fn lemma_wide_sum(a: int, m: int, e: int)
    requires
        m == a % 0x1_0000_0000_0000_0000,
        0 <= e <= 65536,
    ensures
        (a + e) % 0x1_0000_0000_0000_0000 == if m + e >= 0x1_0000_0000_0000_0000 {
            m + e - 0x1_0000_0000_0000_0000
        } else {
            m + e
        },
{
    let k: int = 0x1_0000_0000_0000_0000;
    lemma_fundamental_div_mod(a, k);
    let q = a / k;
    if m + e >= k {
        lemma_fundamental_div_mod_converse(a + e, k, q + 1, m + e - k);
    } else {
        lemma_fundamental_div_mod_converse(a + e, k, q, m + e);
    }
}

/// The sum of the exponentials of the first `n` numbers.
pub open spec fn exp_sum(s: Seq<i32>, n: nat) -> int
    decreases n,
{
    if n == 0 {
        0
    } else {
        exp_sum(s, (n - 1) as nat) + spec_exp(s[n - 1] as int)
    }
}

/// The exponentials of some numbers, and their sum.
pub fn softmax_exps(diffs: &[i32]) -> (r: (Vec<u32>, u64))
    requires
        diffs@.len() <= 0xFFFF_FFFF_FFFF,
    ensures
        r.0@.len() == diffs@.len(),
        forall|i: int| 0 <= i < r.0@.len() ==> #[trigger] r.0@[i] == spec_exp(diffs@[i] as int),
        r.1 == exp_sum(diffs@, diffs@.len()),
{
    let mut out: Vec<u32> = Vec::new();
    let mut sum: u64 = 0;
    let mut i: usize = 0;
    while i < diffs.len()
        invariant
            i <= diffs@.len(),
            diffs@.len() <= 0xFFFF_FFFF_FFFF,
            out@.len() == i,
            forall|k: int| 0 <= k < i ==> #[trigger] out@[k] == spec_exp(diffs@[k] as int),
            sum == exp_sum(diffs@, i as nat),
            sum <= i * 65536,
        decreases diffs@.len() - i,
    {
        let e: u32 = exp_q16_16(diffs[i]);
        out.push(e);
        sum = sum + e as u64;
        i += 1;
    }
    (out, sum)
}

// ---------------------------------------------------------------------------
// Quantised blocks
// ---------------------------------------------------------------------------

/// A block of 32 signed bytes and their scale.
#[derive(Clone, Copy, Debug)]
pub struct BlockQ8_0 {
    pub d: [u8; 2],
    pub qs: [i8; 32],
}

/// A block of 256 half-bytes, their scales and minima.
#[derive(Clone, Copy, Debug)]
pub struct BlockQ4K {
    pub d: [u8; 2],
    pub dmin: [u8; 2],
    pub scales: [u8; 12],
    pub qs: [u8; 128],
}

/// The single-precision pattern of a half-precision number in two bytes, the low one first.
pub open spec fn half_at(b: Seq<u8>) -> u32 {
    f16_widened((b[0] + b[1] * 256) as u16)
}

fn widen(b: &[u8; 2]) -> (r: u32)
    ensures
        r == half_at(b@),
{
    f16_to_f32_bits(b[0] as u16 + b[1] as u16 * 256)
}

/// The product of a block and a vector of bytes: the block's scale, and the sums over each
/// four elements.
#[derive(Clone, Copy, Debug)]
pub struct BlockDots {
    pub d: u32,
    pub lanes: [i32; 8],
}

/// The sum of the first `n` products of a block and the bytes from a place on.
pub open spec fn dot(qs: Seq<i8>, a: Seq<i8>, at: int, n: nat) -> int
    decreases n,
{
    if n == 0 {
        0
    } else {
        dot(qs, a, at, (n - 1) as nat) + qs[n - 1] * a[at + n - 1]
    }
}

/// The sum of the products of four elements.
pub open spec fn dot_of_four(qs: Seq<i8>, a: Seq<i8>, at: int, l: int) -> int {
    qs[4 * l] * a[at + 4 * l] + qs[4 * l + 1] * a[at + 4 * l + 1] + qs[4 * l + 2] * a[at + 4 * l
        + 2] + qs[4 * l + 3] * a[at + 4 * l + 3]
}

fn product(x: i8, y: i8) -> (r: i32)
    ensures
        r == x * y,
        -16256 <= r <= 16384,
{
    assert(-16256 <= x * y <= 16384) by (nonlinear_arith)
        requires
            -128 <= x <= 127,
            -128 <= y <= 127,
    ;
    x as i32 * y as i32
}

/// The products of a row of blocks and a vector of bytes, block by block. The element of the
/// result is the sum, over all blocks and lanes, of `d` times the vector's scale times the
/// lane.
pub fn gemv_q8_0_vnni(a_i8: &[i8], blocks: &[BlockQ8_0]) -> (r: Vec<BlockDots>)
    requires
        32 * blocks@.len() <= a_i8@.len(),
    ensures
        r@.len() == blocks@.len(),
        forall|b: int|
            0 <= b < r@.len() ==> {
                &&& (#[trigger] r@[b]).d == half_at(blocks@[b].d@)
                &&& forall|l: int|
                    0 <= l < 8 ==> #[trigger] r@[b].lanes@[l] == dot_of_four(
                        blocks@[b].qs@,
                        a_i8@,
                        32 * b,
                        l,
                    )
            },
{
    let mut out: Vec<BlockDots> = Vec::new();
    let _len: usize = a_i8.len();
    let mut b: usize = 0;
    while b < blocks.len()
        invariant
            b <= blocks@.len(),
            32 * blocks@.len() <= a_i8@.len() <= usize::MAX,
            out@.len() == b,
            forall|k: int|
                0 <= k < b ==> {
                    &&& (#[trigger] out@[k]).d == half_at(blocks@[k].d@)
                    &&& forall|l: int|
                        0 <= l < 8 ==> #[trigger] out@[k].lanes@[l] == dot_of_four(
                            blocks@[k].qs@,
                            a_i8@,
                            32 * k,
                            l,
                        )
                },
        decreases blocks@.len() - b,
    {
        let block = &blocks[b];
        let at: usize = 32 * b;
        let mut lanes: [i32; 8] = [0i32;8];
        let mut l: usize = 0;
        while l < 8
            invariant
                l <= 8,
                at + 32 <= a_i8@.len() <= usize::MAX,
                forall|k: int|
                    0 <= k < l ==> #[trigger] lanes@[k] == dot_of_four(
                        block.qs@,
                        a_i8@,
                        at as int,
                        k,
                    ),
            decreases 8 - l,
        {
            let i: usize = 4 * l;
            lanes[l] = product(block.qs[i], a_i8[at + i]) + product(
                block.qs[i + 1],
                a_i8[at + i + 1],
            ) + product(block.qs[i + 2], a_i8[at + i + 2]) + product(
                block.qs[i + 3],
                a_i8[at + i + 3],
            );
            l += 1;
        }
        out.push(BlockDots { d: widen(&block.d), lanes });
        b += 1;
    }
    out
}

/// The sums over each four elements add up to the product of the whole block.
pub proof fn law_lanes_make_dot(qs: Seq<i8>, a: Seq<i8>, at: int)
    ensures
        dot(qs, a, at, 32) == dot_of_four(qs, a, at, 0) + dot_of_four(qs, a, at, 1) + dot_of_four(
            qs,
            a,
            at,
            2,
        ) + dot_of_four(qs, a, at, 3) + dot_of_four(qs, a, at, 4) + dot_of_four(qs, a, at, 5)
            + dot_of_four(qs, a, at, 6) + dot_of_four(qs, a, at, 7),
{
    assert(dot(qs, a, at, 0) == 0);
    lemma_four_more(qs, a, at, 0);
    lemma_four_more(qs, a, at, 1);
    lemma_four_more(qs, a, at, 2);
    lemma_four_more(qs, a, at, 3);
    lemma_four_more(qs, a, at, 4);
    lemma_four_more(qs, a, at, 5);
    lemma_four_more(qs, a, at, 6);
    lemma_four_more(qs, a, at, 7);
}

proof fn lemma_four_more(qs: Seq<i8>, a: Seq<i8>, at: int, l: nat)
    ensures
        dot(qs, a, at, 4 * l + 4) == dot(qs, a, at, 4 * l) + dot_of_four(qs, a, at, l as int),
{
    reveal_with_fuel(dot, 5);
    assert(at + (4 * l + 1) - 1 == at + 4 * l);
    assert(at + (4 * l + 2) - 1 == at + 4 * l + 1);
    assert(at + (4 * l + 3) - 1 == at + 4 * l + 2);
    assert(at + (4 * l + 4) - 1 == at + 4 * l + 3);
}

/// The weights of a block: a scale and a minimum for each 32 elements, of which the first
/// sixteen are the low halves of sixteen bytes and the others the high halves.
pub open spec fn q4k_weight(block: BlockQ4K, i: int) -> Weight {
    let sb = i / 32;
    let s = block.scales@[sb / 2 + sb % 2 * 4];
    Weight {
        d: half_at(block.d@),
        dmin: half_at(block.dmin@),
        scale: (s as int % 64) as i16,
        min: (s as int / 64 + 4 * nibble(block.scales@[8 + sb / 2], sb % 2 == 1)) as i16,
        q: nibble(block.qs@[sb * 16 + i % 16], i % 32 >= 16) as i16,
        shift: 0,
    }
}

/// Decodes the weights of a block.
pub fn dequantize_q4_k_block_avx512(block: &BlockQ4K) -> (r: Vec<Weight>)
    ensures
        r@ == Seq::new(256, |i: int| q4k_weight(*block, i)),
{
    let d: u32 = widen(&block.d);
    let dmin: u32 = widen(&block.dmin);
    let mut out: Vec<Weight> = Vec::new();
    let mut i: usize = 0;
    while i < 256
        invariant
            i <= 256,
            d == half_at(block.d@),
            dmin == half_at(block.dmin@),
            out@ =~= Seq::new(i as nat, |i: int| q4k_weight(*block, i)),
        decreases 256 - i,
    {
        let sb: usize = i / 32;
        let s: u8 = block.scales[sb / 2 + sb % 2 * 4];
        let hi: u8 = get_nibble(block.scales[8 + sb / 2], sb % 2 == 1);
        let q: u8 = get_nibble(block.qs[sb * 16 + i % 16], i % 32 >= 16);
        out.push(
            Weight {
                d,
                dmin,
                scale: (s % 64) as i16,
                min: (s / 64) as i16 + 4 * hi as i16,
                q: q as i16,
                shift: 0,
            },
        );
        i += 1;
    }
    out
}

// ---------------------------------------------------------------------------
// Rows and matrices
// ---------------------------------------------------------------------------

/// The size of the `k`-th dimension from the last.
pub open spec fn from_last(shape: Seq<usize>, k: int) -> usize {
    shape[shape.len() - 1 - k]
}

proof fn lemma_last_product(shape: Seq<usize>)
    requires
        shape.len() > 0,
    ensures
        suffix_product(shape, shape.len() - 1) == from_last(shape, 0),
{
    let n = from_last(shape, 0) as nat;
    assert(suffix_product(shape, shape.len() as int) == 1);
    assert(suffix_product(shape, shape.len() - 1) == n * suffix_product(
        shape,
        shape.len() - 1 + 1,
    ));
    assert(n * 1 == n);
}

proof fn lemma_rows(shape: Seq<usize>, i: int)
    requires
        0 <= i < shape.len(),
        from_last(shape, 0) > 0,
    ensures
        suffix_product(shape, i) % from_last(shape, 0) as nat == 0,
    decreases shape.len() - i,
{
    let n = from_last(shape, 0) as int;
    if i == shape.len() - 1 {
        lemma_last_product(shape);
        vstd::arithmetic::div_mod::lemma_mod_self_0(n);
    } else {
        lemma_rows(shape, i + 1);
        vstd::arithmetic::div_mod::lemma_mul_mod_noop_right(
            shape[i] as int,
            suffix_product(shape, i + 1) as int,
            n,
        );
        assert(shape[i] as int * 0 == 0);
        vstd::arithmetic::div_mod::lemma_small_mod(0, n as nat);
        assert(suffix_product(shape, i) as int == shape[i] as int * suffix_product(
            shape,
            i + 1,
        ) as int);
    }
}

/// How many rows a tensor has along its last dimension, and how long they are.
pub fn rows(x: &CpuTensor) -> (r: (usize, usize))
    requires
        x.wf(),
        x.layout.shape@.len() >= 1,
        from_last(x.layout.shape@, 0) > 0,
    ensures
        r.1 == from_last(x.layout.shape@, 0),
        r.0 * r.1 == x.data@.len(),
{
    let shape = x.shape();
    let n: usize = shape[shape.len() - 1];
    let size: usize = x.size();
    proof {
        lemma_rows(x.layout.shape@, 0);
        lemma_fundamental_div_mod(size as int, n as int);
        assert(n * (size as int / n as int) == (size as int / n as int) * n) by (nonlinear_arith);
    }
    (size / n, n)
}

/// A row of a tensor along its last dimension.
pub fn row(x: &CpuTensor, r: usize) -> (s: &[u32])
    requires
        x.wf(),
        x.layout.shape@.len() >= 1,
        from_last(x.layout.shape@, 0) > 0,
        r < x.data@.len() / from_last(x.layout.shape@, 0) as nat,
    ensures
        s@ == x.data@.subrange(
            r * from_last(x.layout.shape@, 0),
            r * from_last(x.layout.shape@, 0) + from_last(x.layout.shape@, 0),
        ),
{
    let (count, n) = rows(x);
    proof {
        vstd::arithmetic::div_mod::lemma_div_by_multiple(count as int, n as int);
        assert(0 <= r * n && r * n + n <= count * n) by (nonlinear_arith)
            requires
                0 <= r < count,
                n >= 0,
        ;
    }
    vstd::slice::slice_subrange(x.data(), r * n, r * n + n)
}

/// Where the element `i` of a head lies at a position, in a tensor whose last dimensions are
/// positions, heads and elements.
pub fn rope_place(x: &CpuTensor, s: usize, h: usize, i: usize) -> (r: usize)
    requires
        x.wf(),
        x.data@.len() > 0,
        x.layout.shape@.len() >= 3,
        s < from_last(x.layout.shape@, 2),
        h < from_last(x.layout.shape@, 1),
        i < from_last(x.layout.shape@, 0),
    ensures
        r == (s * from_last(x.layout.shape@, 1) + h) * from_last(x.layout.shape@, 0) + i,
        r < x.data@.len(),
{
    let shape = x.shape();
    let head_dim: usize = shape[shape.len() - 1];
    let n_heads: usize = shape[shape.len() - 2];
    proof {
        let sh = x.layout.shape@;
        let seq_len = from_last(sh, 2);
        assert forall|k: int| 0 <= k < sh.len() implies #[trigger] sh[k] >= 1 by {
            if sh[k] == 0 {
                lemma_zero_dimension(sh, 0, k);
            }
        }
        lemma_suffix_at_most(sh, sh.len() - 3);
        lemma_last_product(sh);
        assert(suffix_product(sh, sh.len() - 2) == n_heads as nat * head_dim as nat);
        assert(suffix_product(sh, sh.len() - 3) == seq_len as nat * (n_heads as nat
            * head_dim as nat));
        let a = s * n_heads + h;
        assert(0 <= s * n_heads && a < seq_len * n_heads) by (nonlinear_arith)
            requires
                a == s * n_heads + h,
                0 <= s < seq_len,
                0 <= h < n_heads,
        ;
        assert(seq_len * (n_heads * head_dim) == (seq_len * n_heads) * head_dim)
            by (nonlinear_arith);
        assert(0 <= a * head_dim && a * head_dim + i < (seq_len * n_heads) * head_dim)
            by (nonlinear_arith)
            requires
                0 <= a < seq_len * n_heads,
                0 <= i < head_dim,
        ;
        assert(a <= a * head_dim) by (nonlinear_arith)
            requires
                a >= 0,
                head_dim >= 1,
        ;
    }
    (s * n_heads + h) * head_dim + i
}

/// Whether two matrices can be multiplied, the second one transposed or not.
pub open spec fn can_multiply(a: &CpuTensor, b: &CpuTensor, transpose_b: bool) -> bool {
    &&& a.layout.shape@.len() == 2
    &&& b.layout.shape@.len() == 2
    &&& a.layout.shape@[1] == b.layout.shape@[if transpose_b {
        1int
    } else {
        0
    }]
}

/// The number of columns of the product.
pub open spec fn product_columns(b: &CpuTensor, transpose_b: bool) -> usize {
    b.layout.shape@[if transpose_b {
        0int
    } else {
        1
    }]
}

/// The factors whose products add up to the element of a product of matrices, in order.
pub open spec fn matmul_terms(
    a: &CpuTensor,
    b: &CpuTensor,
    transpose_b: bool,
    i: usize,
    j: usize,
) -> Seq<(u32, u32)> {
    Seq::new(
        a.layout.shape@[1] as nat,
        |k: int|
            (
                a.at(seq![i, k as usize]),
                b.at(
                    if transpose_b {
                        seq![j, k as usize]
                    } else {
                        seq![k as usize, j]
                    },
                ),
            ),
    )
}

/// The factors of the element in row `i` and column `j` of the product of two matrices, the
/// second one transposed or not.
pub fn matmul(a: &CpuTensor, b: &CpuTensor, transpose_b: bool, i: usize, j: usize) -> (r: Vec<
    (u32, u32),
>)
    requires
        a.wf(),
        b.wf(),
        can_multiply(a, b, transpose_b),
        i < a.layout.shape@[0],
        j < product_columns(b, transpose_b),
    ensures
        r@ == matmul_terms(a, b, transpose_b, i, j),
{
    let n: usize = a.shape()[1];
    let mut out: Vec<(u32, u32)> = Vec::new();
    let mut k: usize = 0;
    while k < n
        invariant
            k <= n,
            n == a.layout.shape@[1],
            a.wf(),
            b.wf(),
            can_multiply(a, b, transpose_b),
            i < a.layout.shape@[0],
            j < product_columns(b, transpose_b),
            out@ =~= matmul_terms(a, b, transpose_b, i, j).take(k as int),
        decreases n - k,
    {
        let at_a: [usize; 2] = [i, k];
        let at_b: [usize; 2] = if transpose_b {
            [j, k]
        } else {
            [k, j]
        };
        assert(at_a@ =~= seq![i, k]);
        assert(at_b@ =~= if transpose_b {
            seq![j, k]
        } else {
            seq![k, j]
        });
        out.push((a.get(at_a.as_slice()), b.get(at_b.as_slice())));
        k += 1;
    }
    assert(matmul_terms(a, b, transpose_b, i, j).take(k as int) =~= matmul_terms(
        a,
        b,
        transpose_b,
        i,
        j,
    ));
    out
}

/// The lanes of a block add up to the products of its 32 bytes with the 32 entries that lie at its
/// place in the vector: each entry meets the byte of its own block.
pub proof fn law_block_meets_its_entries(a: &[i8], blocks: &[BlockQ8_0], r: Vec<BlockDots>, b: int)
    requires
        32 * blocks@.len() <= a@.len(),
        call_ensures(gemv_q8_0_vnni, (a, blocks), r),
        0 <= b < blocks@.len(),
    ensures
        r@.len() == blocks@.len(),
        crate::sums::total(|l: int| r@[b].lanes@[l] as int, 8) == crate::sums::total(
            |i: int| blocks@[b].qs@[i] * a@[32 * b + i],
            32,
        ),
        r@[b].d == f16_widened((blocks@[b].d@[0] + 256 * blocks@[b].d@[1]) as u16),
{
    let qs = blocks@[b].qs@;
    let f = |i: int| qs[i] * a@[32 * b + i];
    let g = |l: int| r@[b].lanes@[l] as int;
    lemma_dot_total(qs, a@, 32 * b, 32);
    law_lanes_make_dot(qs, a@, 32 * b);
    reveal_with_fuel(crate::sums::total, 9);
    assert(r@[b].d == half_at(blocks@[b].d@));
    assert forall|l: int| 0 <= l < 8 implies #[trigger] g(l) == dot_of_four(qs, a@, 32 * b, l) by {
        assert(r@[b].lanes@[l] == dot_of_four(qs, a@, 32 * b, l));
    }
    assert(g(0) + g(1) + g(2) + g(3) + g(4) + g(5) + g(6) + g(7) == dot(qs, a@, 32 * b, 32));
    assert(crate::sums::total(g, 8) == g(0) + g(1) + g(2) + g(3) + g(4) + g(5) + g(6) + g(7));
}

proof fn lemma_dot_total(qs: Seq<i8>, a: Seq<i8>, at: int, n: nat)
    ensures
        dot(qs, a, at, n) == crate::sums::total(|i: int| qs[i] * a[at + i], n),
    decreases n,
{
    let f = |i: int| qs[i] * a[at + i];
    if n > 0 {
        lemma_dot_total(qs, a, at, (n - 1) as nat);
        assert(f(n - 1) == qs[n - 1] * a[at + n - 1]);
    }
}

proof fn lemma_scale_parts(s: int, h: int, scale: int, min: int)
    requires
        0 <= s < 256,
        0 <= h < 16,
        scale == s % 64,
        min == s / 64 + 4 * h,
    ensures
        0 <= scale < 64,
        0 <= min < 64,
        scale + 64 * (min % 4) == s,
        min / 4 == h,
{
}

proof fn lemma_q4k_parts(block: BlockQ4K, i: int, sb: int)
    requires
        0 <= sb < 8,
        32 * sb <= i < 32 * sb + 32,
    ensures
        ({
            let s = block.scales@[sb / 2 + sb % 2 * 4];
            let h = nibble(block.scales@[8 + sb / 2], sb % 2 == 1);
            let w = q4k_weight(block, i);
            &&& w.scale == s as int % 64
            &&& w.min == s as int / 64 + 4 * h
            &&& 0 <= h < 16
            &&& w.q == nibble(block.qs@[sb * 16 + i % 16], i % 32 >= 16)
            &&& w.d == half_at(block.d@)
            &&& w.dmin == half_at(block.dmin@)
        }),
{
    assert(i / 32 == sb);
}

/// The elements of a block give its half-bytes back: two elements that lie sixteen apart make a
/// byte, and share the numbers of their part and of the block.
pub proof fn law_half_bytes_given_back(block: &BlockQ4K, r: Vec<Weight>, sb: int, k: int)
    requires
        call_ensures(dequantize_q4_k_block_avx512, (block,), r),
        0 <= sb < 8,
        0 <= k < 16,
    ensures
        r@.len() == 256,
        r@[32 * sb + k].q + 16 * r@[32 * sb + k + 16].q == block.qs@[16 * sb + k],
        0 <= r@[32 * sb + k].q < 16,
        r@[32 * sb + k].scale == r@[32 * sb + k + 16].scale,
        r@[32 * sb + k].min == r@[32 * sb + k + 16].min,
        r@[32 * sb + k].d == half_at(block.d@),
        r@[32 * sb + k + 16].d == half_at(block.d@),
        r@[32 * sb + k].dmin == half_at(block.dmin@),
        r@[32 * sb + k + 16].dmin == half_at(block.dmin@),
{
    let i = 32 * sb + k;
    lemma_q4k_parts(*block, i, sb);
    lemma_q4k_parts(*block, i + 16, sb);
    assert(i % 32 == k && (i + 16) % 32 == k + 16 && i % 16 == k && (i + 16) % 16 == k);
    assert(r@[i] == q4k_weight(*block, i));
    assert(r@[i + 16] == q4k_weight(*block, i + 16));
}

/// The scales and minima of a block give their bytes back: the scale of a part is the low six bits
/// of its byte, its minimum has the other two lowest, and the upper four of two parts' minima make
/// a byte behind them.
pub proof fn law_scales_given_back(block: &BlockQ4K, r: Vec<Weight>, p: int)
    requires
        call_ensures(dequantize_q4_k_block_avx512, (block,), r),
        0 <= p < 4,
    ensures
        r@.len() == 256,
        0 <= r@[64 * p].scale < 64,
        0 <= r@[64 * p].min < 64,
        r@[64 * p].scale + 64 * (r@[64 * p].min as int % 4) == block.scales@[p],
        r@[64 * p + 32].scale + 64 * (r@[64 * p + 32].min as int % 4) == block.scales@[4 + p],
        r@[64 * p].min as int / 4 + 16 * (r@[64 * p + 32].min as int / 4) == block.scales@[8 + p],
{
    let i = 64 * p;
    let w = q4k_weight(*block, i);
    let v = q4k_weight(*block, i + 32);
    lemma_q4k_parts(*block, i, 2 * p);
    lemma_q4k_parts(*block, i + 32, 2 * p + 1);
    assert(2 * p / 2 == p && 2 * p % 2 == 0 && (2 * p + 1) / 2 == p && (2 * p + 1) % 2 == 1);
    assert(r@[i] == w && r@[i + 32] == v);
    let b = block.scales@[8 + p];
    lemma_scale_parts(
        block.scales@[p] as int,
        nibble(b, false),
        w.scale as int,
        w.min as int,
    );
    lemma_scale_parts(
        block.scales@[4 + p] as int,
        nibble(b, true),
        v.scale as int,
        v.min as int,
    );
}

/// A row of a matrix holds what its indices read.
pub proof fn law_row_is_read(x: &CpuTensor, i: usize, s: &[u32], at: &[usize], read: u32)
    requires
        x.wf(),
        x.layout.shape@.len() == 2,
        i < x.layout.shape@[0],
        x.layout.shape@[1] > 0,
        call_ensures(row, (x, i), s),
        at@.len() == 2,
        at@[0] == i,
        at@[1] < x.layout.shape@[1],
        call_ensures(CpuTensor::get, (x, at), read),
    ensures
        s@.len() == x.layout.shape@[1],
        s@[at@[1] as int] == read,
{
    crate::tensors::tensor::law_matrix_in_rows(x, at, read);
    let c = x.layout.shape@[1] as int;
    let n = x.layout.shape@[0] as int;
    assert(i * c + c <= n * c) by (nonlinear_arith)
        requires
            0 <= i < n,
            c > 0,
    ;
}

/// The entry of a matrix in a row and a column.
pub open spec fn entry(t: &CpuTensor, i: usize, j: usize) -> u32 {
    t.at(seq![i, j])
}

/// The terms of an entry of a product: as many as the inner dimension, each the entry of the row
/// with the entry of the column at the same place; and a product with a transposed matrix has the
/// terms of the product with the matrix that it is the transpose of.
pub proof fn law_product_of_transposed(
    a: &CpuTensor,
    b: &CpuTensor,
    bt: &CpuTensor,
    i: usize,
    j: usize,
    plain: Vec<(u32, u32)>,
    transposed: Vec<(u32, u32)>,
)
    requires
        a.wf(),
        b.wf(),
        bt.wf(),
        can_multiply(a, b, false),
        can_multiply(a, bt, true),
        i < a.layout.shape@[0],
        j < b.layout.shape@[1],
        forall|k: usize|
            k < b.layout.shape@[0] ==> #[trigger] entry(b, k, j) == entry(bt, j, k),
        call_ensures(matmul, (a, b, false, i, j), plain),
        call_ensures(matmul, (a, bt, true, i, j), transposed),
    ensures
        plain@.len() == a.layout.shape@[1],
        plain@ == transposed@,
{
    assert forall|k: int| 0 <= k < plain@.len() implies plain@[k] == transposed@[k] by {
        assert(entry(b, k as usize, j) == entry(bt, j, k as usize));
    }
    assert(plain@ =~= transposed@);
}

/// Each term of an entry of a product is what the indices of the two matrices read.
pub proof fn law_terms_are_read(
    a: &CpuTensor,
    b: &CpuTensor,
    i: usize,
    j: usize,
    k: usize,
    r: Vec<(u32, u32)>,
    left_at: &[usize],
    right_at: &[usize],
    left: u32,
    right: u32,
)
    requires
        a.wf(),
        b.wf(),
        can_multiply(a, b, false),
        i < a.layout.shape@[0],
        j < b.layout.shape@[1],
        k < a.layout.shape@[1],
        call_ensures(matmul, (a, b, false, i, j), r),
        left_at@ == seq![i, k],
        right_at@ == seq![k, j],
        call_ensures(CpuTensor::get, (a, left_at), left),
        call_ensures(CpuTensor::get, (b, right_at), right),
    ensures
        r@[k as int] == (left, right),
{
}

/// The entries that a rotation turns lie position by position, in a position head by head, and in a
/// head one behind the other: no two have the same place.
pub proof fn law_rope_places(
    x: &CpuTensor,
    s: usize,
    h: usize,
    i: usize,
    r: usize,
    s2: usize,
    h2: usize,
    i2: usize,
    r2: usize,
)
    requires
        x.wf(),
        x.data@.len() > 0,
        x.layout.shape@.len() >= 3,
        s < from_last(x.layout.shape@, 2),
        h < from_last(x.layout.shape@, 1),
        i < from_last(x.layout.shape@, 0),
        s2 < from_last(x.layout.shape@, 2),
        h2 < from_last(x.layout.shape@, 1),
        i2 < from_last(x.layout.shape@, 0),
        call_ensures(rope_place, (x, s, h, i), r),
        call_ensures(rope_place, (x, s2, h2, i2), r2),
    ensures
        s == s2 && h == h2 ==> r2 - r == i2 - i,
        s == s2 && h < h2 ==> r < r2,
        s < s2 ==> r < r2,
        s == s2 && h == h2 && i == i2 <==> r == r2,
        s2 == s && h2 == h + 1 && i2 == i ==> r2 - r == from_last(x.layout.shape@, 0),
{
    let d = from_last(x.layout.shape@, 0) as int;
    let n = from_last(x.layout.shape@, 1) as int;
    lemma_rope_order(s as int, h as int, i as int, s2 as int, h2 as int, i2 as int, n, d);
    lemma_rope_order(s2 as int, h2 as int, i2 as int, s as int, h as int, i as int, n, d);
}

proof fn lemma_rope_order(s: int, h: int, i: int, s2: int, h2: int, i2: int, n: int, d: int)
    requires
        0 <= h < n,
        0 <= h2 < n,
        0 <= i < d,
        0 <= i2 < d,
    ensures
        s < s2 ==> (s * n + h) * d + i < (s2 * n + h2) * d + i2,
        s == s2 && h < h2 ==> (s * n + h) * d + i < (s2 * n + h2) * d + i2,
        s == s2 && h2 == h + 1 && i2 == i ==> (s2 * n + h2) * d + i2 - ((s * n + h) * d + i) == d,
{
    let p = s * n + h;
    let q = s2 * n + h2;
    if s < s2 {
        assert(p < q) by (nonlinear_arith)
            requires
                p == s * n + h,
                q == s2 * n + h2,
                s + 1 <= s2,
                0 <= h < n,
                0 <= h2,
        ;
    }
    if p < q {
        assert(p * d + d <= q * d) by (nonlinear_arith)
            requires
                p + 1 <= q,
                d > 0,
        ;
    }
    if s == s2 && h2 == h + 1 {
        assert(q * d == p * d + d) by (nonlinear_arith)
            requires
                q == p + 1,
        ;
    }
}

proof fn lemma_largest(s: Seq<i32>)
    requires
        s.len() > 0,
    ensures
        forall|i: int| 0 <= i < s.len() ==> #[trigger] s[i] <= largest(s),
        exists|i: int| 0 <= i < s.len() && #[trigger] s[i] == largest(s),
    decreases s.len(),
{
    if s.len() > 1 {
        let d = s.drop_last();
        lemma_largest(d);
        let k = choose|k: int| 0 <= k < d.len() && #[trigger] d[k] == largest(d);
        assert(s[k] == d[k]);
        assert(s[s.len() - 1] == s.last());
        assert forall|i: int| 0 <= i < s.len() implies #[trigger] s[i] <= largest(s) by {
            if i < d.len() {
                assert(d[i] == s[i]);
            }
        }
    } else {
        assert(s[0] == largest(s));
    }
}

proof fn lemma_same_weights(a: Seq<i32>, b: Seq<i32>, c: int, n: nat)
    requires
        a.len() == b.len(),
        a.len() > 0,
        n <= a.len(),
        forall|i: int| 0 <= i < a.len() ==> #[trigger] b[i] == a[i] + c,
    ensures
        largest(b) == largest(a) + c,
        forall|i: int| 0 <= i < a.len() ==> #[trigger] unscaled(b, i) == unscaled(a, i),
        unscaled_sum(b, n) == unscaled_sum(a, n),
    decreases n,
{
    lemma_largest(a);
    lemma_largest(b);
    let x = choose|x: int| 0 <= x < a.len() && #[trigger] a[x] == largest(a);
    let y = choose|y: int| 0 <= y < b.len() && #[trigger] b[y] == largest(b);
    assert(b[x] == a[x] + c && b[y] == a[y] + c);
    assert(b[x] <= largest(b) && a[y] <= largest(a));
    assert forall|i: int| 0 <= i < a.len() implies #[trigger] unscaled(b, i) == unscaled(a, i) by {
        assert(b[i] == a[i] + c);
    }
    if n > 0 {
        lemma_same_weights(a, b, c, (n - 1) as nat);
        assert(unscaled(b, n - 1) == unscaled(a, n - 1));
    }
}

/// The weights go by the differences of the scores: adding the same number to every score changes
/// none of them.
pub proof fn law_weights_by_difference(a: &[i32], b: &[i32], c: int, ra: Vec<i32>, rb: Vec<i32>)
    requires
        a@.len() >= 16,
        b@.len() == a@.len(),
        forall|i: int| 0 <= i < a@.len() ==> #[trigger] b@[i] == a@[i] + c,
        call_ensures(softmax_padic_avx512, (a,), ra),
        call_ensures(softmax_padic_avx512, (b,), rb),
    ensures
        ra@ == rb@,
{
    let m = (a@.len() / 16 * 16) as nat;
    lemma_same_weights(a@, b@, c, m);
    lemma_same_weights(a@, b@, c, a@.len());
    assert(weight_total(b@) == weight_total(a@));
    assert forall|i: int| 0 <= i < ra@.len() implies ra@[i] == rb@[i] by {
        assert(ra@[i] == softmax_weight(a@, i) && rb@[i] == softmax_weight(b@, i));
        assert(unscaled(b@, i) == unscaled(a@, i));
    }
    assert(ra@ =~= rb@);
}

/// The exponentials of a list are those of its numbers one by one, and their sum is that of all of
/// them.
pub proof fn law_exponentials_one_by_one(
    diffs: &[i32],
    exps: Vec<u32>,
    sum: u64,
    i: int,
    one: u32,
)
    requires
        diffs@.len() <= 0xFFFF_FFFF_FFFF,
        call_ensures(softmax_exps, (diffs,), (exps, sum)),
        0 <= i < diffs@.len(),
        call_ensures(exp_q16_16, (diffs@[i],), one),
    ensures
        exps@.len() == diffs@.len(),
        exps@[i] == one,
        sum == crate::sums::total(|k: int| exps@[k] as int, diffs@.len()),
{
    let f = |k: int| exps@[k] as int;
    let g = |k: int| spec_exp(diffs@[k] as int);
    lemma_exp_total(diffs@, diffs@.len());
    assert forall|k: int| 0 <= k < diffs@.len() implies #[trigger] f(k) == g(k) by {
        assert(exps@[k] == spec_exp(diffs@[k] as int));
    }
    crate::sums::lemma_total_same(f, g, diffs@.len());
}

proof fn lemma_exp_total(s: Seq<i32>, n: nat)
    ensures
        exp_sum(s, n) == crate::sums::total(|k: int| spec_exp(s[k] as int), n),
    decreases n,
{
    let g = |k: int| spec_exp(s[k] as int);
    if n > 0 {
        lemma_exp_total(s, (n - 1) as nat);
        assert(g(n - 1) == spec_exp(s[n - 1] as int));
    }
}

} // verus!
