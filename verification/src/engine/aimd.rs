//! Resource ramp: the budget doubles while all is well, and halves at the first sign of
//! stress. The budget is a power of two from an eighth to sixteen, and is kept in eighths.

use vstd::prelude::*;

use crate::ace::memory::age;
use crate::ace::memory::Clock;

verus! {

/// The least time between two assessments, in nanoseconds.
pub const INTERVAL: u64 = 500_000_000;

/// The largest window that is scaled here.
pub const MAX_BASE_K: u64 = 0x800_0000_0000_0000;

/// The state of the ramp.
pub struct Ramp {
    pub eighths: nat,
    pub stressed: bool,
    pub cycles: u64,
    pub halvings: u64,
    pub good: u64,
}

/// The state after an assessment.
pub open spec fn assessed(s: Ramp, stressed: bool, high_hit_rate: bool) -> Ramp {
    if stressed {
        Ramp {
            eighths: if s.eighths > 1 {
                s.eighths / 2
            } else {
                1
            },
            stressed: true,
            cycles: s.cycles.wrapping_add(1),
            halvings: s.halvings.wrapping_add(1),
            good: 0,
        }
    } else {
        Ramp {
            eighths: if s.eighths < 128 {
                s.eighths * 2
            } else {
                128
            },
            stressed: false,
            cycles: s.cycles.wrapping_add(1),
            halvings: s.halvings,
            good: if high_hit_rate {
                s.good.wrapping_add(1)
            } else {
                0
            },
        }
    }
}

/// The budgets that occur.
pub open spec fn is_budget(e: nat) -> bool {
    e == 1 || e == 2 || e == 4 || e == 8 || e == 16 || e == 32 || e == 64 || e == 128
}

/// A resource ramp.
pub struct AimdRamp {
    eighths: u32,
    stressed: bool,
    cycles: u64,
    halvings: u64,
    consecutive_good_steps: u64,
    last_assessment: u64,
    clock: Clock,
}

impl View for AimdRamp {
    type V = Ramp;

    closed spec fn view(&self) -> Ramp {
        Ramp {
            eighths: self.eighths as nat,
            stressed: self.stressed,
            cycles: self.cycles,
            halvings: self.halvings,
            good: self.consecutive_good_steps,
        }
    }
}

/// Whether `r` is the integer nearest to `base * sqrt(eighths / 8)`; of two, the larger.
pub open spec fn nearest_scaled(base: nat, eighths: nat, r: nat) -> bool {
    &&& r == 0 || 8 * ((2 * r - 1) * (2 * r - 1)) <= 4 * (base * base) * eighths
    &&& 4 * (base * base) * eighths < 8 * ((2 * r + 1) * (2 * r + 1))
}

/// Twice a number, as far as it goes.
pub open spec fn twice(n: usize) -> nat {
    if n <= usize::MAX / 2 {
        2 * n as nat
    } else {
        usize::MAX as nat
    }
}

/// `n` eighths of a number, rounded; halves up.
pub open spec fn rounded_eighths(base: nat, eighths: nat) -> nat {
    (base * eighths + 4) / 8
}

impl AimdRamp {
    pub open spec fn wf(&self) -> bool {
        is_budget(self@.eighths)
    }

    /// When the last assessment was.
    pub closed spec fn last(&self) -> u64 {
        self.last_assessment
    }

    /// A ramp at a budget of one.
    pub fn new() -> (r: AimdRamp)
        ensures
            r.wf(),
            r@ == (Ramp { eighths: 8, stressed: false, cycles: 0, halvings: 0, good: 0 }),
    {
        let clock = Clock::start();
        let now: u64 = clock.nanos();
        AimdRamp {
            eighths: 8,
            stressed: false,
            cycles: 0,
            halvings: 0,
            consecutive_good_steps: 0,
            last_assessment: now,
            clock,
        }
    }

    fn assess_inner(&mut self, stressed: bool, high_hit_rate: bool) -> (r: u32)
        requires
            old(self).wf(),
        ensures
            final(self).wf(),
            final(self)@ == assessed(old(self)@, stressed, high_hit_rate),
            final(self).last() == old(self).last(),
            r == final(self)@.eighths,
    {
        self.cycles = self.cycles.wrapping_add(1);
        if stressed {
            self.eighths = if self.eighths > 1 {
                self.eighths / 2
            } else {
                1
            };
            self.halvings = self.halvings.wrapping_add(1);
            self.stressed = true;
            self.consecutive_good_steps = 0;
        } else {
            self.eighths = if self.eighths < 128 {
                self.eighths * 2
            } else {
                128
            };
            self.stressed = false;
            if high_hit_rate {
                self.consecutive_good_steps = self.consecutive_good_steps.wrapping_add(1);
            } else {
                self.consecutive_good_steps = 0;
            }
        }
        self.eighths
    }

    /// Assesses the state of the system: stress at once, the rest unless the last assessment
    /// is too recent. `high_hit_rate` says that more than nine tenths of the prefetches were hits. Gives
    /// the budget in eighths.
    pub fn assess(&mut self, stressed: bool, high_hit_rate: bool) -> (r: u32)
        requires
            old(self).wf(),
        ensures
            final(self).wf(),
            r == final(self)@.eighths,
            exists|now: u64|
                if !stressed && #[trigger] age(now, old(self).last()) < INTERVAL {
                    final(self)@ == old(self)@ && final(self).last() == old(self).last()
                } else {
                    final(self)@ == assessed(old(self)@, stressed, high_hit_rate) && final(self).last() == now
                },
    {
        let now: u64 = self.clock.nanos();
        self.assess_at(stressed, high_hit_rate, now)
    }

    /// Assesses the state of the system at a time: stress at once, the rest unless the last
    /// assessment is too recent.
    pub fn assess_at(&mut self, stressed: bool, high_hit_rate: bool, now: u64) -> (r: u32)
        requires
            old(self).wf(),
        ensures
            final(self).wf(),
            r == final(self)@.eighths,
            if !stressed && age(now, old(self).last()) < INTERVAL {
                final(self)@ == old(self)@ && final(self).last() == old(self).last()
            } else {
                final(self)@ == assessed(old(self)@, stressed, high_hit_rate) && final(self).last() == now
            },
    {
        let elapsed: u64 = if now >= self.last_assessment {
            now - self.last_assessment
        } else {
            0
        };
        if !stressed && elapsed < INTERVAL {
            return self.eighths;
        }
        self.last_assessment = now;
        self.assess_inner(stressed, high_hit_rate)
    }

    /// Assesses the state of the system, however recent the last assessment is.
    pub fn force_assess(&mut self, stressed: bool, high_hit_rate: bool) -> (r: u32)
        requires
            old(self).wf(),
        ensures
            final(self).wf(),
            final(self)@ == assessed(old(self)@, stressed, high_hit_rate),
            r == final(self)@.eighths,
    {
        let now: u64 = self.clock.nanos();
        self.force_assess_at(stressed, high_hit_rate, now)
    }

    /// Assesses the state of the system at a time, however recent the last assessment is.
    pub fn force_assess_at(&mut self, stressed: bool, high_hit_rate: bool, now: u64) -> (r: u32)
        requires
            old(self).wf(),
        ensures
            final(self).wf(),
            final(self)@ == assessed(old(self)@, stressed, high_hit_rate),
            final(self).last() == now,
            r == final(self)@.eighths,
    {
        self.last_assessment = now;
        self.assess_inner(stressed, high_hit_rate)
    }

    /// Whether the last five assessments, or more, were all good.
    pub fn should_boost_k(&self) -> (r: bool)
        ensures
            r == (self@.good >= 5),
    {
        self.consecutive_good_steps >= 5
    }

    /// The budget in eighths.
    pub fn budget(&self) -> (r: u32)
        ensures
            r == self@.eighths,
    {
        self.eighths
    }

    /// Number of instances to run: the budget rounded up.
    pub fn concurrency(&self) -> (r: usize)
        requires
            self.wf(),
        ensures
            r == (self@.eighths + 7) / 8,
            r >= 1,
    {
        ((self.eighths + 7) / 8) as usize
    }

    /// Number of threads: a base number times the budget, rounded, from 1 to 12.
    pub fn scaled_threads(&self, base_threads: usize) -> (r: usize)
        requires
            self.wf(),
        ensures
            ({
                let s = rounded_eighths(base_threads as nat, self@.eighths);
                r == (if s < 1 {
                    1
                } else if s > 12 {
                    12
                } else {
                    s
                })
            }),
    {
        let e: u128 = self.eighths as u128;
        let b: u128 = base_threads as u128;
        assert(0 <= b * e <= 0xFFFF_FFFF_FFFF_FFFF * 128) by (nonlinear_arith)
            requires
                b <= 0xFFFF_FFFF_FFFF_FFFF,
                e <= 128,
        ;
        let s: u128 = (b * e + 4) / 8;
        if s < 1 {
            1
        } else if s > 12 {
            12
        } else {
            s as usize
        }
    }

    pub fn cycles(&self) -> (r: u64)
        ensures
            r == self@.cycles,
    {
        self.cycles
    }

    pub fn halvings(&self) -> (r: u64)
        ensures
            r == self@.halvings,
    {
        self.halvings
    }

    pub fn just_stressed(&self) -> (r: bool)
        ensures
            r == self@.stressed,
    {
        self.stressed
    }

    pub fn consecutive_good(&self) -> (r: u64)
        ensures
            r == self@.good,
    {
        self.consecutive_good_steps
    }

    /// Scales a prefetch window by the square root of the budget: the nearest whole number,
    /// at least 1, and at most twice the window.
    pub fn scaled_k(&self, base_k: usize) -> (r: usize)
        requires
            self.wf(),
            base_k <= MAX_BASE_K,
        ensures
            exists|s: nat|
                {
                    &&& #[trigger] nearest_scaled(base_k as nat, self@.eighths, s)
                    &&& r == (if s < 1 && base_k >= 1 {
                        1
                    } else if s > twice(base_k) {
                        twice(base_k)
                    } else {
                        s
                    })
                },
    {
        let s: u128 = self.nearest_k(base_k);
        let k: u128 = if s < 1 {
            1
        } else {
            s
        };
        let most: usize = if base_k <= usize::MAX / 2 {
            2 * base_k
        } else {
            usize::MAX
        };
        assert(nearest_scaled(base_k as nat, self@.eighths, s as nat));
        if k < most as u128 {
            k as usize
        } else {
            most
        }
    }

    fn nearest_k(&self, base_k: usize) -> (s: u128)
        requires
            self.wf(),
            base_k <= MAX_BASE_K,
        ensures
            nearest_scaled(base_k as nat, self@.eighths, s as nat),
    {
        let e: u128 = self.eighths as u128;
        let b: u128 = base_k as u128;
        assert(0 <= b * b <= 0x40_0000_0000_0000_0000_0000_0000_0000) by (nonlinear_arith)
            requires
                b <= 0x800_0000_0000_0000,
        ;
        let bb: u128 = b * b;
        assert(0 <= bb * e <= 0x2000_0000_0000_0000_0000_0000_0000_0000) by (nonlinear_arith)
            requires
                bb <= 0x40_0000_0000_0000_0000_0000_0000_0000,
                e <= 128,
        ;
        assert(4 * bb * e == 4 * (bb * e)) by (nonlinear_arith);
        let y: u128 = 4 * (bb * e);
        let mut lo: u128 = 0;
        let mut hi: u128 = 4 * b + 1;
        assert(y < 8 * ((2 * hi + 1) * (2 * hi + 1))) by (nonlinear_arith)
            requires
                hi == 4 * b + 1,
                e <= 128,
                y == 4 * ((b * b) * e),
        ;
        while lo < hi
            invariant
                y == 4 * (bb * e),
                bb == b * b,
                b <= 0x800_0000_0000_0000,
                lo <= hi <= 4 * b + 1,
                lo == 0 || 8 * ((2 * lo - 1) * (2 * lo - 1)) <= y,
                y < 8 * ((2 * hi + 1) * (2 * hi + 1)),
            decreases hi - lo,
        {
            let mid: u128 = lo + (hi - lo) / 2;
            assert(0 <= (2 * mid + 1) * (2 * mid + 1) <= 0x1010_0000_0000_0000_0000_0000_0000_0000)
                by (nonlinear_arith)
                requires
                    mid <= 0x2000_0000_0000_0001,
            ;
            if y < 8 * ((2 * mid + 1) * (2 * mid + 1)) {
                hi = mid;
            } else {
                assert(2 * (mid + 1) - 1 == 2 * mid + 1);
                lo = mid + 1;
            }
        }
        lo
    }

    /// The largest prefetch window that the bandwidth allows: the whole layers among the
    /// bytes that a step of 50 ms transfers, from 1 to 32.
    pub fn k_max_from_bandwidth(&self, bytes_per_step: u64, layer_bytes: usize) -> (r: usize)
        ensures
            ({
                let n = bytes_per_step as nat / (if layer_bytes >= 1 {
                    layer_bytes as nat
                } else {
                    1
                });
                r == (if n < 1 {
                    1
                } else if n > 32 {
                    32
                } else {
                    n
                })
            }),
    {
        let d: u64 = if layer_bytes >= 1 {
            layer_bytes as u64
        } else {
            1
        };
        let n: u64 = bytes_per_step / d;
        if n < 1 {
            1
        } else if n > 32 {
            32
        } else {
            n as usize
        }
    }
}

/// The nearest whole number is one number.
pub proof fn law_nearest_unique(base: nat, eighths: nat, r: nat, s: nat)
    requires
        nearest_scaled(base, eighths, r),
        nearest_scaled(base, eighths, s),
    ensures
        r == s,
{
    let y = 4 * (base * base) * eighths;
    if r < s {
        assert((2 * r + 1) * (2 * r + 1) <= (2 * s - 1) * (2 * s - 1)) by (nonlinear_arith)
            requires
                0 <= r < s,
        ;
    }
    if s < r {
        assert((2 * s + 1) * (2 * s + 1) <= (2 * r - 1) * (2 * r - 1)) by (nonlinear_arith)
            requires
                0 <= s < r,
        ;
    }
}

/// However it is assessed, the budget stays a power of two from an eighth to sixteen; stress
/// halves it at once, and its absence doubles it, within these limits.
pub proof fn law_budget_steps(s: Ramp, stressed: bool, high_hit_rate: bool)
    requires
        is_budget(s.eighths),
    ensures
        is_budget(assessed(s, stressed, high_hit_rate).eighths),
        stressed && s.eighths > 1 ==> 2 * assessed(s, stressed, high_hit_rate).eighths == s.eighths,
        !stressed && s.eighths < 128 ==> assessed(s, stressed, high_hit_rate).eighths == 2
            * s.eighths,
{
}

/// As many instances run as the budget holds in part or whole.
pub proof fn law_concurrency_covers(a: &AimdRamp, r: usize)
    requires
        a.wf(),
        call_ensures(AimdRamp::concurrency, (a,), r),
    ensures
        8 * (r - 1) < a@.eighths <= 8 * r,
{
}

/// The number of threads is nearest to the share of the base that the budget is, from 1 to 12.
pub proof fn law_threads_nearest_share(a: &AimdRamp, base: usize, r: usize)
    requires
        a.wf(),
        call_ensures(AimdRamp::scaled_threads, (a, base), r),
    ensures
        1 <= r <= 12,
        1 < r < 12 ==> -4 < 8 * r - base * a@.eighths <= 4,
        r == 1 ==> base * a@.eighths < 12,
        r == 12 ==> base * a@.eighths >= 92,
        a@.eighths == 8 && 1 <= base <= 12 ==> r == base,
{
}

/// At a budget of one a window stays as it is; at four times that it is twice as long, at a
/// quarter half as long.
pub proof fn law_window_by_root(a: &AimdRamp, base: usize, r: usize)
    requires
        a.wf(),
        base <= MAX_BASE_K,
        base <= usize::MAX / 2,
        call_ensures(AimdRamp::scaled_k, (a, base), r),
    ensures
        a@.eighths == 8 ==> r == base,
        a@.eighths == 32 ==> r == 2 * base,
        a@.eighths == 2 && base >= 2 ==> base <= 2 * r <= base + 1,
        base >= 1 ==> 1 <= r <= 2 * base,
{
    let e = a@.eighths;
    let b = base as nat;
    let s = choose|s: nat|
        {
            &&& #[trigger] nearest_scaled(b, e, s)
            &&& r == (if s < 1 && base >= 1 {
                1
            } else if s > twice(base) {
                twice(base)
            } else {
                s
            })
        };
    if e == 8 {
        assert(nearest_scaled(b, 8, b)) by {
            assert(b >= 1 ==> 8 * ((2 * b - 1) * (2 * b - 1)) <= 4 * (b * b) * 8) by (nonlinear_arith)
                requires
                    b >= 0,
            ;
            assert(4 * (b * b) * 8 < 8 * ((2 * b + 1) * (2 * b + 1))) by (nonlinear_arith)
                requires
                    b >= 0,
            ;
        }
        law_nearest_unique(b, e, s, b);
    } else if e == 32 {
        let t = 2 * b;
        assert(nearest_scaled(b, 32, t)) by {
            assert(t >= 1 ==> 8 * ((2 * t - 1) * (2 * t - 1)) <= 4 * (b * b) * 32)
                by (nonlinear_arith)
                requires
                    t == 2 * b,
                    b >= 0,
            ;
            assert(4 * (b * b) * 32 < 8 * ((2 * t + 1) * (2 * t + 1))) by (nonlinear_arith)
                requires
                    t == 2 * b,
                    b >= 0,
            ;
        }
        law_nearest_unique(b, e, s, t);
    } else if e == 2 {
        let t = (b + 1) / 2;
        assert(b <= 2 * t <= b + 1);
        assert(nearest_scaled(b, 2, t)) by {
            assert(t >= 1 ==> 8 * ((2 * t - 1) * (2 * t - 1)) <= 4 * (b * b) * 2) by (nonlinear_arith)
                requires
                    b <= 2 * t <= b + 1,
                    b >= 0,
                    t >= 0,
            ;
            assert(4 * (b * b) * 2 < 8 * ((2 * t + 1) * (2 * t + 1))) by (nonlinear_arith)
                requires
                    b <= 2 * t <= b + 1,
                    b >= 0,
            ;
        }
        law_nearest_unique(b, e, s, t);
    }
}

/// A larger budget never makes a window shorter.
pub proof fn law_window_grows(base: nat, e: nat, f: nat, r: nat, s: nat)
    requires
        e <= f,
        nearest_scaled(base, e, r),
        nearest_scaled(base, f, s),
    ensures
        r <= s,
{
    if s < r {
        let b = 4 * (base * base);
        assert(b * e <= b * f) by (nonlinear_arith)
            requires
                e <= f,
                b >= 0,
        ;
        assert(8 * ((2 * s + 1) * (2 * s + 1)) <= 8 * ((2 * r - 1) * (2 * r - 1)))
            by (nonlinear_arith)
            requires
                s + 1 <= r,
                s >= 0,
        ;
        assert(b >= 0) by (nonlinear_arith)
            requires
                b == 4 * (base * base),
        ;
    }
}

/// The largest window is the largest number of layers that a step can carry, from 1 to 32.
pub proof fn law_window_fits_step(a: &AimdRamp, bytes: u64, layer: usize, r: usize)
    requires
        layer >= 1,
        call_ensures(AimdRamp::k_max_from_bandwidth, (a, bytes, layer), r),
    ensures
        1 <= r <= 32,
        r > 1 ==> r * layer <= bytes,
        r < 32 ==> bytes < (r + 1) * layer,
{
    let q = bytes as int / layer as int;
    vstd::arithmetic::div_mod::lemma_fundamental_div_mod(bytes as int, layer as int);
    vstd::arithmetic::div_mod::lemma_mod_bound(bytes as int, layer as int);
    assert(layer * q == q * layer && (q + 1) * layer == q * layer + layer) by (nonlinear_arith);
    assert(r <= q ==> r * layer <= q * layer) by (nonlinear_arith)
        requires
            layer >= 1,
    ;
    assert(q <= r ==> (q + 1) * layer <= (r + 1) * layer) by (nonlinear_arith)
        requires
            layer >= 1,
    ;
}

/// A window is boosted after five good assessments in a row, and stress or a bad one begins the
/// count anew.
pub proof fn law_five_good(s: Ramp, stressed: bool, high: bool)
    requires
        s.good < u64::MAX,
    ensures
        assessed(s, stressed, high).good == (if !stressed && high {
            s.good + 1
        } else {
            0
        }),
        assessed(s, stressed, high).stressed == stressed,
        s.halvings < u64::MAX ==> assessed(s, stressed, high).halvings == s.halvings + (if stressed {
            1int
        } else {
            0
        }),
        s.cycles < u64::MAX ==> assessed(s, stressed, high).cycles == s.cycles + 1,
{
}

/// A window is boosted from five good assessments in a row on.
pub proof fn law_boost_at_five(a: &AimdRamp, r: bool, n: u64)
    requires
        call_ensures(AimdRamp::should_boost_k, (a,), r),
        call_ensures(AimdRamp::consecutive_good, (a,), n),
    ensures
        r <==> n > 4,
{
}

} // verus!
