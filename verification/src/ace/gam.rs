//! Adaptive choice of the effort of a morph, so that it stays within its time limit.

use vstd::prelude::*;

verus! {

/// How thorough a morph is meant to be.
#[derive(Clone, Copy, Debug, PartialEq, Eq, Structural)]
pub enum DepthMode {
    Surface,
    Deep,
    Exhaustive,
}

/// The urgency of a morph: `High` above 0.8, `Low` below 0.2.
#[derive(Clone, Copy, Debug, PartialEq, Eq, Structural)]
pub enum Urgency {
    Low,
    Normal,
    High,
}

/// The thermal headroom of the chip: `Hot` below 0.25, `Cool` above 0.75.
#[derive(Clone, Copy, Debug, PartialEq, Eq, Structural)]
pub enum Headroom {
    Hot,
    Normal,
    Cool,
}

/// The effort of a morph.
#[derive(Clone, Copy, Debug, PartialEq, Eq, Structural)]
pub struct GamParams {
    pub k: usize,
    pub sinkhorn_iters: usize,
    pub early_term: bool,
}

/// Latency units in a millisecond: a unit is a thirtieth of a nanosecond.
pub const UNITS_PER_MS: u128 = 30_000_000;

/// Tenths of the nominal time per pair: less while the data of `n` concepts fits in a
/// faster memory.
pub open spec fn cache_tenths(n: nat) -> nat {
    if n <= 750 {
        5
    } else if n <= 8_000 {
        7
    } else if n <= 125_000 {
        10
    } else {
        25
    }
}

/// The predicted latency of a morph of `n` concepts with `k` partners each, in units: 35
/// cycles a pair at 3 GHz, times the cache factor.
pub open spec fn latency(k: nat, n: nat) -> nat {
    n * k * 35 * cache_tenths(n)
}

/// Whether the predicted latency is below a number of milliseconds.
pub open spec fn below(k: nat, n: nat, ms: nat) -> bool {
    latency(k, n) < ms * 30_000_000
}

/// Whether the predicted latency is above a number of milliseconds.
pub open spec fn above(k: nat, n: nat, ms: nat) -> bool {
    latency(k, n) > ms * 30_000_000
}

/// The largest and the usual `k` for a number of concepts.
pub open spec fn k_range(n: nat) -> (nat, nat) {
    if n <= 1000 {
        (128, 64)
    } else if n <= 2500 {
        (64, 32)
    } else if n <= 5000 {
        (32, 32)
    } else if n <= 10000 {
        (16, 16)
    } else {
        (8, 8)
    }
}

pub open spec fn max(a: nat, b: nat) -> nat {
    if a >= b {
        a
    } else {
        b
    }
}

pub open spec fn min(a: nat, b: nat) -> nat {
    if a <= b {
        a
    } else {
        b
    }
}

/// The effort as numbers.
pub struct Effort {
    pub k: nat,
    pub iters: nat,
    pub early: bool,
}

pub open spec fn by_depth(n: nat, depth: DepthMode) -> Effort {
    let (k_max, k_default) = k_range(n);
    match depth {
        DepthMode::Surface => Effort { k: max(k_default, 8) / 2, iters: 15, early: true },
        DepthMode::Deep => Effort { k: k_default, iters: 25, early: false },
        DepthMode::Exhaustive => Effort { k: k_max, iters: 40, early: false },
    }
}

/// `iters` less `d`, at least 10.
pub open spec fn fewer(iters: nat, d: nat) -> nat {
    max(10, if iters >= d {
        (iters - d) as nat
    } else {
        0
    })
}

pub open spec fn by_urgency(e: Effort, n: nat, urgency: Urgency) -> Effort {
    let k2 = min(e.k * 2, k_range(n).0);
    match urgency {
        Urgency::High => Effort { k: max(e.k, 8) / 2, iters: fewer(e.iters, 10), ..e },
        Urgency::Normal => e,
        Urgency::Low => if below(k2, n, 20) {
            Effort { k: k2, ..e }
        } else {
            e
        },
    }
}

pub open spec fn by_headroom(e: Effort, n: nat, headroom: Headroom) -> Effort {
    let k16 = min(e.k + 16, k_range(n).0);
    match headroom {
        Headroom::Hot => Effort { k: max(e.k, 8) / 2, iters: fewer(e.iters, 15), ..e },
        Headroom::Normal => e,
        Headroom::Cool => if below(k16, n, 10) {
            Effort { k: k16, ..e }
        } else {
            e
        },
    }
}

pub open spec fn by_recent(e: Effort, n: nat, n_recent: nat) -> Effort {
    if 0 < n_recent && n_recent < n / 4 {
        if n_recent <= 1000 {
            Effort { k: min(e.k * 2, 128), ..e }
        } else if n_recent <= 2500 {
            Effort { k: min(e.k * 2, 64), ..e }
        } else {
            e
        }
    } else {
        e
    }
}

/// `k` lowered in steps of 8, not below 8, while the latency is above 33 ms.
pub open spec fn settled(k: nat, n: nat) -> nat
    decreases k,
{
    if k > 8 && above(k, n, 33) {
        settled(max((k - 8) as nat, 8), n)
    } else {
        k
    }
}

pub open spec fn by_limit(e: Effort, n: nat) -> Effort {
    let k = settled(e.k, n);
    if above(k, n, 33) {
        Effort { k, iters: 10, early: true }
    } else {
        Effort { k, ..e }
    }
}

/// The effort for `n` active concepts of which `n_recent` were used lately.
pub open spec fn chosen(
    n: nat,
    urgency: Urgency,
    depth: DepthMode,
    headroom: Headroom,
    n_recent: nat,
) -> Effort {
    let e = by_headroom(by_urgency(by_depth(n, depth), n, urgency), n, headroom);
    by_limit(by_recent(e, n, n_recent), n)
}

/// The predicted latency of a morph, in units, or the largest number where it does not fit.
pub fn predict_latency(k: usize, n: usize) -> (r: u128)
    ensures
        r == (if latency(k as nat, n as nat) <= u128::MAX {
            latency(k as nat, n as nat)
        } else {
            u128::MAX as nat
        }),
{
    let tenths: u128 = if n <= 750 {
        5
    } else if n <= 8_000 {
        7
    } else if n <= 125_000 {
        10
    } else {
        25
    };
    assert(0 <= n * k <= 0xFFFF_FFFF_FFFF_FFFF * 0xFFFF_FFFF_FFFF_FFFF) by (nonlinear_arith)
        requires
            n <= 0xFFFF_FFFF_FFFF_FFFF,
            k <= 0xFFFF_FFFF_FFFF_FFFF,
    ;
    let pairs: u128 = n as u128 * k as u128;
    let factor: u128 = 35 * tenths;
    assert(pairs * factor == n * k * 35 * tenths) by (nonlinear_arith)
        requires
            pairs == n * k,
            factor == 35 * tenths,
    ;
    match pairs.checked_mul(factor) {
        Some(v) => v,
        None => u128::MAX,
    }
}

fn is_below(k: usize, n: usize, ms: u128) -> (r: bool)
    requires
        ms <= 100,
    ensures
        r == below(k as nat, n as nat, ms as nat),
{
    predict_latency(k, n) < ms * UNITS_PER_MS
}

fn is_above(k: usize, n: usize, ms: u128) -> (r: bool)
    requires
        ms <= 100,
    ensures
        r == above(k as nat, n as nat, ms as nat),
{
    predict_latency(k, n) > ms * UNITS_PER_MS
}

fn halved(k: usize) -> (r: usize)
    ensures
        r == max(k as nat, 8) / 2,
{
    (if k >= 8 {
        k
    } else {
        8
    }) / 2
}

fn reduced(iters: usize, d: usize) -> (r: usize)
    ensures
        r == fewer(iters as nat, d as nat),
{
    let v = if iters >= d {
        iters - d
    } else {
        0
    };
    if v >= 10 {
        v
    } else {
        10
    }
}

fn at_most(k: usize, limit: usize) -> (r: usize)
    ensures
        r == min(k as nat, limit as nat),
{
    if k <= limit {
        k
    } else {
        limit
    }
}

impl GamParams {
    pub open spec fn effort(self) -> Effort {
        Effort { k: self.k as nat, iters: self.sinkhorn_iters as nat, early: self.early_term }
    }

    /// The bounds that every step keeps.
    pub open spec fn bounded(self) -> bool {
        4 <= self.k <= 128 && 10 <= self.sinkhorn_iters <= 40
    }
}

fn k_limits(n: usize) -> (r: (usize, usize))
    ensures
        (r.0 as nat, r.1 as nat) == k_range(n as nat),
        8 <= r.1 <= r.0 <= 128,
{
    if n <= 1000 {
        (128, 64)
    } else if n <= 2500 {
        (64, 32)
    } else if n <= 5000 {
        (32, 32)
    } else if n <= 10000 {
        (16, 16)
    } else {
        (8, 8)
    }
}

fn for_depth(n: usize, depth: DepthMode) -> (r: GamParams)
    ensures
        r.effort() == by_depth(n as nat, depth),
        r.bounded(),
{
    let (k_max, k_default) = k_limits(n);
    match depth {
        DepthMode::Surface => GamParams {
            k: halved(k_default),
            sinkhorn_iters: 15,
            early_term: true,
        },
        DepthMode::Deep => GamParams { k: k_default, sinkhorn_iters: 25, early_term: false },
        DepthMode::Exhaustive => GamParams { k: k_max, sinkhorn_iters: 40, early_term: false },
    }
}

fn for_urgency(p: GamParams, n: usize, urgency: Urgency) -> (r: GamParams)
    requires
        p.bounded(),
    ensures
        r.effort() == by_urgency(p.effort(), n as nat, urgency),
        r.bounded(),
{
    match urgency {
        Urgency::High => GamParams {
            k: halved(p.k),
            sinkhorn_iters: reduced(p.sinkhorn_iters, 10),
            early_term: p.early_term,
        },
        Urgency::Normal => p,
        Urgency::Low => {
            let k2 = at_most(p.k * 2, k_limits(n).0);
            if is_below(k2, n, 20) {
                GamParams { k: k2, sinkhorn_iters: p.sinkhorn_iters, early_term: p.early_term }
            } else {
                p
            }
        },
    }
}

fn for_headroom(p: GamParams, n: usize, headroom: Headroom) -> (r: GamParams)
    requires
        p.bounded(),
    ensures
        r.effort() == by_headroom(p.effort(), n as nat, headroom),
        r.bounded(),
{
    match headroom {
        Headroom::Hot => GamParams {
            k: halved(p.k),
            sinkhorn_iters: reduced(p.sinkhorn_iters, 15),
            early_term: p.early_term,
        },
        Headroom::Normal => p,
        Headroom::Cool => {
            let k16 = at_most(p.k + 16, k_limits(n).0);
            if is_below(k16, n, 10) {
                GamParams { k: k16, sinkhorn_iters: p.sinkhorn_iters, early_term: p.early_term }
            } else {
                p
            }
        },
    }
}

fn for_recent(p: GamParams, n: usize, n_recent: usize) -> (r: GamParams)
    requires
        p.bounded(),
    ensures
        r.effort() == by_recent(p.effort(), n as nat, n_recent as nat),
        r.bounded(),
{
    let mut k: usize = p.k;
    if n_recent > 0 && n_recent < n / 4 {
        if n_recent <= 1000 {
            k = at_most(k * 2, 128);
        } else if n_recent <= 2500 {
            k = at_most(k * 2, 64);
        }
    }
    GamParams { k, sinkhorn_iters: p.sinkhorn_iters, early_term: p.early_term }
}

fn for_limit(p: GamParams, n: usize) -> (r: GamParams)
    requires
        p.bounded(),
    ensures
        r.effort() == by_limit(p.effort(), n as nat),
        r.bounded(),
{
    let mut k: usize = p.k;
    while k > 8 && is_above(k, n, 33)
        invariant
            4 <= k <= 128,
            settled(k as nat, n as nat) == settled(p.k as nat, n as nat),
        decreases k,
    {
        k = if k - 8 >= 8 {
            k - 8
        } else {
            8
        };
    }
    if is_above(k, n, 33) {
        GamParams { k, sinkhorn_iters: 10, early_term: true }
    } else {
        GamParams { k, sinkhorn_iters: p.sinkhorn_iters, early_term: p.early_term }
    }
}

/// Chooses the effort of a morph.
pub fn adaptive_k(
    n_active: usize,
    urgency: Urgency,
    depth: DepthMode,
    headroom: Headroom,
    n_recent: usize,
) -> (r: GamParams)
    ensures
        r.effort() == chosen(n_active as nat, urgency, depth, headroom, n_recent as nat),
        r.bounded(),
{
    let p = for_depth(n_active, depth);
    let p = for_urgency(p, n_active, urgency);
    let p = for_headroom(p, n_active, headroom);
    let p = for_recent(p, n_active, n_recent);
    for_limit(p, n_active)
}

/// The time limit: a chosen effort is predicted to stay within 33 ms, or else is the least
/// there is: at most 8 partners, 10 iterations and early termination.
pub proof fn law_time_limit(
    n: nat,
    urgency: Urgency,
    depth: DepthMode,
    headroom: Headroom,
    n_recent: nat,
)
    ensures
        ({
            let e = chosen(n, urgency, depth, headroom, n_recent);
            !above(e.k, n, 33) || (e.k <= 8 && e.iters == 10 && e.early)
        }),
{
    let e = by_recent(
        by_headroom(by_urgency(by_depth(n, depth), n, urgency), n, headroom),
        n,
        n_recent,
    );
    lemma_settled(e.k, n);
}

proof fn lemma_settled(k: nat, n: nat)
    ensures
        settled(k, n) <= 8 || !above(settled(k, n), n, 33),
        settled(k, n) <= k,
    decreases k,
{
    if k > 8 && above(k, n, 33) {
        lemma_settled(max((k - 8) as nat, 8), n);
    }
}

/// More partners never take less time.
pub proof fn law_latency_monotone(k1: nat, k2: nat, n: nat)
    requires
        k1 <= k2,
    ensures
        latency(k1, n) <= latency(k2, n),
{
    let t = cache_tenths(n);
    assert(n * k1 * 35 * t <= n * k2 * 35 * t) by (nonlinear_arith)
        requires
            k1 <= k2,
    ;
}

proof fn lemma_short_latency(k: nat, n: nat)
    requires
        n <= 125_000,
        k <= 2 * k_range(n).0,
    ensures
        !above(k, n, 33),
        k <= k_range(n).0 ==> below(k, n, 20),
        k <= k_range(n).0 && n <= 100_000 ==> below(k, n, 10),
        settled(k, n) == k,
{
    let top = k_range(n).0;
    let t = cache_tenths(n);
    assert(n * top <= 1_000_000) by (nonlinear_arith)
        requires
            n <= 1000 ==> top == 128,
            1000 < n <= 2500 ==> top == 64,
            2500 < n <= 5000 ==> top == 32,
            5000 < n <= 10000 ==> top == 16,
            n > 10000 ==> top == 8,
            n <= 125_000,
    ;
    assert(n * k <= 2_000_000) by (nonlinear_arith)
        requires
            k <= 2 * top,
            n * top <= 1_000_000,
    ;
    let nk = n * k;
    assert(nk * 35 * t <= nk * 350) by (nonlinear_arith)
        requires
            0 <= t <= 10,
            nk >= 0,
    ;
    if k <= top {
        assert(nk <= 1_000_000) by (nonlinear_arith)
            requires
                nk == n * k,
                k <= top,
                n * top <= 1_000_000,
        ;
        if n <= 100_000 {
            assert(n * top <= 800_000) by (nonlinear_arith)
                requires
                    n <= 1000 ==> top == 128,
                    1000 < n <= 2500 ==> top == 64,
                    2500 < n <= 5000 ==> top == 32,
                    5000 < n <= 10000 ==> top == 16,
                    n > 10000 ==> top == 8,
                    n <= 100_000,
            ;
            assert(nk <= 800_000) by (nonlinear_arith)
                requires
                    nk == n * k,
                    k <= top,
                    n * top <= 800_000,
            ;
        }
    }
}

/// How deep a search goes sets what it does: the wider, the fewer concepts there are, and the more
/// rounds, the deeper it is; only a search of the surface stops early.
pub proof fn law_depth_sets_effort(n: usize, surface: GamParams, deep: GamParams, exhaustive: GamParams)
    requires
        n <= 125_000,
        call_ensures(
            adaptive_k,
            (n, Urgency::Normal, DepthMode::Surface, Headroom::Normal, 0usize),
            surface,
        ),
        call_ensures(
            adaptive_k,
            (n, Urgency::Normal, DepthMode::Deep, Headroom::Normal, 0usize),
            deep,
        ),
        call_ensures(
            adaptive_k,
            (n, Urgency::Normal, DepthMode::Exhaustive, Headroom::Normal, 0usize),
            exhaustive,
        ),
    ensures
        surface.sinkhorn_iters == 15 && surface.early_term,
        deep.sinkhorn_iters == 25 && !deep.early_term,
        exhaustive.sinkhorn_iters == 40 && !exhaustive.early_term,
        n <= 1000 ==> exhaustive.k == 128,
        1000 < n <= 2500 ==> exhaustive.k == 64,
        2500 < n <= 5000 ==> exhaustive.k == 32,
        5000 < n <= 10000 ==> exhaustive.k == 16,
        10000 < n ==> exhaustive.k == 8,
        n <= 1000 ==> deep.k == 64,
        1000 < n <= 5000 ==> deep.k == 32,
        5000 < n <= 10000 ==> deep.k == 16,
        10000 < n ==> deep.k == 8,
        2 * surface.k == deep.k,
{
    let k = k_range(n as nat);
    lemma_short_latency(k.0, n as nat);
    lemma_short_latency(k.1, n as nat);
    lemma_short_latency(max(k.1, 8) / 2, n as nat);
}

/// An urgent search keeps half as many neighbours, at least four, and does ten rounds less, at
/// least ten; one that is not keeps twice as many, at most as many as an exhaustive one.
pub proof fn law_urgency_sets_effort(
    n: usize,
    depth: DepthMode,
    normal: GamParams,
    high: GamParams,
    low: GamParams,
    exhaustive: GamParams,
)
    requires
        n <= 125_000,
        call_ensures(adaptive_k, (n, Urgency::Normal, depth, Headroom::Normal, 0usize), normal),
        call_ensures(adaptive_k, (n, Urgency::High, depth, Headroom::Normal, 0usize), high),
        call_ensures(adaptive_k, (n, Urgency::Low, depth, Headroom::Normal, 0usize), low),
        call_ensures(
            adaptive_k,
            (n, Urgency::Normal, DepthMode::Exhaustive, Headroom::Normal, 0usize),
            exhaustive,
        ),
    ensures
        normal.k >= 8 ==> 2 * high.k == normal.k,
        normal.k < 8 ==> high.k == 4,
        normal.sinkhorn_iters >= 20 ==> high.sinkhorn_iters == normal.sinkhorn_iters - 10,
        normal.sinkhorn_iters < 20 ==> high.sinkhorn_iters == 10,
        2 * normal.k <= exhaustive.k ==> low.k == 2 * normal.k,
        2 * normal.k > exhaustive.k ==> low.k == exhaustive.k,
        low.sinkhorn_iters == normal.sinkhorn_iters,
{
    let m = n as nat;
    let k = k_range(m);
    let e = by_depth(m, depth);
    lemma_short_latency(k.0, m);
    lemma_short_latency(e.k, m);
    lemma_short_latency(max(e.k, 8) / 2, m);
    lemma_short_latency(min(e.k * 2, k.0), m);
}

/// On a hot device a search keeps half as many neighbours, at least four, and does fifteen rounds
/// less, at least ten; on a cool one it keeps sixteen more, at most as many as an exhaustive one.
pub proof fn law_headroom_sets_effort(
    n: usize,
    depth: DepthMode,
    normal: GamParams,
    hot: GamParams,
    cool: GamParams,
    exhaustive: GamParams,
)
    requires
        n <= 100_000,
        call_ensures(adaptive_k, (n, Urgency::Normal, depth, Headroom::Normal, 0usize), normal),
        call_ensures(adaptive_k, (n, Urgency::Normal, depth, Headroom::Hot, 0usize), hot),
        call_ensures(adaptive_k, (n, Urgency::Normal, depth, Headroom::Cool, 0usize), cool),
        call_ensures(
            adaptive_k,
            (n, Urgency::Normal, DepthMode::Exhaustive, Headroom::Normal, 0usize),
            exhaustive,
        ),
    ensures
        normal.k >= 8 ==> 2 * hot.k == normal.k,
        normal.k < 8 ==> hot.k == 4,
        normal.sinkhorn_iters >= 25 ==> hot.sinkhorn_iters == normal.sinkhorn_iters - 15,
        normal.sinkhorn_iters < 25 ==> hot.sinkhorn_iters == 10,
        normal.k + 16 <= exhaustive.k ==> cool.k == normal.k + 16,
        normal.k + 16 > exhaustive.k ==> cool.k == exhaustive.k,
        cool.sinkhorn_iters == normal.sinkhorn_iters,
{
    let m = n as nat;
    let k = k_range(m);
    let e = by_depth(m, depth);
    lemma_short_latency(k.0, m);
    lemma_short_latency(e.k, m);
    lemma_short_latency(max(e.k, 8) / 2, m);
    lemma_short_latency(min(e.k + 16, k.0), m);
}

/// Where few concepts are recent, fewer than a quarter, a search keeps twice as many neighbours:
/// at most 128 with up to a thousand recent ones, at most 64 with up to two and a half thousand,
/// and no more than before with more.
pub proof fn law_recent_sets_effort(
    n: usize,
    depth: DepthMode,
    n_recent: usize,
    none: GamParams,
    recent: GamParams,
)
    requires
        n <= 125_000,
        call_ensures(adaptive_k, (n, Urgency::Normal, depth, Headroom::Normal, 0usize), none),
        call_ensures(adaptive_k, (n, Urgency::Normal, depth, Headroom::Normal, n_recent), recent),
    ensures
        0 < n_recent < n / 4 && n_recent <= 1000 && none.k <= 64 ==> recent.k == 2 * none.k,
        0 < n_recent < n / 4 && n_recent <= 1000 && none.k > 64 ==> recent.k == 128,
        0 < n_recent < n / 4 && 1000 < n_recent <= 2500 && none.k <= 32 ==> recent.k == 2 * none.k,
        0 < n_recent < n / 4 && 1000 < n_recent <= 2500 && none.k > 32 ==> recent.k == 64,
        n_recent >= n / 4 || n_recent > 2500 ==> recent.k == none.k,
        recent.sinkhorn_iters == none.sinkhorn_iters,
        recent.early_term == none.early_term,
{
    let m = n as nat;
    let e = by_depth(m, depth);
    lemma_short_latency(e.k, m);
    lemma_short_latency(min(e.k * 2, 128), m);
    if m > 1000 {
        lemma_short_latency(min(e.k * 2, 64), m);
    }
}

/// The predicted latency grows as the concepts times the neighbours, by a factor of how far the
/// concepts reach into memory: half of it where they fit in the first cache, seven tenths in the
/// second, all of it in the third, and two and a half times beyond.
pub proof fn law_latency_by_memory(k: usize, n: usize, r: u128)
    requires
        call_ensures(predict_latency, (k, n), r),
        n * k * 1000 <= u128::MAX,
    ensures
        n * 64 <= 48_000 ==> 2 * r == 350 * (n * k),
        48_000 < n * 64 <= 512_000 ==> 10 * r == 7 * (350 * (n * k)),
        512_000 < n * 64 <= 8_000_000 ==> r == 350 * (n * k),
        8_000_000 < n * 64 ==> 2 * r == 5 * (350 * (n * k)),
{
    let nk = (n * k) as nat;
    let t = cache_tenths(n as nat);
    assert(latency(k as nat, n as nat) == nk * 35 * t);
    assert(nk >= 0) by (nonlinear_arith)
        requires
            nk == n * k,
            n >= 0,
            k >= 0,
    ;
    if n <= 750 {
        assert(t == 5);
    } else if n <= 8_000 {
        assert(t == 7);
    } else if n <= 125_000 {
        assert(t == 10);
    } else {
        assert(t == 25);
    }
    assert(nk * 35 * 5 == 175 * nk && nk * 35 * 7 == 245 * nk && nk * 35 * 10 == 350 * nk && nk
        * 35 * 25 == 875 * nk);
}

} // verus!
