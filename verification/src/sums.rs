//! Sums of integers.

use vstd::prelude::*;

verus! {

/// `f(0) + f(1) + .. + f(n - 1)`.
pub open spec fn total(f: spec_fn(int) -> int, n: nat) -> int
    decreases n,
{
    if n == 0 {
        0
    } else {
        total(f, (n - 1) as nat) + f(n - 1)
    }
}

/// Sums of the same numbers are the same.
pub proof fn lemma_total_same(f: spec_fn(int) -> int, g: spec_fn(int) -> int, n: nat)
    requires
        forall|i: int| 0 <= i < n ==> #[trigger] f(i) == g(i),
    ensures
        total(f, n) == total(g, n),
    decreases n,
{
    if n > 0 {
        lemma_total_same(f, g, (n - 1) as nat);
        assert(f(n - 1) == g(n - 1));
    }
}

/// A sum splits at any place.
pub proof fn lemma_total_split(f: spec_fn(int) -> int, m: nat, n: nat)
    ensures
        total(f, m + n) == total(f, m) + total(|i: int| f(m + i), n),
    decreases n,
{
    let g = |i: int| f(m + i);
    if n > 0 {
        lemma_total_split(f, m, (n - 1) as nat);
        assert(g(n - 1) == f(m + n - 1));
    }
}

/// A sum can be taken in groups of the same size.
pub proof fn lemma_total_groups(
    f: spec_fn(int) -> int,
    g: spec_fn(int) -> int,
    size: nat,
    groups: nat,
)
    requires
        forall|k: int|
            0 <= k < groups ==> #[trigger] g(k) == total(|i: int| f(k * size + i), size),
    ensures
        total(f, groups * size) == total(g, groups),
    decreases groups,
{
    if groups > 0 {
        let k = (groups - 1) as nat;
        lemma_total_groups(f, g, size, k);
        lemma_total_split(f, k * size, size);
        assert(groups * size == k * size + size) by (nonlinear_arith)
            requires
                groups == k + 1,
        ;
        let a = |i: int| f((k * size) as nat + i);
        let b = |i: int| f(k * size + i);
        lemma_total_same(a, b, size);
        assert(g(k as int) == total(b, size));
    } else {
        assert(groups * size == 0) by (nonlinear_arith)
            requires
                groups == 0,
        ;
    }
}

} // verus!
