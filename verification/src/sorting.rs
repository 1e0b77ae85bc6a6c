//! Stable ranking by a key.

use vstd::prelude::*;

verus! {

/// Whether index `a` comes before index `b`: by larger key, then by smaller index.
pub open spec fn ahead(keys: Seq<i64>, a: int, b: int) -> bool {
    keys[a] > keys[b] || (keys[a] == keys[b] && a < b)
}

/// That `p` lists the first `n` indices, each ahead of those behind it.
pub open spec fn ranked_upto(keys: Seq<i64>, p: Seq<usize>, n: nat) -> bool {
    &&& p.len() == n
    &&& forall|i: int| 0 <= i < p.len() ==> 0 <= #[trigger] p[i] < n
    &&& forall|i: int, j: int|
        0 <= i < j < p.len() ==> ahead(keys, #[trigger] p[i] as int, #[trigger] p[j] as int)
}

/// That `p` is the order of the keys: largest first, equal keys in their given order.
pub open spec fn ranked(keys: Seq<i64>, p: Seq<usize>) -> bool {
    ranked_upto(keys, p, keys.len())
}

/// The order of the keys: largest first, equal keys in their given order.
pub fn rank(keys: &Vec<i64>) -> (p: Vec<usize>)
    ensures
        ranked(keys@, p@),
{
    let mut p: Vec<usize> = Vec::new();
    let mut i: usize = 0;
    while i < keys.len()
        invariant
            i <= keys@.len(),
            ranked_upto(keys@, p@, i as nat),
        decreases keys@.len() - i,
    {
        let mut at: usize = p.len();
        while at > 0 && keys[p[at - 1]] < keys[i]
            invariant
                i < keys@.len(),
                ranked_upto(keys@, p@, i as nat),
                at <= p@.len(),
                forall|k: int| at <= k < p@.len() ==> keys@[#[trigger] p@[k] as int] < keys@[i as int],
            decreases at,
        {
            at -= 1;
        }
        let ghost before = p@;
        p.insert(at, i);
        proof {
            assert forall|a: int, b: int| 0 <= a < b < p@.len() implies ahead(
                keys@,
                #[trigger] p@[a] as int,
                #[trigger] p@[b] as int,
            ) by {
                if b < at {
                    assert(p@[a] == before[a] && p@[b] == before[b]);
                } else if a > at {
                    assert(p@[a] == before[a - 1] && p@[b] == before[b - 1]);
                } else if a == at {
                    assert(p@[b] == before[b - 1]);
                } else if b > at {
                    assert(p@[a] == before[a] && p@[b] == before[b - 1]);
                } else {
                    assert(p@[a] == before[a]);
                    if a < at - 1 {
                        assert(ahead(keys@, before[a] as int, before[at - 1] as int));
                    }
                }
            }
            assert forall|k: int| 0 <= k < p@.len() implies 0 <= #[trigger] p@[k] < i + 1 by {
                if k < at {
                    assert(p@[k] == before[k]);
                } else if k > at {
                    assert(p@[k] == before[k - 1]);
                }
            }
        }
        i += 1;
    }
    p
}

/// Only one listing is the order of the keys.
pub proof fn law_ranking_unique(keys: Seq<i64>, p: Seq<usize>, q: Seq<usize>)
    requires
        ranked(keys, p),
        ranked(keys, q),
    ensures
        p == q,
{
    assert forall|i: int| 0 <= i < p.len() implies p[i] == q[i] by {
        lemma_ranking_unique_upto(keys, p, q, i);
    }
    assert(p =~= q);
}

proof fn lemma_ranking_unique_upto(keys: Seq<i64>, p: Seq<usize>, q: Seq<usize>, n: int)
    requires
        ranked(keys, p),
        ranked(keys, q),
        0 <= n < p.len(),
    ensures
        forall|i: int| 0 <= i <= n ==> #[trigger] p[i] == q[i],
    decreases n,
{
    if n > 0 {
        lemma_ranking_unique_upto(keys, p, q, n - 1);
    }
    if p[n] != q[n] {
        lemma_ranked_holds_all(keys, p, q[n] as int);
        lemma_ranked_holds_all(keys, q, p[n] as int);
        let a = choose|a: int| 0 <= a < p.len() && #[trigger] p[a] == q[n];
        let b = choose|b: int| 0 <= b < q.len() && #[trigger] q[b] == p[n];
        if a < n {
            assert(p[a] == q[a]);
            assert(ahead(keys, q[a] as int, q[n] as int));
        }
        if b < n {
            assert(p[b] == q[b]);
            assert(ahead(keys, p[b] as int, p[n] as int));
        }
        assert(ahead(keys, p[n] as int, p[a] as int));
        assert(ahead(keys, q[n] as int, q[b] as int));
    }
}

/// The order of the keys lists every index.
pub proof fn lemma_ranked_holds_all(keys: Seq<i64>, p: Seq<usize>, x: int)
    requires
        ranked(keys, p),
        0 <= x < keys.len(),
    ensures
        exists|a: int| 0 <= a < p.len() && #[trigger] p[a] == x,
{
    let n = keys.len();
    let full = Set::new(|k: int| 0 <= k < n);
    let seen = p.map_values(|v: usize| v as int).to_set();
    let ints = p.map_values(|v: usize| v as int);
    assert(ints.no_duplicates()) by {
        assert forall|i: int, j: int| 0 <= i < j < ints.len() implies ints[i] != ints[j] by {
            assert(ahead(keys, p[i] as int, p[j] as int));
        }
    }
    ints.unique_seq_to_set();
    vstd::set_lib::lemma_int_range(0, n as int);
    assert(full =~= vstd::set_lib::set_int_range(0, n as int));
    assert(seen.subset_of(full)) by {
        assert forall|k: int| seen.contains(k) implies full.contains(k) by {
            let i = choose|i: int| 0 <= i < ints.len() && ints[i] == k;
            assert(p[i] == k);
        }
    }
    vstd::set_lib::lemma_subset_equality(seen, full);
    assert(seen.contains(x));
    let i = choose|i: int| 0 <= i < ints.len() && ints[i] == x;
    assert(p[i] == x);
}

/// A ranking lists every index once, with the keys from the greatest down, and equal keys in the
/// order in which they stand.
pub proof fn law_ranking_descends(keys: &Vec<i64>, p: Vec<usize>, x: int)
    requires
        call_ensures(rank, (keys,), p),
        0 <= x < keys@.len(),
    ensures
        p@.len() == keys@.len(),
        p@.no_duplicates(),
        p@.contains(x as usize),
        forall|i: int, j: int|
            0 <= i < j < p@.len() ==> {
                ||| keys@[(#[trigger] p@[i]) as int] > keys@[(#[trigger] p@[j]) as int]
                ||| keys@[p@[i] as int] == keys@[p@[j] as int] && p@[i] < p@[j]
            },
{
    lemma_ranked_holds_all(keys@, p@, x);
    assert forall|i: int, j: int| 0 <= i < j < p@.len() implies {
        ||| keys@[(#[trigger] p@[i]) as int] > keys@[(#[trigger] p@[j]) as int]
        ||| keys@[p@[i] as int] == keys@[p@[j] as int] && p@[i] < p@[j]
    } by {
        assert(ahead(keys@, p@[i] as int, p@[j] as int));
    }
}

} // verus!
