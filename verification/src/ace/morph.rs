//! Deforming one shape toward another by transport of their concepts: which partners each
//! concept is coupled with, for how many rounds the coupling is balanced, and the shape
//! that comes out.

use vstd::prelude::*;

use crate::ace::gam::adaptive_k;
use crate::ace::gam::chosen;
use crate::ace::gam::DepthMode;
use crate::ace::gam::GamParams;
use crate::ace::gam::Headroom;
use crate::ace::gam::Urgency;
use crate::ace::geo::moved;
use crate::ace::graph::dot;
use crate::ace::graph::node_views;
use crate::ace::graph::shape_of;
use crate::ace::graph::ConceptNode;
use crate::ace::graph::NodeView;
use crate::ace::graph::Shape;
use crate::ace::graph::HALF_SIMILAR;
use crate::ace::memory::first_fresh;
use crate::ace::memory::pair_of;
use crate::ace::memory::put;
use crate::ace::memory::used_anew;
use crate::ace::memory::CacheEntry;
use crate::ace::memory::SimilarityCache;
use crate::sorting::rank;
use crate::sorting::ranked;

verus! {

/// What a similarity cache holds and has counted.
pub struct CacheView {
    pub list: Seq<CacheEntry<i32>>,
    pub capacity: usize,
    pub hits: u64,
    pub misses: u64,
}

pub open spec fn cache_view(c: &SimilarityCache<i32>) -> CacheView {
    CacheView {
        list: c.list(),
        capacity: c.spec_capacity(),
        hits: c.spec_hits(),
        misses: c.spec_misses(),
    }
}

/// The similarity of a pair whose dot product is `d`, and the cache after it was asked for:
/// the score in the cache while it counts, or else the dot product, which is put in.
pub open spec fn scored(c: CacheView, key: (u32, u32), d: i32, now: u64) -> (CacheView, i32) {
    if exists|i: int| first_fresh(c.list, key, now, i) {
        let i = choose|i: int| first_fresh(c.list, key, now, i);
        let v = c.list[i].score;
        (
            CacheView {
                list: used_anew(c.list, i, CacheEntry { key, score: v, used: now }),
                hits: c.hits.wrapping_add(1),
                ..c
            },
            v,
        )
    } else {
        (
            CacheView {
                list: put(c.list, c.capacity, key, d, now),
                misses: c.misses.wrapping_add(1),
                ..c
            },
            d,
        )
    }
}

/// The similarities of a concept with the first `n` others, asked for in order, and the
/// cache after that.
pub open spec fn scored_row(
    c: CacheView,
    from: NodeView,
    to: Seq<NodeView>,
    n: nat,
    now: u64,
) -> (CacheView, Seq<i32>)
    decreases n,
{
    if n == 0 {
        (c, Seq::empty())
    } else {
        let (c1, sims) = scored_row(c, from, to, (n - 1) as nat, now);
        let t = to[n - 1];
        let (c2, v) = scored(c1, pair_of(from.id, t.id), dot(from.vector, t.vector) as i32, now);
        (c2, sims.push(v))
    }
}

/// Similarities as sort keys.
pub open spec fn as_keys(sims: Seq<i32>) -> Seq<i64> {
    sims.map_values(|v: i32| v as i64)
}

/// That `r` lists the `k` partners of most similarity: by larger similarity, then in their
/// order.
pub open spec fn partners(to: Seq<NodeView>, sims: Seq<i32>, k: nat, r: Seq<(u32, i32)>) -> bool {
    exists|p: Seq<usize>|
        {
            &&& #[trigger] ranked(as_keys(sims), p)
            &&& r == Seq::new(
                if k < to.len() {
                    k
                } else {
                    to.len()
                },
                |a: int| (to[p[a] as int].id, sims[p[a] as int]),
            )
        }
}

fn score(
    from: &ConceptNode,
    to: &ConceptNode,
    cache: &mut SimilarityCache<i32>,
    now: u64,
) -> (v: i32)
    requires
        old(cache).wf(),
        old(cache).spec_capacity() > 0,
    ensures
        final(cache).wf(),
        (cache_view(final(cache)), v) == scored(
            cache_view(old(cache)),
            pair_of(from.id, to.id),
            dot(from.vector@, to.vector@) as i32,
            now,
        ),
{
    let ghost key = pair_of(from.id, to.id);
    let ghost before = cache_view(cache);
    match cache.get_at(from.id, to.id, now) {
        Some(v) => {
            proof {
                let i = choose|i: int| first_fresh(before.list, key, now, i) && v == before.list[i].score
                    && cache.list() == used_anew(
                    before.list,
                    i,
                    CacheEntry { key, score: v, used: now },
                );
                let c = choose|c: int| first_fresh(before.list, key, now, c);
                assert(c == i) by {
                    if c < i {
                        assert(before.list[c].key == key);
                    }
                    if i < c {
                        assert(before.list[i].key == key);
                    }
                }
            }
            v
        },
        None => {
            let d = from.dot(&to.vector);
            cache.insert_at(from.id, to.id, d, now);
            d
        },
    }
}

/// The `k` partners of most similarity of one concept.
fn couple(
    from: &ConceptNode,
    to: &Shape,
    k: usize,
    cache: &mut SimilarityCache<i32>,
    now: u64,
) -> (r: Vec<(u32, i32)>)
    requires
        old(cache).wf(),
        old(cache).spec_capacity() > 0,
    ensures
        final(cache).wf(),
        ({
            let (c, sims) = scored_row(
                cache_view(old(cache)),
                from@,
                to@.nodes,
                to@.nodes.len(),
                now,
            );
            &&& cache_view(final(cache)) == c
            &&& partners(to@.nodes, sims, k as nat, r@)
        }),
{
    let n = to.nodes.len();
    let ghost start = cache_view(cache);
    let mut sims: Vec<i32> = Vec::new();
    let mut keys: Vec<i64> = Vec::new();
    let mut i: usize = 0;
    while i < n
        invariant
            n == to.nodes@.len(),
            i <= n,
            cache.wf(),
            cache.spec_capacity() == start.capacity,
            start.capacity > 0,
            (cache_view(cache), sims@) == scored_row(start, from@, to@.nodes, i as nat, now),
            sims@.len() == i,
            keys@ =~= as_keys(sims@),
        decreases n - i,
    {
        let ghost old_sims = sims@;
        assert(to@.nodes[i as int] == to.nodes@[i as int]@);
        let v = score(from, &to.nodes[i], cache, now);
        sims.push(v);
        keys.push(v as i64);
        i += 1;
    }
    let order = rank(&keys);
    let m: usize = if k < n {
        k
    } else {
        n
    };
    let mut out: Vec<(u32, i32)> = Vec::new();
    let mut j: usize = 0;
    while j < m
        invariant
            j <= m <= n,
            n == to.nodes@.len(),
            sims@.len() == n,
            keys@ == as_keys(sims@),
            ranked(keys@, order@),
            out@ =~= Seq::new(
                j as nat,
                |a: int| (to@.nodes[order@[a] as int].id, sims@[order@[a] as int]),
            ),
        decreases m - j,
    {
        let p = order[j];
        out.push((to.nodes[p].id, sims[p]));
        j += 1;
    }
    assert(ranked(as_keys(sims@), order@));
    out
}

/// The cache after the first `n` concepts have been coupled.
pub open spec fn cache_after(
    c: CacheView,
    from: Seq<NodeView>,
    to: Seq<NodeView>,
    n: nat,
    now: u64,
) -> CacheView
    decreases n,
{
    if n == 0 {
        c
    } else {
        scored_row(
            cache_after(c, from, to, (n - 1) as nat, now),
            from[n - 1],
            to,
            to.len(),
            now,
        ).0
    }
}

/// That rows are what each concept of `from` is coupled with at the start: the `k` concepts of
/// `to` of most similarity, by the scores that a cache gives and takes at a time.
pub open spec fn coupled(
    c: CacheView,
    from: Seq<NodeView>,
    to: Seq<NodeView>,
    k: nat,
    now: u64,
    rows: Seq<Vec<(u32, i32)>>,
) -> bool {
    &&& rows.len() == from.len()
    &&& forall|i: int|
        0 <= i < rows.len() ==> partners(
            to,
            scored_row(cache_after(c, from, to, i as nat, now), from[i], to, to.len(), now).1,
            k,
            (#[trigger] rows[i])@,
        )
}

/// The partners that each concept of `from` is coupled with at the start: the `k` concepts
/// of `to` of most similarity.
pub fn initial_coupling(
    from: &Shape,
    to: &Shape,
    k: usize,
    cache: &mut SimilarityCache<i32>,
) -> (r: Vec<Vec<(u32, i32)>>)
    requires
        old(cache).wf(),
        old(cache).spec_capacity() > 0,
    ensures
        final(cache).wf(),
        exists|now: u64|
            {
                &&& cache_view(final(cache)) == cache_after(
                    cache_view(old(cache)),
                    from@.nodes,
                    to@.nodes,
                    from@.nodes.len(),
                    now,
                )
                &&& #[trigger] coupled(
                    cache_view(old(cache)),
                    from@.nodes,
                    to@.nodes,
                    k as nat,
                    now,
                    r@,
                )
            },
{
    let now: u64 = cache.nanos();
    initial_coupling_at(from, to, k, cache, now)
}

/// The partners that each concept of `from` is coupled with at the start, at a time.
pub fn initial_coupling_at(
    from: &Shape,
    to: &Shape,
    k: usize,
    cache: &mut SimilarityCache<i32>,
    now: u64,
) -> (r: Vec<Vec<(u32, i32)>>)
    requires
        old(cache).wf(),
        old(cache).spec_capacity() > 0,
    ensures
        final(cache).wf(),
        cache_view(final(cache)) == cache_after(
            cache_view(old(cache)),
            from@.nodes,
            to@.nodes,
            from@.nodes.len(),
            now,
        ),
        coupled(cache_view(old(cache)), from@.nodes, to@.nodes, k as nat, now, r@),
{
    let ghost start = cache_view(cache);
    let mut out: Vec<Vec<(u32, i32)>> = Vec::new();
    let mut i: usize = 0;
    while i < from.nodes.len()
        invariant
            i <= from.nodes@.len(),
            cache.wf(),
            cache.spec_capacity() > 0,
            start == cache_view(old(cache)),
            cache_view(cache) == cache_after(start, from@.nodes, to@.nodes, i as nat, now),
            out@.len() == i,
            forall|a: int|
                0 <= a < i ==> partners(
                    to@.nodes,
                    scored_row(
                        cache_after(start, from@.nodes, to@.nodes, a as nat, now),
                        from@.nodes[a],
                        to@.nodes,
                        to@.nodes.len(),
                        now,
                    ).1,
                    k as nat,
                    (#[trigger] out@[a])@,
                ),
        decreases from.nodes@.len() - i,
    {
        assert(from@.nodes[i as int] == from.nodes@[i as int]@);
        let ghost cap = cache.spec_capacity();
        let row = couple(&from.nodes[i], to, k, cache, now);
        proof {
            lemma_capacity_kept(
                cache_after(start, from@.nodes, to@.nodes, i as nat, now),
                from@.nodes[i as int],
                to@.nodes,
                to@.nodes.len(),
                now,
            );
        }
        out.push(row);
        i += 1;
    }
    out
}

proof fn lemma_capacity_kept(c: CacheView, from: NodeView, to: Seq<NodeView>, n: nat, now: u64)
    ensures
        scored_row(c, from, to, n, now).0.capacity == c.capacity,
        scored_row(c, from, to, n, now).1.len() == n,
    decreases n,
{
    if n > 0 {
        lemma_capacity_kept(c, from, to, (n - 1) as nat, now);
    }
}

/// Every score in a cache is what `d` says of its pair.
pub open spec fn faithful(c: CacheView, d: spec_fn((u32, u32)) -> i32) -> bool {
    forall|i: int| 0 <= i < c.list.len() ==> (#[trigger] c.list[i]).score == d(c.list[i].key)
}

/// A cache whose scores are the dot products of their pairs does not show: the similarities
/// are the dot products, and the cache stays so.
pub proof fn law_cache_transparent(
    c: CacheView,
    d: spec_fn((u32, u32)) -> i32,
    from: NodeView,
    to: Seq<NodeView>,
    n: nat,
    now: u64,
)
    requires
        faithful(c, d),
        c.capacity > 0,
        n <= to.len(),
        forall|i: int|
            0 <= i < to.len() ==> d(pair_of(from.id, (#[trigger] to[i]).id)) == dot(
                from.vector,
                to[i].vector,
            ) as i32,
    ensures
        faithful(scored_row(c, from, to, n, now).0, d),
        scored_row(c, from, to, n, now).1 == Seq::new(
            n,
            |i: int| dot(from.vector, to[i].vector) as i32,
        ),
    decreases n,
{
    if n == 0 {
        assert(scored_row(c, from, to, n, now).1 =~= Seq::new(
            n,
            |i: int| dot(from.vector, to[i].vector) as i32,
        ));
    } else {
        law_cache_transparent(c, d, from, to, (n - 1) as nat, now);
        let (c1, sims) = scored_row(c, from, to, (n - 1) as nat, now);
        let t = to[n - 1];
        let key = pair_of(from.id, t.id);
        let x = dot(from.vector, t.vector) as i32;
        assert(d(key) == x);
        lemma_capacity_kept(c, from, to, (n - 1) as nat, now);
        lemma_put_faithful(c1, d, key, x, now);
        let (c2, v) = scored(c1, key, x, now);
        assert(v == x) by {
            if exists|i: int| first_fresh(c1.list, key, now, i) {
                let i = choose|i: int| first_fresh(c1.list, key, now, i);
                assert(c1.list[i].score == d(c1.list[i].key));
            }
        }
        assert(faithful(c2, d)) by {
            if exists|i: int| first_fresh(c1.list, key, now, i) {
                let i = choose|i: int| first_fresh(c1.list, key, now, i);
                assert forall|k: int| 0 <= k < c2.list.len() implies (#[trigger] c2.list[k]).score
                    == d(c2.list[k].key) by {
                    lemma_used_anew_from(c1.list, i, k);
                }
            } else {
                let w = CacheView { list: put(c1.list, c1.capacity, key, x, now), ..c1 };
                assert forall|k: int| 0 <= k < c2.list.len() implies (#[trigger] c2.list[k]).score
                    == d(c2.list[k].key) by {
                    assert(w.list[k].score == d(w.list[k].key));
                }
            }
        }
        assert(scored_row(c, from, to, n, now).1 =~= Seq::new(
            n,
            |i: int| dot(from.vector, to[i].vector) as i32,
        ));
    }
}

/// Where an entry comes from after another was used.
proof fn lemma_used_anew_from(s: Seq<CacheEntry<i32>>, i: int, k: int)
    requires
        0 <= i < s.len(),
        0 <= k < s.len(),
    ensures
        forall|e: CacheEntry<i32>| #![auto]
            k < s.len() - 1 ==> used_anew(s, i, e)[k] == s[if k < i {
                k
            } else {
                k + 1
            }],
        forall|e: CacheEntry<i32>| #![auto] k == s.len() - 1 ==> used_anew(s, i, e)[k] == e,
{
}

proof fn lemma_put_faithful(
    c: CacheView,
    d: spec_fn((u32, u32)) -> i32,
    key: (u32, u32),
    x: i32,
    now: u64,
)
    requires
        faithful(c, d),
        c.capacity > 0,
        d(key) == x,
    ensures
        faithful(CacheView { list: put(c.list, c.capacity, key, x, now), ..c }, d),
{
    let l = put(c.list, c.capacity, key, x, now);
    assert forall|k: int| 0 <= k < l.len() implies (#[trigger] l[k]).score == d(l[k].key) by {
        if exists|i: int| crate::ace::memory::first_of(c.list, key, i) {
            let i = choose|i: int| crate::ace::memory::first_of(c.list, key, i);
            lemma_used_anew_from(c.list, i, k);
        } else if c.list.len() >= c.capacity {
            if k < l.len() - 1 {
                assert(l[k] == c.list[k + 1]);
            }
        } else if k < l.len() - 1 {
            assert(l[k] == c.list[k]);
        }
    }
}

/// For how many rounds a coupling is balanced: with early termination, after five rounds
/// it counts as settled.
pub fn sinkhorn_rounds(max_iters: usize, early_term: bool) -> (r: usize)
    ensures
        r == (if early_term && max_iters > 5 {
            5
        } else {
            max_iters
        }),
{
    if early_term && max_iters > 5 {
        5
    } else {
        max_iters
    }
}

/// The effort of a morph between two shapes.
pub fn morph_params(
    from: &Shape,
    to: &Shape,
    urgency: Urgency,
    depth: DepthMode,
    headroom: Headroom,
    n_recent: usize,
) -> (r: GamParams)
    ensures
        r.effort() == chosen(
            if from@.nodes.len() >= to@.nodes.len() {
                from@.nodes.len()
            } else {
                to@.nodes.len()
            },
            urgency,
            depth,
            headroom,
            n_recent as nat,
        ),
        r.bounded(),
{
    let a = from.len();
    let b = to.len();
    adaptive_k(
        if a >= b {
            a
        } else {
            b
        },
        urgency,
        depth,
        headroom,
        n_recent,
    )
}

/// The shape that comes out: the concepts of `from` with the vectors that the coupling
/// gives them.
pub fn morphed(from: &Shape, vectors: &Vec<[i8; 64]>) -> (r: Shape)
    requires
        vectors@.len() == from.nodes@.len(),
    ensures
        r@ == shape_of(
            from@.name + "_morphed"@,
            Seq::new(from@.nodes.len(), |i: int| moved(from@.nodes[i], vectors@[i]@)),
            HALF_SIMILAR as int,
        ),
        r@.wf(),
{
    let mut nodes: Vec<ConceptNode> = Vec::new();
    let mut i: usize = 0;
    while i < from.nodes.len()
        invariant
            i <= from.nodes@.len(),
            vectors@.len() == from.nodes@.len(),
            node_views(nodes@) =~= Seq::new(
                i as nat,
                |i: int| moved(from@.nodes[i], vectors@[i]@),
            ),
        decreases from.nodes@.len() - i,
    {
        let ghost before = nodes@;
        let mut n = from.nodes[i].copy();
        n.vector = vectors[i];
        nodes.push(n);
        assert(node_views(nodes@) =~= node_views(before).push(n@));
        i += 1;
    }
    let mut name = from.name.clone();
    name.append("_morphed");
    Shape::new(name.as_str(), nodes)
}

/// A morphed shape has the concepts of the shape it came from, each with its new vector and
/// otherwise as it was, and an edge between two of them exactly where their dot product is above
/// one half: above 4096.
pub proof fn law_morphed_moves(
    from: &Shape,
    vectors: &Vec<[i8; 64]>,
    r: Shape,
    i: usize,
    j: usize,
    d: i32,
)
    requires
        vectors@.len() == from.nodes@.len(),
        call_ensures(morphed, (from, vectors), r),
        i < from.nodes@.len(),
        j < from.nodes@.len(),
        d == dot(vectors@[i as int]@, vectors@[j as int]@),
    ensures
        r.name@ == from.name@ + "_morphed"@,
        r@.nodes.len() == from@.nodes.len(),
        r@.nodes[i as int].vector == vectors@[i as int]@,
        r@.nodes[i as int].id == from@.nodes[i as int].id,
        r@.nodes[i as int].confidence == from@.nodes[i as int].confidence,
        r@.nodes[i as int].connections == from@.nodes[i as int].connections,
        r@.edges.contains((i, j, d)) <==> i < j && d > 4096,
{
    assert(r@.nodes.len() == from.nodes.len());
    crate::ace::graph::law_edges(r@.nodes, HALF_SIMILAR as int, i as int, j as int);
}

/// A search that may stop early does at most five rounds, and never more than it was given;
/// another does all of them.
pub proof fn law_rounds(max_iters: usize, early: usize, full: usize)
    requires
        call_ensures(sinkhorn_rounds, (max_iters, true), early),
        call_ensures(sinkhorn_rounds, (max_iters, false), full),
    ensures
        early <= 5,
        early <= full,
        early == 5 || early == full,
        full == max_iters,
{
}

/// What a morphing does goes by the larger of its two shapes, as a search over as many concepts.
pub proof fn law_params_by_larger(
    from: &Shape,
    to: &Shape,
    urgency: Urgency,
    depth: DepthMode,
    headroom: Headroom,
    n_recent: usize,
    r: GamParams,
    n: usize,
    direct: GamParams,
)
    requires
        call_ensures(morph_params, (from, to, urgency, depth, headroom, n_recent), r),
        n >= from@.nodes.len(),
        n >= to@.nodes.len(),
        n == from@.nodes.len() || n == to@.nodes.len(),
        call_ensures(adaptive_k, (n, urgency, depth, headroom, n_recent), direct),
    ensures
        r.k == direct.k,
        r.sinkhorn_iters == direct.sinkhorn_iters,
        r.early_term == direct.early_term,
{
}

/// Whether an entry pairs a concept with another by their dot product.
pub open spec fn pairs(from: NodeView, to: NodeView, e: (u32, i32)) -> bool {
    e.0 == to.id && e.1 == dot(from.vector, to.vector) as i32
}

/// Whether an entry pairs a concept with one of the others by their dot product.
pub open spec fn pairs_one(from: NodeView, to: Seq<NodeView>, e: (u32, i32)) -> bool {
    exists|j: int| 0 <= j < to.len() && #[trigger] pairs(from, to[j], e)
}

/// Whether an entry of a row pairs a concept with another by their dot product.
pub open spec fn paired_in(from: NodeView, to: NodeView, row: Seq<(u32, i32)>) -> bool {
    exists|a: int| 0 <= a < row.len() && #[trigger] pairs(from, to, row[a])
}

proof fn lemma_cache_stays_faithful(
    c: CacheView,
    d: spec_fn((u32, u32)) -> i32,
    from: Seq<NodeView>,
    to: Seq<NodeView>,
    n: nat,
    now: u64,
)
    requires
        faithful(c, d),
        c.capacity > 0,
        n <= from.len(),
        forall|i: int, j: int|
            0 <= i < from.len() && 0 <= j < to.len() ==> d(
                pair_of((#[trigger] from[i]).id, (#[trigger] to[j]).id),
            ) == dot(from[i].vector, to[j].vector) as i32,
    ensures
        faithful(cache_after(c, from, to, n, now), d),
        cache_after(c, from, to, n, now).capacity == c.capacity,
    decreases n,
{
    if n > 0 {
        let m = (n - 1) as nat;
        lemma_cache_stays_faithful(c, d, from, to, m, now);
        let before = cache_after(c, from, to, m, now);
        law_cache_transparent(before, d, from[n - 1], to, to.len(), now);
        lemma_row_keeps_capacity(before, from[n - 1], to, to.len(), now);
    }
}

proof fn lemma_row_keeps_capacity(c: CacheView, from: NodeView, to: Seq<NodeView>, n: nat, now: u64)
    ensures
        scored_row(c, from, to, n, now).0.capacity == c.capacity,
    decreases n,
{
    if n > 0 {
        lemma_row_keeps_capacity(c, from, to, (n - 1) as nat, now);
    }
}

/// A first coupling pairs each concept with those of the other shape that it is most similar to:
/// as many as asked for or as there are, each by its dot product, from the most similar down, and
/// none that is left out is more similar than one that is listed. The scores that the cache holds
/// are taken to be dot products of the same pairs.
pub proof fn law_coupling_by_similarity(
    from: &Shape,
    to: &Shape,
    k: usize,
    cache: &mut SimilarityCache<i32>,
    now: u64,
    rows: Vec<Vec<(u32, i32)>>,
    d: spec_fn((u32, u32)) -> i32,
    i: int,
    j: int,
)
    requires
        old(cache).wf(),
        old(cache).spec_capacity() > 0,
        faithful(cache_view(old(cache)), d),
        forall|x: int, y: int|
            0 <= x < from@.nodes.len() && 0 <= y < to@.nodes.len() ==> d(
                pair_of((#[trigger] from@.nodes[x]).id, (#[trigger] to@.nodes[y]).id),
            ) == dot(from@.nodes[x].vector, to@.nodes[y].vector) as i32,
        call_ensures(initial_coupling_at, (from, to, k, cache, now), rows),
        0 <= i < from@.nodes.len(),
        0 <= j < to@.nodes.len(),
    ensures
        rows@.len() == from@.nodes.len(),
        rows@[i]@.len() <= k,
        rows@[i]@.len() == k || rows@[i]@.len() == to@.nodes.len(),
        forall|a: int|
            0 <= a < rows@[i]@.len() ==> pairs_one(
                from@.nodes[i],
                to@.nodes,
                #[trigger] rows@[i]@[a],
            ),
        forall|a: int, b: int|
            0 <= a < b < rows@[i]@.len() ==> (#[trigger] rows@[i]@[a]).1 >= (
            #[trigger] rows@[i]@[b]).1,
        paired_in(from@.nodes[i], to@.nodes[j], rows@[i]@) || forall|a: int|
            0 <= a < rows@[i]@.len() ==> (#[trigger] rows@[i]@[a]).1 >= dot(
                from@.nodes[i].vector,
                to@.nodes[j].vector,
            ) as i32,
{
    let c = cache_view(old(cache));
    let f = from@.nodes;
    let t = to@.nodes;
    lemma_cache_stays_faithful(c, d, f, t, i as nat, now);
    let before = cache_after(c, f, t, i as nat, now);
    law_cache_transparent(before, d, f[i], t, t.len(), now);
    let sims = scored_row(before, f[i], t, t.len(), now).1;
    let row = rows@[i]@;
    assert(partners(t, sims, k as nat, row));
    let keys = as_keys(sims);
    let p = choose|p: Seq<usize>|
        {
            &&& #[trigger] ranked(keys, p)
            &&& row == Seq::new(
                if (k as nat) < t.len() {
                    k as nat
                } else {
                    t.len()
                },
                |a: int| (t[p[a] as int].id, sims[p[a] as int]),
            )
        };
    assert forall|a: int| 0 <= a < row.len() implies pairs_one(f[i], t, #[trigger] row[a]) by {
        assert(p[a] < t.len());
        assert(pairs(f[i], t[p[a] as int], row[a]));
    }
    assert forall|a: int, b: int| 0 <= a < b < row.len() implies (#[trigger] row[a]).1 >= (
    #[trigger] row[b]).1 by {
        assert(keys[p[a] as int] >= keys[p[b] as int]);
    }
    crate::sorting::lemma_ranked_holds_all(keys, p, j);
    let b = choose|b: int| 0 <= b < p.len() && #[trigger] p[b] == j;
    if b < row.len() {
        assert(pairs(f[i], t[j], row[b]));
    } else {
        assert forall|a: int| 0 <= a < row.len() implies (#[trigger] row[a]).1 >= dot(
            f[i].vector,
            t[j].vector,
        ) as i32 by {
            assert(keys[p[a] as int] >= keys[p[b] as int]);
        }
    }
}

} // verus!
