//! Topology of shapes: complexes, persistent components, and the operations on concepts
//! that rest on them. A filtration value is `8192` less the dot product of an edge, that
//! is, one less its similarity.

use vstd::prelude::*;

use crate::ace::geo::build_neighbours;
use crate::ace::geo::components;
use crate::ace::geo::connected;
use crate::ace::geo::find_components;
use crate::ace::geo::is_path;
use crate::ace::geo::lemma_component_entries;
use crate::ace::geo::linked;
use crate::ace::geo::lists;
use crate::ace::graph::dot;
use crate::ace::graph::node_views;
use crate::ace::graph::shape_of;
use crate::ace::graph::ConceptNode;
use crate::ace::graph::Edge;
use crate::ace::graph::NodeView;
use crate::ace::graph::Shape;
use crate::ace::graph::ShapeView;
use crate::ace::graph::HALF_SIMILAR;
use crate::sorting::rank;
use crate::sorting::ranked;

verus! {

/// A simplex: its positions and the filtration value at which it appears.
#[derive(Debug)]
pub struct Simplex {
    pub vertices: Vec<usize>,
    pub filtration: i32,
}

/// What a simplex holds.
pub struct SimplexView {
    pub vertices: Seq<usize>,
    pub filtration: int,
}

impl View for Simplex {
    type V = SimplexView;

    open spec fn view(&self) -> SimplexView {
        SimplexView { vertices: self.vertices@, filtration: self.filtration as int }
    }
}

/// The views of simplices.
pub open spec fn simplex_views(s: Seq<Simplex>) -> Seq<SimplexView> {
    s.map_values(|x: Simplex| x@)
}

/// The points.
pub open spec fn points(n: nat) -> Seq<SimplexView> {
    Seq::new(n, |i: int| SimplexView { vertices: seq![i as usize], filtration: 0 })
}

/// The edges above `eps`, in order.
pub open spec fn segments(edges: Seq<Edge>, eps: int) -> Seq<SimplexView>
    decreases edges.len(),
{
    if edges.len() == 0 {
        Seq::empty()
    } else {
        let rest = segments(edges.drop_last(), eps);
        let (i, j, sim) = edges.last();
        if sim > eps {
            rest.push(SimplexView { vertices: seq![i, j], filtration: 8192 - sim })
        } else {
            rest
        }
    }
}

/// Whether an edge joins two positions, in either direction.
pub open spec fn joins(e: Edge, a: int, b: int) -> bool {
    (e.0 == a && e.1 == b) || (e.0 == b && e.1 == a)
}

/// The largest dot product among the edges between three positions.
pub open spec fn strongest(edges: Seq<Edge>, i: int, j: int, k: int) -> int
    decreases edges.len(),
{
    if edges.len() == 0 {
        i32::MIN as int
    } else {
        let rest = strongest(edges.drop_last(), i, j, k);
        let e = edges.last();
        if (joins(e, i, k) || joins(e, j, k) || joins(e, i, j)) && e.2 > rest {
            e.2 as int
        } else {
            rest
        }
    }
}

/// The triangles on `i` and `j` with a third position after `j` and before `end`.
pub open spec fn triangles_on(edges: Seq<Edge>, eps: int, i: int, j: int, end: int) -> Seq<
    SimplexView,
>
    decreases end - j,
{
    if end <= j + 1 {
        Seq::empty()
    } else {
        let rest = triangles_on(edges, eps, i, j, end - 1);
        let k = end - 1;
        if linked(edges, eps, i, k) && linked(edges, eps, j, k) {
            rest.push(
                SimplexView {
                    vertices: seq![i as usize, j as usize, k as usize],
                    filtration: 8192 - strongest(edges, i, j, k),
                },
            )
        } else {
            rest
        }
    }
}

/// The triangles on `i` with a second position before `end`.
pub open spec fn triangles_at(edges: Seq<Edge>, eps: int, n: int, i: int, end: int) -> Seq<
    SimplexView,
>
    decreases end - i,
{
    if end <= i + 1 {
        Seq::empty()
    } else {
        let rest = triangles_at(edges, eps, n, i, end - 1);
        if linked(edges, eps, i, end - 1) {
            rest + triangles_on(edges, eps, i, end - 1, n)
        } else {
            rest
        }
    }
}

/// The triangles with a first position before `end`.
pub open spec fn triangles(edges: Seq<Edge>, eps: int, n: int, end: int) -> Seq<SimplexView>
    decreases end,
{
    if end <= 0 {
        Seq::empty()
    } else {
        triangles(edges, eps, n, end - 1) + triangles_at(edges, eps, n, end - 1, n)
    }
}

/// The complex of a shape: points, edges above `eps`, and triangles all of whose edges are.
pub open spec fn complex(s: ShapeView, eps: int) -> Seq<SimplexView> {
    points(s.nodes.len()) + segments(s.edges, eps) + triangles(
        s.edges,
        eps,
        s.nodes.len() as int,
        s.nodes.len() as int,
    )
}

fn is_linked(edges: &Vec<Edge>, eps: i32, a: usize, b: usize) -> (r: bool)
    ensures
        r == linked(edges@, eps as int, a as int, b as int),
{
    let mut e: usize = 0;
    while e < edges.len()
        invariant
            e <= edges@.len(),
            forall|k: int|
                0 <= k < e ==> !(#[trigger] edges@[k].2 > eps && joins(
                    edges@[k],
                    a as int,
                    b as int,
                )),
        decreases edges@.len() - e,
    {
        let (x, y, sim) = edges[e];
        if sim > eps && ((x == a && y == b) || (x == b && y == a)) {
            assert(edges@[e as int].2 > eps);
            return true;
        }
        e += 1;
    }
    assert(!linked(edges@, eps as int, a as int, b as int)) by {
        if linked(edges@, eps as int, a as int, b as int) {
            let k = choose|k: int|
                0 <= k < edges@.len() && #[trigger] edges@[k].2 > eps && joins(
                    edges@[k],
                    a as int,
                    b as int,
                );
            assert(edges@[k].2 > eps);
        }
    }
    false
}

fn find_strongest(edges: &Vec<Edge>, i: usize, j: usize, k: usize) -> (r: i32)
    ensures
        r == strongest(edges@, i as int, j as int, k as int),
{
    let mut best: i32 = i32::MIN;
    let mut e: usize = 0;
    assert(edges@.take(0) =~= Seq::<Edge>::empty());
    while e < edges.len()
        invariant
            e <= edges@.len(),
            best == strongest(edges@.take(e as int), i as int, j as int, k as int),
        decreases edges@.len() - e,
    {
        proof {
            assert(edges@.take(e + 1).drop_last() =~= edges@.take(e as int));
            assert(edges@.take(e + 1).last() == edges@[e as int]);
        }
        let (a, b, sim) = edges[e];
        if ((a == i && b == k) || (a == k && b == i) || (a == j && b == k) || (a == k && b == j)
            || (a == i && b == j) || (a == j && b == i)) && sim > best {
            best = sim;
        }
        e += 1;
    }
    assert(edges@.take(e as int) =~= edges@);
    best
}

proof fn lemma_strongest_bounds(edges: Seq<Edge>, i: int, j: int, k: int)
    requires
        forall|e: int| 0 <= e < edges.len() ==> -0x10_0000 <= (#[trigger] edges[e]).2 <= 0x10_0000,
    ensures
        strongest(edges, i, j, k) <= 0x10_0000,
        (exists|e: int|
            0 <= e < edges.len() && (joins(#[trigger] edges[e], i, k) || joins(edges[e], j, k)
                || joins(edges[e], i, j))) ==> strongest(edges, i, j, k) >= -0x10_0000,
    decreases edges.len(),
{
    if edges.len() > 0 {
        let t = edges.drop_last();
        assert forall|e: int| 0 <= e < t.len() implies -0x10_0000 <= (#[trigger] t[e]).2
            <= 0x10_0000 by {
            assert(t[e] == edges[e]);
        }
        lemma_strongest_bounds(t, i, j, k);
        assert(edges.last() == edges[edges.len() - 1]);
        if exists|e: int|
            0 <= e < edges.len() && (joins(#[trigger] edges[e], i, k) || joins(edges[e], j, k)
                || joins(edges[e], i, j)) {
            let e = choose|e: int|
                0 <= e < edges.len() && (joins(#[trigger] edges[e], i, k) || joins(edges[e], j, k)
                    || joins(edges[e], i, j));
            if e < t.len() {
                assert(t[e] == edges[e]);
            }
        }
    }
}

fn push_triangles(
    shape: &Shape,
    eps: i32,
    i: usize,
    j: usize,
    out: &mut Vec<Simplex>,
)
    requires
        shape@.wf(),
        i < j < shape.nodes@.len(),
    ensures
        simplex_views(final(out)@) == simplex_views(old(out)@) + triangles_on(
            shape@.edges,
            eps as int,
            i as int,
            j as int,
            shape@.nodes.len() as int,
        ),
{
    let n = shape.nodes.len();
    let ghost start = simplex_views(out@);
    let ghost es = shape@.edges;
    let mut k: usize = j + 1;
    assert(simplex_views(out@) =~= start + triangles_on(es, eps as int, i as int, j as int, k as int));
    while k < n
        invariant
            shape@.wf(),
            n == shape.nodes@.len(),
            i < j < k <= n,
            es == shape@.edges,
            simplex_views(out@) == start + triangles_on(es, eps as int, i as int, j as int, k as int),
        decreases n - k,
    {
        if is_linked(&shape.edges, eps, i, k) && is_linked(&shape.edges, eps, j, k) {
            let best = find_strongest(&shape.edges, i, j, k);
            proof {
                let e = choose|e: int|
                    0 <= e < es.len() && #[trigger] es[e].2 > eps && joins(es[e], i as int, k as int);
                assert(joins(es[e], i as int, k as int));
                lemma_strongest_bounds(es, i as int, j as int, k as int);
            }
            let mut v: Vec<usize> = Vec::new();
            v.push(i);
            v.push(j);
            v.push(k);
            assert(v@ =~= seq![i, j, k]);
            let s = Simplex { vertices: v, filtration: 8192 - best };
            let ghost before = out@;
            out.push(s);
            assert(simplex_views(out@) =~= simplex_views(before).push(s@));
        }
        assert(simplex_views(out@) =~= start + triangles_on(
            es,
            eps as int,
            i as int,
            j as int,
            k + 1,
        ));
        k += 1;
    }
}

/// Builds the complex of a shape at `eps`.
pub fn build_vietoris_rips(shape: &Shape, eps: i32) -> (r: Vec<Simplex>)
    requires
        shape@.wf(),
    ensures
        simplex_views(r@) == complex(shape@, eps as int),
{
    let n = shape.nodes.len();
    let ghost es = shape@.edges;
    let mut out: Vec<Simplex> = Vec::new();
    let mut i: usize = 0;
    while i < n
        invariant
            n == shape.nodes@.len(),
            i <= n,
            simplex_views(out@) =~= points(i as nat),
        decreases n - i,
    {
        let mut v: Vec<usize> = Vec::new();
        v.push(i);
        assert(v@ =~= seq![i]);
        let s = Simplex { vertices: v, filtration: 0 };
        let ghost before = out@;
        out.push(s);
        assert(simplex_views(out@) =~= simplex_views(before).push(s@));
        i += 1;
    }
    let mut e: usize = 0;
    assert(es.take(0) =~= Seq::<Edge>::empty());
    assert(simplex_views(out@) =~= points(n as nat) + segments(es.take(0), eps as int));
    while e < shape.edges.len()
        invariant
            shape@.wf(),
            es == shape@.edges,
            e <= es.len(),
            simplex_views(out@) == points(n as nat) + segments(es.take(e as int), eps as int),
        decreases es.len() - e,
    {
        proof {
            assert(es.take(e + 1).drop_last() =~= es.take(e as int));
            assert(es.take(e + 1).last() == es[e as int]);
        }
        let (a, b, sim) = shape.edges[e];
        assert(es[e as int] == (a, b, sim));
        if sim > eps {
            let mut v: Vec<usize> = Vec::new();
            v.push(a);
            v.push(b);
            assert(v@ =~= seq![a, b]);
            let s = Simplex { vertices: v, filtration: 8192 - sim };
            let ghost before = out@;
            out.push(s);
            assert(simplex_views(out@) =~= simplex_views(before).push(s@));
        }
        assert(simplex_views(out@) =~= points(n as nat) + segments(es.take(e + 1), eps as int));
        e += 1;
    }
    assert(es.take(e as int) =~= es);
    let ghost base = points(n as nat) + segments(es, eps as int);
    let mut i: usize = 0;
    assert(simplex_views(out@) =~= base + triangles(es, eps as int, n as int, 0));
    while i < n
        invariant
            shape@.wf(),
            n == shape.nodes@.len(),
            es == shape@.edges,
            i <= n,
            simplex_views(out@) == base + triangles(es, eps as int, n as int, i as int),
        decreases n - i,
    {
        let ghost row = simplex_views(out@);
        let mut j: usize = i + 1;
        assert(simplex_views(out@) =~= row + triangles_at(
            es,
            eps as int,
            n as int,
            i as int,
            j as int,
        ));
        while j < n
            invariant
                shape@.wf(),
                n == shape.nodes@.len(),
                es == shape@.edges,
                i < j <= n,
                simplex_views(out@) == row + triangles_at(
                    es,
                    eps as int,
                    n as int,
                    i as int,
                    j as int,
                ),
            decreases n - j,
        {
            if is_linked(&shape.edges, eps, i, j) {
                push_triangles(shape, eps, i, j, &mut out);
            }
            assert(simplex_views(out@) =~= row + triangles_at(
                es,
                eps as int,
                n as int,
                i as int,
                j + 1,
            ));
            j += 1;
        }
        assert(simplex_views(out@) =~= base + triangles(es, eps as int, n as int, i + 1));
        i += 1;
    }
    out
}

// ---------------------------------------------------------------------------
// Persistent components
// ---------------------------------------------------------------------------

/// A bar of a barcode: it is born at a filtration value and dies at one, or never.
#[derive(Clone, Copy, Debug, PartialEq, Eq, Structural)]
pub struct Bar {
    pub birth: i32,
    pub death: Option<i32>,
}

/// The state of joining components edge by edge: the label of each position's component,
/// the number of components, and the filtration value of each join, in order.
pub struct Joined {
    pub labels: Seq<int>,
    pub count: int,
    pub deaths: Seq<i32>,
}

/// Every position on its own.
pub open spec fn apart(n: nat) -> Joined {
    Joined { labels: Seq::new(n, |i: int| i), count: n as int, deaths: Seq::empty() }
}

/// The labels with the component of `b` joined to that of `a`.
pub open spec fn relabelled(labels: Seq<int>, a: int, b: int) -> Seq<int> {
    labels.map_values(
        |l: int|
            if l == labels[b] {
                labels[a]
            } else {
                l
            },
    )
}

/// The state after an edge.
pub open spec fn joined_by(s: Joined, e: Edge) -> Joined {
    if s.labels[e.0 as int] == s.labels[e.1 as int] {
        s
    } else {
        Joined {
            labels: relabelled(s.labels, e.0 as int, e.1 as int),
            count: s.count - 1,
            deaths: s.deaths.push((8192 - e.2) as i32),
        }
    }
}

/// The state after the first `k` edges in an order.
pub open spec fn joined_upto(edges: Seq<Edge>, order: Seq<usize>, n: nat, k: nat) -> Joined
    decreases k,
{
    if k == 0 {
        apart(n)
    } else {
        joined_by(joined_upto(edges, order, n, (k - 1) as nat), edges[order[k - 1] as int])
    }
}

/// The bars for a state: one that never dies for each component, then one that dies for each
/// join, the last join first.
pub open spec fn bars(s: Joined) -> Seq<Bar> {
    Seq::new(s.count as nat, |i: int| Bar { birth: 0, death: None }) + Seq::new(
        s.deaths.len(),
        |i: int| Bar { birth: 0, death: Some(s.deaths[s.deaths.len() - 1 - i]) },
    )
}

/// The dot products of edges.
pub open spec fn strengths(edges: Seq<Edge>) -> Seq<i64> {
    Seq::new(edges.len(), |i: int| edges[i].2 as i64)
}

/// Non-roots have a parent of larger rank, and ranks are bounded.
spec fn forest(parent: Seq<usize>, rk: Seq<usize>, bound: int) -> bool {
    &&& parent.len() == rk.len()
    &&& forall|x: int| 0 <= x < parent.len() ==> 0 <= #[trigger] parent[x] < parent.len()
    &&& forall|x: int|
        0 <= x < parent.len() && #[trigger] parent[x] != x ==> rk[x] < rk[parent[x] as int]
    &&& forall|x: int| 0 <= x < rk.len() ==> #[trigger] rk[x] <= bound
}

spec fn root(parent: Seq<usize>, rk: Seq<usize>, bound: int, x: int) -> int
    decreases bound - rk[x],
{
    if parent[x] == x || !(rk[x] < rk[parent[x] as int] <= bound) {
        x
    } else {
        root(parent, rk, bound, parent[x] as int)
    }
}

proof fn lemma_root(parent: Seq<usize>, rk: Seq<usize>, bound: int, x: int)
    requires
        forest(parent, rk, bound),
        0 <= x < parent.len(),
    ensures
        0 <= root(parent, rk, bound, x) < parent.len(),
        parent[root(parent, rk, bound, x)] == root(parent, rk, bound, x),
        rk[x] <= rk[root(parent, rk, bound, x)],
        parent[x] != x ==> rk[x] < rk[root(parent, rk, bound, x)],
    decreases bound - rk[x],
{
    if parent[x] != x {
        assert(rk[parent[x] as int] <= bound);
        lemma_root(parent, rk, bound, parent[x] as int);
    }
}

/// Hanging a position directly under its root changes no root.
proof fn lemma_compress(parent: Seq<usize>, rk: Seq<usize>, bound: int, x: int, y: int)
    requires
        forest(parent, rk, bound),
        0 <= x < parent.len(),
        0 <= y < parent.len(),
        parent[x] != x,
    ensures
        forest(parent.update(x, root(parent, rk, bound, x) as usize), rk, bound),
        root(parent.update(x, root(parent, rk, bound, x) as usize), rk, bound, y) == root(
            parent,
            rk,
            bound,
            y,
        ),
    decreases bound - rk[y],
{
    let r = root(parent, rk, bound, x);
    lemma_root(parent, rk, bound, x);
    assert(parent[r] == r as usize);
    let p2 = parent.update(x, r as usize);
    assert(forest(p2, rk, bound));
    if y == x {
        assert(p2[r] == r);
        assert(root(p2, rk, bound, r) == r);
    } else if parent[y] != y {
        assert(rk[parent[y] as int] <= bound);
        lemma_compress(parent, rk, bound, x, parent[y] as int);
    }
}

/// The root of a position, whose path is shortened on the way.
fn find(parent: &mut Vec<usize>, rk: &Vec<usize>, x: usize, Ghost(bound): Ghost<int>) -> (r: usize)
    requires
        forest(old(parent)@, rk@, bound),
        x < old(parent)@.len(),
    ensures
        forest(final(parent)@, rk@, bound),
        final(parent)@.len() == old(parent)@.len(),
        r == root(old(parent)@, rk@, bound, x as int),
        forall|y: int|
            0 <= y < old(parent)@.len() ==> #[trigger] root(final(parent)@, rk@, bound, y) == root(
                old(parent)@,
                rk@,
                bound,
                y,
            ),
        final(parent)@[r as int] == r,
        r < old(parent)@.len(),
    decreases bound - rk@[x as int],
{
    proof {
        lemma_root(parent@, rk@, bound, x as int);
    }
    let up: usize = parent[x];
    if up != x {
        proof {
            assert(rk@[up as int] <= bound);
        }
        let r = find(parent, rk, up, Ghost(bound));
        let ghost mid = parent@;
        proof {
            lemma_root(mid, rk@, bound, x as int);
            assert(root(mid, rk@, bound, x as int) == r);
            if mid[x as int] == x {
                assert(root(mid, rk@, bound, x as int) == x);
                lemma_root(old(parent)@, rk@, bound, x as int);
                assert(rk@[x as int] < rk@[r as int]);
            }
            assert forall|y: int| 0 <= y < mid.len() implies #[trigger] root(
                mid.update(x as int, r),
                rk@,
                bound,
                y,
            ) == root(mid, rk@, bound, y) by {
                lemma_compress(mid, rk@, bound, x as int, y);
            }
            lemma_compress(mid, rk@, bound, x as int, x as int);
        }
        parent.set(x, r);
        proof {
            lemma_root(parent@, rk@, bound, x as int);
            assert(root(parent@, rk@, bound, x as int) == r);
        }
        r
    } else {
        x
    }
}

/// Roots do not depend on how ranks are bounded or raised.
proof fn lemma_root_ranks(
    parent: Seq<usize>,
    rk: Seq<usize>,
    bound: int,
    rk2: Seq<usize>,
    bound2: int,
    x: int,
)
    requires
        forest(parent, rk, bound),
        forest(parent, rk2, bound2),
        0 <= x < parent.len(),
    ensures
        root(parent, rk, bound, x) == root(parent, rk2, bound2, x),
    decreases bound - rk[x],
{
    if parent[x] != x {
        assert(rk[parent[x] as int] <= bound);
        assert(rk2[parent[x] as int] <= bound2);
        lemma_root_ranks(parent, rk, bound, rk2, bound2, parent[x] as int);
    }
}

/// Hanging one root under another moves the positions under it.
proof fn lemma_hang(parent: Seq<usize>, rk: Seq<usize>, bound: int, a: int, b: int, y: int)
    requires
        forest(parent, rk, bound),
        0 <= a < parent.len(),
        0 <= b < parent.len(),
        0 <= y < parent.len(),
        parent[a] == a,
        parent[b] == b,
        a != b,
        rk[b] < rk[a],
    ensures
        forest(parent.update(b, a as usize), rk, bound),
        root(parent.update(b, a as usize), rk, bound, y) == (if root(parent, rk, bound, y) == b {
            a
        } else {
            root(parent, rk, bound, y)
        }),
    decreases bound - rk[y],
{
    let p2 = parent.update(b, a as usize);
    assert(p2[a] == a);
    assert(root(p2, rk, bound, a) == a);
    assert(rk[a] <= bound);
    if y == b {
    } else if parent[y] != y {
        assert(rk[parent[y] as int] <= bound);
        lemma_hang(parent, rk, bound, a, b, parent[y] as int);
    }
}

/// That the labels are those of the trees.
spec fn agrees(labels: Seq<int>, parent: Seq<usize>, rk: Seq<usize>, bound: int) -> bool {
    &&& labels.len() == parent.len()
    &&& forall|x: int, y: int|
        0 <= x < labels.len() && 0 <= y < labels.len() ==> (#[trigger] labels[x]
            == #[trigger] labels[y] <==> root(parent, rk, bound, x) == root(parent, rk, bound, y))
}

/// Joins the trees of two positions; tells whether they were apart.
fn union(
    parent: &mut Vec<usize>,
    rk: &mut Vec<usize>,
    x: usize,
    y: usize,
    Ghost(bound): Ghost<int>,
    Ghost(labels): Ghost<Seq<int>>,
) -> (r: bool)
    requires
        forest(old(parent)@, old(rk)@, bound),
        agrees(labels, old(parent)@, old(rk)@, bound),
        x < old(parent)@.len(),
        y < old(parent)@.len(),
        0 <= bound < usize::MAX,
    ensures
        final(parent)@.len() == old(parent)@.len(),
        r == (labels[x as int] != labels[y as int]),
        !r ==> forest(final(parent)@, final(rk)@, bound) && agrees(
            labels,
            final(parent)@,
            final(rk)@,
            bound,
        ),
        r ==> forest(final(parent)@, final(rk)@, bound + 1) && agrees(
            relabelled(labels, x as int, y as int),
            final(parent)@,
            final(rk)@,
            bound + 1,
        ),
{
    let xr = find(parent, rk, x, Ghost(bound));
    let yr = find(parent, rk, y, Ghost(bound));
    let ghost p = parent@;
    let ghost k = rk@;
    assert forall|a: int, b: int| 0 <= a < labels.len() && 0 <= b < labels.len() implies (
    #[trigger] labels[a] == #[trigger] labels[b] <==> root(p, k, bound, a) == root(p, k, bound, b)) by {
        assert(root(p, k, bound, a) == root(old(parent)@, k, bound, a));
        assert(root(p, k, bound, b) == root(old(parent)@, k, bound, b));
    }
    assert(root(p, k, bound, x as int) == xr && root(p, k, bound, y as int) == yr);
    if xr == yr {
        assert(labels[x as int] == labels[y as int]);
        return false;
    }
    assert(labels[x as int] != labels[y as int]);
    proof {
        lemma_root(p, k, bound, x as int);
        lemma_root(p, k, bound, y as int);
        assert(p[xr as int] == xr && p[yr as int] == yr);
    }
    if rk[xr] < rk[yr] {
        parent.set(xr, yr);
        proof {
            lemma_union_agrees(p, k, bound, k, labels, x as int, y as int, yr as int, xr as int);
        }
    } else if rk[xr] > rk[yr] {
        parent.set(yr, xr);
        proof {
            lemma_union_agrees(p, k, bound, k, labels, x as int, y as int, xr as int, yr as int);
        }
    } else {
        parent.set(yr, xr);
        let v: usize = rk[xr];
        assert(k[xr as int] <= bound);
        rk.set(xr, v + 1);
        proof {
            lemma_union_agrees(p, k, bound, rk@, labels, x as int, y as int, xr as int, yr as int);
        }
    }
    true
}

proof fn lemma_union_agrees(
    p: Seq<usize>,
    k: Seq<usize>,
    bound: int,
    k2: Seq<usize>,
    labels: Seq<int>,
    x: int,
    y: int,
    a: int,
    b: int,
)
    requires
        forest(p, k, bound),
        agrees(labels, p, k, bound),
        0 <= x < p.len(),
        0 <= y < p.len(),
        0 <= a < p.len(),
        0 <= b < p.len(),
        a != b,
        p[a] == a,
        p[b] == b,
        (a == root(p, k, bound, x) && b == root(p, k, bound, y)) || (a == root(p, k, bound, y) && b
            == root(p, k, bound, x)),
        k2.len() == k.len(),
        k2 == k || k2 == k.update(a, (k[a] + 1) as usize),
        k[a] + 1 <= usize::MAX,
        k[b] < k2[a],
        k[b] <= k[a],
    ensures
        forest(p.update(b, a as usize), k2, bound + 1),
        agrees(relabelled(labels, x, y), p.update(b, a as usize), k2, bound + 1),
{
    assert(forest(p, k2, bound + 1)) by {
        assert forall|z: int| 0 <= z < p.len() && #[trigger] p[z] != z implies k2[z]
            < k2[p[z] as int] by {
            assert(k[z] < k[p[z] as int]);
        }
        assert forall|z: int| 0 <= z < k2.len() implies #[trigger] k2[z] <= bound + 1 by {
            assert(k[z] <= bound);
        }
    }
    assert(k2[b] < k2[a]);
    let q = p.update(b, a as usize);
    let l2 = relabelled(labels, x, y);
    lemma_hang(p, k2, bound + 1, a, b, a);
    assert forall|u: int, v: int| 0 <= u < l2.len() && 0 <= v < l2.len() implies (#[trigger] l2[u]
        == #[trigger] l2[v] <==> root(q, k2, bound + 1, u) == root(q, k2, bound + 1, v)) by {
        lemma_hang(p, k2, bound + 1, a, b, u);
        lemma_hang(p, k2, bound + 1, a, b, v);
        lemma_root_ranks(p, k, bound, k2, bound + 1, u);
        lemma_root_ranks(p, k, bound, k2, bound + 1, v);
        assert(labels[u] == labels[v] <==> root(p, k, bound, u) == root(p, k, bound, v));
        assert(labels[u] == labels[y] <==> root(p, k, bound, u) == root(p, k, bound, y));
        assert(labels[v] == labels[y] <==> root(p, k, bound, v) == root(p, k, bound, y));
        assert(labels[u] == labels[x] <==> root(p, k, bound, u) == root(p, k, bound, x));
        assert(labels[v] == labels[x] <==> root(p, k, bound, v) == root(p, k, bound, x));
        assert(labels[x] == labels[y] <==> root(p, k, bound, x) == root(p, k, bound, y));
    }
}

/// The positions of the edges of a shape, the strongest first.
fn edge_order(shape: &Shape) -> (order: Vec<usize>)
    ensures
        ranked(strengths(shape@.edges), order@),
{
    let m = shape.edges.len();
    let ghost es = shape@.edges;
    let mut keys: Vec<i64> = Vec::new();
    let mut e: usize = 0;
    while e < m
        invariant
            m == shape.edges@.len(),
            es == shape.edges@,
            e <= m,
            keys@ =~= strengths(es).take(e as int),
        decreases m - e,
    {
        keys.push(shape.edges[e].2 as i64);
        e += 1;
    }
    assert(strengths(es).take(e as int) =~= strengths(es));
    rank(&keys)
}

/// The parents and ranks of `n` positions, each on its own.
fn singles(n: usize) -> (r: (Vec<usize>, Vec<usize>))
    ensures
        r.0@.len() == n,
        forest(r.0@, r.1@, 0),
        agrees(apart(n as nat).labels, r.0@, r.1@, 0),
{
    let mut parent: Vec<usize> = Vec::new();
    let mut rk: Vec<usize> = Vec::new();
    let mut i: usize = 0;
    while i < n
        invariant
            i <= n,
            parent@.len() == i,
            rk@.len() == i,
            forall|x: int| 0 <= x < i ==> #[trigger] parent@[x] == x,
            forall|x: int| 0 <= x < i ==> #[trigger] rk@[x] == 0,
        decreases n - i,
    {
        parent.push(i);
        rk.push(0);
        i += 1;
    }
    assert(agrees(apart(n as nat).labels, parent@, rk@, 0)) by {
        assert forall|x: int| 0 <= x < n implies #[trigger] root(parent@, rk@, 0, x) == x by {
            assert(parent@[x] == x);
        }
    }
    (parent, rk)
}

/// The barcode of the components of a shape: edges join components from the strongest on.
/// Each concept has a bar, which dies where its component is joined to another one.
pub fn persistent_h0(shape: &Shape) -> (r: Vec<Bar>)
    requires
        shape@.wf(),
    ensures
        exists|order: Seq<usize>|
            {
                &&& #[trigger] ranked(strengths(shape@.edges), order)
                &&& r@ == bars(
                    joined_upto(
                        shape@.edges,
                        order,
                        shape@.nodes.len(),
                        shape@.edges.len(),
                    ),
                )
            },
        r@.len() == shape@.nodes.len(),
{
    let n = shape.nodes.len();
    let m = shape.edges.len();
    let ghost es = shape@.edges;
    let order = edge_order(shape);
    let (mut parent, mut rk) = singles(n);
    let mut count: usize = n;
    let mut deaths: Vec<i32> = Vec::new();
    let ghost mut st = apart(n as nat);
    proof {
        lemma_apart_count(n as nat);
        assert(deaths@ =~= st.deaths);
    }
    let mut k: usize = 0;
    while k < m
        invariant
            shape@.wf(),
            n == shape.nodes@.len(),
            m == shape.edges@.len(),
            es == shape.edges@,
            k <= m,
            ranked(strengths(es), order@),
            parent@.len() == n,
            st == joined_upto(es, order@, n as nat, k as nat),
            count == st.count,
            deaths@ == st.deaths,
            0 <= count <= n,
            count + deaths@.len() == n,
            forest(parent@, rk@, n - count),
            agrees(st.labels, parent@, rk@, n - count),
            st.labels.len() == n,
            label_count(st),
        decreases m - k,
    {
        let at = order[k];
        assert(at < es.len());
        let (a, b, sim) = shape.edges[at];
        assert(es[at as int] == (a, b, sim));
        assert(shape@.edges[at as int].0 < n);
        proof {
            lemma_label_count(st, es[at as int]);
        }
        if union(&mut parent, &mut rk, a, b, Ghost(n - count), Ghost(st.labels)) {
            count = count - 1;
            deaths.push(8192 - sim);
        }
        proof {
            st = joined_by(st, es[at as int]);
        }
        k += 1;
    }
    let mut out: Vec<Bar> = Vec::new();
    let mut c: usize = 0;
    while c < count
        invariant
            c <= count,
            out@ =~= Seq::new(c as nat, |i: int| Bar { birth: 0, death: None }),
        decreases count - c,
    {
        out.push(Bar { birth: 0, death: None });
        c += 1;
    }
    let ghost forever = out@;
    let mut d: usize = deaths.len();
    while d > 0
        invariant
            d <= deaths@.len(),
            out@ =~= forever + Seq::new(
                (deaths@.len() - d) as nat,
                |i: int| Bar { birth: 0, death: Some(deaths@[deaths@.len() - 1 - i]) },
            ),
        decreases d,
    {
        d -= 1;
        out.push(Bar { birth: 0, death: Some(deaths[d]) });
    }
    assert(ranked(strengths(shape@.edges), order@));
    assert(out@ =~= bars(joined_upto(es, order@, n as nat, es.len())));
    out
}

/// The number of components is the number of labels in use.
pub open spec fn label_count(s: Joined) -> bool {
    s.count == s.labels.to_set().len()
}

proof fn lemma_apart_count(n: nat)
    ensures
        label_count(apart(n)),
{
    let labels = apart(n).labels;
    assert(labels.to_set() =~= vstd::set_lib::set_int_range(0, n as int)) by {
        assert forall|v: int| labels.to_set().contains(v) <==> vstd::set_lib::set_int_range(
            0,
            n as int,
        ).contains(v) by {
            if 0 <= v < n {
                assert(labels[v] == v);
            }
        }
    }
    vstd::set_lib::lemma_int_range(0, n as int);
}

proof fn lemma_label_count(s: Joined, e: Edge)
    requires
        label_count(s),
        e.0 < s.labels.len(),
        e.1 < s.labels.len(),
    ensures
        label_count(joined_by(s, e)),
        joined_by(s, e).labels.len() == s.labels.len(),
        s.count >= 1,
        joined_by(s, e).count >= 1,
{
    let a = s.labels[e.0 as int];
    let b = s.labels[e.1 as int];
    let set = s.labels.to_set();
    vstd::seq_lib::seq_to_set_is_finite(s.labels);
    assert(set.contains(a));
    assert(set.contains(b));
    assert(set.len() >= 1) by {
        if set.len() == 0 {
            set.lemma_len0_is_empty();
        }
    }
    if a != b {
        let l2 = relabelled(s.labels, e.0 as int, e.1 as int);
        let set2 = l2.to_set();
        assert(set2 =~= set.remove(b)) by {
            assert forall|v: int| set2.contains(v) <==> set.remove(b).contains(v) by {
                if set2.contains(v) {
                    let i = choose|i: int| 0 <= i < l2.len() && l2[i] == v;
                    assert(s.labels[i] == b || s.labels[i] == v);
                    assert(s.labels.contains(s.labels[i]));
                }
                if set.remove(b).contains(v) {
                    let i = choose|i: int| 0 <= i < s.labels.len() && s.labels[i] == v;
                    assert(l2[i] == v);
                }
            }
        }
        assert(set.remove(b).contains(a));
        if set2.len() == 0 {
            set2.lemma_len0_is_empty();
        }
    }
}

/// Joining edge by edge, in any order of all edges, ends with a label for each connected
/// component: two positions have the same label exactly where a path leads from one to the
/// other, and there are as many labels as the barcode has bars that never die. Every position
/// has one bar.
pub proof fn law_h0_components(
    edges: Seq<Edge>,
    order: Seq<usize>,
    n: nat,
    i: int,
    j: int,
)
    requires
        ranked(strengths(edges), order),
        forall|e: int| 0 <= e < edges.len() ==> (#[trigger] edges[e]).0 < n && edges[e].1 < n,
        0 <= i < n,
        0 <= j < n,
    ensures
        ({
            let s = joined_upto(edges, order, n, edges.len());
            &&& s.labels[i] == s.labels[j] <==> connected(edges, i32::MIN - 1, i, j)
            &&& label_count(s)
            &&& bars(s).len() == n
        }),
{
    let all = i32::MIN - 1;
    lemma_joined(edges, order, n, edges.len());
    lemma_bar_each(edges, order, n, edges.len());
    let s = joined_upto(edges, order, n, edges.len());
    assert forall|e: int| 0 <= e < edges.len() implies s.labels[(#[trigger] edges[e]).0 as int]
        == s.labels[edges[e].1 as int] by {
        crate::sorting::lemma_ranked_holds_all(strengths(edges), order, e);
        let k = choose|k: int| 0 <= k < order.len() && #[trigger] order[k] == e;
        assert(s.labels[edges[order[k] as int].0 as int] == s.labels[edges[order[k] as int].1 as int]);
    }
    if connected(edges, all, i, j) {
        let p = choose|p: Seq<int>| #[trigger] is_path(edges, all, p) && p[0] == i && p.last() == j;
        lemma_path_same_label(edges, s.labels, p, p.len() - 1);
    }
    if s.labels[i] == s.labels[j] {
        assert(connected(edges, all, i, j));
    }
}

proof fn lemma_bar_each(edges: Seq<Edge>, order: Seq<usize>, n: nat, k: nat)
    ensures
        ({
            let s = joined_upto(edges, order, n, k);
            s.count + s.deaths.len() == n
        }),
    decreases k,
{
    if k > 0 {
        lemma_bar_each(edges, order, n, (k - 1) as nat);
    }
}

proof fn lemma_path_same_label(edges: Seq<Edge>, labels: Seq<int>, p: Seq<int>, k: int)
    requires
        is_path(edges, i32::MIN - 1, p),
        0 <= k < p.len(),
        forall|e: int|
            0 <= e < edges.len() ==> labels[(#[trigger] edges[e]).0 as int]
                == labels[edges[e].1 as int],
    ensures
        labels[p[k]] == labels[p[0]],
    decreases k,
{
    if k > 0 {
        lemma_path_same_label(edges, labels, p, k - 1);
        assert(linked(edges, i32::MIN - 1, p[k - 1], p[k - 1 + 1]));
        let e = choose|e: int|
            0 <= e < edges.len() && #[trigger] edges[e].2 > i32::MIN - 1 && joins(
                edges[e],
                p[k - 1],
                p[k],
            );
        assert(labels[edges[e].0 as int] == labels[edges[e].1 as int]);
    }
}

proof fn lemma_connected_self(edges: Seq<Edge>, eps: int, a: int)
    ensures
        connected(edges, eps, a, a),
{
    let p = seq![a];
    assert(is_path(edges, eps, p));
    assert(p.last() == a);
}

proof fn lemma_connected_trans(edges: Seq<Edge>, eps: int, a: int, b: int, c: int)
    requires
        connected(edges, eps, a, b),
        connected(edges, eps, b, c),
    ensures
        connected(edges, eps, a, c),
{
    let p = choose|p: Seq<int>| #[trigger] is_path(edges, eps, p) && p[0] == a && p.last() == b;
    let q = choose|q: Seq<int>| #[trigger] is_path(edges, eps, q) && q[0] == b && q.last() == c;
    let r = p + q.drop_first();
    assert forall|k: int| 0 <= k < r.len() - 1 implies linked(edges, eps, #[trigger] r[k], r[k + 1]) by {
        if k < p.len() - 1 {
            assert(r[k] == p[k] && r[k + 1] == p[k + 1]);
        } else {
            let m = k - (p.len() - 1);
            assert(r[k] == q[m]);
            assert(r[k + 1] == q[m + 1]);
        }
    }
    assert(is_path(edges, eps, r));
    assert(r[0] == a);
    assert(r.last() == c) by {
        if q.len() == 1 {
            assert(r =~= p);
        }
    }
}

proof fn lemma_connected_back(edges: Seq<Edge>, eps: int, a: int, b: int)
    requires
        connected(edges, eps, a, b),
    ensures
        connected(edges, eps, b, a),
{
    let p = choose|p: Seq<int>| #[trigger] is_path(edges, eps, p) && p[0] == a && p.last() == b;
    let q = p.reverse();
    let n = p.len();
    assert forall|k: int| 0 <= k < q.len() - 1 implies linked(edges, eps, #[trigger] q[k], q[k + 1]) by {
        assert(q[k] == p[n - 1 - k]);
        assert(q[k + 1] == p[n - 2 - k]);
        assert(linked(edges, eps, p[n - 2 - k], p[n - 2 - k + 1]));
        let e = choose|e: int|
            0 <= e < edges.len() && #[trigger] edges[e].2 > eps && joins(
                edges[e],
                p[n - 2 - k],
                p[n - 2 - k + 1],
            );
        assert(edges[e].2 > eps);
    }
    assert(is_path(edges, eps, q));
    assert(q[0] == b && q.last() == a);
}

proof fn lemma_joined(edges: Seq<Edge>, order: Seq<usize>, n: nat, k: nat)
    requires
        ranked(strengths(edges), order),
        forall|e: int| 0 <= e < edges.len() ==> (#[trigger] edges[e]).0 < n && edges[e].1 < n,
        k <= order.len(),
    ensures
        ({
            let s = joined_upto(edges, order, n, k);
            &&& s.labels.len() == n
            &&& label_count(s)
            &&& forall|q: int|
                0 <= q < k ==> s.labels[edges[#[trigger] order[q] as int].0 as int]
                    == s.labels[edges[order[q] as int].1 as int]
            &&& forall|x: int, y: int|
                0 <= x < n && 0 <= y < n && #[trigger] s.labels[x] == #[trigger] s.labels[y]
                    ==> connected(edges, i32::MIN - 1, x, y)
        }),
    decreases k,
{
    let all = i32::MIN - 1;
    let s = joined_upto(edges, order, n, k);
    if k == 0 {
        lemma_apart_count(n);
        assert forall|x: int, y: int|
            0 <= x < n && 0 <= y < n && #[trigger] s.labels[x] == #[trigger] s.labels[y] implies connected(
            edges,
            all,
            x,
            y,
        ) by {
            lemma_connected_self(edges, all, x);
        }
    } else {
        lemma_joined(edges, order, n, (k - 1) as nat);
        let t = joined_upto(edges, order, n, (k - 1) as nat);
        let at = order[k - 1] as int;
        assert(at < edges.len());
        let e = edges[at];
        assert(e.0 < n && e.1 < n);
        lemma_label_count(t, e);
        assert forall|q: int| 0 <= q < k implies s.labels[edges[#[trigger] order[q] as int].0 as int]
            == s.labels[edges[order[q] as int].1 as int] by {
            if q < k - 1 {
                assert(t.labels[edges[order[q] as int].0 as int]
                    == t.labels[edges[order[q] as int].1 as int]);
            }
            assert(order[q] < edges.len());
        }
        if t.labels[e.0 as int] != t.labels[e.1 as int] {
            let p = seq![e.0 as int, e.1 as int];
            assert(linked(edges, all, e.0 as int, e.1 as int)) by {
                assert(edges[at].2 > all);
            }
            assert(is_path(edges, all, p));
            assert(p.last() == e.1 as int);
            assert(connected(edges, all, e.0 as int, e.1 as int));
            lemma_connected_back(edges, all, e.0 as int, e.1 as int);
            assert forall|x: int, y: int|
                0 <= x < n && 0 <= y < n && #[trigger] s.labels[x]
                    == #[trigger] s.labels[y] implies connected(edges, all, x, y) by {
                let lx = t.labels[x];
                let ly = t.labels[y];
                let la = t.labels[e.0 as int];
                let lb = t.labels[e.1 as int];
                if lx == ly {
                } else if lx == lb {
                    assert(ly == la);
                    assert(connected(edges, all, x, e.1 as int));
                    assert(connected(edges, all, e.0 as int, y));
                    lemma_connected_trans(edges, all, x, e.1 as int, e.0 as int);
                    lemma_connected_trans(edges, all, x, e.0 as int, y);
                } else {
                    assert(ly == lb && lx == la);
                    assert(connected(edges, all, x, e.0 as int));
                    assert(connected(edges, all, e.1 as int, y));
                    lemma_connected_trans(edges, all, x, e.0 as int, e.1 as int);
                    lemma_connected_trans(edges, all, x, e.1 as int, y);
                }
            }
        }
    }
}

/// The loops that the first `k` edges close, in an order: an edge closes one where its ends
/// are in the same component already. A loop is born with its edge, is left out beyond the
/// largest filtration value, and never dies.
pub open spec fn loops_upto(
    edges: Seq<Edge>,
    order: Seq<usize>,
    n: nat,
    most: int,
    k: nat,
) -> Seq<Bar>
    decreases k,
{
    if k == 0 {
        Seq::empty()
    } else {
        let rest = loops_upto(edges, order, n, most, (k - 1) as nat);
        let labels = joined_upto(edges, order, n, (k - 1) as nat).labels;
        let e = edges[order[k - 1] as int];
        if labels[e.0 as int] == labels[e.1 as int] && 8192 - e.2 <= most {
            rest.push(Bar { birth: (8192 - e.2) as i32, death: None })
        } else {
            rest
        }
    }
}

/// The barcode of the loops of a shape up to a filtration value: the edges that are not part
/// of the spanning forest of the strongest ones.
pub fn persistent_h1(shape: &Shape, eps_max: i32) -> (r: Vec<Bar>)
    requires
        shape@.wf(),
    ensures
        exists|order: Seq<usize>|
            {
                &&& #[trigger] ranked(strengths(shape@.edges), order)
                &&& r@ == loops_upto(
                    shape@.edges,
                    order,
                    shape@.nodes.len(),
                    eps_max as int,
                    shape@.edges.len(),
                )
            },
{
    let n = shape.nodes.len();
    let m = shape.edges.len();
    let ghost es = shape@.edges;
    let order = edge_order(shape);
    let (mut parent, mut rk) = singles(n);
    let ghost mut st = apart(n as nat);
    proof {
        lemma_apart_count(n as nat);
    }
    let mut out: Vec<Bar> = Vec::new();
    let mut k: usize = 0;
    while k < m
        invariant
            shape@.wf(),
            n == shape.nodes@.len(),
            m == shape.edges@.len(),
            es == shape.edges@,
            k <= m,
            ranked(strengths(es), order@),
            parent@.len() == n,
            st == joined_upto(es, order@, n as nat, k as nat),
            out@ =~= loops_upto(es, order@, n as nat, eps_max as int, k as nat),
            0 <= st.count <= n,
            forest(parent@, rk@, n - st.count),
            agrees(st.labels, parent@, rk@, n - st.count),
            st.labels.len() == n,
            label_count(st),
        decreases m - k,
    {
        let at = order[k];
        assert(at < es.len());
        let (a, b, sim) = shape.edges[at];
        assert(es[at as int] == (a, b, sim));
        assert(shape@.edges[at as int].0 < n);
        proof {
            lemma_label_count(st, es[at as int]);
        }
        if !union(&mut parent, &mut rk, a, b, Ghost(n - st.count), Ghost(st.labels)) {
            if 8192 - sim <= eps_max {
                out.push(Bar { birth: 8192 - sim, death: None });
            }
        }
        proof {
            st = joined_by(st, es[at as int]);
        }
        k += 1;
    }
    assert(ranked(strengths(shape@.edges), order@));
    out
}

/// There are as many loops as edges within the filtration value beyond those that a spanning
/// forest takes: the edges, less the concepts, plus the components that these edges leave.
pub proof fn law_h1_counts_loops(
    edges: Seq<Edge>,
    order: Seq<usize>,
    n: nat,
    most: int,
    k: nat,
)
    requires
        ranked(strengths(edges), order),
        forall|e: int| 0 <= e < edges.len() ==> (#[trigger] edges[e]).0 < n && edges[e].1 < n,
        k <= edges.len(),
        forall|q: int| 0 <= q < k ==> 8192 - edges[#[trigger] order[q] as int].2 <= most,
        forall|q: int| k <= q < edges.len() ==> 8192 - edges[#[trigger] order[q] as int].2 > most,
    ensures
        loops_upto(edges, order, n, most, edges.len()).len() == k - n + joined_upto(
            edges,
            order,
            n,
            k,
        ).count,
{
    lemma_loops_within(edges, order, n, most, k);
    lemma_loops_beyond(edges, order, n, most, k, edges.len());
}

proof fn lemma_loops_within(edges: Seq<Edge>, order: Seq<usize>, n: nat, most: int, k: nat)
    requires
        forall|q: int| 0 <= q < k ==> 8192 - edges[#[trigger] order[q] as int].2 <= most,
    ensures
        loops_upto(edges, order, n, most, k).len() == k - n + joined_upto(edges, order, n, k).count,
    decreases k,
{
    if k > 0 {
        lemma_loops_within(edges, order, n, most, (k - 1) as nat);
        assert(8192 - edges[order[k - 1] as int].2 <= most);
    }
}

proof fn lemma_loops_beyond(
    edges: Seq<Edge>,
    order: Seq<usize>,
    n: nat,
    most: int,
    k: nat,
    m: nat,
)
    requires
        k <= m,
        forall|q: int| k <= q < m ==> 8192 - edges[#[trigger] order[q] as int].2 > most,
    ensures
        loops_upto(edges, order, n, most, m) == loops_upto(edges, order, n, most, k),
    decreases m - k,
{
    if k < m {
        lemma_loops_beyond(edges, order, n, most, k, (m - 1) as nat);
        assert(8192 - edges[order[m - 1] as int].2 > most);
    }
}

// ---------------------------------------------------------------------------
// Folding and intersecting
// ---------------------------------------------------------------------------

/// The dot product above which an edge is shorter than `eps`: `8192` less `eps`, as far as
/// dot products go.
pub open spec fn cut(eps: i32) -> i32 {
    if eps < -0x7fff_0000 {
        i32::MAX
    } else {
        (8192 - eps) as i32
    }
}

/// The confidences of the first `k` concepts of a group, added up.
pub open spec fn confidence_sum(nodes: Seq<NodeView>, group: Seq<usize>, k: nat) -> nat
    decreases k,
{
    if k == 0 {
        0
    } else {
        confidence_sum(nodes, group, (k - 1) as nat) + nodes[group[k - 1] as int].confidence as nat
    }
}

/// The weight of concept `i` of a group: its confidence, or one where no concept of the group
/// has any.
pub open spec fn weight(nodes: Seq<NodeView>, group: Seq<usize>, i: int) -> nat {
    if confidence_sum(nodes, group, group.len()) == 0 {
        1
    } else {
        nodes[group[i] as int].confidence as nat
    }
}

/// The weights of the first `k` concepts of a group, added up.
pub open spec fn weight_sum(nodes: Seq<NodeView>, group: Seq<usize>, k: nat) -> nat
    decreases k,
{
    if k == 0 {
        0
    } else {
        weight_sum(nodes, group, (k - 1) as nat) + weight(nodes, group, k - 1)
    }
}

/// The weighted entries `j` of the first `k` concepts of a group, added up.
pub open spec fn entry_sum(nodes: Seq<NodeView>, group: Seq<usize>, j: int, k: nat) -> int
    decreases k,
{
    if k == 0 {
        0
    } else {
        entry_sum(nodes, group, j, (k - 1) as nat) + weight(nodes, group, k - 1)
            * nodes[group[k - 1] as int].vector[j]
    }
}

/// A quotient rounded to the nearest, halves away from zero.
pub open spec fn nearest(sum: int, weight: int) -> int {
    if sum >= 0 {
        (2 * sum + weight) / (2 * weight)
    } else {
        -((-2 * sum + weight) / (2 * weight))
    }
}

/// What a group of concepts collapses to: its first concept, with the weighted mean of the
/// vectors.
pub open spec fn collapsed(nodes: Seq<NodeView>, group: Seq<usize>) -> NodeView {
    NodeView {
        vector: Seq::new(
            64,
            |j: int|
                nearest(
                    entry_sum(nodes, group, j, group.len()),
                    weight_sum(nodes, group, group.len()) as int,
                ) as i8,
        ),
        ..nodes[group[0] as int]
    }
}

/// Positions of concepts, at least one.
spec fn group_of(nodes: Seq<NodeView>, group: Seq<usize>) -> bool {
    &&& group.len() > 0
    &&& forall|k: int| 0 <= k < group.len() ==> #[trigger] group[k] < nodes.len()
}

proof fn lemma_weights(nodes: Seq<NodeView>, group: Seq<usize>, k: nat)
    ensures
        weight_sum(nodes, group, k) == if confidence_sum(nodes, group, group.len()) == 0 {
            k
        } else {
            confidence_sum(nodes, group, k)
        },
        confidence_sum(nodes, group, k) <= k * 0xffff,
    decreases k,
{
    if k > 0 {
        lemma_weights(nodes, group, (k - 1) as nat);
        assert(k * 0xffff == (k - 1) * 0xffff + 0xffff) by (nonlinear_arith);
    }
}

proof fn lemma_entry_sum(nodes: Seq<NodeView>, group: Seq<usize>, j: int, k: nat)
    ensures
        -128 * weight_sum(nodes, group, k) <= entry_sum(nodes, group, j, k) <= 127 * weight_sum(
            nodes,
            group,
            k,
        ),
    decreases k,
{
    if k > 0 {
        lemma_entry_sum(nodes, group, j, (k - 1) as nat);
        let w = weight(nodes, group, k - 1) as int;
        let v = nodes[group[k - 1] as int].vector[j] as int;
        assert(-128 * w <= w * v <= 127 * w) by (nonlinear_arith)
            requires
                -128 <= v <= 127,
                w >= 0,
        ;
    }
}

proof fn lemma_nearest(sum: int, weight: int)
    requires
        weight > 0,
        -128 * weight <= sum <= 127 * weight,
    ensures
        -128 <= nearest(sum, weight) <= 127,
{
    if sum >= 0 {
        let q = (2 * sum + weight) / (2 * weight);
        vstd::arithmetic::div_mod::lemma_fundamental_div_mod(2 * sum + weight, 2 * weight);
        vstd::arithmetic::div_mod::lemma_mod_bound(2 * sum + weight, 2 * weight);
        assert(0 <= q <= 127) by (nonlinear_arith)
            requires
                2 * sum + weight == 2 * weight * q + (2 * sum + weight) % (2 * weight),
                0 <= (2 * sum + weight) % (2 * weight) < 2 * weight,
                0 <= sum <= 127 * weight,
                weight > 0,
        ;
    } else {
        let q = (-2 * sum + weight) / (2 * weight);
        vstd::arithmetic::div_mod::lemma_fundamental_div_mod(-2 * sum + weight, 2 * weight);
        vstd::arithmetic::div_mod::lemma_mod_bound(-2 * sum + weight, 2 * weight);
        assert(0 <= q <= 128) by (nonlinear_arith)
            requires
                -2 * sum + weight == 2 * weight * q + (-2 * sum + weight) % (2 * weight),
                0 <= (-2 * sum + weight) % (2 * weight) < 2 * weight,
                0 <= -sum <= 128 * weight,
                weight > 0,
        ;
    }
}

fn nearest_of(sum: i128, weight: i128) -> (r: i8)
    requires
        0 < weight < 0x1_0000_0000_0000_0000_0000_0000,
        -128 * weight <= sum <= 127 * weight,
    ensures
        r == nearest(sum as int, weight as int),
{
    proof {
        lemma_nearest(sum as int, weight as int);
    }
    let q: i128 = if sum >= 0 {
        (2 * sum + weight) / (2 * weight)
    } else {
        -((-2 * sum + weight) / (2 * weight))
    };
    q as i8
}

fn collapse(nodes: &Vec<ConceptNode>, group: &Vec<usize>) -> (r: ConceptNode)
    requires
        group_of(node_views(nodes@), group@),
    ensures
        r@ == collapsed(node_views(nodes@), group@),
{
    let ghost vs = node_views(nodes@);
    let ghost g = group@;
    let m = group.len();
    let mut total: u128 = 0;
    let mut i: usize = 0;
    while i < m
        invariant
            m == group@.len(),
            g == group@,
            vs == node_views(nodes@),
            group_of(vs, g),
            i <= m,
            total == confidence_sum(vs, g, i as nat),
            total <= i * 0xffff,
        decreases m - i,
    {
        assert(g[i as int] < vs.len());
        assert(vs[g[i as int] as int] == nodes@[g[i as int] as int]@);
        total = total + nodes[group[i]].confidence as u128;
        i += 1;
    }
    let even: bool = total == 0;
    let weights: i128 = if even {
        m as i128
    } else {
        total as i128
    };
    proof {
        lemma_weights(vs, g, m as nat);
    }
    let mut vector: [i8; 64] = [0;64];
    let mut j: usize = 0;
    while j < 64
        invariant
            m == group@.len(),
            g == group@,
            vs == node_views(nodes@),
            group_of(vs, g),
            even == (confidence_sum(vs, g, g.len()) == 0),
            weights == weight_sum(vs, g, g.len()),
            0 < weights <= m * 0xffff,
            j <= 64,
            forall|x: int|
                0 <= x < j ==> #[trigger] vector@[x] == nearest(
                    entry_sum(vs, g, x, g.len()),
                    weights as int,
                ) as i8,
        decreases 64 - j,
    {
        let mut sum: i128 = 0;
        let mut k: usize = 0;
        while k < m
            invariant
                m == group@.len(),
                g == group@,
                vs == node_views(nodes@),
                group_of(vs, g),
                even == (confidence_sum(vs, g, g.len()) == 0),
                j < 64,
                k <= m,
                sum == entry_sum(vs, g, j as int, k as nat),
                -0x80_0000 * k <= sum <= 0x80_0000 * k,
            decreases m - k,
        {
            assert(g[k as int] < vs.len());
            assert(vs[g[k as int] as int] == nodes@[g[k as int] as int]@);
            let node = &nodes[group[k]];
            let w: i128 = if even {
                1
            } else {
                node.confidence as i128
            };
            let v: i128 = node.vector[j] as i128;
            assert(w == weight(vs, g, k as int));
            assert(v == vs[g[k as int] as int].vector[j as int]);
            assert(-0x80_0000 <= w * v <= 0x80_0000) by (nonlinear_arith)
                requires
                    0 <= w <= 0xffff,
                    -128 <= v <= 127,
            ;
            sum = sum + w * v;
            k += 1;
        }
        proof {
            lemma_entry_sum(vs, g, j as int, m as nat);
        }
        vector[j] = nearest_of(sum, weights);
        j += 1;
    }
    let first = group[0];
    assert(g[0] < vs.len());
    assert(vs[g[0] as int] == nodes@[g[0] as int]@);
    let c = nodes[first].copy();
    let r = ConceptNode { id: c.id, vector, confidence: c.confidence, connections: c.connections };
    assert(r@.vector =~= collapsed(vs, g).vector);
    r
}

/// The concepts that groups collapse to.
pub open spec fn all_collapsed(nodes: Seq<NodeView>, groups: Seq<Seq<usize>>) -> Seq<NodeView> {
    groups.map_values(|group: Seq<usize>| collapsed(nodes, group))
}

/// A shape in which what edges shorter than `eps` hold together is one concept, the weighted
/// mean. A shape of at most one concept stays as it is.
pub fn fold(shape: &Shape, eps: i32) -> (r: Shape)
    requires
        shape@.wf(),
    ensures
        r@ == (if shape@.nodes.len() <= 1 {
            shape@
        } else {
            shape_of(
                shape@.name + "_folded"@,
                all_collapsed(
                    shape@.nodes,
                    components(shape@.edges, cut(eps) as int, shape@.nodes.len()),
                ),
                HALF_SIMILAR as int,
            )
        }),
        r@.wf(),
{
    let n = shape.nodes.len();
    if n <= 1 {
        return shape.copy();
    }
    let limit: i32 = if eps < -0x7fff_0000 {
        i32::MAX
    } else {
        8192 - eps
    };
    assert forall|e: int| 0 <= e < shape.edges@.len() implies (#[trigger] shape.edges@[e]).0 < n
        && shape.edges@[e].1 < n by {
        assert(shape@.edges[e].0 < shape@.nodes.len());
    }
    let adj = build_neighbours(&shape.edges, limit, n);
    let groups = find_components(&adj);
    let ghost cs = components(shape@.edges, cut(eps) as int, n as nat);
    proof {
        lemma_component_entries(shape@.edges, cut(eps) as int, n as nat);
        assert(lists(groups@) == cs);
    }
    let mut kept: Vec<ConceptNode> = Vec::new();
    let mut i: usize = 0;
    while i < groups.len()
        invariant
            n == shape.nodes@.len(),
            i <= groups@.len(),
            lists(groups@) == cs,
            forall|c: int| 0 <= c < cs.len() ==> (#[trigger] cs[c]).len() > 0,
            forall|c: int, k: int|
                0 <= c < cs.len() && 0 <= k < cs[c].len() ==> #[trigger] cs[c][k] < n,
            node_views(kept@) =~= all_collapsed(shape@.nodes, cs).take(i as int),
        decreases groups@.len() - i,
    {
        assert(cs[i as int] == groups@[i as int]@);
        let ghost before = kept@;
        let c = collapse(&shape.nodes, &groups[i]);
        kept.push(c);
        assert(node_views(kept@) =~= node_views(before).push(c@));
        i += 1;
    }
    assert(all_collapsed(shape@.nodes, cs).take(i as int) =~= all_collapsed(shape@.nodes, cs));
    let mut name = shape.name.clone();
    name.append("_folded");
    Shape::new(name.as_str(), kept)
}

/// A concept that no edge shorter than `eps` holds together with another stays as it is.
pub proof fn law_fold_keeps_single(nodes: Seq<NodeView>, at: usize)
    requires
        at < nodes.len(),
        nodes[at as int].vector.len() == 64,
    ensures
        collapsed(nodes, seq![at]) == nodes[at as int],
{
    let g = seq![at];
    let v = nodes[at as int].vector;
    reveal_with_fuel(confidence_sum, 2);
    reveal_with_fuel(weight_sum, 2);
    reveal_with_fuel(entry_sum, 2);
    let w = weight(nodes, g, 0) as int;
    assert(w > 0);
    assert forall|j: int| 0 <= j < 64 implies #[trigger] collapsed(nodes, g).vector[j] == v[j] by {
        let x = v[j] as int;
        assert(entry_sum(nodes, g, j, 1) == w * x);
        assert(weight_sum(nodes, g, 1) == w);
        let y = if x >= 0 {
            x
        } else {
            -x
        };
        assert((w * x >= 0) == (x >= 0)) by (nonlinear_arith)
            requires
                w > 0,
        ;
        let z = if w * x >= 0 {
            w * x
        } else {
            -(w * x)
        };
        assert(z == w * y) by (nonlinear_arith)
            requires
                y == x && z == w * x || y == -x && z == -(w * x),
        ;
        assert((2 * z + w) / (2 * w) == y) by {
            assert(2 * z + w == 2 * w * y + w) by (nonlinear_arith)
                requires
                    z == w * y,
            ;
            vstd::arithmetic::div_mod::lemma_fundamental_div_mod_converse(
                2 * z + w,
                2 * w,
                y,
                w,
            );
        }
    }
    assert(collapsed(nodes, g).vector =~= v);
}

/// Half of a sum, away from zero where it is not whole.
pub open spec fn mean(x: int, y: int) -> int {
    if x + y >= 0 {
        (x + y + 1) / 2
    } else {
        -((1 - x - y) / 2)
    }
}

/// The concept between two.
pub open spec fn blend(a: NodeView, b: NodeView) -> NodeView {
    NodeView {
        id: a.id,
        vector: Seq::new(64, |j: int| mean(a.vector[j] as int, b.vector[j] as int) as i8),
        confidence: ((a.confidence + b.confidence) / 2) as u16,
        connections: Seq::empty(),
    }
}

/// Whether `b` is the first of the concepts that is similar to `a`.
pub open spec fn first_similar(a: NodeView, bs: Seq<NodeView>, threshold: int, b: int) -> bool {
    &&& 0 <= b < bs.len()
    &&& dot(a.vector, bs[b].vector) > threshold
    &&& forall|k: int| 0 <= k < b ==> dot(a.vector, (#[trigger] bs[k]).vector) <= threshold
}

/// What `a` has in common with the concepts `bs`.
pub open spec fn common_of(a: NodeView, bs: Seq<NodeView>, threshold: int) -> Option<NodeView> {
    if exists|b: int| first_similar(a, bs, threshold, b) {
        Some(blend(a, bs[choose|b: int| first_similar(a, bs, threshold, b)]))
    } else {
        None
    }
}

/// What the first `k` of the concepts have in common with the others.
pub open spec fn commons(
    nodes: Seq<NodeView>,
    bs: Seq<NodeView>,
    threshold: int,
    k: nat,
) -> Seq<NodeView>
    decreases k,
{
    if k == 0 {
        Seq::empty()
    } else {
        let rest = commons(nodes, bs, threshold, (k - 1) as nat);
        match common_of(nodes[k - 1], bs, threshold) {
            Some(c) => rest.push(c),
            None => rest,
        }
    }
}

fn mean_of(x: i8, y: i8) -> (r: i8)
    ensures
        r == mean(x as int, y as int),
{
    let s: i32 = x as i32 + y as i32;
    if s >= 0 {
        ((s + 1) / 2) as i8
    } else {
        (-((1 - s) / 2)) as i8
    }
}

fn blended(a: &ConceptNode, b: &ConceptNode) -> (r: ConceptNode)
    ensures
        r@ == blend(a@, b@),
{
    let mut vector: [i8; 64] = [0i8; 64];
    let mut j: usize = 0;
    while j < 64
        invariant
            j <= 64,
            forall|k: int|
                0 <= k < j ==> #[trigger] vector@[k] == mean(
                    a.vector@[k] as int,
                    b.vector@[k] as int,
                ),
        decreases 64 - j,
    {
        vector[j] = mean_of(a.vector[j], b.vector[j]);
        j += 1;
    }
    let r = ConceptNode {
        id: a.id,
        vector,
        confidence: ((a.confidence as u32 + b.confidence as u32) / 2) as u16,
        connections: Vec::new(),
    };
    assert(r@.vector =~= blend(a@, b@).vector) by {
        assert forall|k: int| 0 <= k < 64 implies r@.vector[k] == mean(
            a@.vector[k] as int,
            b@.vector[k] as int,
        ) as i8 by {
            assert(vector@[k] == mean(a.vector@[k] as int, b.vector@[k] as int));
        }
    }
    assert(r@.connections =~= Seq::empty());
    r
}

fn find_common(a: &ConceptNode, bs: &Vec<ConceptNode>, threshold: i32) -> (r: Option<ConceptNode>)
    ensures
        match r {
            Some(c) => common_of(a@, node_views(bs@), threshold as int) == Some(c@),
            None => common_of(a@, node_views(bs@), threshold as int) is None,
        },
{
    let ghost vs = node_views(bs@);
    let mut b: usize = 0;
    while b < bs.len()
        invariant
            vs == node_views(bs@),
            b <= bs@.len(),
            forall|k: int|
                0 <= k < b ==> dot(a@.vector, (#[trigger] vs[k]).vector) <= threshold,
        decreases bs@.len() - b,
    {
        assert(vs[b as int] == bs@[b as int]@);
        if a.dot(&bs[b].vector) > threshold {
            proof {
                assert(first_similar(a@, vs, threshold as int, b as int));
                let c = choose|c: int| first_similar(a@, vs, threshold as int, c);
                assert(c == b) by {
                    if c < b {
                        assert(dot(a@.vector, vs[c].vector) <= threshold);
                    }
                    if b < c {
                        assert(dot(a@.vector, vs[b as int].vector) <= threshold);
                    }
                }
            }
            return Some(blended(a, &bs[b]));
        }
        b += 1;
    }
    assert forall|c: int| !first_similar(a@, vs, threshold as int, c) by {
        if first_similar(a@, vs, threshold as int, c) {
            assert(dot(a@.vector, vs[c].vector) <= threshold);
        }
    }
    None
}

/// What the concepts of one shape have in common with those of another.
pub fn intersect(a: &Shape, b: &Shape, threshold: i32) -> (r: Shape)
    ensures
        r@ == shape_of(
            a@.name + "_∩_"@ + b@.name,
            commons(a@.nodes, b@.nodes, threshold as int, a@.nodes.len()),
            HALF_SIMILAR as int,
        ),
        r@.wf(),
{
    let mut out: Vec<ConceptNode> = Vec::new();
    let mut i: usize = 0;
    assert(node_views(out@) =~= Seq::<NodeView>::empty());
    while i < a.nodes.len()
        invariant
            i <= a.nodes@.len(),
            node_views(out@) == commons(a@.nodes, b@.nodes, threshold as int, i as nat),
        decreases a.nodes@.len() - i,
    {
        assert(a@.nodes[i as int] == a.nodes@[i as int]@);
        if let Some(c) = find_common(&a.nodes[i], &b.nodes, threshold) {
            let ghost before = out@;
            out.push(c);
            assert(node_views(out@) =~= node_views(before).push(c@));
        }
        i += 1;
    }
    let mut name = a.name.clone();
    name.append("_∩_");
    name.append(b.name.as_str());
    Shape::new(name.as_str(), out)
}

/// An entry of what two concepts have in common is nearest to the mean of theirs: twice it is
/// their sum, or one further from zero where the sum is odd. The trust is half the sum,
/// rounded down.
pub proof fn law_blend_is_mean(a: NodeView, b: NodeView, j: int)
    requires
        0 <= j < 64,
    ensures
        ({
            let r = blend(a, b);
            let sum = a.vector[j] + b.vector[j];
            &&& r.vector.len() == 64
            &&& -1 <= 2 * r.vector[j] - sum <= 1
            &&& sum % 2 == 0 ==> 2 * r.vector[j] == sum
            &&& sum >= 0 ==> 2 * r.vector[j] >= sum
            &&& sum <= 0 ==> 2 * r.vector[j] <= sum
            &&& 0 <= a.confidence + b.confidence - 2 * r.confidence <= 1
            &&& r.id == a.id
            &&& r.connections.len() == 0
        }),
{
}

/// What two concepts have in common is the same whichever comes first, but for its number.
pub proof fn law_blend_symmetric(a: NodeView, b: NodeView)
    ensures
        blend(a, b).vector == blend(b, a).vector,
        blend(a, b).confidence == blend(b, a).confidence,
{
    assert(blend(a, b).vector =~= blend(b, a).vector);
}

/// What a concept has in common with itself is its own vector and trust.
pub proof fn law_blend_with_itself(a: NodeView)
    requires
        a.vector.len() == 64,
    ensures
        blend(a, a).vector == a.vector,
        blend(a, a).confidence == a.confidence,
{
    assert(blend(a, a).vector =~= a.vector);
}

/// Whether a concept is nearest to the mean of two others, entry by entry.
pub open spec fn between(c: NodeView, a: NodeView, b: NodeView) -> bool {
    &&& c.vector.len() == 64
    &&& forall|j: int|
        0 <= j < 64 ==> -1 <= 2 * (#[trigger] c.vector[j]) - (a.vector[j] + b.vector[j]) <= 1
    &&& 0 <= a.confidence + b.confidence - 2 * c.confidence <= 1
}

/// Whether a concept lies between one of the first `k` of the concepts and the first of the
/// others that is similar to it.
spec fn met(
    c: NodeView,
    nodes: Seq<NodeView>,
    bs: Seq<NodeView>,
    threshold: int,
    k: nat,
) -> bool {
    exists|p: int, q: int|
        0 <= p < k && first_similar(nodes[p], bs, threshold, q) && c == #[trigger] blend(
            nodes[p],
            bs[q],
        )
}

proof fn lemma_commons(nodes: Seq<NodeView>, bs: Seq<NodeView>, threshold: int, k: nat)
    requires
        k <= nodes.len(),
    ensures
        forall|i: int|
            0 <= i < commons(nodes, bs, threshold, k).len() ==> met(
                #[trigger] commons(nodes, bs, threshold, k)[i],
                nodes,
                bs,
                threshold,
                k,
            ),
        forall|p: int, q: int|
            0 <= p < k && #[trigger] first_similar(nodes[p], bs, threshold, q) ==> commons(
                nodes,
                bs,
                threshold,
                k,
            ).contains(blend(nodes[p], bs[q])),
    decreases k,
{
    if k > 0 {
        let m = (k - 1) as nat;
        lemma_commons(nodes, bs, threshold, m);
        let rest = commons(nodes, bs, threshold, m);
        let all = commons(nodes, bs, threshold, k);
        let a = nodes[k - 1];
        assert forall|i: int| 0 <= i < all.len() implies met(
            #[trigger] all[i],
            nodes,
            bs,
            threshold,
            k,
        ) by {
            if i < rest.len() {
                assert(all[i] == rest[i]);
                assert(met(rest[i], nodes, bs, threshold, m));
                let (p, q) = choose|p: int, q: int|
                    0 <= p < m && first_similar(nodes[p], bs, threshold, q) && rest[i]
                        == #[trigger] blend(nodes[p], bs[q]);
                assert(all[i] == blend(nodes[p], bs[q]));
            } else {
                let q = choose|b: int| first_similar(a, bs, threshold, b);
                assert(all[i] == blend(nodes[k - 1], bs[q]));
            }
        }
        assert forall|p: int, q: int|
            0 <= p < k && #[trigger] first_similar(nodes[p], bs, threshold, q) implies all.contains(
            blend(nodes[p], bs[q]),
        ) by {
            if p < m {
                let c = blend(nodes[p], bs[q]);
                assert(rest.contains(c));
                let i = choose|i: int| 0 <= i < rest.len() && rest[i] == c;
                assert(all[i] == c);
            } else {
                let b = choose|b: int| first_similar(a, bs, threshold, b);
                assert(b == q) by {
                    if b < q {
                        assert(dot(a.vector, bs[b].vector) <= threshold);
                    } else if q < b {
                        assert(dot(a.vector, bs[q].vector) <= threshold);
                    }
                }
                assert(all.last() == blend(nodes[p], bs[q]));
                assert(all[all.len() - 1] == blend(nodes[p], bs[q]));
            }
        }
    }
}

/// What two shapes have in common: for every concept of the first, and the first concept of the
/// second that is similar to it, one concept that is nearest to their mean.
pub proof fn law_intersect_meets(a: &Shape, b: &Shape, threshold: i32, r: Shape, p: int, q: int)
    requires
        call_ensures(intersect, (a, b, threshold), r),
        0 <= p < a@.nodes.len(),
        0 <= q < b@.nodes.len(),
        dot(a@.nodes[p].vector, b@.nodes[q].vector) > threshold,
        forall|k: int|
            0 <= k < q ==> dot(a@.nodes[p].vector, (#[trigger] b@.nodes[k]).vector) <= threshold,
    ensures
        exists|i: int|
            0 <= i < r@.nodes.len() && (#[trigger] r@.nodes[i]).id == a@.nodes[p].id && between(
                r@.nodes[i],
                a@.nodes[p],
                b@.nodes[q],
            ),
{
    lemma_commons(a@.nodes, b@.nodes, threshold as int, a@.nodes.len());
    assert(first_similar(a@.nodes[p], b@.nodes, threshold as int, q));
    let c = blend(a@.nodes[p], b@.nodes[q]);
    assert(r@.nodes.contains(c));
    let i = choose|i: int| 0 <= i < r@.nodes.len() && r@.nodes[i] == c;
    lemma_between(a@.nodes[p], b@.nodes[q]);
    assert(r@.nodes[i].id == a@.nodes[p].id);
}

/// Nothing else is in common: every concept of the result is nearest to the mean of two concepts
/// that are similar.
pub proof fn law_intersect_only(a: &Shape, b: &Shape, threshold: i32, r: Shape, i: int)
    requires
        call_ensures(intersect, (a, b, threshold), r),
        0 <= i < r@.nodes.len(),
    ensures
        exists|p: int, q: int|
            0 <= p < a@.nodes.len() && 0 <= q < b@.nodes.len() && #[trigger] dot(
                a@.nodes[p].vector,
                b@.nodes[q].vector,
            ) > threshold && r@.nodes[i].id == a@.nodes[p].id && between(
                r@.nodes[i],
                a@.nodes[p],
                b@.nodes[q],
            ),
{
    lemma_commons(a@.nodes, b@.nodes, threshold as int, a@.nodes.len());
    let all = commons(a@.nodes, b@.nodes, threshold as int, a@.nodes.len());
    assert(r@.nodes == all);
    assert(met(all[i], a@.nodes, b@.nodes, threshold as int, a@.nodes.len()));
    let (p, q) = choose|p: int, q: int|
        0 <= p < a@.nodes.len() && first_similar(a@.nodes[p], b@.nodes, threshold as int, q)
            && all[i] == #[trigger] blend(a@.nodes[p], b@.nodes[q]);
    lemma_between(a@.nodes[p], b@.nodes[q]);
    assert(dot(a@.nodes[p].vector, b@.nodes[q].vector) > threshold);
}

proof fn lemma_between(a: NodeView, b: NodeView)
    ensures
        between(blend(a, b), a, b),
{
    assert forall|j: int| 0 <= j < 64 implies -1 <= 2 * (#[trigger] blend(a, b).vector[j]) - (
    a.vector[j] + b.vector[j]) <= 1 by {
        law_blend_is_mean(a, b, j);
    }
}

/// Whether an edge joins two of three positions.
pub open spec fn within(e: Edge, i: int, j: int, k: int) -> bool {
    &&& e.0 != e.1
    &&& e.0 == i || e.0 == j || e.0 == k
    &&& e.1 == i || e.1 == j || e.1 == k
}

/// Whether a filtration value is that of the strongest edge that joins two of three positions.
pub open spec fn of_strongest(edges: Seq<Edge>, i: int, j: int, k: int, f: int) -> bool {
    &&& exists|e: int|
        0 <= e < edges.len() && within(#[trigger] edges[e], i, j, k) && 8192 - edges[e].2 == f
    &&& forall|e: int|
        0 <= e < edges.len() && within(#[trigger] edges[e], i, j, k) ==> f <= 8192 - edges[e].2
}

proof fn lemma_strongest(edges: Seq<Edge>, i: int, j: int, k: int)
    requires
        i < j < k,
    ensures
        forall|e: int|
            0 <= e < edges.len() && within(#[trigger] edges[e], i, j, k) ==> edges[e].2
                <= strongest(edges, i, j, k),
        strongest(edges, i, j, k) == i32::MIN || exists|e: int|
            0 <= e < edges.len() && within(#[trigger] edges[e], i, j, k) && edges[e].2
                == strongest(edges, i, j, k),
    decreases edges.len(),
{
    if edges.len() > 0 {
        let d = edges.drop_last();
        lemma_strongest(d, i, j, k);
        let s = strongest(edges, i, j, k);
        let rest = strongest(d, i, j, k);
        let last = edges.len() - 1;
        assert forall|e: int| 0 <= e < edges.len() && within(#[trigger] edges[e], i, j, k) implies
            edges[e].2 <= s by {
            if e < last {
                assert(d[e] == edges[e]);
            }
        }
        if s == rest && s != i32::MIN {
            let e = choose|e: int|
                0 <= e < d.len() && within(#[trigger] d[e], i, j, k) && d[e].2 == rest;
            assert(edges[e] == d[e]);
        } else if s != rest {
            assert(within(edges[last], i, j, k));
        }
    }
}

proof fn lemma_of_strongest(edges: Seq<Edge>, i: int, j: int, k: int, eps: int, f: int)
    requires
        i < j < k,
        linked(edges, eps, i, j),
    ensures
        of_strongest(edges, i, j, k, f) <==> f == 8192 - strongest(edges, i, j, k),
{
    lemma_strongest(edges, i, j, k);
    let s = strongest(edges, i, j, k);
    let x = choose|x: int|
        {
            &&& 0 <= x < edges.len()
            &&& #[trigger] edges[x].2 > eps
            &&& (edges[x].0 == i && edges[x].1 == j) || (edges[x].0 == j && edges[x].1 == i)
        };
    assert(within(edges[x], i, j, k));
    assert(exists|e: int|
        0 <= e < edges.len() && within(#[trigger] edges[e], i, j, k) && edges[e].2 == s) by {
        if s == i32::MIN {
            assert(edges[x].2 <= s);
            assert(edges[x].2 == s);
        }
    }
    let y = choose|y: int|
        0 <= y < edges.len() && within(#[trigger] edges[y], i, j, k) && edges[y].2 == s;
    if of_strongest(edges, i, j, k, f) {
        let e = choose|e: int|
            0 <= e < edges.len() && within(#[trigger] edges[e], i, j, k) && 8192 - edges[e].2 == f;
        assert(edges[e].2 <= s);
        assert(f <= 8192 - edges[y].2);
    }
    if f == 8192 - s {
        assert(8192 - edges[y].2 == f);
    }
}

spec fn is_triangle(edges: Seq<Edge>, eps: int, v: SimplexView, i: int, j: int, k: int) -> bool {
    &&& linked(edges, eps, i, k) && linked(edges, eps, j, k)
    &&& v.vertices == seq![i as usize, j as usize, k as usize]
    &&& v.filtration == 8192 - strongest(edges, i, j, k)
}

proof fn lemma_appended(a: Seq<SimplexView>, b: Seq<SimplexView>, v: SimplexView)
    ensures
        (a + b).contains(v) <==> a.contains(v) || b.contains(v),
{
    let s = a + b;
    if s.contains(v) {
        let i = choose|i: int| 0 <= i < s.len() && s[i] == v;
        if i < a.len() {
            assert(a[i] == v);
        } else {
            assert(b[i - a.len()] == v);
        }
    }
    if a.contains(v) {
        let i = choose|i: int| 0 <= i < a.len() && a[i] == v;
        assert(s[i] == v);
    }
    if b.contains(v) {
        let i = choose|i: int| 0 <= i < b.len() && b[i] == v;
        assert(s[i + a.len()] == v);
    }
}

proof fn lemma_triangles_on(edges: Seq<Edge>, eps: int, i: int, j: int, end: int, v: SimplexView)
    ensures
        triangles_on(edges, eps, i, j, end).contains(v) <==> exists|k: int|
            j < k < end && #[trigger] is_triangle(edges, eps, v, i, j, k),
    decreases end - j,
{
    if end > j + 1 {
        let k = end - 1;
        let rest = triangles_on(edges, eps, i, j, k);
        lemma_triangles_on(edges, eps, i, j, k, v);
        let x = SimplexView {
            vertices: seq![i as usize, j as usize, k as usize],
            filtration: 8192 - strongest(edges, i, j, k),
        };
        lemma_appended(rest, seq![x], v);
        assert(rest.push(x) =~= rest + seq![x]);
        assert(seq![x][0] == x);
        if is_triangle(edges, eps, v, i, j, k) {
            assert(v == x);
        }
        if linked(edges, eps, i, k) && linked(edges, eps, j, k) && v == x {
            assert(is_triangle(edges, eps, v, i, j, k));
        }
    }
}

proof fn lemma_triangles_at(
    edges: Seq<Edge>,
    eps: int,
    n: int,
    i: int,
    end: int,
    v: SimplexView,
)
    ensures
        triangles_at(edges, eps, n, i, end).contains(v) <==> exists|j: int, k: int|
            i < j < end && j < k < n && linked(edges, eps, i, j) && #[trigger] is_triangle(
                edges,
                eps,
                v,
                i,
                j,
                k,
            ),
    decreases end - i,
{
    if end > i + 1 {
        let m = end - 1;
        let rest = triangles_at(edges, eps, n, i, m);
        lemma_triangles_at(edges, eps, n, i, m, v);
        lemma_triangles_on(edges, eps, i, m, n, v);
        lemma_appended(rest, triangles_on(edges, eps, i, m, n), v);
    }
}

proof fn lemma_triangles(edges: Seq<Edge>, eps: int, n: int, end: int, v: SimplexView)
    ensures
        triangles(edges, eps, n, end).contains(v) <==> exists|i: int, j: int, k: int|
            0 <= i < end && i < j < k < n && linked(edges, eps, i, j) && #[trigger] is_triangle(
                edges,
                eps,
                v,
                i,
                j,
                k,
            ),
    decreases end,
{
    if end > 0 {
        let m = end - 1;
        lemma_triangles(edges, eps, n, m, v);
        lemma_triangles_at(edges, eps, n, m, n, v);
        lemma_appended(triangles(edges, eps, n, m), triangles_at(edges, eps, n, m, n), v);
    }
}

proof fn lemma_segments(edges: Seq<Edge>, eps: int, v: SimplexView)
    ensures
        segments(edges, eps).contains(v) <==> exists|e: int|
            0 <= e < edges.len() && (#[trigger] edges[e]).2 > eps && v.vertices == seq![
                edges[e].0,
                edges[e].1,
            ] && v.filtration == 8192 - edges[e].2,
    decreases edges.len(),
{
    if edges.len() > 0 {
        let d = edges.drop_last();
        let rest = segments(d, eps);
        lemma_segments(d, eps, v);
        let last = edges.len() - 1;
        let e = edges[last];
        let x = SimplexView { vertices: seq![e.0, e.1], filtration: 8192 - e.2 };
        lemma_appended(rest, seq![x], v);
        assert(rest.push(x) =~= rest + seq![x]);
        assert(seq![x][0] == x);
        if rest.contains(v) {
            let q = choose|q: int|
                0 <= q < d.len() && (#[trigger] d[q]).2 > eps && v.vertices == seq![d[q].0, d[q].1]
                    && v.filtration == 8192 - d[q].2;
            assert(edges[q] == d[q]);
        }
        if exists|q: int|
            0 <= q < edges.len() && (#[trigger] edges[q]).2 > eps && v.vertices == seq![
                edges[q].0,
                edges[q].1,
            ] && v.filtration == 8192 - edges[q].2 {
            let q = choose|q: int|
                0 <= q < edges.len() && (#[trigger] edges[q]).2 > eps && v.vertices == seq![
                    edges[q].0,
                    edges[q].1,
                ] && v.filtration == 8192 - edges[q].2;
            if q < last {
                assert(d[q] == edges[q]);
            } else {
                assert(v == x);
            }
        }
    }
}

/// The simplices of a shape: a point for each concept, at once; a segment for each edge above
/// `eps`, at the edge's value; and a triangle for each three concepts that are joined two by two
/// above `eps`, at the value of the strongest edge among them.
pub proof fn law_simplices(shape: &Shape, eps: i32, r: Vec<Simplex>, i: usize, j: usize, k: usize, f: int)
    requires
        shape@.wf(),
        call_ensures(build_vietoris_rips, (shape, eps), r),
    ensures
        simplex_views(r@).contains(SimplexView { vertices: seq![i], filtration: f }) <==> i
            < shape@.nodes.len() && f == 0,
        simplex_views(r@).contains(SimplexView { vertices: seq![i, j], filtration: f })
            <==> exists|e: int|
            0 <= e < shape@.edges.len() && (#[trigger] shape@.edges[e]).2 > eps && shape@.edges[e].0
                == i && shape@.edges[e].1 == j && f == 8192 - shape@.edges[e].2,
        simplex_views(r@).contains(SimplexView { vertices: seq![i, j, k], filtration: f }) <==> {
            &&& i < j < k < shape@.nodes.len()
            &&& linked(shape@.edges, eps as int, i as int, j as int)
            &&& linked(shape@.edges, eps as int, i as int, k as int)
            &&& linked(shape@.edges, eps as int, j as int, k as int)
            &&& of_strongest(shape@.edges, i as int, j as int, k as int, f)
        },
{
    let edges = shape@.edges;
    let n = shape@.nodes.len();
    let e = eps as int;
    let a = points(n);
    let b = segments(edges, e);
    let c = triangles(edges, e, n as int, n as int);
    assert(n == shape.nodes.len());
    let v1 = SimplexView { vertices: seq![i], filtration: f };
    let v2 = SimplexView { vertices: seq![i, j], filtration: f };
    let v3 = SimplexView { vertices: seq![i, j, k], filtration: f };
    lemma_appended(a + b, c, v1);
    lemma_appended(a, b, v1);
    lemma_appended(a + b, c, v2);
    lemma_appended(a, b, v2);
    lemma_appended(a + b, c, v3);
    lemma_appended(a, b, v3);
    lemma_segments(edges, e, v1);
    lemma_segments(edges, e, v2);
    lemma_segments(edges, e, v3);
    lemma_triangles(edges, e, n as int, n as int, v1);
    lemma_triangles(edges, e, n as int, n as int, v2);
    lemma_triangles(edges, e, n as int, n as int, v3);
    assert(v1.vertices.len() == 1 && v2.vertices.len() == 2 && v3.vertices.len() == 3);
    assert(v1.vertices[0] == i);
    assert(v2.vertices[0] == i && v2.vertices[1] == j);
    assert(v3.vertices[0] == i && v3.vertices[1] == j && v3.vertices[2] == k);
    if i < n && f == 0 {
        assert(a[i as int].vertices =~= v1.vertices);
        assert(a[i as int] == v1);
        assert(a.contains(v1));
    }
    if a.contains(v1) {
        let x = choose|x: int| 0 <= x < a.len() && a[x] == v1;
        assert(a[x].vertices[0] == x as usize);
    }
    assert(!a.contains(v2)) by {
        if a.contains(v2) {
            let x = choose|x: int| 0 <= x < a.len() && a[x] == v2;
            assert(a[x].vertices.len() == 1);
        }
    }
    assert(!a.contains(v3)) by {
        if a.contains(v3) {
            let x = choose|x: int| 0 <= x < a.len() && a[x] == v3;
            assert(a[x].vertices.len() == 1);
        }
    }
    if b.contains(v2) {
        let q = choose|q: int|
            0 <= q < edges.len() && (#[trigger] edges[q]).2 > e && v2.vertices == seq![
                edges[q].0,
                edges[q].1,
            ] && v2.filtration == 8192 - edges[q].2;
        assert(seq![edges[q].0, edges[q].1][0] == i && seq![edges[q].0, edges[q].1][1] == j);
    }
    if exists|q: int|
        0 <= q < edges.len() && (#[trigger] edges[q]).2 > eps && edges[q].0 == i && edges[q].1 == j
            && f == 8192 - edges[q].2 {
        let q = choose|q: int|
            0 <= q < edges.len() && (#[trigger] edges[q]).2 > eps && edges[q].0 == i && edges[q].1
                == j && f == 8192 - edges[q].2;
        assert(v2.vertices =~= seq![edges[q].0, edges[q].1]);
    }
    if c.contains(v3) {
        let (x, y, z) = choose|x: int, y: int, z: int|
            0 <= x < n && x < y < z < n && linked(edges, e, x, y) && #[trigger] is_triangle(
                edges,
                e,
                v3,
                x,
                y,
                z,
            );
        let s = seq![x as usize, y as usize, z as usize];
        assert(s[0] == i && s[1] == j && s[2] == k);
        lemma_of_strongest(edges, x, y, z, e, f);
    }
    if i < j < k < n && linked(edges, e, i as int, j as int) && linked(
        edges,
        e,
        i as int,
        k as int,
    ) && linked(edges, e, j as int, k as int) && of_strongest(
        edges,
        i as int,
        j as int,
        k as int,
        f,
    ) {
        lemma_of_strongest(edges, i as int, j as int, k as int, e, f);
        assert(is_triangle(edges, e, v3, i as int, j as int, k as int));
    }
}

/// Whether a filtration value is that of one of the edges.
pub open spec fn of_an_edge(edges: Seq<Edge>, f: int) -> bool {
    exists|e: int| 0 <= e < edges.len() && 8192 - (#[trigger] edges[e]).2 == f
}

spec fn ordered_edges(edges: Seq<Edge>, order: Seq<usize>) -> bool {
    &&& order.len() == edges.len()
    &&& forall|q: int| 0 <= q < order.len() ==> #[trigger] order[q] < edges.len()
    &&& forall|p: int, q: int|
        0 <= p < q < order.len() ==> edges[(#[trigger] order[p]) as int].2 >= edges[(
        #[trigger] order[q]) as int].2
    &&& forall|e: int|
        0 <= e < edges.len() ==> -0x10_0000 <= (#[trigger] edges[e]).2 <= 0x10_0000
}

proof fn lemma_ordered(s: ShapeView, order: Seq<usize>)
    requires
        s.wf(),
        ranked(strengths(s.edges), order),
    ensures
        ordered_edges(s.edges, order),
{
    let keys = strengths(s.edges);
    assert forall|p: int, q: int| 0 <= p < q < order.len() implies s.edges[(
    #[trigger] order[p]) as int].2 >= s.edges[(#[trigger] order[q]) as int].2 by {
        assert(keys[order[p] as int] >= keys[order[q] as int]);
    }
}

proof fn lemma_deaths(edges: Seq<Edge>, order: Seq<usize>, n: nat, k: nat)
    requires
        ordered_edges(edges, order),
        k <= edges.len(),
    ensures
        ({
            let d = joined_upto(edges, order, n, k).deaths;
            &&& forall|m: int| 0 <= m < d.len() ==> of_an_edge(edges, #[trigger] d[m] as int)
            &&& forall|m: int|
                0 <= m < d.len() && 0 < k ==> #[trigger] d[m] <= 8192 - edges[order[k
                    - 1] as int].2
            &&& forall|a: int, b: int| 0 <= a < b < d.len() ==> #[trigger] d[a] <= #[trigger] d[b]
            &&& d.len() + joined_upto(edges, order, n, k).count == n
        }),
    decreases k,
{
    if k > 0 {
        let p = (k - 1) as nat;
        lemma_deaths(edges, order, n, p);
        let s = joined_upto(edges, order, n, p);
        let e = edges[order[k - 1] as int];
        let d = s.deaths;
        let all = joined_upto(edges, order, n, k).deaths;
        if p > 0 {
            assert(edges[order[p - 1] as int].2 >= edges[order[k - 1] as int].2);
        }
        if s.labels[e.0 as int] != s.labels[e.1 as int] {
            assert(all == d.push((8192 - e.2) as i32));
            assert(of_an_edge(edges, 8192 - e.2));
            assert forall|m: int| 0 <= m < all.len() implies of_an_edge(
                edges,
                #[trigger] all[m] as int,
            ) by {
                if m < d.len() {
                    assert(all[m] == d[m]);
                }
            }
        }
    }
}

/// The bars of the components: every one is born at once; those that never die come first; one
/// that dies does so at the value of an edge, the last to die first.
pub proof fn law_h0_bars(shape: &Shape, r: Vec<Bar>)
    requires
        shape@.wf(),
        call_ensures(persistent_h0, (shape,), r),
    ensures
        forall|i: int| 0 <= i < r@.len() ==> (#[trigger] r@[i]).birth == 0,
        forall|i: int|
            0 <= i < r@.len() ==> ((#[trigger] r@[i]).death matches Some(d) ==> of_an_edge(
                shape@.edges,
                d as int,
            )),
        forall|i: int, j: int|
            0 <= i < j < r@.len() ==> ((#[trigger] r@[j]).death is None ==> (
            #[trigger] r@[i]).death is None),
        forall|i: int, j: int|
            0 <= i < j < r@.len() && (#[trigger] r@[i]).death is Some && (
            #[trigger] r@[j]).death is Some ==> r@[i].death->0 >= r@[j].death->0,
        r@.len() == shape@.nodes.len(),
{
    let edges = shape@.edges;
    let n = shape@.nodes.len();
    let order = choose|order: Seq<usize>|
        {
            &&& #[trigger] ranked(strengths(edges), order)
            &&& r@ == bars(joined_upto(edges, order, n, edges.len()))
        };
    lemma_ordered(shape@, order);
    lemma_deaths(edges, order, n, edges.len());
    let s = joined_upto(edges, order, n, edges.len());
    let d = s.deaths;
    let c = s.count;
    assert forall|i: int| c <= i < r@.len() implies (#[trigger] r@[i]).death == Some(
        d[d.len() - 1 - (i - c)],
    ) by {}
}

proof fn lemma_loops(edges: Seq<Edge>, order: Seq<usize>, n: nat, most: int, k: nat)
    requires
        ordered_edges(edges, order),
        k <= edges.len(),
    ensures
        ({
            let b = loops_upto(edges, order, n, most, k);
            &&& forall|m: int|
                0 <= m < b.len() ==> of_an_edge(edges, (#[trigger] b[m]).birth as int)
                    && b[m].birth <= most && b[m].death is None
            &&& forall|m: int|
                0 <= m < b.len() && 0 < k ==> (#[trigger] b[m]).birth <= 8192 - edges[order[k
                    - 1] as int].2
            &&& forall|x: int, y: int|
                0 <= x < y < b.len() ==> (#[trigger] b[x]).birth <= (#[trigger] b[y]).birth
        }),
    decreases k,
{
    if k > 0 {
        let p = (k - 1) as nat;
        lemma_loops(edges, order, n, most, p);
        let rest = loops_upto(edges, order, n, most, p);
        let all = loops_upto(edges, order, n, most, k);
        let e = edges[order[k - 1] as int];
        if p > 0 {
            assert(edges[order[p - 1] as int].2 >= edges[order[k - 1] as int].2);
        }
        assert(of_an_edge(edges, 8192 - e.2));
        assert forall|m: int| 0 <= m < all.len() implies of_an_edge(
            edges,
            (#[trigger] all[m]).birth as int,
        ) && all[m].birth <= most && all[m].death is None by {
            if m < rest.len() {
                assert(all[m] == rest[m]);
            }
        }
        assert forall|x: int, y: int| 0 <= x < y < all.len() implies (#[trigger] all[x]).birth <= (
        #[trigger] all[y]).birth by {
            assert(all[x] == rest[x]);
            if y < rest.len() {
                assert(all[y] == rest[y]);
            }
        }
    }
}

/// The bars of the loops: every one is born at the value of an edge, none later than asked for,
/// the first to be born first, and none dies.
pub proof fn law_h1_bars(shape: &Shape, eps_max: i32, r: Vec<Bar>)
    requires
        shape@.wf(),
        call_ensures(persistent_h1, (shape, eps_max), r),
    ensures
        forall|i: int|
            0 <= i < r@.len() ==> of_an_edge(shape@.edges, (#[trigger] r@[i]).birth as int)
                && r@[i].birth <= eps_max && r@[i].death is None,
        forall|i: int, j: int|
            0 <= i < j < r@.len() ==> (#[trigger] r@[i]).birth <= (#[trigger] r@[j]).birth,
{
    let edges = shape@.edges;
    let n = shape@.nodes.len();
    let order = choose|order: Seq<usize>|
        {
            &&& #[trigger] ranked(strengths(edges), order)
            &&& r@ == loops_upto(edges, order, n, eps_max as int, edges.len())
        };
    lemma_ordered(shape@, order);
    lemma_loops(edges, order, n, eps_max as int, edges.len());
}

/// How much a concept of a group counts in their mean: its confidence, or all alike where none has
/// any.
pub open spec fn share(nodes: Seq<NodeView>, group: Seq<usize>, i: int) -> int {
    if crate::sums::total(|k: int| nodes[group[k] as int].confidence as int, group.len()) == 0 {
        1
    } else {
        nodes[group[i] as int].confidence as int
    }
}

proof fn lemma_confidence_total(nodes: Seq<NodeView>, group: Seq<usize>, k: nat)
    ensures
        confidence_sum(nodes, group, k) == crate::sums::total(
            |i: int| nodes[group[i] as int].confidence as int,
            k,
        ),
    decreases k,
{
    let f = |i: int| nodes[group[i] as int].confidence as int;
    if k > 0 {
        lemma_confidence_total(nodes, group, (k - 1) as nat);
        assert(f(k - 1) == nodes[group[k - 1] as int].confidence);
    }
}

proof fn lemma_share_totals(nodes: Seq<NodeView>, group: Seq<usize>, j: int, k: nat)
    ensures
        weight_sum(nodes, group, k) == crate::sums::total(|i: int| share(nodes, group, i), k),
        entry_sum(nodes, group, j, k) == crate::sums::total(
            |i: int| share(nodes, group, i) * nodes[group[i] as int].vector[j],
            k,
        ),
    decreases k,
{
    let f = |i: int| share(nodes, group, i);
    let g = |i: int| share(nodes, group, i) * nodes[group[i] as int].vector[j];
    if k > 0 {
        lemma_share_totals(nodes, group, j, (k - 1) as nat);
        lemma_confidence_total(nodes, group, group.len());
        assert(share(nodes, group, k - 1) == weight(nodes, group, k - 1));
        assert(f(k - 1) == share(nodes, group, k - 1));
        assert(g(k - 1) == share(nodes, group, k - 1) * nodes[group[k - 1] as int].vector[j]);
    }
}

proof fn lemma_rounds_near(sum: int, w: int)
    requires
        w > 0,
    ensures
        -w <= 2 * (w * nearest(sum, w)) - 2 * sum <= w,
{
    if sum >= 0 {
        let q = (2 * sum + w) / (2 * w);
        vstd::arithmetic::div_mod::lemma_fundamental_div_mod(2 * sum + w, 2 * w);
        vstd::arithmetic::div_mod::lemma_mod_bound(2 * sum + w, 2 * w);
        assert(2 * w * q == 2 * (w * q)) by (nonlinear_arith);
    } else {
        let q = (-2 * sum + w) / (2 * w);
        vstd::arithmetic::div_mod::lemma_fundamental_div_mod(-2 * sum + w, 2 * w);
        vstd::arithmetic::div_mod::lemma_mod_bound(-2 * sum + w, 2 * w);
        assert(2 * w * q == 2 * (w * q)) by (nonlinear_arith);
        assert(w * (-q) == -(w * q)) by (nonlinear_arith);
    }
}

/// A folded shape has one concept for each group that edges shorter than `eps` hold together: its
/// first one, with the mean of their vectors, each counted by its share, to the nearest integer.
pub proof fn law_fold_is_mean(shape: &Shape, eps: i32, r: Shape, c: int, j: int)
    requires
        shape@.wf(),
        call_ensures(fold, (shape, eps), r),
        shape@.nodes.len() > 1,
        eps >= -0x7fff_0000,
        0 <= c < r@.nodes.len(),
        0 <= j < 64,
    ensures
        r.name@ == shape.name@ + "_folded"@,
        r@.nodes.len() == components(shape@.edges, 8192 - eps, shape@.nodes.len()).len(),
        ({
            let group = components(shape@.edges, 8192 - eps, shape@.nodes.len())[c];
            let w = crate::sums::total(|i: int| share(shape@.nodes, group, i), group.len());
            let s = crate::sums::total(
                |i: int| share(shape@.nodes, group, i) * shape@.nodes[group[i] as int].vector[j],
                group.len(),
            );
            &&& group.len() > 0
            &&& r@.nodes[c].id == shape@.nodes[group[0] as int].id
            &&& r@.nodes[c].confidence == shape@.nodes[group[0] as int].confidence
            &&& w > 0
            &&& -w <= 2 * (w * r@.nodes[c].vector[j]) - 2 * s <= w
        }),
{
    let nodes = shape@.nodes;
    let n = nodes.len();
    assert(n == shape.nodes.len());
    let cs = components(shape@.edges, 8192 - eps, n);
    let group = cs[c];
    assert(cut(eps) as int == 8192 - eps);
    lemma_component_entries(shape@.edges, 8192 - eps, n);
    assert(r@.nodes[c] == collapsed(nodes, group));
    lemma_share_totals(nodes, group, j, group.len());
    lemma_weights(nodes, group, group.len());
    lemma_entry_sum(nodes, group, j, group.len());
    let w = weight_sum(nodes, group, group.len()) as int;
    let s = entry_sum(nodes, group, j, group.len());
    lemma_nearest(s, w);
    lemma_rounds_near(s, w);
}

} // verus!
