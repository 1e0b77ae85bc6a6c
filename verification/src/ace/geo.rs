//! Operations on shapes: deforming, growing, thinning and splitting them.

use vstd::prelude::*;

use crate::ace::graph::copy_nodes;
use crate::ace::graph::dot;
use crate::ace::graph::node_views;
use crate::ace::graph::shape_of;
use crate::ace::graph::ConceptNode;
use crate::ace::graph::Edge;
use crate::ace::graph::NodeView;
use crate::ace::graph::Shape;
use crate::ace::graph::ShapeView;
use crate::ace::graph::HALF_SIMILAR;
use crate::ace::graph::SLIGHTLY_SIMILAR;
use crate::sorting::ahead;
use crate::sorting::rank;
use crate::sorting::ranked;
use crate::text::decimal;
use crate::text::push_decimal;

verus! {

/// The dot products above 0.7 in similarity are those above this one.
pub const CLOSE_VARIANT: i32 = 5734;

/// A concept with another vector.
pub open spec fn moved(n: NodeView, vector: Seq<i8>) -> NodeView {
    NodeView { vector, ..n }
}

/// A shape whose concepts have been given new vectors.
pub fn warp(shape: &Shape, vectors: &Vec<[i8; 64]>) -> (r: Shape)
    requires
        vectors@.len() == shape.nodes@.len(),
    ensures
        r@ == shape_of(
            shape@.name + "_warped"@,
            Seq::new(shape@.nodes.len(), |i: int| moved(shape@.nodes[i], vectors@[i]@)),
            SLIGHTLY_SIMILAR as int,
        ),
        r@.wf(),
{
    let mut nodes: Vec<ConceptNode> = Vec::new();
    let mut i: usize = 0;
    while i < shape.nodes.len()
        invariant
            i <= shape.nodes@.len(),
            vectors@.len() == shape.nodes@.len(),
            node_views(nodes@) =~= Seq::new(
                i as nat,
                |i: int| moved(shape@.nodes[i], vectors@[i]@),
            ),
        decreases shape.nodes@.len() - i,
    {
        let ghost before = nodes@;
        let mut n = shape.nodes[i].copy();
        n.vector = vectors[i];
        nodes.push(n);
        assert(node_views(nodes@) =~= node_views(before).push(n@));
        i += 1;
    }
    let mut name = shape.name.clone();
    name.append("_warped");
    let mut r = Shape::new(name.as_str(), nodes);
    r.rebuild_edges(SLIGHTLY_SIMILAR);
    r
}

/// The concept that a close variant of `n` becomes as the `at`-th of a shape.
pub open spec fn variant(n: NodeView, vector: Seq<i8>, at: nat) -> NodeView {
    NodeView {
        id: n.id.wrapping_add((at % 0x1_0000_0000) as u32),
        vector,
        confidence: (4 * n.confidence / 5) as u16,
        connections: Seq::empty(),
    }
}

/// `acc` with the close ones of the first `k` variants of `n` added.
pub open spec fn with_variants(
    acc: Seq<NodeView>,
    n: NodeView,
    vs: Seq<[i8; 64]>,
    k: nat,
) -> Seq<NodeView>
    decreases k,
{
    if k == 0 {
        acc
    } else {
        let a = with_variants(acc, n, vs, (k - 1) as nat);
        let v = vs[k - 1]@;
        if dot(n.vector, v) > CLOSE_VARIANT {
            a.push(variant(n, v, a.len()))
        } else {
            a
        }
    }
}

/// The concepts with the close variants of the first `k` of them added.
pub open spec fn grown(nodes: Seq<NodeView>, vs: Seq<Vec<[i8; 64]>>, k: nat) -> Seq<NodeView>
    decreases k,
{
    if k == 0 {
        nodes
    } else {
        with_variants(grown(nodes, vs, (k - 1) as nat), nodes[k - 1], vs[k - 1]@, vs[k - 1]@.len())
    }
}

/// A shape with the close ones of the candidate variants of each concept added.
pub fn expand(shape: &Shape, variants: &Vec<Vec<[i8; 64]>>) -> (r: Shape)
    requires
        variants@.len() == shape.nodes@.len(),
    ensures
        r@ == shape_of(
            shape@.name + "_expanded"@,
            grown(shape@.nodes, variants@, shape@.nodes.len()),
            SLIGHTLY_SIMILAR as int,
        ),
        r@.wf(),
{
    let mut nodes = copy_nodes(&shape.nodes);
    let mut i: usize = 0;
    while i < shape.nodes.len()
        invariant
            i <= shape.nodes@.len(),
            variants@.len() == shape.nodes@.len(),
            node_views(nodes@) == grown(shape@.nodes, variants@, i as nat),
        decreases shape.nodes@.len() - i,
    {
        let node = &shape.nodes[i];
        let ghost start = node_views(nodes@);
        let mut k: usize = 0;
        while k < variants[i].len()
            invariant
                i < shape.nodes@.len(),
                variants@.len() == shape.nodes@.len(),
                k <= variants@[i as int]@.len(),
                *node == shape.nodes@[i as int],
                node_views(nodes@) == with_variants(
                    start,
                    node@,
                    variants@[i as int]@,
                    k as nat,
                ),
            decreases variants@[i as int]@.len() - k,
        {
            let v = variants[i][k];
            if node.dot(&v) > CLOSE_VARIANT {
                let ghost before = nodes@;
                let at: u32 = (nodes.len() as u64 % 0x1_0000_0000) as u32;
                let n = ConceptNode {
                    id: node.id.wrapping_add(at),
                    vector: v,
                    confidence: (4 * node.confidence as u32 / 5) as u16,
                    connections: Vec::new(),
                };
                nodes.push(n);
                assert(node_views(nodes@) =~= node_views(before).push(n@));
            }
            k += 1;
        }
        i += 1;
    }
    let mut name = shape.name.clone();
    name.append("_expanded");
    let mut r = Shape::new(name.as_str(), nodes);
    r.rebuild_edges(SLIGHTLY_SIMILAR);
    r
}

/// Growing a shape keeps the concepts that were there, in place.
pub proof fn law_expand_keeps(nodes: Seq<NodeView>, vs: Seq<Vec<[i8; 64]>>, k: nat)
    ensures
        nodes.len() <= grown(nodes, vs, k).len(),
        grown(nodes, vs, k).take(nodes.len() as int) == nodes,
    decreases k,
{
    if k == 0 {
        assert(nodes.take(nodes.len() as int) =~= nodes);
    } else {
        law_expand_keeps(nodes, vs, (k - 1) as nat);
        let g = grown(nodes, vs, (k - 1) as nat);
        lemma_variants_keep(g, nodes[k - 1], vs[k - 1]@, vs[k - 1]@.len());
        let w = grown(nodes, vs, k);
        assert(w.take(nodes.len() as int) =~= w.take(g.len() as int).take(nodes.len() as int));
    }
}

proof fn lemma_variants_keep(acc: Seq<NodeView>, n: NodeView, vs: Seq<[i8; 64]>, k: nat)
    ensures
        acc.len() <= with_variants(acc, n, vs, k).len(),
        with_variants(acc, n, vs, k).take(acc.len() as int) == acc,
    decreases k,
{
    if k == 0 {
        assert(acc.take(acc.len() as int) =~= acc);
    } else {
        lemma_variants_keep(acc, n, vs, (k - 1) as nat);
        let a = with_variants(acc, n, vs, (k - 1) as nat);
        let b = with_variants(acc, n, vs, k);
        assert(b.take(acc.len() as int) =~= a.take(acc.len() as int));
    }
}

/// The confidences of the concepts.
pub open spec fn confidences(nodes: Seq<NodeView>) -> Seq<i64> {
    Seq::new(nodes.len(), |i: int| nodes[i].confidence as i64)
}

/// How many of `len` concepts stay where `keep` are asked for: at least one, if there is one.
pub open spec fn kept_count(keep: nat, len: nat) -> nat {
    let k = if keep >= 1 {
        keep
    } else {
        1
    };
    if k <= len {
        k
    } else {
        len
    }
}

/// The concepts at positions, in their order.
pub open spec fn picked(nodes: Seq<NodeView>, at: Seq<usize>) -> Seq<NodeView> {
    at.map_values(|i: usize| nodes[i as int])
}

fn pick(nodes: &Vec<ConceptNode>, at: &Vec<usize>, count: usize) -> (r: Vec<ConceptNode>)
    requires
        count <= at@.len(),
        forall|k: int| 0 <= k < at@.len() ==> #[trigger] at@[k] < nodes@.len(),
    ensures
        node_views(r@) == picked(node_views(nodes@), at@.take(count as int)),
{
    let mut out: Vec<ConceptNode> = Vec::new();
    let mut j: usize = 0;
    while j < count
        invariant
            j <= count <= at@.len(),
            forall|k: int| 0 <= k < at@.len() ==> #[trigger] at@[k] < nodes@.len(),
            node_views(out@) =~= picked(node_views(nodes@), at@.take(j as int)),
        decreases count - j,
    {
        let ghost before = out@;
        let n = nodes[at[j]].copy();
        out.push(n);
        assert(node_views(out@) =~= node_views(before).push(n@));
        j += 1;
    }
    out
}

/// The concepts of most confidence: `keep` of them, or all where nothing is said.
pub fn compress(shape: &Shape, keep: Option<usize>) -> (r: Shape)
    ensures
        match keep {
            None => r@ == shape@,
            Some(k) => exists|p: Seq<usize>|
                {
                    &&& #[trigger] ranked(confidences(shape@.nodes), p)
                    &&& r@ == shape_of(
                        shape@.name + "_compressed"@,
                        picked(
                            shape@.nodes,
                            p.take(kept_count(k as nat, shape@.nodes.len()) as int),
                        ),
                        HALF_SIMILAR as int,
                    )
                },
        },
        shape@.wf() ==> r@.wf(),
{
    let k: usize = match keep {
        None => {
            return shape.copy();
        },
        Some(k) => k,
    };
    let n = shape.nodes.len();
    let want: usize = if k >= 1 {
        k
    } else {
        1
    };
    let count: usize = if want <= n {
        want
    } else {
        n
    };
    let mut keys: Vec<i64> = Vec::new();
    let mut i: usize = 0;
    while i < n
        invariant
            n == shape.nodes@.len(),
            i <= n,
            keys@ =~= confidences(shape@.nodes).take(i as int),
        decreases n - i,
    {
        keys.push(shape.nodes[i].confidence as i64);
        i += 1;
    }
    assert(confidences(shape@.nodes).take(i as int) =~= confidences(shape@.nodes));
    let order = rank(&keys);
    let kept = pick(&shape.nodes, &order, count);
    let mut name = shape.name.clone();
    name.append("_compressed");
    Shape::new(name.as_str(), kept)
}

// ---------------------------------------------------------------------------
// Connected components
// ---------------------------------------------------------------------------

/// What is kept is the most confident: none that is left out has more confidence than one
/// that stays, and of equal ones those that come first stay.
pub proof fn law_compress_keeps_best(nodes: Seq<NodeView>, p: Seq<usize>, k: int, a: int, b: int)
    requires
        ranked(confidences(nodes), p),
        0 <= a < k <= b < p.len(),
    ensures
        nodes[p[a] as int].confidence >= nodes[p[b] as int].confidence,
        nodes[p[a] as int].confidence == nodes[p[b] as int].confidence ==> p[a] < p[b],
{
    let c = confidences(nodes);
    assert(ahead(c, p[a] as int, p[b] as int));
    assert(c[p[a] as int] == nodes[p[a] as int].confidence);
    assert(c[p[b] as int] == nodes[p[b] as int].confidence);
}

/// Neighbours by position: for each edge above `eps`, in order, each end gets the other.
pub open spec fn neighbours(edges: Seq<Edge>, eps: int, n: nat) -> Seq<Seq<usize>>
    decreases edges.len(),
{
    if edges.len() == 0 {
        Seq::new(n, |i: int| Seq::empty())
    } else {
        let a = neighbours(edges.drop_last(), eps, n);
        let (i, j, sim) = edges.last();
        if sim > eps {
            let b = a.update(i as int, a[i as int].push(j));
            b.update(j as int, b[j as int].push(i))
        } else {
            a
        }
    }
}

/// The entries of a list that are not marked, in order.
pub open spec fn unmarked(list: Seq<usize>, seen: Seq<bool>) -> Seq<usize>
    decreases list.len(),
{
    if list.len() == 0 {
        Seq::empty()
    } else {
        let rest = unmarked(list.drop_last(), seen);
        if seen[list.last() as int] {
            rest
        } else {
            rest.push(list.last())
        }
    }
}

/// How many positions are not marked.
pub open spec fn open_count(seen: Seq<bool>) -> nat
    decreases seen.len(),
{
    if seen.len() == 0 {
        0
    } else {
        open_count(seen.drop_last()) + if seen.last() {
            0nat
        } else {
            1
        }
    }
}

/// Marking an unmarked position leaves one less open.
pub proof fn lemma_mark_closes(seen: Seq<bool>, i: int)
    requires
        0 <= i < seen.len(),
        !seen[i],
    ensures
        open_count(seen.update(i, true)) + 1 == open_count(seen),
    decreases seen.len(),
{
    let t = seen.update(i, true);
    if i == seen.len() - 1 {
        assert(t.drop_last() =~= seen.drop_last());
    } else {
        assert(t.drop_last() =~= seen.drop_last().update(i, true));
        lemma_mark_closes(seen.drop_last(), i);
    }
}

/// A depth-first walk from a stack of positions: the marks after it, and the positions
/// that it marked, in order. The top of the stack is taken; where it is not marked, it is
/// marked, and its neighbours that are not marked go on the stack.
pub open spec fn walk(adj: Seq<Seq<usize>>, seen: Seq<bool>, stack: Seq<usize>) -> (
    Seq<bool>,
    Seq<usize>,
)
    decreases open_count(seen), stack.len(),
{
    if stack.len() == 0 {
        (seen, Seq::empty())
    } else {
        let top = stack.last();
        let rest = stack.drop_last();
        if top >= seen.len() || seen[top as int] {
            walk(adj, seen, rest)
        } else {
            proof {
                lemma_mark_closes(seen, top as int);
            }
            let marked = seen.update(top as int, true);
            let (after, order) = walk(adj, marked, rest + unmarked(adj[top as int], marked));
            (after, seq![top] + order)
        }
    }
}

/// The components, from the positions from `start` on that are not marked.
pub open spec fn components_from(adj: Seq<Seq<usize>>, seen: Seq<bool>, start: nat) -> Seq<
    Seq<usize>,
>
    decreases adj.len() - start,
{
    if start >= adj.len() {
        Seq::empty()
    } else if seen[start as int] {
        components_from(adj, seen, start + 1)
    } else {
        let (after, order) = walk(adj, seen, seq![start as usize]);
        seq![order] + components_from(adj, after, start + 1)
    }
}

/// The connected components of `n` positions under the edges above `eps`.
pub open spec fn components(edges: Seq<Edge>, eps: int, n: nat) -> Seq<Seq<usize>> {
    components_from(neighbours(edges, eps, n), Seq::new(n, |i: int| false), 0)
}

/// The contents of lists of positions.
pub open spec fn lists(v: Seq<Vec<usize>>) -> Seq<Seq<usize>> {
    v.map_values(|l: Vec<usize>| l@)
}

/// All entries are positions below `n`.
pub open spec fn in_range(adj: Seq<Seq<usize>>, n: nat) -> bool {
    &&& adj.len() == n
    &&& forall|i: int, k: int|
        0 <= i < n && 0 <= k < adj[i].len() ==> #[trigger] adj[i][k] < n
}

pub(crate) fn build_neighbours(edges: &Vec<Edge>, eps: i32, n: usize) -> (r: Vec<Vec<usize>>)
    requires
        forall|e: int| 0 <= e < edges@.len() ==> (#[trigger] edges@[e]).0 < n && edges@[e].1 < n,
    ensures
        lists(r@) == neighbours(edges@, eps as int, n as nat),
        in_range(lists(r@), n as nat),
{
    let mut adj: Vec<Vec<usize>> = Vec::new();
    let mut i: usize = 0;
    while i < n
        invariant
            i <= n,
            lists(adj@) =~= Seq::new(i as nat, |i: int| Seq::<usize>::empty()),
        decreases n - i,
    {
        let ghost before = adj@;
        let v: Vec<usize> = Vec::new();
        adj.push(v);
        assert(lists(adj@) =~= lists(before).push(v@));
        i += 1;
    }
    let mut e: usize = 0;
    assert(edges@.take(0) =~= Seq::<Edge>::empty());
    while e < edges.len()
        invariant
            e <= edges@.len(),
            forall|e: int| 0 <= e < edges@.len() ==> (#[trigger] edges@[e]).0 < n && edges@[e].1 < n,
            lists(adj@) == neighbours(edges@.take(e as int), eps as int, n as nat),
            in_range(lists(adj@), n as nat),
        decreases edges@.len() - e,
    {
        proof {
            assert(edges@.take(e + 1).drop_last() =~= edges@.take(e as int));
            assert(edges@.take(e + 1).last() == edges@[e as int]);
        }
        let a: usize = edges[e].0;
        let b: usize = edges[e].1;
        if edges[e].2 > eps {
            push_at(&mut adj, a, b);
            push_at(&mut adj, b, a);
        }
        e += 1;
    }
    assert(edges@.take(e as int) =~= edges@);
    adj
}

fn push_at(adj: &mut Vec<Vec<usize>>, i: usize, v: usize)
    requires
        i < old(adj)@.len(),
        v < old(adj)@.len(),
        in_range(lists(old(adj)@), old(adj)@.len()),
    ensures
        lists(final(adj)@) == lists(old(adj)@).update(i as int, lists(old(adj)@)[i as int].push(v)),
        in_range(lists(final(adj)@), old(adj)@.len()),
{
    let ghost before = lists(adj@);
    adj[i].push(v);
    proof {
        let after = lists(adj@);
        assert(after =~= before.update(i as int, before[i as int].push(v)));
        assert forall|a: int, k: int|
            0 <= a < after.len() && 0 <= k < after[a].len() implies #[trigger] after[a][k]
            < after.len() by {
            if a == i {
                if k < before[i as int].len() {
                    assert(after[a][k] == before[a][k]);
                }
            } else {
                assert(after[a][k] == before[a][k]);
            }
        }
    }
}

/// Walks from `start`, and gives the positions that it marked.
fn walk_from(adj: &Vec<Vec<usize>>, seen: &mut Vec<bool>, start: usize) -> (r: Vec<usize>)
    requires
        in_range(lists(adj@), adj@.len()),
        old(seen)@.len() == adj@.len(),
        start < adj@.len(),
    ensures
        (final(seen)@, r@) == walk(lists(adj@), old(seen)@, seq![start]),
        final(seen)@.len() == old(seen)@.len(),
        forall|k: int| 0 <= k < r@.len() ==> #[trigger] r@[k] < adj@.len(),
{
    let ghost g = lists(adj@);
    let ghost total = walk(g, seen@, seq![start]);
    let mut order: Vec<usize> = Vec::new();
    let mut stack: Vec<usize> = Vec::new();
    stack.push(start);
    assert(stack@ =~= seq![start]);
    proof {
        assert(order@ + total.1 =~= total.1);
    }
    while stack.len() > 0
        invariant
            g == lists(adj@),
            in_range(g, adj@.len()),
            seen@.len() == adj@.len(),
            forall|k: int| 0 <= k < stack@.len() ==> #[trigger] stack@[k] < adj@.len(),
            forall|k: int| 0 <= k < order@.len() ==> #[trigger] order@[k] < adj@.len(),
            total.0 == walk(g, seen@, stack@).0,
            total.1 == order@ + walk(g, seen@, stack@).1,
        decreases open_count(seen@), stack@.len(),
    {
        let ghost old_stack = stack@;
        let ghost old_seen = seen@;
        let ghost old_order = order@;
        let top: usize = stack[stack.len() - 1];
        let _ = stack.pop();
        assert(stack@ =~= old_stack.drop_last());
        if !seen[top] {
            proof {
                lemma_mark_closes(seen@, top as int);
            }
            seen.set(top, true);
            order.push(top);
            let ghost rest = stack@;
            let ghost marked = seen@;
            let ghost list = adj@[top as int]@;
            assert(g[top as int] == list);
            let mut k: usize = 0;
            assert(list.take(0) =~= Seq::<usize>::empty());
            assert(stack@ =~= rest + unmarked(list.take(0), marked));
            while k < adj[top].len()
                invariant
                    g == lists(adj@),
                    in_range(g, adj@.len()),
                    top < adj@.len(),
                    list == adj@[top as int]@,
                    g[top as int] == list,
                    k <= list.len(),
                    seen@ == marked,
                    seen@.len() == adj@.len(),
                    forall|k: int| 0 <= k < stack@.len() ==> #[trigger] stack@[k] < adj@.len(),
                    stack@ == rest + unmarked(list.take(k as int), marked),
                decreases list.len() - k,
            {
                proof {
                    assert(list.take(k + 1).drop_last() =~= list.take(k as int));
                    assert(list.take(k + 1).last() == list[k as int]);
                    assert(g[top as int][k as int] < adj@.len());
                }
                let nb: usize = adj[top][k];
                if !seen[nb] {
                    stack.push(nb);
                }
                assert(stack@ =~= rest + unmarked(list.take(k + 1), marked));
                k += 1;
            }
            assert(list.take(k as int) =~= list);
            assert(stack@ == rest + unmarked(g[top as int], marked));
            assert(total.1 =~= order@ + walk(g, seen@, stack@).1);
        }
    }
    assert(total.1 =~= order@);
    order
}

pub(crate) fn find_components(adj: &Vec<Vec<usize>>) -> (r: Vec<Vec<usize>>)
    requires
        in_range(lists(adj@), adj@.len()),
    ensures
        lists(r@) == components_from(
            lists(adj@),
            Seq::new(adj@.len(), |i: int| false),
            0,
        ),
        forall|c: int, k: int|
            0 <= c < r@.len() && 0 <= k < r@[c]@.len() ==> #[trigger] r@[c]@[k] < adj@.len(),
{
    let n = adj.len();
    let mut seen: Vec<bool> = vec![false; n];
    assert(seen@ =~= Seq::new(adj@.len(), |i: int| false));
    let ghost total = components_from(lists(adj@), seen@, 0);
    let mut out: Vec<Vec<usize>> = Vec::new();
    let mut start: usize = 0;
    assert(total =~= lists(out@) + components_from(lists(adj@), seen@, 0));
    while start < n
        invariant
            n == adj@.len(),
            in_range(lists(adj@), adj@.len()),
            seen@.len() == n,
            start <= n,
            total == lists(out@) + components_from(lists(adj@), seen@, start as nat),
            forall|c: int, k: int|
                0 <= c < out@.len() && 0 <= k < out@[c]@.len() ==> #[trigger] out@[c]@[k]
                    < adj@.len(),
        decreases n - start,
    {
        if !seen[start] {
            let ghost before = out@;
            let ghost old_seen = seen@;
            let order = walk_from(adj, &mut seen, start);
            out.push(order);
            proof {
                assert(lists(out@) =~= lists(before).push(order@));
                assert(total =~= lists(out@) + components_from(
                    lists(adj@),
                    seen@,
                    (start + 1) as nat,
                ));
            }
        }
        start += 1;
    }
    assert(total =~= lists(out@));
    out
}

/// The part of a shape that a component makes up.
pub open spec fn part(s: ShapeView, c: Seq<usize>, at: int) -> ShapeView {
    shape_of(
        s.name + "_split"@ + decimal(at as nat),
        picked(s.nodes, c),
        HALF_SIMILAR as int,
    )
}

/// The views of shapes.
pub open spec fn shape_views(v: Seq<Shape>) -> Seq<ShapeView> {
    v.map_values(|s: Shape| s@)
}

/// Splits a shape in its connected components under the edges above `eps`.
pub fn split(shape: &Shape, eps: i32) -> (r: Vec<Shape>)
    requires
        shape@.wf(),
    ensures
        ({
            let cs = components(shape@.edges, eps as int, shape@.nodes.len());
            shape_views(r@) == Seq::new(cs.len(), |c: int| part(shape@, cs[c], c))
        }),
        forall|i: int| 0 <= i < r@.len() ==> (#[trigger] r@[i])@.wf(),
{
    let n = shape.nodes.len();
    assert forall|e: int| 0 <= e < shape.edges@.len() implies (#[trigger] shape.edges@[e]).0 < n
        && shape.edges@[e].1 < n by {
        assert(shape@.edges[e].0 < shape@.nodes.len());
    }
    let adj = build_neighbours(&shape.edges, eps, n);
    assert(lists(adj@).len() == n);
    let comps = find_components(&adj);
    let ghost cs = components(shape@.edges, eps as int, shape@.nodes.len());
    assert(lists(comps@) == cs);
    let mut out: Vec<Shape> = Vec::new();
    let mut c: usize = 0;
    while c < comps.len()
        invariant
            n == shape.nodes@.len(),
            c <= comps@.len(),
            lists(comps@) == cs,
            forall|c: int, k: int|
                0 <= c < comps@.len() && 0 <= k < comps@[c]@.len() ==> #[trigger] comps@[c]@[k] < n,
            shape_views(out@) =~= Seq::new(c as nat, |c: int| part(shape@, cs[c], c)),
            forall|i: int| 0 <= i < out@.len() ==> (#[trigger] out@[i])@.wf(),
        decreases comps@.len() - c,
    {
        let ghost before = out@;
        let nodes = pick(&shape.nodes, &comps[c], comps[c].len());
        assert(comps@[c as int]@.take(comps@[c as int]@.len() as int) =~= comps@[c as int]@);
        assert(cs[c as int] == comps@[c as int]@);
        let mut name = shape.name.clone();
        name.append("_split");
        push_decimal(&mut name, c as u64);
        let s = Shape::new(name.as_str(), nodes);
        out.push(s);
        assert(shape_views(out@) =~= shape_views(before).push(s@));
        c += 1;
    }
    out
}

// ---------------------------------------------------------------------------
// What the components are
// ---------------------------------------------------------------------------

/// Whether an edge above `eps` joins two positions, in either direction.
pub open spec fn linked(edges: Seq<Edge>, eps: int, a: int, b: int) -> bool {
    exists|e: int|
        {
            &&& 0 <= e < edges.len()
            &&& #[trigger] edges[e].2 > eps
            &&& (edges[e].0 == a && edges[e].1 == b) || (edges[e].0 == b && edges[e].1 == a)
        }
}

/// A sequence of positions, each linked with the next.
pub open spec fn is_path(edges: Seq<Edge>, eps: int, p: Seq<int>) -> bool {
    &&& p.len() > 0
    &&& forall|k: int| 0 <= k < p.len() - 1 ==> linked(edges, eps, #[trigger] p[k], p[k + 1])
}

/// Whether a path leads from one position to another.
pub open spec fn connected(edges: Seq<Edge>, eps: int, a: int, b: int) -> bool {
    exists|p: Seq<int>| #[trigger] is_path(edges, eps, p) && p[0] == a && p.last() == b
}

/// All edges join positions below `n`.
pub open spec fn edges_in_range(edges: Seq<Edge>, n: nat) -> bool {
    forall|e: int| 0 <= e < edges.len() ==> (#[trigger] edges[e]).0 < n && edges[e].1 < n
}

spec fn steps_to(adj: Seq<Seq<usize>>, a: int, b: int) -> bool {
    exists|k: int| 0 <= k < adj[a].len() && #[trigger] adj[a][k] == b
}

spec fn adj_path(adj: Seq<Seq<usize>>, p: Seq<int>) -> bool {
    &&& p.len() > 0
    &&& forall|k: int| 0 <= k < p.len() ==> 0 <= #[trigger] p[k] < adj.len()
    &&& forall|k: int| 0 <= k < p.len() - 1 ==> steps_to(adj, #[trigger] p[k], p[k + 1])
}

spec fn reaches(adj: Seq<Seq<usize>>, a: int, b: int) -> bool {
    exists|p: Seq<int>| #[trigger] adj_path(adj, p) && p[0] == a && p.last() == b
}

spec fn symmetric(adj: Seq<Seq<usize>>) -> bool {
    forall|a: int, b: int|
        0 <= a < adj.len() && 0 <= b < adj.len() && steps_to(adj, a, b) ==> #[trigger] steps_to(
            adj,
            b,
            a,
        )
}

proof fn lemma_reaches_self(adj: Seq<Seq<usize>>, a: int)
    requires
        0 <= a < adj.len(),
    ensures
        reaches(adj, a, a),
{
    let p = seq![a];
    assert(adj_path(adj, p));
    assert(p.last() == a);
}

proof fn lemma_step_then_reaches(adj: Seq<Seq<usize>>, a: int, b: int, c: int)
    requires
        0 <= a < adj.len(),
        steps_to(adj, a, b),
        reaches(adj, b, c),
    ensures
        reaches(adj, a, c),
{
    let p = choose|p: Seq<int>| #[trigger] adj_path(adj, p) && p[0] == b && p.last() == c;
    let q = seq![a] + p;
    assert forall|k: int| 0 <= k < q.len() implies 0 <= #[trigger] q[k] < adj.len() by {
        if k > 0 {
            assert(q[k] == p[k - 1]);
        }
    }
    assert forall|k: int| 0 <= k < q.len() - 1 implies steps_to(adj, #[trigger] q[k], q[k + 1]) by {
        if k > 0 {
            assert(q[k] == p[k - 1]);
            assert(q[k + 1] == p[k]);
        } else {
            assert(q[1] == p[0]);
        }
    }
    assert(adj_path(adj, q));
    assert(q[0] == a && q.last() == c);
}

proof fn lemma_reaches_back(adj: Seq<Seq<usize>>, a: int, b: int)
    requires
        symmetric(adj),
        reaches(adj, a, b),
    ensures
        reaches(adj, b, a),
{
    let p = choose|p: Seq<int>| #[trigger] adj_path(adj, p) && p[0] == a && p.last() == b;
    let q = p.reverse();
    let n = p.len();
    assert forall|k: int| 0 <= k < q.len() implies 0 <= #[trigger] q[k] < adj.len() by {
        assert(q[k] == p[n - 1 - k]);
    }
    assert forall|k: int| 0 <= k < q.len() - 1 implies steps_to(adj, #[trigger] q[k], q[k + 1]) by {
        assert(q[k] == p[n - 1 - k]);
        assert(q[k + 1] == p[n - 2 - k]);
        assert(steps_to(adj, p[n - 2 - k], p[n - 2 - k + 1]));
    }
    assert(adj_path(adj, q));
    assert(q[0] == b && q.last() == a);
}

proof fn lemma_reaches_trans(adj: Seq<Seq<usize>>, a: int, b: int, c: int)
    requires
        reaches(adj, a, b),
        reaches(adj, b, c),
    ensures
        reaches(adj, a, c),
{
    let p = choose|p: Seq<int>| #[trigger] adj_path(adj, p) && p[0] == a && p.last() == b;
    lemma_path_then_reaches(adj, p, c);
}

proof fn lemma_path_then_reaches(adj: Seq<Seq<usize>>, p: Seq<int>, c: int)
    requires
        adj_path(adj, p),
        reaches(adj, p.last(), c),
    ensures
        reaches(adj, p[0], c),
    decreases p.len(),
{
    if p.len() > 1 {
        let t = p.drop_first();
        assert forall|k: int| 0 <= k < t.len() implies 0 <= #[trigger] t[k] < adj.len() by {
            assert(t[k] == p[k + 1]);
        }
        assert forall|k: int| 0 <= k < t.len() - 1 implies steps_to(
            adj,
            #[trigger] t[k],
            t[k + 1],
        ) by {
            assert(t[k] == p[k + 1]);
            assert(t[k + 1] == p[k + 1 + 1]);
        }
        assert(t.last() == p.last());
        lemma_path_then_reaches(adj, t, c);
        assert(steps_to(adj, p[0], p[0int + 1]));
        lemma_step_then_reaches(adj, p[0], t[0], c);
    }
}

/// A set of positions that no step leaves is not left by a path.
proof fn lemma_closed_holds_path(adj: Seq<Seq<usize>>, set: Set<int>, p: Seq<int>, k: int)
    requires
        adj_path(adj, p),
        set.contains(p[0]),
        forall|a: int, b: int|
            0 <= a < adj.len() && set.contains(a) && #[trigger] steps_to(adj, a, b) ==> set.contains(
                b,
            ),
        0 <= k < p.len(),
    ensures
        set.contains(p[k]),
    decreases k,
{
    if k > 0 {
        lemma_closed_holds_path(adj, set, p, k - 1);
        assert(steps_to(adj, p[k - 1], p[k - 1 + 1]));
    }
}

proof fn lemma_unmarked(list: Seq<usize>, seen: Seq<bool>)
    requires
        forall|k: int| 0 <= k < list.len() ==> #[trigger] list[k] < seen.len(),
    ensures
        forall|k: int|
            0 <= k < unmarked(list, seen).len() ==> list.contains(
                #[trigger] unmarked(list, seen)[k],
            ),
        forall|k: int|
            0 <= k < list.len() ==> seen[#[trigger] list[k] as int] || unmarked(
                list,
                seen,
            ).contains(list[k]),
    decreases list.len(),
{
    if list.len() > 0 {
        let t = list.drop_last();
        lemma_unmarked(t, seen);
        let u = unmarked(t, seen);
        let w = unmarked(list, seen);
        assert forall|k: int| 0 <= k < w.len() implies list.contains(#[trigger] w[k]) by {
            if k < u.len() {
                assert(w[k] == u[k]);
                let m = choose|m: int| 0 <= m < t.len() && t[m] == u[k];
                assert(list[m] == u[k]);
            } else {
                assert(list[list.len() - 1] == w[k]);
            }
        }
        assert forall|k: int| 0 <= k < list.len() implies seen[#[trigger] list[k] as int]
            || w.contains(list[k]) by {
            if k < t.len() {
                assert(t[k] == list[k]);
                if !seen[list[k] as int] {
                    let m = choose|m: int| 0 <= m < u.len() && u[m] == t[k];
                    assert(w[m] == list[k]);
                }
            } else if !seen[list[k] as int] {
                assert(w[w.len() - 1] == list[k]);
            }
        }
    }
}

spec fn below(s: Seq<usize>, n: nat) -> bool {
    forall|k: int| 0 <= k < s.len() ==> #[trigger] s[k] < n
}

/// What a walk does: it marks what it lists and nothing else, lists nothing twice, marks all
/// of the stack and all neighbours of what it lists, and lists only what the stack reaches.
spec fn walk_ok(
    adj: Seq<Seq<usize>>,
    seen: Seq<bool>,
    stack: Seq<usize>,
    after: Seq<bool>,
    order: Seq<usize>,
) -> bool {
    &&& after.len() == seen.len()
    &&& below(order, seen.len())
    &&& order.no_duplicates()
    &&& forall|i: int| 0 <= i < seen.len() && seen[i] ==> #[trigger] after[i]
    &&& forall|k: int| 0 <= k < stack.len() ==> after[#[trigger] stack[k] as int]
    &&& forall|i: int|
        0 <= i < seen.len() ==> (#[trigger] after[i] && !seen[i] <==> order.contains(i as usize))
    &&& forall|k: int, m: int|
        0 <= k < order.len() && 0 <= m < adj[order[k] as int].len()
            ==> after[#[trigger] adj[order[k] as int][m] as int]
    &&& forall|k: int|
        0 <= k < order.len() ==> exists|s: int|
            0 <= s < stack.len() && reaches(adj, #[trigger] stack[s] as int, #[trigger] order[k] as int)
}

proof fn lemma_walk_marks(
    adj: Seq<Seq<usize>>,
    seen: Seq<bool>,
    stack: Seq<usize>,
    after: Seq<bool>,
    order: Seq<usize>,
    i: int,
)
    requires
        walk_ok(adj, seen, stack, after, order),
        0 <= i < seen.len(),
    ensures
        after[i] && !seen[i] <==> order.contains(i as usize),
{
}

proof fn lemma_walk(adj: Seq<Seq<usize>>, seen: Seq<bool>, stack: Seq<usize>)
    requires
        in_range(adj, seen.len()),
        below(stack, seen.len()),
        seen.len() <= usize::MAX,
    ensures
        walk_ok(adj, seen, stack, walk(adj, seen, stack).0, walk(adj, seen, stack).1),
    decreases open_count(seen), stack.len(),
{
    let (after, order) = walk(adj, seen, stack);
    if stack.len() > 0 {
        let top = stack.last();
        let rest = stack.drop_last();
        assert(top == stack[stack.len() - 1]);
        assert forall|k: int| 0 <= k < rest.len() implies #[trigger] rest[k] < seen.len() by {
            assert(rest[k] == stack[k]);
        }
        if seen[top as int] {
            lemma_walk(adj, seen, rest);
            assert forall|k: int| 0 <= k < stack.len() implies after[#[trigger] stack[k] as int] by {
                if k < rest.len() {
                    assert(after[rest[k] as int]);
                }
            }
            assert forall|k: int| 0 <= k < order.len() implies exists|s: int|
                0 <= s < stack.len() && reaches(
                    adj,
                    #[trigger] stack[s] as int,
                    #[trigger] order[k] as int,
                ) by {
                let s = choose|s: int|
                    0 <= s < rest.len() && reaches(adj, #[trigger] rest[s] as int, order[k] as int);
                assert(stack[s] == rest[s]);
            }
        } else {
            lemma_mark_closes(seen, top as int);
            let marked = seen.update(top as int, true);
            let list = adj[top as int];
            let fresh = unmarked(list, marked);
            let next = rest + fresh;
            assert forall|k: int| 0 <= k < list.len() implies #[trigger] list[k] < marked.len() by {
                assert(adj[top as int][k] < seen.len());
            }
            lemma_unmarked(list, marked);
            assert forall|k: int| 0 <= k < next.len() implies #[trigger] next[k] < marked.len() by {
                if k < rest.len() {
                    assert(next[k] == rest[k]);
                } else {
                    assert(next[k] == fresh[k - rest.len()]);
                    let m = choose|m: int| 0 <= m < list.len() && list[m] == fresh[k - rest.len()];
                    assert(adj[top as int][m] < seen.len());
                }
            }
            lemma_walk(adj, marked, next);
            let (a, o) = walk(adj, marked, next);
            assert(after == a && order == seq![top] + o);
            assert(walk_ok(adj, marked, next, a, o));
            assert forall|k: int| 0 <= k < order.len() implies #[trigger] order[k] < seen.len() by {
                if k > 0 {
                    assert(order[k] == o[k - 1]);
                }
            }
            assert(marked[top as int]);
            assert(after[top as int]);
            assert(!o.contains(top)) by {
                if o.contains(top) {
                    assert(after[top as int] && !marked[top as int]);
                }
            }
            assert(order.no_duplicates()) by {
                assert forall|x: int, y: int|
                    0 <= x < order.len() && 0 <= y < order.len() && x != y implies order[x]
                    != order[y] by {
                    if x == 0 {
                        assert(order[y] == o[y - 1]);
                    } else if y == 0 {
                        assert(order[x] == o[x - 1]);
                    } else {
                        assert(order[x] == o[x - 1] && order[y] == o[y - 1]);
                    }
                }
            }
            assert forall|i: int| 0 <= i < seen.len() && seen[i] implies #[trigger] after[i] by {
                assert(marked[i]);
            }
            assert forall|k: int| 0 <= k < stack.len() implies after[#[trigger] stack[k] as int] by {
                if k < rest.len() {
                    assert(next[k] == stack[k]);
                    assert(after[next[k] as int]);
                }
            }
            assert forall|i: int| 0 <= i < seen.len() implies (#[trigger] after[i] && !seen[i]
                <==> order.contains(i as usize)) by {
                assert(0 <= i < marked.len());
                lemma_walk_marks(adj, marked, next, a, o, i);
                if order.contains(i as usize) {
                    let k = choose|k: int| 0 <= k < order.len() && order[k] == i as usize;
                    if k > 0 {
                        assert(o[k - 1] == i as usize);
                        assert(o.contains(i as usize));
                        assert(!marked[i]);
                    }
                }
                if after[i] && !seen[i] {
                    if i == top {
                        assert(order[0] == i as usize);
                    } else {
                        assert(!marked[i]);
                        let k = choose|k: int| 0 <= k < o.len() && o[k] == i as usize;
                        assert(order[k + 1] == i as usize);
                    }
                }
            }
            assert forall|k: int, m: int|
                0 <= k < order.len() && 0 <= m < adj[order[k] as int].len() implies after[
            #[trigger] adj[order[k] as int][m] as int] by {
                if k > 0 {
                    assert(order[k] == o[k - 1]);
                    assert(after[adj[o[k - 1] as int][m] as int]);
                } else {
                    let y = list[m];
                    assert(y < seen.len());
                    if marked[y as int] {
                        assert(after[y as int]);
                    } else {
                        assert(fresh.contains(list[m]));
                        let q = choose|q: int| 0 <= q < fresh.len() && fresh[q] == y;
                        assert(next[rest.len() + q] == y);
                        assert(after[next[rest.len() + q] as int]);
                    }
                }
            }
            assert forall|k: int| 0 <= k < order.len() implies exists|s: int|
                0 <= s < stack.len() && reaches(
                    adj,
                    #[trigger] stack[s] as int,
                    #[trigger] order[k] as int,
                ) by {
                if k == 0 {
                    lemma_reaches_self(adj, top as int);
                    assert(reaches(adj, stack[stack.len() - 1] as int, order[k] as int));
                } else {
                    assert(order[k] == o[k - 1]);
                    let s = choose|s: int|
                        0 <= s < next.len() && reaches(
                            adj,
                            #[trigger] next[s] as int,
                            o[k - 1] as int,
                        );
                    if s < rest.len() {
                        assert(next[s] == stack[s]);
                    } else {
                        let q = s - rest.len();
                        assert(next[s] == fresh[q]);
                        let m = choose|m: int| 0 <= m < list.len() && list[m] == fresh[q];
                        assert(adj[top as int][m] == next[s]);
                        assert(steps_to(adj, top as int, next[s] as int));
                        lemma_step_then_reaches(adj, top as int, next[s] as int, order[k] as int);
                        assert(reaches(adj, stack[stack.len() - 1] as int, order[k] as int));
                    }
                }
            }
        }
    }
}

/// The marks are not left by a step.
spec fn marks_closed(adj: Seq<Seq<usize>>, seen: Seq<bool>) -> bool {
    forall|a: int, k: int|
        0 <= a < adj.len() && seen[a] && 0 <= k < adj[a].len() ==> seen[#[trigger] adj[a][k] as int]
}

spec fn holds(cs: Seq<Seq<usize>>, c: int, i: int) -> bool {
    0 <= c < cs.len() && cs[c].contains(i as usize)
}

/// What a list of components is: it lists each open position once, any two positions of a
/// component reach each other, and no step leaves a component.
spec fn components_ok(adj: Seq<Seq<usize>>, seen: Seq<bool>, cs: Seq<Seq<usize>>) -> bool {
    &&& forall|c: int| 0 <= c < cs.len() ==> below(#[trigger] cs[c], adj.len()) && cs[c].len() > 0
        && cs[c].no_duplicates()
    &&& forall|c: int, i: int| 0 <= i < adj.len() && #[trigger] holds(cs, c, i) ==> !seen[i]
    &&& forall|i: int|
        0 <= i < adj.len() && !(#[trigger] seen[i]) ==> exists|c: int| holds(cs, c, i)
    &&& forall|c: int, e: int, i: int|
        #[trigger] holds(cs, c, i) && #[trigger] holds(cs, e, i) && 0 <= i < adj.len() ==> c == e
    &&& forall|c: int, i: int, j: int|
        0 <= i < adj.len() && 0 <= j < adj.len() && #[trigger] holds(cs, c, i)
            && #[trigger] holds(cs, c, j) ==> reaches(adj, i, j)
    &&& forall|c: int, i: int, j: int|
        0 <= i < adj.len() && #[trigger] holds(cs, c, i) && #[trigger] steps_to(adj, i, j)
            ==> holds(cs, c, j)
}

proof fn lemma_components(adj: Seq<Seq<usize>>, seen: Seq<bool>, start: nat)
    requires
        in_range(adj, seen.len()),
        symmetric(adj),
        marks_closed(adj, seen),
        start <= adj.len() <= usize::MAX,
        forall|i: int| 0 <= i < start ==> #[trigger] seen[i],
    ensures
        components_ok(adj, seen, components_from(adj, seen, start)),
    decreases adj.len() - start,
{
    let cs = components_from(adj, seen, start);
    if start < adj.len() {
        if seen[start as int] {
            lemma_components(adj, seen, start + 1);
        } else {
            let stack = seq![start as usize];
            lemma_walk(adj, seen, stack);
            let (after, order) = walk(adj, seen, stack);
            assert(stack[0] == start);
            assert(after[stack[0] as int]);
            assert forall|i: int| 0 <= i < start + 1 implies #[trigger] after[i] by {
                if i < start {
                    assert(seen[i]);
                }
            }
            assert(marks_closed(adj, after)) by {
                assert forall|a: int, k: int|
                    0 <= a < adj.len() && after[a] && 0 <= k < adj[a].len() implies after[
                #[trigger] adj[a][k] as int] by {
                    if seen[a] {
                        assert(seen[adj[a][k] as int]);
                        assert(adj[a][k] < adj.len());
                    } else {
                        assert(order.contains(a as usize));
                        let q = choose|q: int| 0 <= q < order.len() && order[q] == a as usize;
                        assert(after[adj[order[q] as int][k] as int]);
                    }
                }
            }
            lemma_components(adj, after, start + 1);
            let rest = components_from(adj, after, start + 1);
            assert(cs == seq![order] + rest);
            lemma_components_cons(adj, seen, start, after, order, rest);
        }
    }
}

proof fn lemma_components_cons(
    adj: Seq<Seq<usize>>,
    seen: Seq<bool>,
    start: nat,
    after: Seq<bool>,
    order: Seq<usize>,
    rest: Seq<Seq<usize>>,
)
    requires
        in_range(adj, seen.len()),
        symmetric(adj),
        marks_closed(adj, seen),
        start < adj.len() <= usize::MAX,
        !seen[start as int],
        walk_ok(adj, seen, seq![start as usize], after, order),
        components_ok(adj, after, rest),
    ensures
        components_ok(adj, seen, seq![order] + rest),
{
    let cs = seq![order] + rest;
    let stack = seq![start as usize];
    assert(after[stack[0] as int]);
    assert(order.contains(start as usize));
    assert forall|c: int, i: int| #[trigger] holds(cs, c, i) && c > 0 implies holds(
        rest,
        c - 1,
        i,
    ) by {
        assert(cs[c] == rest[c - 1]);
    }
    assert forall|c: int, i: int| #[trigger] holds(rest, c, i) implies holds(cs, c + 1, i) by {
        assert(cs[c + 1] == rest[c]);
    }
    assert forall|c: int| 0 <= c < cs.len() implies below(#[trigger] cs[c], adj.len())
        && cs[c].len() > 0 && cs[c].no_duplicates() by {
        if c > 0 {
            assert(cs[c] == rest[c - 1]);
        }
    }
    assert forall|c: int, i: int| 0 <= i < adj.len() && #[trigger] holds(cs, c, i) implies !seen[i] by {
        if c > 0 {
            assert(holds(rest, c - 1, i));
            assert(!after[i]);
        } else {
            assert(after[i] && !seen[i]);
        }
    }
    assert forall|i: int| 0 <= i < adj.len() && !(#[trigger] seen[i]) implies exists|c: int|
        holds(cs, c, i) by {
        if after[i] {
            assert(order.contains(i as usize));
            assert(holds(cs, 0, i));
        } else {
            let c = choose|c: int| holds(rest, c, i);
            assert(holds(cs, c + 1, i));
        }
    }
    assert forall|c: int, e: int, i: int|
        #[trigger] holds(cs, c, i) && #[trigger] holds(cs, e, i) && 0 <= i < adj.len() implies c
        == e by {
        if c > 0 {
            assert(holds(rest, c - 1, i));
        }
        if e > 0 {
            assert(holds(rest, e - 1, i));
        }
        if c == 0 {
            assert(after[i] && !seen[i]);
        }
        if e == 0 {
            assert(after[i] && !seen[i]);
        }
    }
    assert forall|c: int, i: int, j: int|
        0 <= i < adj.len() && 0 <= j < adj.len() && #[trigger] holds(cs, c, i) && #[trigger] holds(
            cs,
            c,
            j,
        ) implies reaches(adj, i, j) by {
        if c > 0 {
            assert(holds(rest, c - 1, i) && holds(rest, c - 1, j));
        } else {
            let x = choose|x: int| 0 <= x < order.len() && order[x] == i as usize;
            let y = choose|y: int| 0 <= y < order.len() && order[y] == j as usize;
            let s = choose|s: int|
                0 <= s < stack.len() && reaches(adj, #[trigger] stack[s] as int, order[x] as int);
            let t = choose|t: int|
                0 <= t < stack.len() && reaches(adj, #[trigger] stack[t] as int, order[y] as int);
            assert(stack[s] == start && stack[t] == start);
            lemma_reaches_back(adj, start as int, i);
            lemma_reaches_trans(adj, i, start as int, j);
        }
    }
    assert forall|c: int, i: int, j: int|
        0 <= i < adj.len() && #[trigger] holds(cs, c, i) && #[trigger] steps_to(
            adj,
            i,
            j,
        ) implies holds(cs, c, j) by {
        if c > 0 {
            assert(holds(rest, c - 1, i));
            assert(holds(rest, c - 1, j));
        } else {
            let x = choose|x: int| 0 <= x < order.len() && order[x] == i as usize;
            let k = choose|k: int| 0 <= k < adj[i].len() && #[trigger] adj[i][k] == j;
            assert(adj[i][k] < adj.len());
            assert(after[adj[order[x] as int][k] as int]);
            if seen[j] {
                assert(steps_to(adj, j, i));
                let m = choose|m: int| 0 <= m < adj[j].len() && #[trigger] adj[j][m] == i;
                assert(seen[adj[j][m] as int]);
                assert(after[i] && !seen[i]);
            }
            assert(after[j] && !seen[j]);
            assert(order.contains(j as usize));
        }
    }
}

/// Neighbours are the positions that an edge links.
proof fn lemma_neighbours(edges: Seq<Edge>, eps: int, n: nat)
    requires
        edges_in_range(edges, n),
        n <= usize::MAX,
    ensures
        in_range(neighbours(edges, eps, n), n),
        forall|a: int, b: int|
            0 <= a < n && 0 <= b < n ==> (#[trigger] steps_to(neighbours(edges, eps, n), a, b)
                <==> linked(edges, eps, a, b)),
    decreases edges.len(),
{
    let g = neighbours(edges, eps, n);
    if edges.len() == 0 {
    } else {
        let es = edges.drop_last();
        assert forall|e: int| 0 <= e < es.len() implies (#[trigger] es[e]).0 < n && es[e].1 < n by {
            assert(es[e] == edges[e]);
        }
        lemma_neighbours(es, eps, n);
        let h = neighbours(es, eps, n);
        let (i, j, sim) = edges.last();
        assert(edges[edges.len() - 1] == edges.last());
        assert(i < n && j < n);
        let h1 = h.update(i as int, h[i as int].push(j));
        if sim > eps {
            assert(g == h1.update(j as int, h1[j as int].push(i)));
        }
        assert forall|a: int, k: int| 0 <= a < n && 0 <= k < g[a].len() implies #[trigger] g[a][k]
            < n by {
            if k < h[a].len() {
                assert(g[a][k] == h[a][k]);
            }
        }
        assert forall|a: int, b: int| 0 <= a < n && 0 <= b < n implies (#[trigger] steps_to(g, a, b)
            <==> linked(edges, eps, a, b)) by {
            if steps_to(g, a, b) {
                let k = choose|k: int| 0 <= k < g[a].len() && #[trigger] g[a][k] == b;
                if k < h[a].len() {
                    assert(h[a][k] == b);
                    assert(steps_to(h, a, b));
                    let e = choose|e: int|
                        0 <= e < es.len() && #[trigger] es[e].2 > eps && ((es[e].0 == a && es[e].1
                            == b) || (es[e].0 == b && es[e].1 == a));
                    assert(edges[e] == es[e]);
                    assert(edges[e].2 > eps);
                } else {
                    assert(edges[edges.len() - 1].2 > eps);
                }
            }
            if linked(edges, eps, a, b) {
                let e = choose|e: int|
                    0 <= e < edges.len() && #[trigger] edges[e].2 > eps && ((edges[e].0 == a
                        && edges[e].1 == b) || (edges[e].0 == b && edges[e].1 == a));
                if e < es.len() {
                    assert(es[e] == edges[e]);
                    assert(es[e].2 > eps);
                    assert(linked(es, eps, a, b));
                    assert(steps_to(h, a, b));
                    let k = choose|k: int| 0 <= k < h[a].len() && #[trigger] h[a][k] == b;
                    assert(g[a][k] == b);
                } else {
                    let li = h[i as int].len() as int;
                    let lj = h1[j as int].len() as int;
                    assert(g[j as int][lj] == i);
                    assert(g[i as int][li] == j);
                }
            }
        }
    }
}

proof fn lemma_split_components(edges: Seq<Edge>, eps: int, n: nat)
    requires
        edges_in_range(edges, n),
        n <= usize::MAX,
    ensures
        in_range(neighbours(edges, eps, n), n),
        symmetric(neighbours(edges, eps, n)),
        components_ok(
            neighbours(edges, eps, n),
            Seq::new(n, |i: int| false),
            components(edges, eps, n),
        ),
{
    lemma_neighbours(edges, eps, n);
    let g = neighbours(edges, eps, n);
    assert(symmetric(g)) by {
        assert forall|a: int, b: int|
            0 <= a < g.len() && 0 <= b < g.len() && steps_to(g, a, b) implies #[trigger] steps_to(
            g,
            b,
            a,
        ) by {
            assert(linked(edges, eps, a, b));
            let e = choose|e: int|
                0 <= e < edges.len() && #[trigger] edges[e].2 > eps && ((edges[e].0 == a
                    && edges[e].1 == b) || (edges[e].0 == b && edges[e].1 == a));
            assert(edges[e].2 > eps);
            assert(linked(edges, eps, b, a));
        }
    }
    lemma_components(g, Seq::new(n, |i: int| false), 0);
}

/// No component is empty, and its entries are positions.
pub proof fn lemma_component_entries(edges: Seq<Edge>, eps: int, n: nat)
    requires
        edges_in_range(edges, n),
        n <= usize::MAX,
    ensures
        forall|c: int|
            0 <= c < components(edges, eps, n).len() ==> (#[trigger] components(
                edges,
                eps,
                n,
            )[c]).len() > 0,
        forall|c: int, k: int|
            0 <= c < components(edges, eps, n).len() && 0 <= k < components(edges, eps, n)[c].len()
                ==> #[trigger] components(edges, eps, n)[c][k] < n,
{
    lemma_split_components(edges, eps, n);
    let cs = components(edges, eps, n);
    assert forall|c: int, k: int| 0 <= c < cs.len() && 0 <= k < cs[c].len() implies #[trigger]
    cs[c][k] < n by {
        assert(below(cs[c], n));
    }
}

/// Every position is in exactly one component, and once.
pub proof fn law_components_partition(edges: Seq<Edge>, eps: int, n: nat, i: int)
    requires
        edges_in_range(edges, n),
        0 <= i < n <= usize::MAX,
    ensures
        exists|c: int|
            0 <= c < components(edges, eps, n).len() && #[trigger] components(
                edges,
                eps,
                n,
            )[c].contains(i as usize),
        forall|c: int, e: int|
            0 <= c < components(edges, eps, n).len() && 0 <= e < components(edges, eps, n).len()
                && #[trigger] components(edges, eps, n)[c].contains(i as usize)
                && #[trigger] components(edges, eps, n)[e].contains(i as usize) ==> c == e,
        forall|c: int|
            0 <= c < components(edges, eps, n).len() ==> (#[trigger] components(
                edges,
                eps,
                n,
            )[c]).no_duplicates(),
{
    lemma_split_components(edges, eps, n);
    let cs = components(edges, eps, n);
    let seen = Seq::new(n, |i: int| false);
    assert(!seen[i]);
    let c = choose|c: int| holds(cs, c, i);
    assert(cs[c].contains(i as usize));
    assert forall|c: int, e: int|
        0 <= c < cs.len() && 0 <= e < cs.len() && #[trigger] cs[c].contains(i as usize)
            && #[trigger] cs[e].contains(i as usize) implies c == e by {
        assert(holds(cs, c, i) && holds(cs, e, i));
    }
}

/// Two positions are in the same component exactly where a path of edges above `eps` leads
/// from one to the other.
pub proof fn law_components_connected(edges: Seq<Edge>, eps: int, n: nat, i: int, j: int)
    requires
        edges_in_range(edges, n),
        0 <= i < n <= usize::MAX,
        0 <= j < n,
    ensures
        connected(edges, eps, i, j) <==> exists|c: int|
            0 <= c < components(edges, eps, n).len() && #[trigger] components(
                edges,
                eps,
                n,
            )[c].contains(i as usize) && components(edges, eps, n)[c].contains(j as usize),
{
    lemma_split_components(edges, eps, n);
    lemma_neighbours(edges, eps, n);
    let g = neighbours(edges, eps, n);
    let cs = components(edges, eps, n);
    let seen = Seq::new(n, |i: int| false);
    if connected(edges, eps, i, j) {
        let p = choose|p: Seq<int>|
            #[trigger] is_path(edges, eps, p) && p[0] == i && p.last() == j;
        assert(!seen[i]);
        let c = choose|c: int| holds(cs, c, i);
        assert forall|k: int| 0 <= k < p.len() implies 0 <= #[trigger] p[k] < n by {
            if k > 0 {
                assert(linked(edges, eps, p[k - 1], p[k - 1 + 1]));
            }
        }
        assert forall|k: int| 0 <= k < p.len() - 1 implies steps_to(
            g,
            #[trigger] p[k],
            p[k + 1],
        ) by {
            assert(linked(edges, eps, p[k], p[k + 1]));
            assert(0 <= p[k + 1] < n);
        }
        assert(adj_path(g, p));
        let set = Set::new(|x: int| holds(cs, c, x));
        lemma_closed_holds_path(g, set, p, p.len() - 1);
        assert(holds(cs, c, j));
        assert(cs[c].contains(i as usize) && cs[c].contains(j as usize));
    }
    if exists|c: int|
        0 <= c < cs.len() && #[trigger] cs[c].contains(i as usize) && cs[c].contains(j as usize) {
        let c = choose|c: int|
            0 <= c < cs.len() && #[trigger] cs[c].contains(i as usize) && cs[c].contains(
                j as usize,
            );
        assert(holds(cs, c, i) && holds(cs, c, j));
        assert(reaches(g, i, j));
        let p = choose|p: Seq<int>| #[trigger] adj_path(g, p) && p[0] == i && p.last() == j;
        assert forall|k: int| 0 <= k < p.len() - 1 implies linked(
            edges,
            eps,
            #[trigger] p[k],
            p[k + 1],
        ) by {
            assert(steps_to(g, p[k], p[k + 1]));
            assert(0 <= p[k + 1] < g.len());
        }
        assert(is_path(edges, eps, p));
    }
}

/// A warped shape has the concepts of the shape, each with its new vector and otherwise as it was,
/// and an edge between two of them exactly where their dot product is above three tenths: above
/// 2457.
pub proof fn law_warp_moves(
    shape: &Shape,
    vectors: &Vec<[i8; 64]>,
    r: Shape,
    i: usize,
    j: usize,
    d: i32,
)
    requires
        vectors@.len() == shape.nodes@.len(),
        call_ensures(warp, (shape, vectors), r),
        i < shape.nodes@.len(),
        j < shape.nodes@.len(),
        d == dot(vectors@[i as int]@, vectors@[j as int]@),
    ensures
        r.name@ == shape.name@ + "_warped"@,
        r@.nodes.len() == shape@.nodes.len(),
        r@.nodes[i as int].vector == vectors@[i as int]@,
        r@.nodes[i as int].id == shape@.nodes[i as int].id,
        r@.nodes[i as int].confidence == shape@.nodes[i as int].confidence,
        r@.nodes[i as int].connections == shape@.nodes[i as int].connections,
        r@.edges.contains((i, j, d)) <==> i < j && d > 2457,
{
    assert(r@.nodes.len() == shape.nodes.len());
    crate::ace::graph::law_edges(r@.nodes, SLIGHTLY_SIMILAR as int, i as int, j as int);
}

/// Whether a concept is a variant of another: it has a vector that is close to the other's, above
/// seven tenths or 5734, and four fifths of its confidence, and is not connected yet.
pub open spec fn varies(v: NodeView, n: NodeView, vector: Seq<i8>) -> bool {
    &&& dot(n.vector, vector) > 5734
    &&& v.vector == vector
    &&& 0 <= 4 * n.confidence - 5 * v.confidence < 5
    &&& v.connections.len() == 0
}

/// Whether a concept is one of the variants given for a concept.
pub open spec fn varies_one(v: NodeView, n: NodeView, vs: Seq<[i8; 64]>, m: int) -> bool {
    0 <= m < vs.len() && varies(v, n, vs[m]@)
}

proof fn lemma_variants(acc: Seq<NodeView>, n: NodeView, vs: Seq<[i8; 64]>, k: nat)
    requires
        k <= vs.len(),
    ensures
        acc.len() <= with_variants(acc, n, vs, k).len(),
        forall|i: int|
            0 <= i < acc.len() ==> #[trigger] with_variants(acc, n, vs, k)[i] == acc[i],
        forall|i: int|
            acc.len() <= i < with_variants(acc, n, vs, k).len() ==> variant_of(
                #[trigger] with_variants(acc, n, vs, k)[i],
                n,
                vs,
            ),
        forall|m: int|
            0 <= m < k && dot(n.vector, (#[trigger] vs[m])@) > 5734 ==> has_vector(
                with_variants(acc, n, vs, k),
                acc.len() as int,
                vs[m]@,
            ),
    decreases k,
{
    if k > 0 {
        let p = (k - 1) as nat;
        lemma_variants(acc, n, vs, p);
        let a = with_variants(acc, n, vs, p);
        let all = with_variants(acc, n, vs, k);
        let v = vs[k - 1]@;
        if dot(n.vector, v) > CLOSE_VARIANT {
            let x = variant(n, v, a.len());
            assert(all == a.push(x));
            assert(varies(x, n, v));
            assert(varies_one(x, n, vs, k - 1));
            assert(all[a.len() as int].vector == v);
            assert(has_vector(all, acc.len() as int, v));
        }
        assert forall|m: int| 0 <= m < k && dot(n.vector, (#[trigger] vs[m])@)
            > 5734 implies has_vector(all, acc.len() as int, vs[m]@) by {
            if m < p {
                assert(has_vector(a, acc.len() as int, vs[m]@));
                let i = choose|i: int|
                    acc.len() <= i < a.len() && (#[trigger] a[i]).vector == vs[m]@;
                assert(all[i].vector == vs[m]@);
            }
        }
        assert forall|i: int| acc.len() <= i < all.len() implies variant_of(
            #[trigger] all[i],
            n,
            vs,
        ) by {
            if i < a.len() {
                assert(all[i] == a[i]);
            }
        }
    }
}

/// Whether a concept is a variant of another with one of the vectors.
pub open spec fn variant_of(v: NodeView, n: NodeView, vs: Seq<[i8; 64]>) -> bool {
    exists|m: int| #[trigger] varies_one(v, n, vs, m)
}

/// Whether a concept from a place on has a vector.
pub open spec fn has_vector(s: Seq<NodeView>, from: int, vector: Seq<i8>) -> bool {
    exists|i: int| from <= i < s.len() && (#[trigger] s[i]).vector == vector
}

/// Whether a concept is a variant of one of the concepts.
pub open spec fn variant_among(v: NodeView, s: Seq<NodeView>, vs: Seq<Vec<[i8; 64]>>) -> bool {
    exists|i: int| 0 <= i < s.len() && #[trigger] variant_of(v, s[i], vs[i]@)
}

proof fn lemma_grown(nodes: Seq<NodeView>, vs: Seq<Vec<[i8; 64]>>, k: nat)
    requires
        k <= nodes.len() == vs.len(),
    ensures
        nodes.len() <= grown(nodes, vs, k).len(),
        forall|i: int|
            nodes.len() <= i < grown(nodes, vs, k).len() ==> variant_among(
                #[trigger] grown(nodes, vs, k)[i],
                nodes,
                vs,
            ),
        forall|i: int, m: int|
            0 <= i < k && 0 <= m < vs[i]@.len() && dot(nodes[i].vector, (#[trigger] vs[i]@[m])@)
                > 5734 ==> has_vector(grown(nodes, vs, k), nodes.len() as int, vs[i]@[m]@),
    decreases k,
{
    if k > 0 {
        let p = (k - 1) as nat;
        lemma_grown(nodes, vs, p);
        let a = grown(nodes, vs, p);
        let all = grown(nodes, vs, k);
        lemma_variants(a, nodes[k - 1], vs[k - 1]@, vs[k - 1]@.len());
        assert forall|i: int| nodes.len() <= i < all.len() implies variant_among(
            #[trigger] all[i],
            nodes,
            vs,
        ) by {
            if i < a.len() {
                assert(all[i] == a[i]);
            } else {
                assert(variant_of(all[i], nodes[k - 1], vs[k - 1]@));
            }
        }
        assert forall|i: int, m: int|
            0 <= i < k && 0 <= m < vs[i]@.len() && dot(nodes[i].vector, (#[trigger] vs[i]@[m])@)
                > 5734 implies has_vector(all, nodes.len() as int, vs[i]@[m]@) by {
            let v = vs[i]@[m]@;
            if i < p {
                assert(has_vector(a, nodes.len() as int, v));
                let x = choose|x: int|
                    nodes.len() <= x < a.len() && (#[trigger] a[x]).vector == v;
                assert(all[x] == a[x]);
                assert(all[x].vector == v);
            } else {
                assert(has_vector(all, a.len() as int, v));
                let x = choose|x: int| a.len() <= x < all.len() && (#[trigger] all[x]).vector == v;
                assert(all[x].vector == v);
            }
        }
    }
}

/// An expanded shape has the concepts of the shape first, and behind them a variant for each given
/// vector that is close to its concept, and nothing else.
pub proof fn law_expand_adds_variants(
    shape: &Shape,
    variants: &Vec<Vec<[i8; 64]>>,
    r: Shape,
    k: int,
    i: int,
    m: int,
)
    requires
        variants@.len() == shape.nodes@.len(),
        call_ensures(expand, (shape, variants), r),
        shape.nodes@.len() <= k < r@.nodes.len(),
        0 <= i < shape.nodes@.len(),
        0 <= m < variants@[i]@.len(),
    ensures
        r.name@ == shape.name@ + "_expanded"@,
        r@.nodes.take(shape@.nodes.len() as int) == shape@.nodes,
        variant_among(r@.nodes[k], shape@.nodes, variants@),
        dot(shape@.nodes[i].vector, variants@[i]@[m]@) > 5734 ==> has_vector(
            r@.nodes,
            shape@.nodes.len() as int,
            variants@[i]@[m]@,
        ),
{
    let n = shape@.nodes.len();
    assert(n == shape.nodes@.len());
    law_expand_keeps(shape@.nodes, variants@, n);
    lemma_grown(shape@.nodes, variants@, n);
}

/// A compressed shape keeps as many concepts as asked for, at least one and at most all, the most
/// confident first, and none that is left out is more confident than one that stays.
pub proof fn law_compress_keeps_most_confident(shape: &Shape, keep: usize, r: Shape, i: int)
    requires
        call_ensures(compress, (shape, Some(keep)), r),
        0 <= i < shape@.nodes.len(),
    ensures
        r.name@ == shape.name@ + "_compressed"@,
        r@.nodes.len() <= shape@.nodes.len(),
        keep >= 1 && keep <= shape@.nodes.len() ==> r@.nodes.len() == keep,
        keep == 0 ==> r@.nodes.len() == 1,
        keep > shape@.nodes.len() ==> r@.nodes.len() == shape@.nodes.len(),
        forall|a: int| 0 <= a < r@.nodes.len() ==> shape@.nodes.contains(#[trigger] r@.nodes[a]),
        forall|a: int, b: int|
            0 <= a < b < r@.nodes.len() ==> (#[trigger] r@.nodes[a]).confidence >= (
            #[trigger] r@.nodes[b]).confidence,
        r@.nodes.contains(shape@.nodes[i]) || forall|a: int|
            0 <= a < r@.nodes.len() ==> (#[trigger] r@.nodes[a]).confidence
                >= shape@.nodes[i].confidence,
{
    let nodes = shape@.nodes;
    let p = choose|p: Seq<usize>|
        {
            &&& #[trigger] ranked(confidences(nodes), p)
            &&& r@ == shape_of(
                shape@.name + "_compressed"@,
                picked(nodes, p.take(kept_count(keep as nat, nodes.len()) as int)),
                HALF_SIMILAR as int,
            )
        };
    let k = kept_count(keep as nat, nodes.len()) as int;
    let at = p.take(k);
    assert(r@.nodes == picked(nodes, at));
    assert forall|a: int| 0 <= a < r@.nodes.len() implies shape@.nodes.contains(
        #[trigger] r@.nodes[a],
    ) by {
        assert(r@.nodes[a] == nodes[p[a] as int]);
        assert(p[a] < nodes.len());
    }
    assert forall|a: int, b: int| 0 <= a < b < r@.nodes.len() implies (
    #[trigger] r@.nodes[a]).confidence >= (#[trigger] r@.nodes[b]).confidence by {
        assert(r@.nodes[a] == nodes[p[a] as int] && r@.nodes[b] == nodes[p[b] as int]);
        law_compress_keeps_best(nodes, p, a + 1, a, b);
    }
    crate::sorting::lemma_ranked_holds_all(confidences(nodes), p, i);
    let x = choose|x: int| 0 <= x < p.len() && #[trigger] p[x] == i;
    if x < k {
        assert(r@.nodes[x] == nodes[i]);
    } else {
        assert forall|a: int| 0 <= a < r@.nodes.len() implies (#[trigger] r@.nodes[a]).confidence
            >= nodes[i].confidence by {
            assert(r@.nodes[a] == nodes[p[a] as int]);
            law_compress_keeps_best(nodes, p, k, a, x);
        }
    }
}

/// A split puts every concept of a shape into one of the parts, and nothing else into any; the
/// parts bear the shape's name with their number, and two concepts that a path of edges above
/// `eps` joins are in the same part.
pub proof fn law_split_holds_all(shape: &Shape, eps: i32, r: Vec<Shape>, i: int, j: int) -> (at: (
    int,
    int,
    int,
))
    requires
        shape@.wf(),
        call_ensures(split, (shape, eps), r),
        0 <= i < shape@.nodes.len(),
        0 <= j < shape@.nodes.len(),
        connected(shape@.edges, eps as int, i, j),
    ensures
        0 <= at.0 < r@.len(),
        0 <= at.1 < r@[at.0]@.nodes.len(),
        0 <= at.2 < r@[at.0]@.nodes.len(),
        r@[at.0]@.nodes[at.1] == shape@.nodes[i],
        r@[at.0]@.nodes[at.2] == shape@.nodes[j],
        r@[at.0].name@ == shape.name@ + "_split"@ + decimal(at.0 as nat),
        forall|c: int, k: int|
            0 <= c < r@.len() && 0 <= k < r@[c]@.nodes.len() ==> shape@.nodes.contains(
                #[trigger] r@[c]@.nodes[k],
            ),
{
    let n = shape@.nodes.len();
    let cs = components(shape@.edges, eps as int, n);
    assert(n == shape.nodes.len());
    assert(edges_in_range(shape@.edges, n));
    law_components_connected(shape@.edges, eps as int, n, i, j);
    let c = choose|c: int|
        0 <= c < cs.len() && #[trigger] cs[c].contains(i as usize) && cs[c].contains(j as usize);
    let a = choose|a: int| 0 <= a < cs[c].len() && cs[c][a] == i as usize;
    let b = choose|b: int| 0 <= b < cs[c].len() && cs[c][b] == j as usize;
    let views = shape_views(r@);
    assert(views.len() == r@.len());
    assert(views[c] == r@[c]@);
    assert(r@[c]@ == part(shape@, cs[c], c));
    assert forall|d: int, k: int| 0 <= d < r@.len() && 0 <= k < r@[d]@.nodes.len() implies
        shape@.nodes.contains(#[trigger] r@[d]@.nodes[k]) by {
        assert(views[d] == r@[d]@);
        assert(r@[d]@ == part(shape@, cs[d], d));
        assert(r@[d]@.nodes[k] == shape@.nodes[cs[d][k] as int]);
        lemma_component_entries(shape@.edges, eps as int, n);
    }
    (c, a, b)
}

} // verus!
