//! Concepts, shapes and the belief graph.
//!
//! A concept has a vector of 64 signed bytes. The similarity of two concepts is the dot
//! product of their vectors over 8192; here it is kept as the dot product, and so are the
//! thresholds on it.

use vstd::prelude::*;

use crate::sorting::rank;
use crate::sorting::ranked;

verus! {

/// The threshold of a new shape: a similarity of 0.5.
pub const HALF_SIMILAR: i32 = 4096;

/// The threshold of a deformed shape: the dot products above 0.3 in similarity are those
/// above this one.
pub const SLIGHTLY_SIMILAR: i32 = 2457;

/// How two concepts are related.
#[derive(Clone, Copy, Debug, PartialEq, Eq, Hash, Structural)]
pub enum RelationType {
    IsA,
    PartOf,
    Causes,
    Similar,
    Contradicts,
    Property,
    Instance,
    Evidence,
}

impl RelationType {
    pub open spec fn spec_name(self) -> Seq<char> {
        match self {
            RelationType::IsA => "is_a"@,
            RelationType::PartOf => "part_of"@,
            RelationType::Causes => "causes"@,
            RelationType::Similar => "similar"@,
            RelationType::Contradicts => "contradicts"@,
            RelationType::Property => "property"@,
            RelationType::Instance => "instance"@,
            RelationType::Evidence => "evidence"@,
        }
    }

    /// The name of the relation.
    pub fn name(&self) -> (s: &'static str)
        ensures
            s@ == self.spec_name(),
    {
        match self {
            RelationType::IsA => "is_a",
            RelationType::PartOf => "part_of",
            RelationType::Causes => "causes",
            RelationType::Similar => "similar",
            RelationType::Contradicts => "contradicts",
            RelationType::Property => "property",
            RelationType::Instance => "instance",
            RelationType::Evidence => "evidence",
        }
    }
}

/// A connection to another concept, with a single-precision pattern as its weight.
#[derive(Clone, Copy, Debug, PartialEq, Eq, Structural)]
pub struct Connection {
    pub target: u32,
    pub rel: RelationType,
    pub weight: u32,
}

/// A concept.
#[derive(Debug)]
pub struct ConceptNode {
    pub id: u32,
    pub vector: [i8; 64],
    pub confidence: u16,
    pub connections: Vec<Connection>,
}

/// What a concept holds.
pub struct NodeView {
    pub id: u32,
    pub vector: Seq<i8>,
    pub confidence: u16,
    pub connections: Seq<Connection>,
}

/// Dot product of the first `n` entries.
pub open spec fn dot_upto(a: Seq<i8>, b: Seq<i8>, n: nat) -> int
    decreases n,
{
    if n == 0 {
        0
    } else {
        dot_upto(a, b, (n - 1) as nat) + a[n - 1] * b[n - 1]
    }
}

/// Dot product of two vectors.
pub open spec fn dot(a: Seq<i8>, b: Seq<i8>) -> int {
    dot_upto(a, b, 64)
}

/// The order of the operands of a dot product does not matter.
pub proof fn law_dot_symmetric(a: Seq<i8>, b: Seq<i8>)
    ensures
        dot(a, b) == dot(b, a),
{
    lemma_dot_symmetric(a, b, 64);
}

proof fn lemma_dot_symmetric(a: Seq<i8>, b: Seq<i8>, n: nat)
    ensures
        dot_upto(a, b, n) == dot_upto(b, a, n),
    decreases n,
{
    if n > 0 {
        lemma_dot_symmetric(a, b, (n - 1) as nat);
        let x = a[n - 1] as int;
        let y = b[n - 1] as int;
        assert(x * y == y * x) by (nonlinear_arith);
    }
}

proof fn lemma_dot_bounds(a: Seq<i8>, b: Seq<i8>, n: nat)
    ensures
        -16384 * n <= dot_upto(a, b, n) <= 16384 * n,
    decreases n,
{
    if n > 0 {
        lemma_dot_bounds(a, b, (n - 1) as nat);
        let x = a[n - 1];
        let y = b[n - 1];
        assert(-16384 <= x * y <= 16384) by (nonlinear_arith)
            requires
                -128 <= x <= 127,
                -128 <= y <= 127,
        ;
    }
}

impl View for ConceptNode {
    type V = NodeView;

    open spec fn view(&self) -> NodeView {
        NodeView {
            id: self.id,
            vector: self.vector@,
            confidence: self.confidence,
            connections: self.connections@,
        }
    }
}

/// Whether connection `i` is the first of a kind to a target.
pub open spec fn first_connection(
    s: Seq<Connection>,
    target: u32,
    rel: RelationType,
    i: int,
) -> bool {
    &&& 0 <= i < s.len()
    &&& s[i].target == target && s[i].rel == rel
    &&& forall|k: int|
        0 <= k < i ==> !((#[trigger] s[k]).target == target && s[k].rel == rel)
}

pub open spec fn unconnected(s: Seq<Connection>, target: u32, rel: RelationType) -> bool {
    forall|k: int|
        0 <= k < s.len() ==> !((#[trigger] s[k]).target == target && s[k].rel == rel)
}

/// The connections that do not lead to `id`, in order.
pub open spec fn connections_without(s: Seq<Connection>, id: u32) -> Seq<Connection>
    decreases s.len(),
{
    if s.len() == 0 {
        Seq::empty()
    } else if s.last().target == id {
        connections_without(s.drop_last(), id)
    } else {
        connections_without(s.drop_last(), id).push(s.last())
    }
}

fn copy_connections(v: &Vec<Connection>) -> (r: Vec<Connection>)
    ensures
        r@ == v@,
{
    let mut out: Vec<Connection> = Vec::new();
    let mut i: usize = 0;
    while i < v.len()
        invariant
            i <= v@.len(),
            out@ =~= v@.take(i as int),
        decreases v@.len() - i,
    {
        out.push(v[i]);
        i += 1;
    }
    assert(v@.take(i as int) =~= v@);
    out
}

impl ConceptNode {
    /// A concept without connections, of middling confidence.
    pub fn new(id: u32, vector: [i8; 64]) -> (r: ConceptNode)
        ensures
            r@ == (NodeView {
                id,
                vector: vector@,
                confidence: 0x7FFF,
                connections: Seq::empty(),
            }),
    {
        ConceptNode { id, vector, confidence: 0x7FFF, connections: Vec::new() }
    }

    /// The same concept once more.
    pub fn copy(&self) -> (r: ConceptNode)
        ensures
            r@ == self@,
    {
        ConceptNode {
            id: self.id,
            vector: self.vector,
            confidence: self.confidence,
            connections: copy_connections(&self.connections),
        }
    }

    /// Dot product with a vector.
    pub fn dot(&self, other: &[i8; 64]) -> (r: i32)
        ensures
            r == dot(self.vector@, other@),
            -0x10_0000 <= r <= 0x10_0000,
    {
        let mut sum: i32 = 0;
        let mut j: usize = 0;
        while j < 64
            invariant
                j <= 64,
                sum == dot_upto(self.vector@, other@, j as nat),
                -16384 * j <= sum <= 16384 * j,
            decreases 64 - j,
        {
            let x: i8 = self.vector[j];
            let y: i8 = other[j];
            assert(-16384 <= x * y <= 16384) by (nonlinear_arith)
                requires
                    -128 <= x <= 127,
                    -128 <= y <= 127,
            ;
            sum = sum + x as i32 * y as i32;
            j += 1;
        }
        sum
    }

    fn connection_index(&self, target: u32, rel: RelationType) -> (r: Option<usize>)
        ensures
            match r {
                Some(i) => first_connection(self.connections@, target, rel, i as int),
                None => unconnected(self.connections@, target, rel),
            },
    {
        let mut i: usize = 0;
        while i < self.connections.len()
            invariant
                i <= self.connections@.len(),
                forall|k: int|
                    0 <= k < i ==> !((#[trigger] self.connections@[k]).target == target
                        && self.connections@[k].rel == rel),
            decreases self.connections@.len() - i,
        {
            if self.connections[i].target == target && self.connections[i].rel == rel {
                return Some(i);
            }
            i += 1;
        }
        None
    }

    /// Whether there is a connection of a kind to a target.
    pub fn has_connection(&self, target: u32, rel: RelationType) -> (r: bool)
        ensures
            r == !unconnected(self.connections@, target, rel),
    {
        match self.connection_index(target, rel) {
            Some(i) => {
                let ghost _ = self.connections@[i as int].target;
                true
            },
            None => false,
        }
    }

    /// Sets the weight of a connection, which is made where there is none. A weight for a
    /// connection that is there is the blend of the old and the new one.
    pub fn add_connection(&mut self, target: u32, rel: RelationType, weight: u32)
        ensures
            final(self).id == old(self).id,
            final(self).vector == old(self).vector,
            final(self).confidence == old(self).confidence,
            ({
                ||| exists|i: int| #[trigger]
                    first_connection(old(self).connections@, target, rel, i)
                        && final(self).connections@
                        == old(self).connections@.update(i, Connection { target, rel, weight })
                ||| unconnected(old(self).connections@, target, rel) && final(self).connections@
                    == old(self).connections@.push(Connection { target, rel, weight })
            }),
    {
        match self.connection_index(target, rel) {
            Some(i) => {
                self.connections.set(i, Connection { target, rel, weight });
                assert(first_connection(old(self).connections@, target, rel, i as int));
            },
            None => {
                self.connections.push(Connection { target, rel, weight });
            },
        }
    }

    /// The weight of a connection; zero where there is none.
    pub fn connection_weight(&self, target: u32, rel: RelationType) -> (r: u32)
        ensures
            ({
                ||| exists|i: int| #[trigger]
                    first_connection(self.connections@, target, rel, i) && r
                        == self.connections@[i].weight
                ||| unconnected(self.connections@, target, rel) && r == 0
            }),
    {
        match self.connection_index(target, rel) {
            Some(i) => self.connections[i].weight,
            None => 0,
        }
    }

    /// Drops the connections to a target.
    fn disconnect(&mut self, id: u32)
        ensures
            final(self)@ == (NodeView {
                connections: connections_without(old(self)@.connections, id),
                ..old(self)@
            }),
    {
        let mut out: Vec<Connection> = Vec::new();
        let mut i: usize = 0;
        let ghost s = self.connections@;
        assert(s.take(0) =~= Seq::<Connection>::empty());
        while i < self.connections.len()
            invariant
                *self == *old(self),
                s == self.connections@,
                i <= s.len(),
                out@ == connections_without(s.take(i as int), id),
            decreases s.len() - i,
        {
            proof {
                assert(s.take(i + 1).drop_last() =~= s.take(i as int));
                assert(s.take(i + 1).last() == s[i as int]);
            }
            if self.connections[i].target != id {
                out.push(self.connections[i]);
            }
            i += 1;
        }
        assert(s.take(i as int) =~= s);
        self.connections = out;
    }
}

/// The views of concepts.
pub open spec fn node_views(s: Seq<ConceptNode>) -> Seq<NodeView> {
    s.map_values(|n: ConceptNode| n@)
}

/// An edge: two positions and the dot product of the concepts there.
pub type Edge = (usize, usize, i32);

/// The edges from position `i` to the positions after it and before `end`.
pub open spec fn row_edges(nodes: Seq<NodeView>, threshold: int, i: int, end: int) -> Seq<Edge>
    decreases end - i,
{
    if end <= i + 1 {
        Seq::empty()
    } else {
        let rest = row_edges(nodes, threshold, i, end - 1);
        let d = dot(nodes[i].vector, nodes[end - 1].vector);
        if d > threshold {
            rest.push((i as usize, (end - 1) as usize, d as i32))
        } else {
            rest
        }
    }
}

/// The edges from the first `n` positions.
pub open spec fn edges_upto(nodes: Seq<NodeView>, threshold: int, n: int) -> Seq<Edge>
    decreases n,
{
    if n <= 0 {
        Seq::empty()
    } else {
        edges_upto(nodes, threshold, n - 1) + row_edges(
            nodes,
            threshold,
            n - 1,
            nodes.len() as int,
        )
    }
}

/// All edges above a threshold, by first and then by second position.
pub open spec fn edges_of(nodes: Seq<NodeView>, threshold: int) -> Seq<Edge> {
    edges_upto(nodes, threshold, nodes.len() as int)
}

/// A set of concepts with its edges.
#[derive(Debug)]
pub struct Shape {
    pub name: String,
    pub nodes: Vec<ConceptNode>,
    pub edges: Vec<Edge>,
}

/// What a shape holds.
pub struct ShapeView {
    pub name: Seq<char>,
    pub nodes: Seq<NodeView>,
    pub edges: Seq<Edge>,
}

impl View for Shape {
    type V = ShapeView;

    open spec fn view(&self) -> ShapeView {
        ShapeView { name: self.name@, nodes: node_views(self.nodes@), edges: self.edges@ }
    }
}

impl ShapeView {
    /// Edges join positions of concepts, and carry what can be a dot product.
    pub open spec fn wf(self) -> bool {
        forall|e: int|
            0 <= e < self.edges.len() ==> (#[trigger] self.edges[e]).0 < self.nodes.len()
                && self.edges[e].1 < self.nodes.len() && -0x10_0000 <= self.edges[e].2
                <= 0x10_0000
    }
}

/// A shape of concepts with the edges above a threshold.
pub open spec fn shape_of(name: Seq<char>, nodes: Seq<NodeView>, threshold: int) -> ShapeView {
    ShapeView { name, nodes, edges: edges_of(nodes, threshold) }
}

/// The same concepts once more.
pub fn copy_nodes(v: &Vec<ConceptNode>) -> (r: Vec<ConceptNode>)
    ensures
        node_views(r@) == node_views(v@),
{
    let mut out: Vec<ConceptNode> = Vec::new();
    let mut i: usize = 0;
    while i < v.len()
        invariant
            i <= v@.len(),
            node_views(out@) =~= node_views(v@).take(i as int),
        decreases v@.len() - i,
    {
        let ghost before = out@;
        let n = v[i].copy();
        out.push(n);
        assert(node_views(out@) =~= node_views(before).push(n@));
        i += 1;
    }
    assert(node_views(v@).take(i as int) =~= node_views(v@));
    out
}

fn copy_edges(v: &Vec<Edge>) -> (r: Vec<Edge>)
    ensures
        r@ == v@,
{
    let mut out: Vec<Edge> = Vec::new();
    let mut i: usize = 0;
    while i < v.len()
        invariant
            i <= v@.len(),
            out@ =~= v@.take(i as int),
        decreases v@.len() - i,
    {
        out.push((v[i].0, v[i].1, v[i].2));
        i += 1;
    }
    assert(v@.take(i as int) =~= v@);
    out
}

impl Shape {
    /// A shape with the edges above a similarity of one half.
    pub fn new(name: &str, nodes: Vec<ConceptNode>) -> (r: Shape)
        ensures
            r@ == shape_of(name@, node_views(nodes@), HALF_SIMILAR as int),
            r@.wf(),
    {
        let _len: usize = nodes.len();
        let edges = Shape::compute_edges(&nodes, HALF_SIMILAR);
        proof {
            lemma_shape_wf(name@, node_views(nodes@), HALF_SIMILAR as int);
        }
        Shape { name: name.to_owned(), nodes, edges }
    }

    /// A shape without concepts.
    pub fn empty(name: &str) -> (r: Shape)
        ensures
            r@.name == name@,
            r@.nodes == Seq::<NodeView>::empty(),
            r@.edges == Seq::<Edge>::empty(),
            r@.wf(),
    {
        let r = Shape { name: name.to_owned(), nodes: Vec::new(), edges: Vec::new() };
        assert(r@.nodes =~= Seq::<NodeView>::empty());
        r
    }

    /// The same shape once more.
    pub fn copy(&self) -> (r: Shape)
        ensures
            r@ == self@,
    {
        Shape {
            name: self.name.clone(),
            nodes: copy_nodes(&self.nodes),
            edges: copy_edges(&self.edges),
        }
    }

    pub fn len(&self) -> (n: usize)
        ensures
            n == self@.nodes.len(),
    {
        self.nodes.len()
    }

    /// Whether the edges join positions of concepts, and carry what can be a dot product.
    pub fn is_sound(&self) -> (r: bool)
        ensures
            r == self@.wf(),
    {
        let n = self.nodes.len();
        let mut e: usize = 0;
        while e < self.edges.len()
            invariant
                n == self.nodes@.len(),
                e <= self.edges@.len(),
                forall|k: int|
                    0 <= k < e ==> (#[trigger] self.edges@[k]).0 < n && self.edges@[k].1 < n
                        && -0x10_0000 <= self.edges@[k].2 <= 0x10_0000,
            decreases self.edges@.len() - e,
        {
            let (a, b, d) = self.edges[e];
            if a >= n || b >= n || d < -0x10_0000 || d > 0x10_0000 {
                assert(self@.edges[e as int] == (a, b, d));
                return false;
            }
            e += 1;
        }
        assert(self@.wf()) by {
            assert forall|k: int| 0 <= k < self@.edges.len() implies (#[trigger] self@.edges[k]).0
                < self@.nodes.len() && self@.edges[k].1 < self@.nodes.len() && -0x10_0000
                <= self@.edges[k].2 <= 0x10_0000 by {
                assert(self.edges@[k].0 < n);
            }
        }
        true
    }

    pub fn is_empty(&self) -> (r: bool)
        ensures
            r == (self@.nodes.len() == 0),
    {
        self.nodes.len() == 0
    }

    /// The edges above a threshold.
    pub fn compute_edges(nodes: &Vec<ConceptNode>, threshold: i32) -> (r: Vec<Edge>)
        ensures
            r@ == edges_of(node_views(nodes@), threshold as int),
    {
        let ghost vs = node_views(nodes@);
        let n = nodes.len();
        let mut out: Vec<Edge> = Vec::new();
        let mut i: usize = 0;
        while i < n
            invariant
                n == nodes@.len(),
                vs == node_views(nodes@),
                i <= n,
                out@ == edges_upto(vs, threshold as int, i as int),
            decreases n - i,
        {
            let ghost before = out@;
            let mut j: usize = i + 1;
            assert(out@ =~= before + row_edges(vs, threshold as int, i as int, j as int));
            while j < n
                invariant
                    n == nodes@.len(),
                    vs == node_views(nodes@),
                    i < j <= n,
                    out@ == before + row_edges(vs, threshold as int, i as int, j as int),
                decreases n - j,
            {
                let d = nodes[i].dot(&nodes[j].vector);
                assert(vs[i as int] == nodes@[i as int]@ && vs[j as int] == nodes@[j as int]@);
                if d > threshold {
                    out.push((i, j, d));
                }
                assert(out@ =~= before + row_edges(vs, threshold as int, i as int, j + 1));
                j += 1;
            }
            i += 1;
        }
        out
    }

    /// Takes the edges above a threshold anew.
    pub fn rebuild_edges(&mut self, threshold: i32)
        ensures
            final(self)@ == (ShapeView {
                edges: edges_of(old(self)@.nodes, threshold as int),
                ..old(self)@
            }),
            final(self)@.wf(),
    {
        let _len: usize = self.nodes.len();
        self.edges = Shape::compute_edges(&self.nodes, threshold);
        proof {
            lemma_shape_wf(self@.name, self@.nodes, threshold as int);
        }
    }

    /// The identifiers of the concepts, in order.
    pub fn node_ids(&self) -> (r: Vec<u32>)
        ensures
            r@ == self@.nodes.map_values(|n: NodeView| n.id),
    {
        let mut out: Vec<u32> = Vec::new();
        let mut i: usize = 0;
        while i < self.nodes.len()
            invariant
                i <= self.nodes@.len(),
                out@ =~= self@.nodes.map_values(|n: NodeView| n.id).take(i as int),
            decreases self.nodes@.len() - i,
        {
            out.push(self.nodes[i].id);
            i += 1;
        }
        assert(self@.nodes.map_values(|n: NodeView| n.id).take(i as int)
            =~= self@.nodes.map_values(|n: NodeView| n.id));
        out
    }
}

/// Every edge of a shape joins an earlier with a later position, carries the dot product
/// of the two concepts, and is above the threshold; and every such pair has its edge.
pub proof fn law_edges(nodes: Seq<NodeView>, threshold: int, i: int, j: int)
    requires
        0 <= i < nodes.len(),
        0 <= j < nodes.len(),
        nodes.len() <= usize::MAX,
    ensures
        edges_of(nodes, threshold).contains(
            (i as usize, j as usize, dot(nodes[i].vector, nodes[j].vector) as i32),
        ) <==> i < j && dot(nodes[i].vector, nodes[j].vector) > threshold,
        shape_of(Seq::empty(), nodes, threshold).wf(),
{
    lemma_edges_upto(nodes, threshold, nodes.len() as int);
    let e = (i as usize, j as usize, dot(nodes[i].vector, nodes[j].vector) as i32);
    let es = edges_of(nodes, threshold);
    if es.contains(e) {
        let k = choose|k: int| 0 <= k < es.len() && es[k] == e;
        assert(edge_holds(nodes, threshold, es[k]));
    }
    if i < j && dot(nodes[i].vector, nodes[j].vector) > threshold {
        lemma_edge_there(nodes, threshold, nodes.len() as int, i, j);
    }
    lemma_shape_wf(Seq::empty(), nodes, threshold);
}

/// The edges of a shape join its concepts.
pub proof fn lemma_shape_wf(name: Seq<char>, nodes: Seq<NodeView>, threshold: int)
    requires
        nodes.len() <= usize::MAX,
    ensures
        shape_of(name, nodes, threshold).wf(),
{
    lemma_edges_upto(nodes, threshold, nodes.len() as int);
    let es = edges_of(nodes, threshold);
    let sh = shape_of(name, nodes, threshold);
    assert forall|k: int| 0 <= k < sh.edges.len() implies (#[trigger] sh.edges[k]).0
        < sh.nodes.len() && sh.edges[k].1 < sh.nodes.len() && -0x10_0000 <= sh.edges[k].2
        <= 0x10_0000 by {
        assert(edge_holds(nodes, threshold, es[k]));
        lemma_dot_bounds(nodes[es[k].0 as int].vector, nodes[es[k].1 as int].vector, 64);
    }
}

/// That an edge is one of the shape's.
pub open spec fn edge_holds(nodes: Seq<NodeView>, threshold: int, e: Edge) -> bool {
    &&& e.0 < e.1 < nodes.len()
    &&& e.2 == dot(nodes[e.0 as int].vector, nodes[e.1 as int].vector)
    &&& e.2 > threshold
}

proof fn lemma_row_edges(nodes: Seq<NodeView>, threshold: int, i: int, end: int)
    requires
        0 <= i,
        end <= nodes.len() <= usize::MAX,
    ensures
        forall|k: int|
            0 <= k < row_edges(nodes, threshold, i, end).len() ==> edge_holds(
                nodes,
                threshold,
                #[trigger] row_edges(nodes, threshold, i, end)[k],
            ),
    decreases end - i,
{
    if end > i + 1 {
        lemma_row_edges(nodes, threshold, i, end - 1);
        lemma_dot_bounds(nodes[i].vector, nodes[end - 1].vector, 64);
        let rest = row_edges(nodes, threshold, i, end - 1);
        let all = row_edges(nodes, threshold, i, end);
        assert forall|k: int| 0 <= k < all.len() implies edge_holds(
            nodes,
            threshold,
            #[trigger] all[k],
        ) by {
            if k < rest.len() {
                assert(all[k] == rest[k]);
            }
        }
    }
}

proof fn lemma_edges_upto(nodes: Seq<NodeView>, threshold: int, n: int)
    requires
        n <= nodes.len() <= usize::MAX,
    ensures
        forall|k: int|
            0 <= k < edges_upto(nodes, threshold, n).len() ==> edge_holds(
                nodes,
                threshold,
                #[trigger] edges_upto(nodes, threshold, n)[k],
            ),
    decreases n,
{
    if n > 0 {
        lemma_edges_upto(nodes, threshold, n - 1);
        lemma_row_edges(nodes, threshold, n - 1, nodes.len() as int);
        let a = edges_upto(nodes, threshold, n - 1);
        let b = row_edges(nodes, threshold, n - 1, nodes.len() as int);
        assert forall|k: int| 0 <= k < (a + b).len() implies edge_holds(
            nodes,
            threshold,
            #[trigger] (a + b)[k],
        ) by {
            if k < a.len() {
                assert((a + b)[k] == a[k]);
            } else {
                assert((a + b)[k] == b[k - a.len()]);
            }
        }
    }
}

proof fn lemma_row_edge_there(nodes: Seq<NodeView>, threshold: int, i: int, end: int, j: int)
    requires
        0 <= i < j < end <= nodes.len() <= usize::MAX,
        dot(nodes[i].vector, nodes[j].vector) > threshold,
    ensures
        row_edges(nodes, threshold, i, end).contains(
            (i as usize, j as usize, dot(nodes[i].vector, nodes[j].vector) as i32),
        ),
    decreases end - i,
{
    let e = (i as usize, j as usize, dot(nodes[i].vector, nodes[j].vector) as i32);
    let s = row_edges(nodes, threshold, i, end);
    let rest = row_edges(nodes, threshold, i, end - 1);
    if j == end - 1 {
        assert(s.last() == e);
    } else {
        lemma_row_edge_there(nodes, threshold, i, end - 1, j);
        let k = choose|k: int| 0 <= k < rest.len() && rest[k] == e;
        assert(s[k] == e);
    }
}

proof fn lemma_edge_there(nodes: Seq<NodeView>, threshold: int, n: int, i: int, j: int)
    requires
        0 <= i < n <= nodes.len() <= usize::MAX,
        i < j < nodes.len(),
        dot(nodes[i].vector, nodes[j].vector) > threshold,
    ensures
        edges_upto(nodes, threshold, n).contains(
            (i as usize, j as usize, dot(nodes[i].vector, nodes[j].vector) as i32),
        ),
    decreases n,
{
    let e = (i as usize, j as usize, dot(nodes[i].vector, nodes[j].vector) as i32);
    let a = edges_upto(nodes, threshold, n - 1);
    let b = row_edges(nodes, threshold, n - 1, nodes.len() as int);
    if i == n - 1 {
        lemma_row_edge_there(nodes, threshold, i, nodes.len() as int, j);
        let k = choose|k: int| 0 <= k < b.len() && b[k] == e;
        assert((a + b)[a.len() + k] == e);
    } else {
        lemma_edge_there(nodes, threshold, n - 1, i, j);
        let k = choose|k: int| 0 <= k < a.len() && a[k] == e;
        assert((a + b)[k] == e);
    }
}

/// The belief graph: concepts by identifier, kept in the order of the identifiers, and the
/// shape that they form.
pub struct GraphState {
    pub nodes: Vec<ConceptNode>,
    pub next_id: u32,
    pub shape: Shape,
}

/// Identifiers grow, and none has been given out that is not below the next one.
pub open spec fn ids_grow(s: Seq<NodeView>, next_id: u32) -> bool {
    &&& forall|i: int, j: int| 0 <= i < j < s.len() ==> (#[trigger] s[i]).id < (#[trigger] s[j]).id
    &&& forall|i: int| 0 <= i < s.len() ==> (#[trigger] s[i]).id < next_id
}

/// The concepts without `id`, in order, with their connections to it dropped.
pub open spec fn nodes_without(s: Seq<NodeView>, id: u32) -> Seq<NodeView>
    decreases s.len(),
{
    if s.len() == 0 {
        Seq::empty()
    } else {
        let rest = nodes_without(s.drop_last(), id);
        if s.last().id == id {
            rest
        } else {
            rest.push(
                NodeView {
                    connections: connections_without(s.last().connections, id),
                    ..s.last()
                },
            )
        }
    }
}

impl GraphState {
    pub open spec fn list(&self) -> Seq<NodeView> {
        node_views(self.nodes@)
    }

    pub open spec fn wf(&self) -> bool {
        ids_grow(self.list(), self.next_id)
    }

    /// The shape is the one that the concepts form.
    pub open spec fn in_sync(&self) -> bool {
        &&& self.shape@ == shape_of("belief_graph"@, self.list(), SLIGHTLY_SIMILAR as int)
        &&& self.shape@.wf()
    }

    /// A graph without concepts.
    pub fn new() -> (r: GraphState)
        ensures
            r.wf(),
            r.in_sync(),
            r.list() == Seq::<NodeView>::empty(),
            r.next_id == 1,
    {
        let r = GraphState {
            nodes: Vec::new(),
            next_id: 1,
            shape: Shape::empty("belief_graph"),
        };
        assert(r.list() =~= Seq::<NodeView>::empty());
        r
    }

    /// Adds a concept and gives its identifier.
    pub fn add_node(&mut self, vector: [i8; 64]) -> (id: u32)
        requires
            old(self).wf(),
            old(self).next_id < u32::MAX,
        ensures
            final(self).wf(),
            final(self).in_sync(),
            id == old(self).next_id,
            final(self).next_id == old(self).next_id + 1,
            final(self).list() == old(self).list().push(
                NodeView {
                    id,
                    vector: vector@,
                    confidence: 0x7FFF,
                    connections: Seq::empty(),
                },
            ),
    {
        let ghost before = self.nodes@;
        let id: u32 = self.next_id;
        self.next_id = id + 1;
        let node = ConceptNode::new(id, vector);
        self.nodes.push(node);
        assert(self.list() =~= node_views(before).push(node@));
        self.sync_shape();
        id
    }

    fn position(&self, id: u32) -> (r: Option<usize>)
        ensures
            match r {
                Some(i) => i < self.nodes@.len() && self.list()[i as int].id == id,
                None => forall|k: int|
                    0 <= k < self.list().len() ==> (#[trigger] self.list()[k]).id != id,
            },
    {
        let mut i: usize = 0;
        while i < self.nodes.len()
            invariant
                i <= self.nodes@.len(),
                forall|k: int| 0 <= k < i ==> (#[trigger] self.list()[k]).id != id,
            decreases self.nodes@.len() - i,
        {
            if self.nodes[i].id == id {
                return Some(i);
            }
            i += 1;
        }
        None
    }

    /// The concept with an identifier.
    pub fn get(&self, id: u32) -> (r: Option<&ConceptNode>)
        ensures
            match r {
                Some(n) => n.id == id && self.nodes@.contains(*n),
                None => forall|k: int|
                    0 <= k < self.list().len() ==> (#[trigger] self.list()[k]).id != id,
            },
            r is None <==> absent(self.list(), id),
    {
        match self.position(id) {
            Some(i) => Some(&self.nodes[i]),
            None => None,
        }
    }

    /// The concept with an identifier, to be changed in place.
    pub fn get_mut(&mut self, id: u32) -> (r: Option<&mut ConceptNode>)
        ensures
            final(self).next_id == old(self).next_id,
            final(self).shape == old(self).shape,
            match r {
                Some(n) => exists|i: int|
                    {
                        &&& 0 <= i < old(self).nodes@.len()
                        &&& #[trigger] old(self).nodes@[i] == *n
                        &&& n.id == id
                        &&& final(self).nodes@ == old(self).nodes@.update(i, *final(n))
                    },
                None => {
                    &&& final(self).nodes@ == old(self).nodes@
                    &&& forall|k: int|
                        0 <= k < old(self).list().len() ==> (#[trigger] old(self).list()[k]).id
                            != id
                },
            },
    {
        match self.position(id) {
            Some(i) => Some(&mut self.nodes[i]),
            None => None,
        }
    }

    /// Removes a concept and the connections to it.
    pub fn remove(&mut self, id: u32)
        requires
            old(self).wf(),
        ensures
            final(self).wf(),
            final(self).in_sync(),
            final(self).next_id == old(self).next_id,
            final(self).list() == nodes_without(old(self).list(), id),
    {
        let mut out: Vec<ConceptNode> = Vec::new();
        let ghost s = self.list();
        let mut i: usize = 0;
        assert(node_views(out@) =~= nodes_without(s.take(0), id));
        while i < self.nodes.len()
            invariant
                *self == *old(self),
                s == self.list(),
                i <= s.len(),
                node_views(out@) == nodes_without(s.take(i as int), id),
            decreases s.len() - i,
        {
            proof {
                assert(s.take(i + 1).drop_last() =~= s.take(i as int));
                assert(s.take(i + 1).last() == s[i as int]);
            }
            if self.nodes[i].id != id {
                let ghost before = out@;
                let mut n = self.nodes[i].copy();
                n.disconnect(id);
                out.push(n);
                assert(node_views(out@) =~= node_views(before).push(n@));
            }
            i += 1;
        }
        assert(s.take(i as int) =~= s);
        proof {
            lemma_without_grows(s, id, self.next_id);
        }
        self.nodes = out;
        self.sync_shape();
    }

    pub fn len(&self) -> (n: usize)
        ensures
            n == self.list().len(),
    {
        self.nodes.len()
    }

    pub fn is_empty(&self) -> (r: bool)
        ensures
            r == (self.list().len() == 0),
    {
        self.nodes.len() == 0
    }

    /// The `k` concepts most similar to a vector with their dot products, most similar
    /// first; among equals, in the order of the identifiers.
    pub fn find_similar(&self, query: &[i8; 64], k: usize) -> (r: Vec<(u32, i32)>)
        ensures
            similar(self.list(), query@, k as nat, r@),
    {
        let n = self.nodes.len();
        let mut keys: Vec<i64> = Vec::new();
        let mut i: usize = 0;
        while i < n
            invariant
                n == self.nodes@.len(),
                i <= n,
                keys@ =~= similarity_keys(self.list(), query@).take(i as int),
            decreases n - i,
        {
            keys.push(self.nodes[i].dot(query) as i64);
            proof {
                lemma_dot_bounds(self.list()[i as int].vector, query@, 64);
            }
            i += 1;
        }
        assert(similarity_keys(self.list(), query@).take(i as int) =~= similarity_keys(
            self.list(),
            query@,
        ));
        let order = rank(&keys);
        let m: usize = if k < n {
            k
        } else {
            n
        };
        let mut out: Vec<(u32, i32)> = Vec::new();
        let mut j: usize = 0;
        while j < m
            invariant
                j <= m <= n,
                n == self.nodes@.len(),
                keys@ == similarity_keys(self.list(), query@),
                ranked(keys@, order@),
                out@ =~= Seq::new(
                    j as nat,
                    |a: int|
                        (
                            self.list()[order@[a] as int].id,
                            dot(self.list()[order@[a] as int].vector, query@) as i32,
                        ),
                ),
            decreases m - j,
        {
            let p = order[j];
            out.push((self.nodes[p].id, self.nodes[p].dot(query)));
            j += 1;
        }
        proof {
            assert(ranked(similarity_keys(self.list(), query@), order@));
        }
        out
    }

    fn sync_shape(&mut self)
        ensures
            final(self).in_sync(),
            final(self).nodes == old(self).nodes,
            final(self).next_id == old(self).next_id,
    {
        let _len: usize = self.nodes.len();
        let nodes = copy_nodes(&self.nodes);
        let edges = Shape::compute_edges(&nodes, SLIGHTLY_SIMILAR);
        self.shape = Shape { name: "belief_graph".to_owned(), nodes, edges };
        proof {
            lemma_shape_wf("belief_graph"@, self.list(), SLIGHTLY_SIMILAR as int);
        }
    }

    /// Number of concepts.
    pub fn concept_count(&self) -> (n: usize)
        ensures
            n == self.list().len(),
    {
        self.nodes.len()
    }
}

/// The dot products of the concepts with a vector.
pub open spec fn similarity_keys(s: Seq<NodeView>, query: Seq<i8>) -> Seq<i64> {
    Seq::new(s.len(), |i: int| dot(s[i].vector, query) as i64)
}

/// That `r` lists the `k` concepts most similar to a vector: by larger dot product, then
/// in their order.
pub open spec fn similar(s: Seq<NodeView>, query: Seq<i8>, k: nat, r: Seq<(u32, i32)>) -> bool {
    exists|p: Seq<usize>|
        {
            &&& #[trigger] ranked(similarity_keys(s, query), p)
            &&& r == Seq::new(
                if k < s.len() {
                    k
                } else {
                    s.len()
                },
                |a: int| (s[p[a] as int].id, dot(s[p[a] as int].vector, query) as i32),
            )
        }
}

proof fn lemma_without_grows(s: Seq<NodeView>, id: u32, next_id: u32)
    requires
        ids_grow(s, next_id),
    ensures
        ids_grow(nodes_without(s, id), next_id),
        nodes_without(s, id).len() <= s.len(),
        s.len() > 0 ==> forall|i: int|
            0 <= i < nodes_without(s, id).len() ==> (#[trigger] nodes_without(s, id)[i]).id
                <= s.last().id,
        forall|i: int|
            0 <= i < nodes_without(s, id).len() ==> (#[trigger] nodes_without(s, id)[i]).id != id,
    decreases s.len(),
{
    if s.len() > 0 {
        let t = s.drop_last();
        assert(ids_grow(t, next_id));
        lemma_without_grows(t, id, next_id);
        let w = nodes_without(t, id);
        assert forall|i: int| 0 <= i < w.len() implies (#[trigger] w[i]).id < s.last().id by {
            assert(t.last().id < s.last().id) by {
                assert(s[s.len() - 2].id < s[s.len() - 1].id);
            }
        }
    }
}

/// A concept that was removed is gone, and nothing is connected to it any more.
pub proof fn law_removed_concept_is_gone(s: Seq<NodeView>, id: u32, k: int)
    requires
        0 <= k < nodes_without(s, id).len(),
    ensures
        nodes_without(s, id)[k].id != id,
        forall|c: int|
            0 <= c < nodes_without(s, id)[k].connections.len() ==> (#[trigger] nodes_without(
                s,
                id,
            )[k].connections[c]).target != id,
    decreases s.len(),
{
    let rest = nodes_without(s.drop_last(), id);
    if k < rest.len() {
        law_removed_concept_is_gone(s.drop_last(), id, k);
        assert(nodes_without(s, id)[k] == rest[k]);
    } else {
        lemma_connections_without(s.last().connections, id);
    }
}

proof fn lemma_connections_without(s: Seq<Connection>, id: u32)
    ensures
        forall|c: int|
            0 <= c < connections_without(s, id).len() ==> (#[trigger] connections_without(
                s,
                id,
            )[c]).target != id,
    decreases s.len(),
{
    if s.len() > 0 {
        lemma_connections_without(s.drop_last(), id);
    }
}

proof fn lemma_dot_total(a: Seq<i8>, b: Seq<i8>, n: nat)
    ensures
        dot_upto(a, b, n) == crate::sums::total(|j: int| a[j] * b[j], n),
    decreases n,
{
    let f = |j: int| a[j] * b[j];
    if n > 0 {
        lemma_dot_total(a, b, (n - 1) as nat);
        assert(f(n - 1) == a[n - 1] * b[n - 1]);
    }
}

/// The dot product of a concept with a vector is the sum of the products of all their 64 entries.
pub proof fn law_dot_is_sum(node: &ConceptNode, other: &[i8; 64], r: i32)
    requires
        call_ensures(ConceptNode::dot, (node, other), r),
    ensures
        r == crate::sums::total(|j: int| node.vector@[j] * other@[j], 64),
{
    lemma_dot_total(node.vector@, other@, 64);
}

/// A connection that was added is there with its weight, whether it was there before or not, and
/// every other connection is as it was.
pub proof fn law_connection_added(
    node: &mut ConceptNode,
    target: u32,
    rel: RelationType,
    weight: u32,
    there: bool,
    read: u32,
    target2: u32,
    rel2: RelationType,
    there_before: bool,
    there_after: bool,
    before: u32,
    after: u32,
)
    requires
        call_ensures(ConceptNode::add_connection, (node, target, rel, weight), ()),
        call_ensures(ConceptNode::has_connection, (&*final(node), target, rel), there),
        call_ensures(ConceptNode::connection_weight, (&*final(node), target, rel), read),
        target2 != target || rel2 != rel,
        call_ensures(ConceptNode::has_connection, (&*old(node), target2, rel2), there_before),
        call_ensures(ConceptNode::has_connection, (&*final(node), target2, rel2), there_after),
        call_ensures(ConceptNode::connection_weight, (&*old(node), target2, rel2), before),
        call_ensures(ConceptNode::connection_weight, (&*final(node), target2, rel2), after),
    ensures
        there,
        read == weight,
        there_after == there_before,
        after == before,
        final(node).vector == old(node).vector,
        final(node).confidence == old(node).confidence,
        final(node).id == old(node).id,
{
    let s = old(node).connections@;
    let t = final(node).connections@;
    let c = Connection { target, rel, weight };
    let at = if unconnected(s, target, rel) {
        s.len() as int
    } else {
        choose|i: int| #[trigger] first_connection(s, target, rel, i) && t == s.update(i, c)
    };
    if !unconnected(s, target, rel) {
        assert(first_connection(s, target, rel, at));
    } else {
        assert(t == s.push(c)) by {
            if exists|i: int| #[trigger] first_connection(s, target, rel, i) && t == s.update(i, c) {
                let i = choose|i: int|
                    #[trigger] first_connection(s, target, rel, i) && t == s.update(i, c);
                assert(s[i].target == target && s[i].rel == rel);
            }
        }
    }
    assert(t[at] == c);
    assert forall|k: int| 0 <= k < t.len() && k != at implies k < s.len() && #[trigger] t[k]
        == s[k] by {}
    assert forall|k: int| 0 <= k < at implies !((#[trigger] t[k]).target == target && t[k].rel
        == rel) by {
        assert(t[k] == s[k]);
    }
    assert(first_connection(t, target, rel, at));
    assert(!unconnected(t, target, rel)) by {
        assert(t[at].target == target && t[at].rel == rel);
    }
    let i1 = choose|i: int| #[trigger] first_connection(t, target, rel, i) && read == t[i].weight;
    assert(i1 == at) by {
        if i1 < at {
            assert(t[i1].target == target && t[i1].rel == rel);
        }
        if at < i1 {
            assert(t[at].target == target && t[at].rel == rel);
        }
    }
    assert(unconnected(s, target2, rel2) <==> unconnected(t, target2, rel2)) by {
        if unconnected(s, target2, rel2) {
            assert forall|k: int| 0 <= k < t.len() implies !((#[trigger] t[k]).target == target2
                && t[k].rel == rel2) by {
                if k != at {
                    assert(t[k] == s[k]);
                }
            }
        }
        if unconnected(t, target2, rel2) {
            assert forall|k: int| 0 <= k < s.len() implies !((#[trigger] s[k]).target == target2
                && s[k].rel == rel2) by {
                if k != at {
                    assert(t[k] == s[k]);
                } else {
                    assert(s[at].target == target && s[at].rel == rel);
                }
            }
        }
    }
    if !unconnected(s, target2, rel2) {
        let i = choose|i: int|
            #[trigger] first_connection(s, target2, rel2, i) && before == s[i].weight;
        assert(first_connection(s, target2, rel2, i)) by {
            if unconnected(s, target2, rel2) {
            }
        }
        let j = choose|j: int|
            #[trigger] first_connection(t, target2, rel2, j) && after == t[j].weight;
        assert(j != at && i != at);
        assert(t[j] == s[j] && t[i] == s[i]);
        if i < j {
            assert(t[i].target == target2 && t[i].rel == rel2);
        }
        if j < i {
            assert(s[j].target == target2 && s[j].rel == rel2);
        }
    }
}

/// A shape of concepts has an edge between two of them exactly where their dot product is above
/// one half, in the scale in which vectors of 64 entries meet: above 4096; and the edge carries
/// that product.
pub proof fn law_shape_joins_similar(
    name: &str,
    nodes: Vec<ConceptNode>,
    r: Shape,
    i: usize,
    j: usize,
    d: i32,
)
    requires
        call_ensures(Shape::new, (name, nodes), r),
        i < nodes@.len(),
        j < nodes@.len(),
        call_ensures(ConceptNode::dot, (&nodes@[i as int], &nodes@[j as int].vector), d),
    ensures
        r.name@ == name@,
        r@.nodes.len() == nodes@.len(),
        r@.edges.contains((i, j, d)) <==> i < j && d > 4096,
{
    let views = node_views(nodes@);
    assert(views[i as int] == nodes@[i as int]@ && views[j as int] == nodes@[j as int]@);
    assert(views.len() == nodes.len());
    law_edges(views, HALF_SIMILAR as int, i as int, j as int);
}

/// The names of the relations.
pub proof fn law_relation_names(rel: RelationType, s: &'static str)
    requires
        call_ensures(RelationType::name, (&rel,), s),
    ensures
        rel == RelationType::IsA ==> s@ == "is_a"@,
        rel == RelationType::PartOf ==> s@ == "part_of"@,
        rel == RelationType::Causes ==> s@ == "causes"@,
        rel == RelationType::Similar ==> s@ == "similar"@,
        rel == RelationType::Contradicts ==> s@ == "contradicts"@,
        rel == RelationType::Property ==> s@ == "property"@,
        rel == RelationType::Instance ==> s@ == "instance"@,
        rel == RelationType::Evidence ==> s@ == "evidence"@,
{
}

proof fn lemma_connections_kept(s: Seq<Connection>, id: u32, c: Connection)
    requires
        c.target != id,
    ensures
        connections_without(s, id).contains(c) <==> s.contains(c),
    decreases s.len(),
{
    if s.len() > 0 {
        let d = s.drop_last();
        let rest = connections_without(d, id);
        lemma_connections_kept(d, id, c);
        if s.contains(c) {
            let k = choose|k: int| 0 <= k < s.len() && s[k] == c;
            if k < d.len() {
                assert(d[k] == c);
            } else {
                assert(rest.push(s.last())[rest.len() as int] == c);
            }
        }
        if d.contains(c) {
            let k = choose|k: int| 0 <= k < d.len() && d[k] == c;
            assert(s[k] == c);
        }
        if s.last() == c {
            assert(s[s.len() - 1] == c);
        }
        if rest.contains(c) {
            let k = choose|k: int| 0 <= k < rest.len() && rest[k] == c;
            assert(rest.push(s.last())[k] == c);
        }
        if rest.push(s.last()).contains(c) && s.last() != c {
            let k = choose|k: int|
                0 <= k < rest.push(s.last()).len() && rest.push(s.last())[k] == c;
            assert(rest[k] == c);
        }
    }
}

proof fn lemma_nodes_kept(s: Seq<NodeView>, id: u32, i: int) -> (k: int)
    requires
        0 <= i < s.len(),
        s[i].id != id,
    ensures
        0 <= k < nodes_without(s, id).len(),
        k <= i,
        nodes_without(s, id)[k].id == s[i].id,
        nodes_without(s, id)[k].vector == s[i].vector,
        nodes_without(s, id)[k].confidence == s[i].confidence,
        nodes_without(s, id)[k].connections == connections_without(s[i].connections, id),
    decreases s.len(),
{
    let rest = nodes_without(s.drop_last(), id);
    if i < s.len() - 1 {
        assert(s.drop_last()[i] == s[i]);
        let k = lemma_nodes_kept(s.drop_last(), id, i);
        k
    } else {
        lemma_nodes_fewer(s.drop_last(), id);
        rest.len() as int
    }
}

proof fn lemma_nodes_fewer(s: Seq<NodeView>, id: u32)
    ensures
        nodes_without(s, id).len() <= s.len(),
        (forall|i: int| 0 <= i < s.len() ==> (#[trigger] s[i]).id != id) ==> nodes_without(s, id).len()
            == s.len(),
        (exists|i: int| 0 <= i < s.len() && (#[trigger] s[i]).id == id) ==> nodes_without(s, id).len()
            < s.len(),
    decreases s.len(),
{
    if s.len() > 0 {
        let d = s.drop_last();
        lemma_nodes_fewer(d, id);
        if forall|i: int| 0 <= i < s.len() ==> (#[trigger] s[i]).id != id {
            assert(s[s.len() - 1].id != id);
            assert forall|i: int| 0 <= i < d.len() implies (#[trigger] d[i]).id != id by {
                assert(s[i].id != id);
            }
        }
        if exists|i: int| 0 <= i < s.len() && (#[trigger] s[i]).id == id {
            let i = choose|i: int| 0 <= i < s.len() && (#[trigger] s[i]).id == id;
            if i < d.len() {
                assert(d[i].id == id);
            }
        }
    }
}

/// What a removal leaves: every other concept, with its vector and its confidence, and with each
/// of its connections that does not lead to the removed one.
pub proof fn law_removal_spares_others(g: &mut GraphState, id: u32, i: int, c: Connection) -> (k: int)
    requires
        old(g).wf(),
        call_ensures(GraphState::remove, (g, id), ()),
        0 <= i < old(g).nodes@.len(),
        old(g).nodes@[i].id != id,
        c.target != id,
    ensures
        0 <= k < final(g).nodes@.len(),
        final(g).nodes@[k].id == old(g).nodes@[i].id,
        final(g).nodes@[k].vector@ == old(g).nodes@[i].vector@,
        final(g).nodes@[k].confidence == old(g).nodes@[i].confidence,
        final(g).nodes@[k].connections@.contains(c) <==> old(g).nodes@[i].connections@.contains(c),
{
    let s = old(g).list();
    let t = final(g).list();
    assert(s[i] == old(g).nodes@[i]@);
    let k = lemma_nodes_kept(s, id, i);
    assert(t[k] == final(g).nodes@[k]@);
    lemma_connections_kept(s[i].connections, id, c);
    k
}

/// Whether no concept of a list has an identifier.
pub open spec fn absent(s: Seq<NodeView>, id: u32) -> bool {
    forall|k: int| 0 <= k < s.len() ==> (#[trigger] s[k]).id != id
}

/// A concept that was added is found under the identifier that it got, which no earlier one has,
/// and it comes last; one that was removed is not found.
pub proof fn law_added_is_found(
    add: &mut GraphState,
    vector: [i8; 64],
    id: u32,
    found: Option<&ConceptNode>,
    remove: &mut GraphState,
    gone: Option<&ConceptNode>,
)
    requires
        old(add).wf(),
        call_ensures(GraphState::add_node, (add, vector), id),
        old(add).next_id < u32::MAX,
        call_ensures(GraphState::get, (&*final(add), id), found),
        *old(remove) == *final(add),
        call_ensures(GraphState::remove, (remove, id), ()),
        call_ensures(GraphState::get, (&*final(remove), id), gone),
    ensures
        forall|k: int| 0 <= k < old(add).nodes@.len() ==> (#[trigger] old(add).nodes@[k]).id < id,
        found matches Some(n) && n.id == id && n.vector@ == vector@ && n.connections@.len() == 0,
        gone is None,
        final(remove).nodes@.len() == old(add).nodes@.len(),
{
    let s = old(add).list();
    let t = final(add).list();
    assert forall|k: int| 0 <= k < old(add).nodes@.len() implies (#[trigger] old(add).nodes@[k]).id
        < id by {
        assert(s[k] == old(add).nodes@[k]@);
        assert(s[k].id < old(add).next_id);
    }
    let last = s.len() as int;
    assert(t.len() == last + 1);
    assert(t[last].id == id);
    assert(!absent(t, id));
    let n = found->0;
    let k = choose|k: int| 0 <= k < final(add).nodes@.len() && final(add).nodes@[k] == *n;
    assert(t[k] == n@);
    assert(k == last) by {
        if k < last {
            assert(t[k] == s[k]);
            assert(s[k].id < old(add).next_id);
        }
    }
    assert forall|m: int| 0 <= m < final(remove).nodes@.len() implies (#[trigger] final(remove).nodes@[m]).id != id by {
        law_removed_concept_is_gone(t, id, m);
        assert(final(remove).list()[m] == final(remove).nodes@[m]@);
    }
    assert(t.drop_last() =~= s);
    assert forall|m: int| 0 <= m < s.len() implies (#[trigger] s[m]).id != id by {
        assert(s[m].id < old(add).next_id);
    }
    lemma_nodes_fewer(s, id);
}

/// Whether an entry of a listing by similarity is that of a concept.
pub open spec fn listed(node: ConceptNode, query: Seq<i8>, e: (u32, i32)) -> bool {
    e.0 == node.id && e.1 == dot(node.vector@, query)
}

/// Whether an entry of a listing by similarity is that of one of the concepts.
pub open spec fn is_listing(nodes: Seq<ConceptNode>, query: Seq<i8>, e: (u32, i32)) -> bool {
    exists|i: int| 0 <= i < nodes.len() && #[trigger] listed(nodes[i], query, e)
}

/// The concepts most similar to a query: as many as asked for or as there are, each with its dot
/// product, from the most similar down, and none that is left out is more similar than one that
/// is listed.
pub proof fn law_most_similar(g: &GraphState, query: &[i8; 64], k: usize, r: Vec<(u32, i32)>)
    requires
        call_ensures(GraphState::find_similar, (g, query, k), r),
    ensures
        r@.len() <= k,
        r@.len() == k || r@.len() == g.nodes@.len(),
        forall|a: int| 0 <= a < r@.len() ==> is_listing(g.nodes@, query@, #[trigger] r@[a]),
        forall|a: int, b: int|
            0 <= a < b < r@.len() ==> (#[trigger] r@[a]).1 >= (#[trigger] r@[b]).1,
        forall|i: int|
            #![trigger g.nodes@[i]]
            0 <= i < g.nodes@.len() ==> {
                ||| exists|a: int|
                    0 <= a < r@.len() && #[trigger] listed(g.nodes@[i], query@, r@[a])
                ||| forall|a: int|
                    0 <= a < r@.len() ==> (#[trigger] r@[a]).1 >= dot(g.nodes@[i].vector@, query@)
            },
{
    let s = g.list();
    let keys = similarity_keys(s, query@);
    let p = choose|p: Seq<usize>|
        {
            &&& #[trigger] ranked(keys, p)
            &&& r@ == Seq::new(
                if k < s.len() {
                    k as nat
                } else {
                    s.len()
                },
                |a: int| (s[p[a] as int].id, dot(s[p[a] as int].vector, query@) as i32),
            )
        };
    assert forall|i: int| 0 <= i < s.len() implies #[trigger] s[i] == g.nodes@[i]@ by {}
    assert forall|i: int| 0 <= i < s.len() implies -0x10_0000 <= dot(
        (#[trigger] s[i]).vector,
        query@,
    ) <= 0x10_0000 by {
        lemma_dot_bounds(s[i].vector, query@, 64);
    }
    assert forall|a: int| 0 <= a < r@.len() implies is_listing(
        g.nodes@,
        query@,
        #[trigger] r@[a],
    ) by {
        let i = p[a] as int;
        assert(s[i] == g.nodes@[i]@);
        assert(listed(g.nodes@[i], query@, r@[a]));
    }
    assert forall|a: int, b: int| 0 <= a < b < r@.len() implies (#[trigger] r@[a]).1 >= (
    #[trigger] r@[b]).1 by {
        assert(keys[p[a] as int] >= keys[p[b] as int]);
        assert(s[p[a] as int] == s[p[a] as int] && s[p[b] as int] == s[p[b] as int]);
    }
    assert forall|i: int|
        #![trigger g.nodes@[i]]
        0 <= i < g.nodes@.len() implies {
        ||| exists|a: int| 0 <= a < r@.len() && #[trigger] listed(g.nodes@[i], query@, r@[a])
        ||| forall|a: int|
            0 <= a < r@.len() ==> (#[trigger] r@[a]).1 >= dot(g.nodes@[i].vector@, query@)
    } by {
        assert(s[i] == g.nodes@[i]@);
        crate::sorting::lemma_ranked_holds_all(keys, p, i);
        let b = choose|b: int| 0 <= b < p.len() && #[trigger] p[b] == i;
        if b < r@.len() {
            assert(listed(g.nodes@[i], query@, r@[b]));
        } else {
            assert forall|a: int| 0 <= a < r@.len() implies (#[trigger] r@[a]).1 >= dot(
                g.nodes@[i].vector@,
                query@,
            ) by {
                assert(keys[p[a] as int] >= keys[p[b] as int]);
                assert(s[p[a] as int] == s[p[a] as int]);
            }
        }
    }
}

} // verus!
