//! Decisions around work on the device: how deep the pipeline is, which window of positions
//! it holds, and whether a recorded graph is replayed, recorded or done without.

use vstd::prelude::*;

verus! {

// ---------------------------------------------------------------------------
// Pipeline depth
// ---------------------------------------------------------------------------

/// How many operations are under way.
pub struct PipelineDepth {
    pub in_flight: u32,
}

/// The depth after one more operation, where the limit allows it.
pub fn next_depth(current: u32, max_depth: u32) -> (r: Option<u32>)
    ensures
        r == (if current < max_depth {
            Some((current + 1) as u32)
        } else {
            None
        }),
{
    if current >= max_depth {
        None
    } else {
        Some(current + 1)
    }
}

/// An operation under way.
pub struct PipelineToken {}

impl PipelineToken {
    /// Starts an operation, where the limit allows it.
    pub fn acquire(counter: &mut PipelineDepth, max_depth: u32) -> (r: Option<PipelineToken>)
        ensures
            r is Some <==> old(counter).in_flight < max_depth,
            final(counter).in_flight == (if r is Some {
                old(counter).in_flight + 1
            } else {
                old(counter).in_flight as int
            }),
    {
        match next_depth(counter.in_flight, max_depth) {
            Some(n) => {
                counter.in_flight = n;
                Some(PipelineToken {  })
            },
            None => None,
        }
    }

    /// Ends an operation.
    pub fn release(self, counter: &mut PipelineDepth)
        requires
            old(counter).in_flight > 0,
        ensures
            final(counter).in_flight == old(counter).in_flight - 1,
    {
        counter.in_flight = counter.in_flight - 1;
    }
}

// ---------------------------------------------------------------------------
// The window of positions on the device
// ---------------------------------------------------------------------------

/// The place of a position in the window.
pub fn window_slot(pos: usize, window_size: usize) -> (r: usize)
    requires
        window_size > 0,
    ensures
        r == pos % window_size,
        r < window_size,
{
    pos % window_size
}

/// How many positions attention covers on the device; nothing where the device is not in
/// operation or there is none.
pub fn window_length(operational: bool, seq_len: usize, window_size: usize) -> (r: Option<usize>)
    ensures
        r == (if operational && seq_len > 0 && window_size > 0 {
            Some(
                if seq_len <= window_size {
                    seq_len
                } else {
                    window_size
                },
            )
        } else {
            None
        }),
{
    let n: usize = if seq_len <= window_size {
        seq_len
    } else {
        window_size
    };
    if !operational || n == 0 {
        None
    } else {
        Some(n)
    }
}

/// The last positions, as many as the window holds, have places of their own in it.
pub proof fn law_window_distinct(p: nat, q: nat, window: nat)
    requires
        window > 0,
        p < q < p + window,
    ensures
        p % window != q % window,
{
    vstd::arithmetic::div_mod::lemma_fundamental_div_mod(p as int, window as int);
    vstd::arithmetic::div_mod::lemma_fundamental_div_mod(q as int, window as int);
    if p % window == q % window {
        let a = p / window;
        let b = q / window;
        assert(q - p == window * b - window * a);
        assert(window * b - window * a == window * (b - a)) by (nonlinear_arith);
        assert(b - a >= 1) by (nonlinear_arith)
            requires
                window * (b - a) > 0,
                window > 0,
        ;
        assert(window * (b - a) >= window) by (nonlinear_arith)
            requires
                b - a >= 1,
                window > 0,
        ;
    }
}

/// What the places of the window hold after the uploads of the first `n` positions, one
/// after another.
pub open spec fn ring_after(n: nat, window: nat) -> Seq<Option<nat>>
    decreases n,
{
    if n == 0 {
        Seq::new(window, |i: int| None)
    } else {
        ring_after((n - 1) as nat, window).update(
            ((n - 1) as nat % window) as int,
            Some((n - 1) as nat),
        )
    }
}

/// After a run of uploads the window holds exactly the last positions, as many as it has
/// places: each of them at its own place, and no other position anywhere.
pub proof fn law_ring_holds_last(n: nat, window: nat)
    requires
        window > 0,
    ensures
        ring_after(n, window).len() == window,
        forall|p: nat|
            p < n && n <= p + window ==> ring_after(n, window)[#[trigger] (p % window) as int]
                == Some(p),
        forall|i: int|
            0 <= i < window ==> match #[trigger] ring_after(n, window)[i] {
                Some(p) => p < n && n <= p + window && p % window == i,
                None => n <= i,
            },
    decreases n,
{
    if n > 0 {
        let m = (n - 1) as nat;
        law_ring_holds_last(m, window);
        let before = ring_after(m, window);
        let after = ring_after(n, window);
        let at = (m % window) as int;
        assert(0 <= at < window) by {
            vstd::arithmetic::div_mod::lemma_mod_bound(m as int, window as int);
        }
        assert(after == before.update(at, Some(m)));
        assert forall|p: nat| p < n && n <= p + window implies after[#[trigger] (p
            % window) as int] == Some(p) by {
            vstd::arithmetic::div_mod::lemma_mod_bound(p as int, window as int);
            if p < m {
                law_window_distinct(p, m, window);
                assert(before[(p % window) as int] == Some(p));
            }
        }
        assert forall|i: int| 0 <= i < window implies match #[trigger] after[i] {
            Some(p) => p < n && n <= p + window && p % window == i,
            None => n <= i,
        } by {
            if i != at {
                assert(after[i] == before[i]);
                match before[i] {
                    Some(p) => {
                        if m == p + window {
                            vstd::arithmetic::div_mod::lemma_mod_add_multiples_vanish(
                                p as int,
                                window as int,
                            );
                            assert(false);
                        }
                    },
                    None => {
                        if m == i {
                            vstd::arithmetic::div_mod::lemma_small_mod(m, window);
                        }
                    },
                }
            }
        }
    }
}

/// What an upload of keys and values does next.
#[derive(Clone, Copy, Debug, PartialEq, Eq, Structural)]
pub enum KvStep {
    CopyKeys,
    CopyValues,
    /// The upload is over; whether both copies were handed in.
    Done(bool),
}

/// What comes next in an upload, given how each copy that was tried came out: the values are
/// not tried where the keys failed.
pub fn kv_step(keys: Option<bool>, values: Option<bool>) -> (r: KvStep)
    ensures
        r == (match keys {
            None => KvStep::CopyKeys,
            Some(false) => KvStep::Done(false),
            Some(true) => match values {
                None => KvStep::CopyValues,
                Some(ok) => KvStep::Done(ok),
            },
        }),
{
    match keys {
        None => KvStep::CopyKeys,
        Some(k) => {
            if !k {
                return KvStep::Done(false);
            }
            match values {
                None => KvStep::CopyValues,
                Some(v) => KvStep::Done(v),
            }
        },
    }
}

// ---------------------------------------------------------------------------
// Attention on the device
// ---------------------------------------------------------------------------

/// A step of launching attention.
#[derive(Clone, Copy, Debug, PartialEq, Eq, Structural)]
pub enum Launch {
    /// Allocate the buffer for scores.
    AllocScores,
    /// Record a graph for the length.
    Create,
    /// Replay the graph for the length.
    Replay,
    /// Launch without a graph.
    Stream,
    /// Nothing is left; says whether attention was launched.
    Done(bool),
}

/// Which graphs have been recorded, by length, and whether the scores have a buffer.
pub struct GraphCache {
    pub recorded: Vec<bool>,
    pub scores: bool,
}

/// How a launch goes on once the scores have a buffer.
pub open spec fn by_graph(recorded: Seq<bool>, seq_len: nat) -> Launch {
    if seq_len == 0 || seq_len >= recorded.len() {
        Launch::Stream
    } else if recorded[seq_len as int] {
        Launch::Replay
    } else {
        Launch::Create
    }
}

/// The step of a launch after one that went well or not.
pub open spec fn next_launch(recorded: Seq<bool>, seq_len: nat, step: Launch, ok: bool) -> Launch {
    match step {
        Launch::AllocScores => if ok {
            by_graph(recorded, seq_len)
        } else {
            Launch::Done(false)
        },
        Launch::Create => if ok {
            Launch::Replay
        } else {
            Launch::Stream
        },
        Launch::Replay => if ok {
            Launch::Done(true)
        } else {
            Launch::Stream
        },
        Launch::Stream => Launch::Done(ok),
        Launch::Done(d) => Launch::Done(d),
    }
}

impl GraphCache {
    /// No graphs, for lengths up to a largest one.
    pub fn new(max_seq_len: usize) -> (r: GraphCache)
        requires
            max_seq_len < usize::MAX,
        ensures
            r.recorded@ == Seq::new((max_seq_len + 1) as nat, |i: int| false),
            !r.scores,
    {
        let r = GraphCache { recorded: vec![false; max_seq_len + 1], scores: false };
        assert(r.recorded@ =~= Seq::new((max_seq_len + 1) as nat, |i: int| false));
        r
    }

    fn graph_step(&self, seq_len: usize) -> (r: Launch)
        ensures
            r == by_graph(self.recorded@, seq_len as nat),
    {
        if seq_len == 0 || seq_len >= self.recorded.len() {
            Launch::Stream
        } else if self.recorded[seq_len] {
            Launch::Replay
        } else {
            Launch::Create
        }
    }

    /// The first step of launching attention over a length.
    pub fn launch(&self, seq_len: usize) -> (r: Launch)
        ensures
            r == (if !self.scores {
                Launch::AllocScores
            } else {
                by_graph(self.recorded@, seq_len as nat)
            }),
    {
        if !self.scores {
            Launch::AllocScores
        } else {
            self.graph_step(seq_len)
        }
    }

    /// The step after one that went well or not. Without a buffer for scores nothing is
    /// launched; without a graph attention is launched without one.
    pub fn after(&mut self, seq_len: usize, step: Launch, ok: bool) -> (r: Launch)
        requires
            step == Launch::Create ==> 0 < seq_len < old(self).recorded@.len(),
        ensures
            final(self).scores == (old(self).scores || (step == Launch::AllocScores && ok)),
            final(self).recorded@ == (if step == Launch::Create && ok {
                old(self).recorded@.update(seq_len as int, true)
            } else {
                old(self).recorded@
            }),
            r == next_launch(old(self).recorded@, seq_len as nat, step, ok),
    {
        match step {
            Launch::AllocScores => if ok {
                self.scores = true;
                self.graph_step(seq_len)
            } else {
                Launch::Done(false)
            },
            Launch::Create => if ok {
                self.recorded.set(seq_len, true);
                Launch::Replay
            } else {
                Launch::Stream
            },
            Launch::Replay => if ok {
                Launch::Done(true)
            } else {
                Launch::Stream
            },
            Launch::Stream => Launch::Done(ok),
            Launch::Done(d) => Launch::Done(d),
        }
    }
}

/// How many steps of a launch are left at most.
pub open spec fn steps_left(step: Launch) -> nat {
    match step {
        Launch::AllocScores => 4,
        Launch::Create => 3,
        Launch::Replay => 2,
        Launch::Stream => 1,
        Launch::Done(_) => 0,
    }
}

/// A launch ends after at most four steps, whatever goes wrong.
pub proof fn law_launch_ends(recorded: Seq<bool>, seq_len: nat, step: Launch, ok: bool)
    ensures
        steps_left(step) <= 4,
        steps_left(step) == 0 <==> step is Done,
        !(step is Done) ==> steps_left(next_launch(recorded, seq_len, step, ok)) < steps_left(step),
{
}

/// A graph is recorded at the first use of a length and replayed from then on; other lengths
/// go on as before.
pub proof fn law_recorded_once(recorded: Seq<bool>, seq_len: nat, other: nat)
    requires
        0 < seq_len < recorded.len(),
        other != seq_len,
    ensures
        by_graph(recorded, seq_len) == Launch::Create || by_graph(recorded, seq_len)
            == Launch::Replay,
        by_graph(recorded.update(seq_len as int, true), seq_len) == Launch::Replay,
        by_graph(recorded.update(seq_len as int, true), other) == by_graph(recorded, other),
{
}

// ---------------------------------------------------------------------------
// Products on the device
// ---------------------------------------------------------------------------

/// A step of a product without a graph.
#[derive(Clone, Copy, Debug, PartialEq, Eq, Structural)]
pub enum GemvOp {
    /// Copy the vector to the device.
    CopyIn { bytes: usize },
    /// Multiply by a matrix.
    Multiply { matrix: usize, rows: i32, blocks: i32 },
    /// Copy the result of a matrix back.
    CopyOut { matrix: usize, bytes: usize },
}

/// The steps for the first `n` matrices.
pub open spec fn gemv_steps(rows: Seq<i32>, blocks: i32, n: nat) -> Seq<GemvOp>
    decreases n,
{
    if n == 0 {
        seq![GemvOp::CopyIn { bytes: (blocks * 1024) as usize }]
    } else {
        gemv_steps(rows, blocks, (n - 1) as nat).push(
            GemvOp::Multiply { matrix: (n - 1) as usize, rows: rows[n - 1], blocks },
        ).push(GemvOp::CopyOut { matrix: (n - 1) as usize, bytes: (rows[n - 1] * 4) as usize })
    }
}

/// How a product goes about: not at all without weights, by the graph of its layer, by
/// recording one, by single steps.
#[derive(Clone, Copy, Debug, PartialEq, Eq, Structural)]
pub enum GemvStart {
    Fail,
    Replay,
    Create,
    Steps,
}

/// Which layers have a recorded graph of a product.
pub struct GemvGraphs {
    pub recorded: Vec<bool>,
}

impl GemvGraphs {
    /// No graphs.
    pub fn new(num_layers: usize) -> (r: GemvGraphs)
        ensures
            r.recorded@ == Seq::new(
                if num_layers >= 1 {
                    num_layers as nat
                } else {
                    1
                },
                |i: int| false,
            ),
    {
        let n: usize = if num_layers >= 1 {
            num_layers
        } else {
            1
        };
        let r = GemvGraphs { recorded: vec![false; n] };
        assert(r.recorded@ =~= Seq::new(n as nat, |i: int| false));
        r
    }

    /// How the product of a layer goes about.
    pub fn start(&self, layer_idx: usize, weights_there: bool) -> (r: GemvStart)
        requires
            layer_idx < self.recorded@.len(),
        ensures
            r == (if !weights_there {
                GemvStart::Fail
            } else if self.recorded@[layer_idx as int] {
                GemvStart::Replay
            } else {
                GemvStart::Create
            }),
    {
        if !weights_there {
            GemvStart::Fail
        } else if self.recorded[layer_idx] {
            GemvStart::Replay
        } else {
            GemvStart::Create
        }
    }

    /// How the product of a layer goes on after an attempt to record a graph, which is kept
    /// where it went well. What a replay gives is final.
    pub fn created(&mut self, layer_idx: usize, ok: bool) -> (r: GemvStart)
        requires
            layer_idx < old(self).recorded@.len(),
        ensures
            r == (if ok {
                GemvStart::Replay
            } else {
                GemvStart::Steps
            }),
            final(self).recorded@ == (if ok {
                old(self).recorded@.update(layer_idx as int, true)
            } else {
                old(self).recorded@
            }),
    {
        if ok {
            self.recorded.set(layer_idx, true);
            GemvStart::Replay
        } else {
            GemvStart::Steps
        }
    }
}

/// The steps of products of one vector and some matrices without a graph: the vector goes
/// over once, and each result comes back before the next product. The first step that fails
/// ends them.
pub fn gemv_fallback(rows: &Vec<i32>, n_blocks: i32) -> (r: Vec<GemvOp>)
    requires
        0 <= n_blocks * 1024 <= usize::MAX,
        forall|i: int| 0 <= i < rows@.len() ==> 0 <= #[trigger] rows@[i] * 4 <= usize::MAX,
    ensures
        r@ == gemv_steps(rows@, n_blocks, rows@.len()),
{
    let mut out: Vec<GemvOp> = Vec::new();
    out.push(GemvOp::CopyIn { bytes: n_blocks as usize * 1024 });
    assert(out@ =~= gemv_steps(rows@, n_blocks, 0));
    let mut i: usize = 0;
    while i < rows.len()
        invariant
            i <= rows@.len(),
            0 <= n_blocks * 1024 <= usize::MAX,
            forall|i: int| 0 <= i < rows@.len() ==> 0 <= #[trigger] rows@[i] * 4 <= usize::MAX,
            out@ == gemv_steps(rows@, n_blocks, i as nat),
        decreases rows@.len() - i,
    {
        let n: i32 = rows[i];
        out.push(GemvOp::Multiply { matrix: i, rows: n, blocks: n_blocks });
        out.push(GemvOp::CopyOut { matrix: i, bytes: n as usize * 4 });
        i += 1;
    }
    out
}

/// The vector is copied once, at the start; then every matrix has its product and its copy
/// back, in order.
pub proof fn law_gemv_steps(rows: Seq<i32>, blocks: i32, n: nat)
    ensures
        gemv_steps(rows, blocks, n).len() == 1 + 2 * n,
        gemv_steps(rows, blocks, n)[0] == (GemvOp::CopyIn { bytes: (blocks * 1024) as usize }),
        forall|i: int|
            0 <= i < n ==> #[trigger] gemv_steps(rows, blocks, n)[1 + 2 * i] == (
            GemvOp::Multiply { matrix: i as usize, rows: rows[i], blocks }),
        forall|i: int|
            0 <= i < n ==> #[trigger] gemv_steps(rows, blocks, n)[2 + 2 * i] == (GemvOp::CopyOut {
                matrix: i as usize,
                bytes: (rows[i] * 4) as usize,
            }),
    decreases n,
{
    if n > 0 {
        let m = (n - 1) as nat;
        law_gemv_steps(rows, blocks, m);
        let a = gemv_steps(rows, blocks, m);
        let b = gemv_steps(rows, blocks, n);
        assert(b.len() == a.len() + 2);
        assert forall|i: int| 0 <= i < n implies #[trigger] b[1 + 2 * i] == (GemvOp::Multiply {
            matrix: i as usize,
            rows: rows[i],
            blocks,
        }) by {
            if i < m {
                assert(b[1 + 2 * i] == a[1 + 2 * i]);
            }
        }
        assert forall|i: int| 0 <= i < n implies #[trigger] b[2 + 2 * i] == (GemvOp::CopyOut {
            matrix: i as usize,
            bytes: (rows[i] * 4) as usize,
        }) by {
            if i < m {
                assert(b[2 + 2 * i] == a[2 + 2 * i]);
            }
        }
    }
}

/// Positions go round the window: the first ones have the places with their numbers, and each
/// has the place behind that of the one before it, or the first one.
pub proof fn law_places_go_round(pos: usize, window: usize, r: usize, next: usize)
    requires
        window > 0,
        pos < usize::MAX,
        call_ensures(window_slot, (pos, window), r),
        call_ensures(window_slot, ((pos + 1) as usize, window), next),
    ensures
        pos < window ==> r == pos,
        r < window,
        next == r + 1 || (r + 1 == window && next == 0),
{
    let (p, w) = (pos as int, window as int);
    vstd::arithmetic::div_mod::lemma_fundamental_div_mod(p, w);
    if pos < window {
        vstd::arithmetic::div_mod::lemma_small_mod(pos as nat, window as nat);
    }
    let q = p / w;
    if r + 1 < window {
        vstd::arithmetic::div_mod::lemma_fundamental_div_mod_converse(p + 1, w, q, r + 1);
    } else {
        assert(w * (q + 1) == w * q + w) by (nonlinear_arith);
        assert((q + 1) * w == w * (q + 1)) by (nonlinear_arith);
        assert(q * w == w * q) by (nonlinear_arith);
        vstd::arithmetic::div_mod::lemma_fundamental_div_mod_converse(p + 1, w, q + 1, 0);
    }
}

/// Attention on the device covers all positions there are, as far as the window holds them.
pub proof fn law_window_covers(operational: bool, seq_len: usize, window: usize, r: Option<usize>)
    requires
        call_ensures(window_length, (operational, seq_len, window), r),
    ensures
        r matches Some(n) ==> operational && 0 < n && n <= seq_len && n <= window && (n == seq_len || n
            == window),
        r is None <==> !operational || seq_len == 0 || window == 0,
{
}

/// Work in flight grows one by one up to its limit.
pub proof fn law_depth_limited(current: u32, max: u32, r: Option<u32>)
    requires
        call_ensures(next_depth, (current, max), r),
    ensures
        r matches Some(n) ==> n == current + 1 && n <= max,
        r is None <==> current >= max,
{
}

/// Keys go before values, values only behind keys that went, and an upload is done only where
/// both went.
pub proof fn law_keys_before_values(keys: Option<bool>, values: Option<bool>, r: KvStep)
    requires
        call_ensures(kv_step, (keys, values), r),
    ensures
        r == KvStep::CopyKeys <==> keys is None,
        r == KvStep::CopyValues ==> keys == Some(true) && values is None,
        r == KvStep::Done(true) <==> keys == Some(true) && values == Some(true),
        keys == Some(false) ==> r == KvStep::Done(false),
{
}

/// Recorded work is replayed, unrecorded work is recorded first, and without weights there is
/// none.
pub proof fn law_gemv_replayed(g: &GemvGraphs, layer: usize, there: bool, r: GemvStart)
    requires
        layer < g.recorded@.len(),
        call_ensures(GemvGraphs::start, (g, layer, there), r),
    ensures
        r == GemvStart::Fail <==> !there,
        r == GemvStart::Replay <==> there && g.recorded@[layer as int],
        r == GemvStart::Create <==> there && !g.recorded@[layer as int],
{
}

/// Scores need their buffer before anything else; then a recorded length is replayed.
pub proof fn law_scores_first(g: &GraphCache, seq_len: usize, r: Launch)
    requires
        call_ensures(GraphCache::launch, (g, seq_len), r),
    ensures
        !g.scores <==> r == Launch::AllocScores,
        g.scores && 0 < seq_len < g.recorded@.len() && g.recorded@[seq_len as int] ==> r
            == Launch::Replay,
        g.scores && 0 < seq_len < g.recorded@.len() && !g.recorded@[seq_len as int] ==> r
            == Launch::Create,
        g.scores && !(0 < seq_len < g.recorded@.len()) ==> r == Launch::Stream,
{
}

/// A launch succeeds only where a replay or a direct launch did, and a replay that fails is
/// followed by a direct launch.
pub proof fn law_launch_outcome(recorded: Seq<bool>, seq_len: nat, step: Launch, ok: bool)
    requires
        !(step is Done),
    ensures
        next_launch(recorded, seq_len, step, ok) == Launch::Done(true) <==> ok && (step
            == Launch::Replay || step == Launch::Stream),
        !ok && (step == Launch::Create || step == Launch::Replay) ==> next_launch(
            recorded,
            seq_len,
            step,
            ok,
        ) == Launch::Stream,
        !ok && (step == Launch::AllocScores || step == Launch::Stream) ==> next_launch(
            recorded,
            seq_len,
            step,
            ok,
        ) == Launch::Done(false),
        ok && step == Launch::Create ==> next_launch(recorded, seq_len, step, ok) == Launch::Replay,
{
}

} // verus!
