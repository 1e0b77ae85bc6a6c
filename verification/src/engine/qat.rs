//! Calibration of quantised weights: which blocks have been seen at work, where they lie, and
//! how new scales are written into them.

use crate::text::decimal;
use crate::text::same_text;
use vstd::prelude::*;

use crate::engine::prefetch::layer_matrices;
use crate::engine::prefetch::matrices;

verus! {

/// Where the matrices of a layer lie in its ring, and how many rows each has.
#[derive(Clone, Copy, Debug, PartialEq, Eq, Structural)]
pub struct RingLayout {
    pub q_off: usize,
    pub k_off: usize,
    pub v_off: usize,
    pub o_off: usize,
    pub gate_off: usize,
    pub up_off: usize,
    pub down_off: usize,
    /// The length of the ring.
    pub len: usize,
    pub q_nr: usize,
    pub k_nr: usize,
    pub v_nr: usize,
    pub o_nr: usize,
    pub gate_nr: usize,
    pub up_nr: usize,
    pub down_nr: usize,
    /// The columns of the last matrix.
    pub down_nc: usize,
}

/// Where a matrix lies, its rows, and the blocks of a row.
#[derive(Clone, Copy, Debug, PartialEq, Eq, Structural)]
pub struct Span {
    pub start: usize,
    pub end: usize,
    pub rows: usize,
    pub blocks: usize,
}

impl RingLayout {
    /// The spans of the seven matrices; each ends where the next begins.
    pub open spec fn spec_spans(self, embed: usize, ffn: usize) -> Seq<Span> {
        seq![
            Span { start: self.q_off, end: self.k_off, rows: self.q_nr, blocks: embed },
            Span { start: self.k_off, end: self.v_off, rows: self.k_nr, blocks: embed },
            Span { start: self.v_off, end: self.o_off, rows: self.v_nr, blocks: embed },
            Span { start: self.o_off, end: self.gate_off, rows: self.o_nr, blocks: embed },
            Span { start: self.gate_off, end: self.up_off, rows: self.gate_nr, blocks: embed },
            Span { start: self.up_off, end: self.down_off, rows: self.up_nr, blocks: embed },
            Span { start: self.down_off, end: self.len, rows: self.down_nr, blocks: ffn },
        ]
    }

    /// The spans of the seven matrices.
    pub fn spans(&self, embed: usize, ffn: usize) -> (r: [Span; 7])
        ensures
            r@ == self.spec_spans(embed, ffn),
    {
        let r: [Span; 7] = [
            Span { start: self.q_off, end: self.k_off, rows: self.q_nr, blocks: embed },
            Span { start: self.k_off, end: self.v_off, rows: self.k_nr, blocks: embed },
            Span { start: self.v_off, end: self.o_off, rows: self.v_nr, blocks: embed },
            Span { start: self.o_off, end: self.gate_off, rows: self.o_nr, blocks: embed },
            Span { start: self.gate_off, end: self.up_off, rows: self.gate_nr, blocks: embed },
            Span { start: self.up_off, end: self.down_off, rows: self.up_nr, blocks: embed },
            Span { start: self.down_off, end: self.len, rows: self.down_nr, blocks: ffn },
        ];
        assert(r@ =~= self.spec_spans(embed, ffn));
        r
    }
}

/// A block that can be calibrated.
#[derive(Clone, Copy, Debug, PartialEq, Eq, Structural)]
pub struct BlockJob {
    /// The block's number in its matrix.
    pub index: usize,
    /// Where the block begins in the ring.
    pub at: usize,
    /// Where its weights begin in the full matrix.
    pub first_weight: usize,
}

/// The job of a block by its number.
pub open spec fn job(span: Span, n_cols: nat, i: nat) -> BlockJob {
    BlockJob {
        index: i as usize,
        at: (span.start + i * 144) as usize,
        first_weight: (i / span.blocks as nat * n_cols + i % span.blocks as nat * 256) as usize,
    }
}

/// Whether a block lies within its matrix and has been seen at work.
pub open spec fn eligible(span: Span, counts: Seq<u64>, i: nat) -> bool {
    &&& i * 144 + 144 <= span.end - span.start
    &&& i < counts.len()
    &&& counts[i as int] >= 1
}

/// The jobs of the first `n` blocks.
pub open spec fn jobs(span: Span, n_cols: nat, counts: Seq<u64>, n: nat) -> Seq<BlockJob>
    decreases n,
{
    if n == 0 {
        Seq::empty()
    } else {
        let rest = jobs(span, n_cols, counts, (n - 1) as nat);
        if eligible(span, counts, (n - 1) as nat) {
            rest.push(job(span, n_cols, (n - 1) as nat))
        } else {
            rest
        }
    }
}

/// How often each block of each matrix of each layer was at work.
pub struct QatCalibrator {
    pub layer_stats: Vec<Vec<Vec<u64>>>,
    pub n_blocks_embed: usize,
    pub n_blocks_ffn: usize,
}

/// Whether counts are those of a new calibrator, for the matrices of a layer.
pub open spec fn fresh_counts(stats: Seq<Vec<u64>>, spans: Seq<Span>) -> bool {
    &&& stats.len() == spans.len()
    &&& forall|t: int|
        0 <= t < stats.len() ==> (#[trigger] stats[t])@ == Seq::new(
            (spans[t].rows * spans[t].blocks) as nat,
            |i: int| 0u64,
        )
}

/// Whether the numbers of all blocks of a layer are machine numbers.
pub open spec fn countable(spans: Seq<Span>) -> bool {
    forall|t: int|
        0 <= t < spans.len() ==> (#[trigger] spans[t]).rows * spans[t].blocks <= usize::MAX
}

/// The blocks of a row of the last matrix, by its first layer; one where there is none.
pub open spec fn ffn_blocks(rings: Seq<RingLayout>, layers: nat) -> usize {
    if layers > 0 {
        (rings[0].down_nc / 256) as usize
    } else {
        1
    }
}

pub open spec fn at_most(a: usize, b: usize) -> usize {
    if a <= b {
        a
    } else {
        b
    }
}

impl QatCalibrator {
    pub const T_Q: usize = 0;

    pub const T_K: usize = 1;

    pub const T_V: usize = 2;

    pub const T_O: usize = 3;

    pub const T_GATE: usize = 4;

    pub const T_UP: usize = 5;

    pub const T_DOWN: usize = 6;

    /// A calibrator for all layers of a model.
    pub fn new(rings: &Vec<RingLayout>, num_layers: usize, embed_dim: usize) -> (r: QatCalibrator)
        requires
            num_layers <= rings@.len(),
            forall|l: int|
                0 <= l < num_layers ==> countable(
                    (#[trigger] rings@[l]).spec_spans(
                        (embed_dim / 256) as usize,
                        ffn_blocks(rings@, num_layers as nat),
                    ),
                ),
        ensures
            r.n_blocks_embed == embed_dim / 256,
            r.n_blocks_ffn == ffn_blocks(rings@, num_layers as nat),
            r.layer_stats@.len() == num_layers,
            forall|l: int|
                0 <= l < num_layers ==> fresh_counts(
                    (#[trigger] r.layer_stats@[l])@,
                    rings@[l].spec_spans(r.n_blocks_embed, r.n_blocks_ffn),
                ),
    {
        Self::new_with_layers(rings, num_layers, embed_dim, num_layers)
    }

    /// A calibrator for the first layers of a model.
    pub fn new_with_layers(
        rings: &Vec<RingLayout>,
        num_layers: usize,
        embed_dim: usize,
        max_layers: usize,
    ) -> (r: QatCalibrator)
        requires
            at_most(num_layers, max_layers) <= rings@.len(),
            forall|l: int|
                0 <= l < at_most(num_layers, max_layers) ==> countable(
                    (#[trigger] rings@[l]).spec_spans(
                        (embed_dim / 256) as usize,
                        ffn_blocks(rings@, at_most(num_layers, max_layers) as nat),
                    ),
                ),
        ensures
            r.n_blocks_embed == embed_dim / 256,
            r.n_blocks_ffn == ffn_blocks(rings@, at_most(num_layers, max_layers) as nat),
            r.layer_stats@.len() == at_most(num_layers, max_layers),
            forall|l: int|
                0 <= l < r.layer_stats@.len() ==> fresh_counts(
                    (#[trigger] r.layer_stats@[l])@,
                    rings@[l].spec_spans(r.n_blocks_embed, r.n_blocks_ffn),
                ),
    {
        let n: usize = if num_layers <= max_layers {
            num_layers
        } else {
            max_layers
        };
        let n_blocks_embed: usize = embed_dim / 256;
        let n_blocks_ffn: usize = if n > 0 {
            rings[0].down_nc / 256
        } else {
            1
        };
        let mut layer_stats: Vec<Vec<Vec<u64>>> = Vec::new();
        let mut l: usize = 0;
        while l < n
            invariant
                l <= n <= rings@.len(),
                layer_stats@.len() == l,
                forall|l: int|
                    0 <= l < n ==> countable(
                        (#[trigger] rings@[l]).spec_spans(n_blocks_embed, n_blocks_ffn),
                    ),
                forall|k: int|
                    0 <= k < l ==> fresh_counts(
                        (#[trigger] layer_stats@[k])@,
                        rings@[k].spec_spans(n_blocks_embed, n_blocks_ffn),
                    ),
            decreases n - l,
        {
            let spans = rings[l].spans(n_blocks_embed, n_blocks_ffn);
            let mut stats: Vec<Vec<u64>> = Vec::new();
            let mut t: usize = 0;
            assert(countable(spans@));
            while t < 7
                invariant
                    t <= 7,
                    spans@.len() == 7,
                    stats@.len() == t,
                    countable(spans@),
                    forall|k: int|
                        0 <= k < t ==> (#[trigger] stats@[k])@ == Seq::new(
                            (spans@[k].rows * spans@[k].blocks) as nat,
                            |i: int| 0u64,
                        ),
                decreases 7 - t,
            {
                let s = spans[t];
                assert(spans@[t as int].rows * spans@[t as int].blocks <= usize::MAX);
                assert(0 <= s.rows * s.blocks) by (nonlinear_arith)
                    requires
                        s.rows >= 0,
                        s.blocks >= 0,
                ;
                let v: Vec<u64> = vec![0u64; s.rows * s.blocks];
                assert(v@ =~= Seq::new((s.rows * s.blocks) as nat, |i: int| 0u64));
                stats.push(v);
                t += 1;
            }
            layer_stats.push(stats);
            l += 1;
        }
        QatCalibrator { layer_stats, n_blocks_embed, n_blocks_ffn }
    }

    /// Whether a block is one that is counted.
    pub open spec fn counted(&self, layer: int, tensor: int, block: int) -> bool {
        &&& 0 <= layer < self.layer_stats@.len()
        &&& 0 <= tensor < self.layer_stats@[layer]@.len()
        &&& 0 <= block < self.layer_stats@[layer]@[tensor]@.len()
    }

    /// The count of a block.
    pub open spec fn count(&self, layer: int, tensor: int, block: int) -> u64 {
        self.layer_stats@[layer]@[tensor]@[block]
    }

    /// Counts that a block was at work on some inputs. Gives how many of the inputs belong to
    /// the block; nothing where there is no such block.
    pub fn record_activation(
        &mut self,
        layer: usize,
        tensor_idx: usize,
        block_idx: usize,
        inputs: usize,
    ) -> (r: Option<usize>)
        ensures
            r == (if old(self).counted(layer as int, tensor_idx as int, block_idx as int) {
                Some(at_most(256, inputs))
            } else {
                None
            }),
            final(self).n_blocks_embed == old(self).n_blocks_embed,
            final(self).n_blocks_ffn == old(self).n_blocks_ffn,
            forall|l: int, t: int, b: int|
                final(self).counted(l, t, b) == old(self).counted(l, t, b),
            forall|l: int, t: int, b: int| #[trigger]
                final(self).counted(l, t, b) ==> final(self).count(l, t, b) == (if l == layer && t
                    == tensor_idx && b == block_idx {
                    old(self).count(l, t, b).wrapping_add(1)
                } else {
                    old(self).count(l, t, b)
                }),
    {
        if layer >= self.layer_stats.len() || tensor_idx >= self.layer_stats[layer].len()
            || block_idx >= self.layer_stats[layer][tensor_idx].len() {
            return None;
        }
        let c: u64 = self.layer_stats[layer][tensor_idx][block_idx];
        self.layer_stats[layer][tensor_idx][block_idx] = c.wrapping_add(1);
        Some(
            if 256 <= inputs {
                256
            } else {
                inputs
            },
        )
    }

    /// The number of a block in its matrix, row by row.
    pub fn block_idx(row: usize, bc: usize, n_blocks_per_row: usize) -> (r: usize)
        requires
            row * n_blocks_per_row + bc <= usize::MAX,
        ensures
            r == row * n_blocks_per_row + bc,
    {
        assert(0 <= row * n_blocks_per_row) by (nonlinear_arith)
            requires
                row >= 0,
                n_blocks_per_row >= 0,
        ;
        row * n_blocks_per_row + bc
    }

    /// The name of a matrix of a layer in the file.
    pub fn tensor_gguf_name(layer: usize, ti: usize) -> (r: String)
        requires
            ti < 7,
        ensures
            r@ == matrices()[ti as int].spec_name(layer as nat),
    {
        let m = layer_matrices();
        m[ti].name(layer)
    }

    /// The matrices that are calibrated, as layer and number, in order: those of the layers that
    /// have counts, as far as full weights are there under their names.
    pub fn targets(&self, layers: usize, given: &Vec<String>) -> (r: Vec<(usize, usize)>)
        ensures
            r@ == named_targets(given@, 7 * at_most(layers, self.layer_stats@.len() as usize) as nat),
    {
        let n: usize = if layers <= self.layer_stats.len() {
            layers
        } else {
            self.layer_stats.len()
        };
        let mut out: Vec<(usize, usize)> = Vec::new();
        let mut l: usize = 0;
        while l < n
            invariant
                l <= n,
                out@ == named_targets(given@, 7 * l as nat),
            decreases n - l,
        {
            let mut t: usize = 0;
            while t < 7
                invariant
                    t <= 7,
                    out@ == named_targets(given@, (7 * l + t) as nat),
                decreases 7 - t,
            {
                let name = QatCalibrator::tensor_gguf_name(l, t);
                proof {
                    let k = 7 * l + t;
                    assert(k / 7 == l && k % 7 == t);
                }
                if holds_name(given, name.as_str()) {
                    out.push((l, t));
                }
                t += 1;
            }
            l += 1;
        }
        out
    }

    /// The blocks of a matrix that can be calibrated, in order: those that lie within it and
    /// have been at work.
    pub fn block_jobs(&self, layer: usize, ti: usize, span: Span, n_cols: usize) -> (r: Vec<
        BlockJob,
    >)
        requires
            layer < self.layer_stats@.len(),
            ti < self.layer_stats@[layer as int]@.len(),
            span.start <= span.end,
            span.rows * span.blocks <= usize::MAX,
            span.rows * n_cols + span.blocks * 256 <= usize::MAX,
        ensures
            r@ == jobs(
                span,
                n_cols as nat,
                self.layer_stats@[layer as int]@[ti as int]@,
                (span.rows * span.blocks) as nat,
            ),
    {
        let counts = &self.layer_stats[layer][ti];
        let len: usize = span.end - span.start;
        assert(0 <= span.rows * span.blocks) by (nonlinear_arith)
            requires
                span.rows >= 0,
                span.blocks >= 0,
        ;
        let total: usize = span.rows * span.blocks;
        let mut out: Vec<BlockJob> = Vec::new();
        let mut i: usize = 0;
        while i < total
            invariant
                i <= total,
                total == span.rows * span.blocks,
                span.start <= span.end,
                len == span.end - span.start,
                counts == self.layer_stats@[layer as int]@[ti as int],
                span.rows * n_cols + span.blocks * 256 <= usize::MAX,
                out@ == jobs(span, n_cols as nat, counts@, i as nat),
            decreases total - i,
        {
            if i < len / 144 && i < counts.len() && counts[i] >= 1 {
                proof {
                    assert(span.blocks > 0) by (nonlinear_arith)
                        requires
                            span.rows * span.blocks > 0,
                            span.rows >= 0,
                            span.blocks >= 0,
                    ;
                    lemma_first_weight(
                        i as nat,
                        span.rows as nat,
                        span.blocks as nat,
                        n_cols as nat,
                    );
                }
                let row: usize = i / span.blocks;
                let bc: usize = i % span.blocks;
                out.push(
                    BlockJob {
                        index: i,
                        at: span.start + i * 144,
                        first_weight: row * n_cols + bc * 256,
                    },
                );
            }
            i += 1;
        }
        out
    }
}

/// Whether a name is among those given.
pub open spec fn is_given(given: Seq<String>, name: Seq<char>) -> bool {
    exists|i: int| 0 <= i < given.len() && (#[trigger] given[i])@ == name
}

fn holds_name(given: &Vec<String>, name: &str) -> (r: bool)
    ensures
        r == is_given(given@, name@),
{
    let mut i: usize = 0;
    while i < given.len()
        invariant
            i <= given@.len(),
            forall|k: int| 0 <= k < i ==> (#[trigger] given@[k])@ != name@,
        decreases given@.len() - i,
    {
        if same_text(given[i].as_str(), name) {
            assert(given@[i as int]@ == name@);
            return true;
        }
        i += 1;
    }
    false
}

/// Among the first `k` matrices, seven of each layer, those whose names are given, as layer and
/// number.
pub open spec fn named_targets(given: Seq<String>, k: nat) -> Seq<(usize, usize)>
    decreases k,
{
    if k == 0 {
        Seq::empty()
    } else {
        let rest = named_targets(given, (k - 1) as nat);
        let (layer, ti) = ((k - 1) / 7, (k - 1) % 7);
        if is_given(given, matrices()[ti].spec_name(layer as nat)) {
            rest.push((layer as usize, ti as usize))
        } else {
            rest
        }
    }
}

/// A matrix whose full weights are not given is left alone.
pub proof fn law_targets_are_given(given: Seq<String>, k: nat, layer: usize, ti: usize)
    requires
        named_targets(given, k).contains((layer, ti)),
        k <= usize::MAX,
    ensures
        ti < 7,
        7 * layer + ti < k,
        is_given(given, matrices()[ti as int].spec_name(layer as nat)),
    decreases k,
{
    if k > 0 {
        let rest = named_targets(given, (k - 1) as nat);
        let all = named_targets(given, k);
        let i = choose|i: int| 0 <= i < all.len() && all[i] == (layer, ti);
        if i < rest.len() {
            assert(rest[i] == (layer, ti));
            law_targets_are_given(given, (k - 1) as nat, layer, ti);
        }
    }
}

/// The weights of a block begin within the full matrix.
proof fn lemma_first_weight(i: nat, rows: nat, blocks: nat, n_cols: nat)
    requires
        blocks > 0,
        i < rows * blocks,
    ensures
        0 <= i / blocks * n_cols <= rows * n_cols,
        i % blocks * 256 <= blocks * 256,
{
    vstd::arithmetic::div_mod::lemma_fundamental_div_mod(i as int, blocks as int);
    vstd::arithmetic::div_mod::lemma_mod_bound(i as int, blocks as int);
    let q = i / blocks;
    assert(q < rows) by (nonlinear_arith)
        requires
            blocks * q <= i,
            i < rows * blocks,
            blocks > 0,
    ;
    assert(0 <= q * n_cols <= rows * n_cols) by (nonlinear_arith)
        requires
            0 <= q < rows,
            n_cols >= 0,
    ;
}

/// A half-precision number as it comes out of a wider format: what is not a number is made
/// quiet.
pub open spec fn quieted(h: u16) -> u16 {
    if h & 0x7C00 == 0x7C00 && h & 0x03FF != 0 {
        h | 0x0200
    } else {
        h
    }
}

fn quiet(h: u16) -> (r: u16)
    ensures
        r == quieted(h),
{
    if h & 0x7C00 == 0x7C00 && h & 0x03FF != 0 {
        h | 0x0200
    } else {
        h
    }
}

/// A number of two bytes, the low one first.
pub open spec fn word_at(s: Seq<u8>, at: int) -> u16 {
    (s[at] + s[at + 1] * 256) as u16
}

/// Bytes with a number written to two of them, the low one first.
pub open spec fn with_word(s: Seq<u8>, at: int, w: u16) -> Seq<u8> {
    s.update(at, (w % 256) as u8).update(at + 1, (w / 256) as u8)
}

/// Whether new scales differ from those of a block.
pub open spec fn rescales(s: Seq<u8>, at: int, d: u16, dmin: u16) -> bool {
    d != quieted(word_at(s, at)) || dmin != quieted(word_at(s, at + 2))
}

/// A ring with new scales in a block.
pub open spec fn rescaled(s: Seq<u8>, at: int, d: u16, dmin: u16) -> Seq<u8> {
    if rescales(s, at, d, dmin) {
        with_word(with_word(s, at, d), at + 2, dmin)
    } else {
        s
    }
}

/// Gives a block new scales. Says whether they differ from the old.
pub fn apply_block(ring: &mut Vec<u8>, at: usize, d_new: u16, dm_new: u16) -> (r: bool)
    requires
        at + 144 <= old(ring)@.len(),
    ensures
        r == rescales(old(ring)@, at as int, d_new, dm_new),
        final(ring)@ == rescaled(old(ring)@, at as int, d_new, dm_new),
{
    let _len: usize = ring.len();
    let d_old: u16 = ring[at] as u16 + ring[at + 1] as u16 * 256;
    let dm_old: u16 = ring[at + 2] as u16 + ring[at + 3] as u16 * 256;
    if d_new != quiet(d_old) || dm_new != quiet(dm_old) {
        ring.set(at, (d_new % 256) as u8);
        ring.set(at + 1, (d_new / 256) as u8);
        ring.set(at + 2, (dm_new % 256) as u8);
        ring.set(at + 3, (dm_new / 256) as u8);
        true
    } else {
        false
    }
}

/// New scales for a block of a ring.
#[derive(Clone, Copy, Debug, PartialEq, Eq, Structural)]
pub struct Rescale {
    /// Where the block begins in the ring.
    pub at: usize,
    pub d: u16,
    pub dmin: u16,
}

/// A ring after the first `n` of some new scales.
pub open spec fn ring_after(s: Seq<u8>, news: Seq<Rescale>, n: nat) -> Seq<u8>
    decreases n,
{
    if n == 0 {
        s
    } else {
        let r = news[n - 1];
        rescaled(ring_after(s, news, (n - 1) as nat), r.at as int, r.d, r.dmin)
    }
}

/// How many of the first `n` of some new scales change a block.
pub open spec fn changes(s: Seq<u8>, news: Seq<Rescale>, n: nat) -> nat
    decreases n,
{
    if n == 0 {
        0
    } else {
        let m = (n - 1) as nat;
        let r = news[n - 1];
        changes(s, news, m) + if rescales(ring_after(s, news, m), r.at as int, r.d, r.dmin) {
            1nat
        } else {
            0
        }
    }
}

/// Gives blocks new scales, in order. Gives the number of blocks that changed.
pub fn apply_all(ring: &mut Vec<u8>, news: &Vec<Rescale>) -> (r: u64)
    requires
        forall|i: int| 0 <= i < news@.len() ==> (#[trigger] news@[i]).at + 144 <= old(ring)@.len(),
    ensures
        final(ring)@ == ring_after(old(ring)@, news@, news@.len()),
        r == changes(old(ring)@, news@, news@.len()),
{
    let total: usize = news.len();
    let mut count: u64 = 0;
    let mut i: usize = 0;
    while i < total
        invariant
            i <= total == news@.len(),
            ring@.len() == old(ring)@.len(),
            forall|i: int|
                0 <= i < news@.len() ==> (#[trigger] news@[i]).at + 144 <= old(ring)@.len(),
            ring@ == ring_after(old(ring)@, news@, i as nat),
            count == changes(old(ring)@, news@, i as nat),
            count <= i,
        decreases news@.len() - i,
    {
        let r = news[i];
        assert(news@[i as int].at + 144 <= old(ring)@.len());
        if apply_block(ring, r.at, r.d, r.dmin) {
            count = count + 1;
        }
        i += 1;
    }
    count
}

/// Two blocks of a matrix never have the same number.
pub proof fn law_block_idx_unique(row: nat, bc: nat, row2: nat, bc2: nat, n: nat)
    requires
        bc < n,
        bc2 < n,
        row * n + bc == row2 * n + bc2,
    ensures
        row == row2,
        bc == bc2,
{
    vstd::arithmetic::div_mod::lemma_fundamental_div_mod_converse(
        (row * n + bc) as int,
        n as int,
        row as int,
        bc as int,
    );
    vstd::arithmetic::div_mod::lemma_fundamental_div_mod_converse(
        (row2 * n + bc2) as int,
        n as int,
        row2 as int,
        bc2 as int,
    );
}

/// New scales take effect: the block has them afterwards, nothing outside its first four
/// bytes changes, and giving them again changes nothing.
pub proof fn law_rescaled(s: Seq<u8>, at: int, d: u16, dmin: u16)
    requires
        0 <= at,
        at + 144 <= s.len(),
        quieted(d) == d,
        quieted(dmin) == dmin,
    ensures
        !rescales(rescaled(s, at, d, dmin), at, d, dmin),
        rescaled(s, at, d, dmin).len() == s.len(),
        forall|i: int|
            0 <= i < s.len() && !(at <= i < at + 4) ==> rescaled(s, at, d, dmin)[i] == s[i],
{
    if rescales(s, at, d, dmin) {
        let t = rescaled(s, at, d, dmin);
        assert(word_at(t, at) == d);
        assert(word_at(t, at + 2) == dmin);
    }
}

/// The matrices of a layer lie one behind the other in its ring, in the order of their numbers,
/// up to its end; only the last one has rows of the feed-forward width.
pub proof fn law_spans_in_a_row(l: &RingLayout, embed: usize, ffn: usize, r: [Span; 7], t: int)
    requires
        call_ensures(RingLayout::spans, (l, embed, ffn), r),
        0 <= t < 7,
    ensures
        r@[0].start == l.q_off,
        t < 6 ==> r@[t].end == r@[t + 1].start && r@[t].blocks == embed,
        r@[6].end == l.len && r@[6].blocks == ffn,
        r@[QatCalibrator::T_Q as int].rows == l.q_nr,
        r@[QatCalibrator::T_K as int].rows == l.k_nr,
        r@[QatCalibrator::T_V as int].rows == l.v_nr,
        r@[QatCalibrator::T_O as int].rows == l.o_nr,
        r@[QatCalibrator::T_GATE as int].rows == l.gate_nr,
        r@[QatCalibrator::T_UP as int].rows == l.up_nr,
        r@[QatCalibrator::T_DOWN as int].rows == l.down_nr,
        r@[QatCalibrator::T_V as int].start == l.v_off,
        r@[QatCalibrator::T_GATE as int].start == l.gate_off,
{
    let s = l.spec_spans(embed, ffn);
    assert(r@ == s);
}

/// The numbers of matrices stand for the names that the file gives them.
pub proof fn law_numbers_are_names(layer: usize, ti: usize, r: String)
    requires
        call_ensures(QatCalibrator::tensor_gguf_name, (layer, ti), r),
        ti < 7,
    ensures
        ({
            let front = "blk."@ + decimal(layer as nat);
            &&& ti == QatCalibrator::T_Q ==> r@ == front + ".attn_q.weight"@
            &&& ti == QatCalibrator::T_K ==> r@ == front + ".attn_k.weight"@
            &&& ti == QatCalibrator::T_V ==> r@ == front + ".attn_v.weight"@
            &&& ti == QatCalibrator::T_O ==> r@ == front + ".attn_output.weight"@
            &&& ti == QatCalibrator::T_GATE ==> r@ == front + ".ffn_gate.weight"@
            &&& ti == QatCalibrator::T_UP ==> r@ == front + ".ffn_up.weight"@
            &&& ti == QatCalibrator::T_DOWN ==> r@ == front + ".ffn_down.weight"@
        }),
{
}

/// A job is what it says: its block is the one with its number, 144 bytes behind those before it
/// in the matrix, and its full weights are those of the same row and columns. Blocks come in
/// order, each once, and only those that were at work.
pub proof fn law_jobs_meet_weights(
    q: &QatCalibrator,
    layer: usize,
    ti: usize,
    span: Span,
    n_cols: usize,
    r: Vec<BlockJob>,
    row: nat,
    bc: nat,
    i: int,
)
    requires
        layer < q.layer_stats@.len(),
        ti < q.layer_stats@[layer as int]@.len(),
        span.start <= span.end,
        span.rows * span.blocks <= usize::MAX,
        span.rows * n_cols + span.blocks * 256 <= usize::MAX,
        call_ensures(QatCalibrator::block_jobs, (q, layer, ti, span, n_cols), r),
        0 <= i < r@.len(),
        bc < span.blocks,
        r@[i].index == row * span.blocks + bc,
    ensures
        r@[i].at == span.start + r@[i].index * 144,
        r@[i].at + 144 <= span.end,
        r@[i].first_weight == row * n_cols + bc * 256,
        row < span.rows,
        q.count(layer as int, ti as int, r@[i].index as int) >= 1,
        i + 1 < r@.len() ==> r@[i].index < r@[i + 1].index,
{
    let counts = q.layer_stats@[layer as int]@[ti as int]@;
    let n = (span.rows * span.blocks) as nat;
    assert(0 <= span.rows * span.blocks) by (nonlinear_arith)
        requires
            span.rows >= 0,
            span.blocks >= 0,
    ;
    lemma_jobs(span, n_cols as nat, counts, n, i);
    let k = r@[i].index as nat;
    vstd::arithmetic::div_mod::lemma_fundamental_div_mod_converse(
        k as int,
        span.blocks as int,
        row as int,
        bc as int,
    );
    lemma_first_weight(k, span.rows as nat, span.blocks as nat, n_cols as nat);
    assert(row < span.rows) by (nonlinear_arith)
        requires
            row * span.blocks + bc < span.rows * span.blocks,
            bc >= 0,
            span.blocks >= 0,
    ;
    assert(k / span.blocks as nat * n_cols == row * n_cols);
    if i + 1 < r@.len() {
        lemma_jobs_ordered(span, n_cols as nat, counts, n, i);
    }
}

proof fn lemma_jobs(span: Span, n_cols: nat, counts: Seq<u64>, n: nat, i: int)
    requires
        n <= usize::MAX,
        0 <= i < jobs(span, n_cols, counts, n).len(),
    ensures
        ({
            let j = jobs(span, n_cols, counts, n)[i];
            j.index < n && j == job(span, n_cols, j.index as nat) && eligible(
                span,
                counts,
                j.index as nat,
            )
        }),
    decreases n,
{
    if n > 0 {
        let rest = jobs(span, n_cols, counts, (n - 1) as nat);
        if i < rest.len() {
            lemma_jobs(span, n_cols, counts, (n - 1) as nat, i);
        }
    }
}

proof fn lemma_jobs_ordered(span: Span, n_cols: nat, counts: Seq<u64>, n: nat, i: int)
    requires
        n <= usize::MAX,
        0 <= i,
        i + 1 < jobs(span, n_cols, counts, n).len(),
    ensures
        jobs(span, n_cols, counts, n)[i].index < jobs(span, n_cols, counts, n)[i + 1].index,
    decreases n,
{
    let rest = jobs(span, n_cols, counts, (n - 1) as nat);
    if i + 1 < rest.len() {
        lemma_jobs_ordered(span, n_cols, counts, (n - 1) as nat, i);
    } else {
        lemma_jobs(span, n_cols, counts, (n - 1) as nat, i);
    }
}

/// Every block of a matrix that lies within it and was at work is calibrated.
pub proof fn law_jobs_complete(
    q: &QatCalibrator,
    layer: usize,
    ti: usize,
    span: Span,
    n_cols: usize,
    r: Vec<BlockJob>,
    k: nat,
)
    requires
        layer < q.layer_stats@.len(),
        ti < q.layer_stats@[layer as int]@.len(),
        span.start <= span.end,
        span.rows * span.blocks <= usize::MAX,
        call_ensures(QatCalibrator::block_jobs, (q, layer, ti, span, n_cols), r),
        k < span.rows * span.blocks,
        span.start + k * 144 + 144 <= span.end,
        q.counted(layer as int, ti as int, k as int),
        q.count(layer as int, ti as int, k as int) >= 1,
    ensures
        exists|i: int| 0 <= i < r@.len() && (#[trigger] r@[i]).index == k,
{
    let counts = q.layer_stats@[layer as int]@[ti as int]@;
    lemma_jobs_has(span, n_cols as nat, counts, (span.rows * span.blocks) as nat, k);
}

proof fn lemma_jobs_has(span: Span, n_cols: nat, counts: Seq<u64>, n: nat, k: nat)
    requires
        n <= usize::MAX,
        k < n,
        eligible(span, counts, k),
    ensures
        exists|i: int|
            0 <= i < jobs(span, n_cols, counts, n).len() && (#[trigger] jobs(
                span,
                n_cols,
                counts,
                n,
            )[i]).index == k,
    decreases n,
{
    let all = jobs(span, n_cols, counts, n);
    let rest = jobs(span, n_cols, counts, (n - 1) as nat);
    if k < n - 1 {
        lemma_jobs_has(span, n_cols, counts, (n - 1) as nat, k);
        let i = choose|i: int| 0 <= i < rest.len() && (#[trigger] rest[i]).index == k;
        assert(all[i].index == k);
    } else {
        assert(all[all.len() - 1].index == k);
    }
}

/// A matrix of a layer with counts is calibrated where its full weights are given, and only
/// there.
pub proof fn law_targets_complete(
    q: &QatCalibrator,
    layers: usize,
    given: &Vec<String>,
    r: Vec<(usize, usize)>,
    layer: usize,
    ti: usize,
    name: String,
)
    requires
        call_ensures(QatCalibrator::targets, (q, layers, given), r),
        call_ensures(QatCalibrator::tensor_gguf_name, (layer, ti), name),
        q.layer_stats@.len() <= usize::MAX,
        7 * layer + ti <= usize::MAX,
        ti < 7,
    ensures
        r@.contains((layer, ti)) <==> layer < layers && layer < q.layer_stats@.len() && is_given(
            given@,
            name@,
        ),
{
    let n = 7 * at_most(layers, q.layer_stats@.len() as usize) as nat;
    if layer < layers && layer < q.layer_stats@.len() && is_given(given@, name@) {
        lemma_targets_has(given@, n, layer, ti);
    }
    if r@.contains((layer, ti)) {
        lemma_targets_given(given@, n, layer, ti);
    }
}

proof fn lemma_targets_given(given: Seq<String>, k: nat, layer: usize, ti: usize)
    requires
        named_targets(given, k).contains((layer, ti)),
        k <= 7 * usize::MAX,
    ensures
        ti < 7,
        7 * layer + ti < k,
        is_given(given, matrices()[ti as int].spec_name(layer as nat)),
    decreases k,
{
    if k > 0 {
        let rest = named_targets(given, (k - 1) as nat);
        let all = named_targets(given, k);
        let i = choose|i: int| 0 <= i < all.len() && all[i] == (layer, ti);
        if i < rest.len() {
            assert(rest[i] == (layer, ti));
            lemma_targets_given(given, (k - 1) as nat, layer, ti);
        }
    }
}

proof fn lemma_targets_has(given: Seq<String>, k: nat, layer: usize, ti: usize)
    requires
        ti < 7,
        7 * layer + ti < k,
        is_given(given, matrices()[ti as int].spec_name(layer as nat)),
    ensures
        named_targets(given, k).contains((layer, ti)),
    decreases k,
{
    let all = named_targets(given, k);
    let rest = named_targets(given, (k - 1) as nat);
    if 7 * layer + ti < k - 1 {
        lemma_targets_has(given, (k - 1) as nat, layer, ti);
        let i = choose|i: int| 0 <= i < rest.len() && rest[i] == (layer, ti);
        assert(all[i] == (layer, ti));
    } else {
        assert((k - 1) / 7 == layer && (k - 1) % 7 == ti);
        assert(all[all.len() - 1] == (layer, ti));
    }
}

/// New scales stand in front of their block, low byte first, and are counted as a change
/// exactly where the bytes of one differ.
pub proof fn law_rescale_writes(s: Seq<u8>, at: int, d: u16, dmin: u16)
    requires
        0 <= at,
        at + 144 <= s.len(),
        d != s[at] + 256 * s[at + 1],
        quieted((s[at] + 256 * s[at + 1]) as u16) == s[at] + 256 * s[at + 1],
    ensures
        ({
            let r = rescaled(s, at, d, dmin);
            &&& rescales(s, at, d, dmin)
            &&& r[at] + 256 * r[at + 1] == d
            &&& r[at + 2] + 256 * r[at + 3] == dmin
        }),
{
}

/// Only what is not a number is read otherwise than it stands, and stays not a number.
pub proof fn law_quieted(h: u16)
    ensures
        h & 0x7c00 != 0x7c00 || h & 0x3ff == 0 ==> quieted(h) == h,
        h & 0x7c00 == 0x7c00 && h & 0x3ff != 0 ==> quieted(h) & 0x7e00 == 0x7e00 && quieted(h)
            & 0xfdff == h & 0xfdff,
        quieted(quieted(h)) == quieted(h),
{
    assert(h & 0x7c00 == 0x7c00 ==> (h | 0x200) & 0x7e00 == 0x7e00 && (h | 0x200) & 0xfdff == h
        & 0xfdff && (h | 0x200) & 0x3ff != 0 && (h | 0x200) & 0x7c00 == 0x7c00 && (h | 0x200) | 0x200
        == h | 0x200) by (bit_vector);
}

/// A calibration begins with a counter for each block of each of the seven matrices of a layer, all
/// at nothing: the rows of a matrix by the blocks of a row, where a block is 256 columns.
pub proof fn law_counters_begin(
    rings: &Vec<RingLayout>,
    num_layers: usize,
    embed_dim: usize,
    max_layers: usize,
    r: QatCalibrator,
    l: int,
    spans: [Span; 7],
    t: int,
    b: int,
)
    requires
        call_ensures(
            QatCalibrator::new_with_layers,
            (rings, num_layers, embed_dim, max_layers),
            r,
        ),
        0 <= l < r.layer_stats@.len(),
        call_ensures(
            RingLayout::spans,
            (&rings@[l], embed_dim / 256, (rings@[0].down_nc / 256) as usize),
            spans,
        ),
    ensures
        r.layer_stats@.len() <= num_layers,
        r.layer_stats@.len() <= max_layers,
        r.layer_stats@.len() == num_layers || r.layer_stats@.len() == max_layers,
        r.counted(l, t, b) <==> 0 <= t < 7 && 0 <= b < spans@[t].rows * spans@[t].blocks,
        r.counted(l, t, b) ==> r.count(l, t, b) == 0,
{
    assert(fresh_counts(
        r.layer_stats@[l]@,
        rings@[l].spec_spans(r.n_blocks_embed, r.n_blocks_ffn),
    ));
    if 0 <= t < 7 {
        let s = r.layer_stats@[l]@[t];
        assert(s@.len() == spans@[t].rows * spans@[t].blocks) by {
            assert(spans@[t].rows * spans@[t].blocks >= 0) by (nonlinear_arith);
        }
    }
}

/// An activation of a block that is counted raises its count by one and no other, and takes in no
/// more than 256 inputs; one of a block that is not changes nothing.
pub proof fn law_activation_counted(
    c: &mut QatCalibrator,
    layer: usize,
    t: usize,
    b: usize,
    inputs: usize,
    r: Option<usize>,
    l2: int,
    t2: int,
    b2: int,
)
    requires
        call_ensures(QatCalibrator::record_activation, (c, layer, t, b, inputs), r),
        old(c).counted(l2, t2, b2),
        old(c).count(l2, t2, b2) < u64::MAX,
        final(c).counted(l2, t2, b2),
    ensures
        r is Some <==> old(c).counted(layer as int, t as int, b as int),
        r matches Some(n) ==> n <= 256 && n <= inputs && (n == 256 || n == inputs),
        (l2, t2, b2) == (layer as int, t as int, b as int) ==> final(c).count(l2, t2, b2) == old(
            c).count(l2, t2, b2) + 1,
        (l2, t2, b2) != (layer as int, t as int, b as int) ==> final(c).count(l2, t2, b2) == old(
            c).count(l2, t2, b2),
{
}

/// The new scales of a list of blocks are written one after the other: those of a longer list are
/// those of the list and then that of the block behind it, and each change is counted once.
pub proof fn law_rescales_one_by_one(
    some: &mut Vec<u8>,
    last: &mut Vec<u8>,
    all: &mut Vec<u8>,
    news: &Vec<Rescale>,
    more: &Vec<Rescale>,
    n: u64,
    changed: bool,
    m: u64,
)
    requires
        *old(all) == *old(some),
        forall|i: int| 0 <= i < more@.len() ==> (#[trigger] more@[i]).at + 144 <= old(all)@.len(),
        more@.len() == news@.len() + 1,
        more@.drop_last() == news@,
        call_ensures(apply_all, (some, news), n),
        *old(last) == *final(some),
        call_ensures(
            apply_block,
            (last, more@.last().at, more@.last().d, more@.last().dmin),
            changed,
        ),
        call_ensures(apply_all, (all, more), m),
    ensures
        final(all)@ == final(last)@,
        m == n + if changed {
            1int
        } else {
            0
        },
{
    lemma_ring_same(old(all)@, news@, more@, news@.len());
    assert(more@[more@.len() - 1] == more@.last());
}

proof fn lemma_ring_same(s: Seq<u8>, a: Seq<Rescale>, b: Seq<Rescale>, n: nat)
    requires
        n <= a.len(),
        n <= b.len(),
        b.take(a.len() as int) == a,
        a.len() <= b.len(),
    ensures
        ring_after(s, a, n) == ring_after(s, b, n),
        changes(s, a, n) == changes(s, b, n),
    decreases n,
{
    if n > 0 {
        lemma_ring_same(s, a, b, (n - 1) as nat);
        assert(b.take(a.len() as int)[n - 1] == b[n - 1]);
    }
}

} // verus!
