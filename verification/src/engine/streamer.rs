//! Streaming of layers: which tensors are fetched ahead, what becomes of the transfers, and
//! whether a layer runs on the device or falls back.

use vstd::prelude::*;

use crate::gpu::streaming::no_transfers;
use crate::gpu::streaming::shard::entry_of;
use crate::gpu::streaming::shard::ShardReader;
use crate::gpu::streaming::transfer::TransferEngine;
use crate::gpu::streaming::triple_buffer::BufferSlot;
use crate::gpu::streaming::triple_buffer::BufferSlotState;
use crate::gpu::streaming::StreamTelemetry;
use crate::text::same_text;

verus! {

/// Where a layer runs: on the device, from a slot, or on the host.
#[derive(Clone, Copy, Debug, PartialEq, Eq, Structural)]
pub enum FallbackDecision {
    Gpu(usize),
    Cpu,
}

/// Where a layer runs, and its data where it runs on the host.
#[derive(Debug)]
pub struct LayerResult {
    pub decision: FallbackDecision,
    pub tensor_data: Option<Vec<u8>>,
}

/// A weight of a layer, by its name in a shard.
#[derive(Clone, Copy, Debug, PartialEq, Eq, Structural)]
pub enum WeightName {
    Q,
    K,
    V,
    O,
    Gate,
    Up,
    Down,
}

impl WeightName {
    pub open spec fn spec_name(self) -> Seq<char> {
        match self {
            WeightName::Q => "q"@,
            WeightName::K => "k"@,
            WeightName::V => "v"@,
            WeightName::O => "o"@,
            WeightName::Gate => "gate"@,
            WeightName::Up => "up"@,
            WeightName::Down => "down"@,
        }
    }

    pub fn name(&self) -> (s: &'static str)
        ensures
            s@ == self.spec_name(),
    {
        match self {
            WeightName::Q => "q",
            WeightName::K => "k",
            WeightName::V => "v",
            WeightName::O => "o",
            WeightName::Gate => "gate",
            WeightName::Up => "up",
            WeightName::Down => "down",
        }
    }
}

/// All weights of a layer, in order.
pub open spec fn all_weights() -> Seq<WeightName> {
    seq![
        WeightName::Q,
        WeightName::K,
        WeightName::V,
        WeightName::O,
        WeightName::Gate,
        WeightName::Up,
        WeightName::Down,
    ]
}

/// The weights of the attention, in order.
pub open spec fn core_weights() -> Seq<WeightName> {
    seq![WeightName::Q, WeightName::K, WeightName::V]
}

fn weight_list(all: bool) -> (r: Vec<WeightName>)
    ensures
        r@ == if all {
            all_weights()
        } else {
            core_weights()
        },
{
    let mut v: Vec<WeightName> = Vec::new();
    v.push(WeightName::Q);
    v.push(WeightName::K);
    v.push(WeightName::V);
    if all {
        v.push(WeightName::O);
        v.push(WeightName::Gate);
        v.push(WeightName::Up);
        v.push(WeightName::Down);
        assert(v@ =~= all_weights());
    } else {
        assert(v@ =~= core_weights());
    }
    v
}

/// A transfer of a weight of a layer.
#[derive(Clone, Copy, Debug, PartialEq, Eq, Structural)]
pub struct LayerTransfer {
    pub layer_id: usize,
    pub tensor_name: WeightName,
}

/// The transfers for a token.
#[derive(Debug)]
pub struct LayerSchedule {
    pub token_id: usize,
    pub transfers: Vec<LayerTransfer>,
}

/// What a schedule holds.
pub struct ScheduleView {
    pub token_id: usize,
    pub transfers: Seq<LayerTransfer>,
}

impl View for LayerSchedule {
    type V = ScheduleView;

    open spec fn view(&self) -> ScheduleView {
        ScheduleView { token_id: self.token_id, transfers: self.transfers@ }
    }
}

pub open spec fn schedule_views(s: Seq<LayerSchedule>) -> Seq<ScheduleView> {
    s.map_values(|x: LayerSchedule| x@)
}

/// A transfer that was started ahead of its use.
#[derive(Debug)]
pub struct PrefetchRecord {
    pub layer_id: usize,
    pub tensor_name: String,
    pub slot_index: usize,
    pub timeline_value: u64,
}

/// The transfers of some weights of a layer, in order.
pub open spec fn transfers_of(layer: int, ws: Seq<WeightName>) -> Seq<LayerTransfer> {
    ws.map_values(|w: WeightName| LayerTransfer { layer_id: layer as usize, tensor_name: w })
}

/// The attention weights of the layers from two to `k` ahead, as far as there are layers.
pub open spec fn far_ahead(current: nat, k: nat, num_layers: nat) -> Seq<LayerTransfer>
    decreases k,
{
    if k < 2 {
        Seq::empty()
    } else {
        let rest = far_ahead(current, (k - 1) as nat, num_layers);
        if current + k < num_layers {
            rest + transfers_of((current + k) as int, core_weights())
        } else {
            rest
        }
    }
}

/// What is fetched ahead of a layer: all weights of the next layer, then the attention
/// weights of those after it.
pub open spec fn ahead(current: nat, k: nat, num_layers: nat) -> Seq<LayerTransfer> {
    (if current + 1 < num_layers {
        transfers_of((current + 1) as int, all_weights())
    } else {
        Seq::empty()
    }) + far_ahead(current, k, num_layers)
}

/// How sure a prediction is: `Low` below 0.3, `High` above 0.7.
#[derive(Clone, Copy, Debug, PartialEq, Eq, Structural)]
pub enum Confidence {
    Low,
    Middle,
    High,
}

/// The first layer that is fetched for the `i`-th prediction.
pub open spec fn predicted_layer(current: nat, i: nat, num_layers: nat, k: nat) -> nat {
    current + 1 + i * (num_layers / (if k >= 1 {
        k
    } else {
        1
    }))
}

/// The layers from one on, at most two, as far as there are layers.
pub open spec fn pair_of_layers(first: nat, num_layers: nat, ws: Seq<WeightName>) -> Seq<
    LayerTransfer,
> {
    (if first < num_layers {
        transfers_of(first as int, ws)
    } else {
        Seq::empty()
    }) + (if first + 1 < num_layers {
        transfers_of((first + 1) as int, ws)
    } else {
        Seq::empty()
    })
}

/// What is fetched for the first `n` predictions.
pub open spec fn by_predictions(
    current: nat,
    k: nat,
    num_layers: nat,
    conf: Seq<Confidence>,
    n: nat,
) -> Seq<LayerTransfer>
    decreases n,
{
    if n == 0 {
        Seq::empty()
    } else {
        let rest = by_predictions(current, k, num_layers, conf, (n - 1) as nat);
        let first = predicted_layer(current, (n - 1) as nat, num_layers, k);
        match conf[n - 1] {
            Confidence::Low => rest,
            Confidence::Middle => rest + pair_of_layers(first, num_layers, core_weights()),
            Confidence::High => rest + pair_of_layers(first, num_layers, all_weights()),
        }
    }
}

/// The weights of the first `n` names of a layer that the index has.
pub open spec fn indexed(reader: &ShardReader, layer: int, n: nat) -> Seq<LayerTransfer>
    decreases n,
{
    if n == 0 {
        Seq::empty()
    } else {
        let rest = indexed(reader, layer, (n - 1) as nat);
        let w = all_weights()[n - 1];
        if entry_of(reader.index.layers@, low32(layer), w.spec_name()) is Some {
            rest.push(LayerTransfer { layer_id: layer as usize, tensor_name: w })
        } else {
            rest
        }
    }
}

/// The weights of the first `n` layers that the index has.
pub open spec fn all_indexed(reader: &ShardReader, n: nat) -> Seq<LayerTransfer>
    decreases n,
{
    if n == 0 {
        Seq::empty()
    } else {
        all_indexed(reader, (n - 1) as nat) + indexed(reader, n - 1, 7)
    }
}

/// The identifier of a layer in a shard.
pub open spec fn low32(layer: int) -> u32 {
    (layer % 0x1_0000_0000) as u32
}

fn layer_key(layer: usize) -> (r: u32)
    ensures
        r == low32(layer as int),
{
    (layer as u64 % 0x1_0000_0000) as u32
}

fn push_transfers(out: &mut Vec<LayerTransfer>, layer: usize, ws: &Vec<WeightName>)
    ensures
        final(out)@ == old(out)@ + transfers_of(layer as int, ws@),
{
    let mut i: usize = 0;
    assert(out@ =~= old(out)@ + transfers_of(layer as int, ws@.take(0)));
    while i < ws.len()
        invariant
            i <= ws@.len(),
            out@ == old(out)@ + transfers_of(layer as int, ws@.take(i as int)),
        decreases ws@.len() - i,
    {
        out.push(LayerTransfer { layer_id: layer, tensor_name: ws[i] });
        i += 1;
        assert(out@ =~= old(out)@ + transfers_of(layer as int, ws@.take(i as int)));
    }
    assert(ws@.take(i as int) =~= ws@);
}

/// An upload that is to be made.
#[derive(Clone, Copy, Debug, PartialEq, Eq, Structural)]
pub struct Upload {
    /// Where the data lies in the shard.
    pub start: usize,
    pub end: usize,
    pub slot: usize,
    pub timeline_value: u64,
}

/// A transfer that is to be waited for.
#[derive(Clone, Copy, Debug, PartialEq, Eq, Structural)]
pub struct Pending {
    pub slot: usize,
    pub timeline_value: u64,
}

/// The stream of layers.
pub struct HyperStreamEngine<'a> {
    pub reader: ShardReader<'a>,
    pub transfer: TransferEngine,
    pub k: usize,
    pub num_layers: usize,
    pub prefetch_queue: Vec<PrefetchRecord>,
}

/// Whether record `i` is the first for a tensor of a layer.
pub open spec fn first_record(s: Seq<PrefetchRecord>, layer: usize, name: Seq<char>, i: int) -> bool {
    &&& 0 <= i < s.len()
    &&& s[i].layer_id == layer && s[i].tensor_name@ == name
    &&& forall|k: int|
        0 <= k < i ==> !((#[trigger] s[k]).layer_id == layer && s[k].tensor_name@ == name)
}

/// Slot `i` after started transfers were given up: free where one of them had it, else as it
/// was.
pub open spec fn released(slot: BufferSlot, queue: Seq<PrefetchRecord>, i: int) -> BufferSlot {
    if exists|k: int| 0 <= k < queue.len() && (#[trigger] queue[k]).slot_index == i {
        BufferSlot { state: BufferSlotState::Free, ..slot }
    } else {
        slot
    }
}

pub open spec fn no_record(s: Seq<PrefetchRecord>, layer: usize, name: Seq<char>) -> bool {
    forall|k: int|
        0 <= k < s.len() ==> !((#[trigger] s[k]).layer_id == layer && s[k].tensor_name@ == name)
}

impl<'a> HyperStreamEngine<'a> {
    /// Every started transfer has a slot of its own, which is not free.
    pub open spec fn wf(&self) -> bool {
        &&& self.transfer.wf()
        &&& forall|i: int|
            0 <= i < self.prefetch_queue@.len() ==> (#[trigger] self.prefetch_queue@[i]).slot_index
                < 3 && self.transfer.triple_buffer.slots@[self.prefetch_queue@[i].slot_index as int].state
                != BufferSlotState::Free
        &&& forall|i: int, j: int|
            0 <= i < j < self.prefetch_queue@.len() ==> (#[trigger]
            self.prefetch_queue@[i]).slot_index != (#[trigger] self.prefetch_queue@[j]).slot_index
    }

    /// That only the transfers changed.
    pub open spec fn same_source(&self, other: &HyperStreamEngine<'a>) -> bool {
        self.reader == other.reader && self.k == other.k && self.num_layers == other.num_layers
    }

    /// A stream from a shard, with slots of a size.
    pub fn open(reader: ShardReader<'a>, slot_size: u64) -> (r: HyperStreamEngine<'a>)
        ensures
            r.wf(),
            r.reader == reader,
            r.k == 3,
            r.num_layers == reader.index.num_layers,
            r.prefetch_queue@.len() == 0,
            r.transfer.telemetry == no_transfers(),
            r.transfer.timeline_val == 0,
            r.transfer.triple_buffer.max_slot_size == slot_size,
            r.transfer.triple_buffer.count(BufferSlotState::Free) == 3,
    {
        let num_layers: usize = reader.index.num_layers as usize;
        HyperStreamEngine {
            reader,
            transfer: TransferEngine::new(slot_size),
            k: 3,
            num_layers,
            prefetch_queue: Vec::new(),
        }
    }

    pub fn telemetry(&self) -> (r: &StreamTelemetry)
        ensures
            *r == self.transfer.telemetry,
    {
        &self.transfer.telemetry
    }

    pub fn k(&self) -> (r: usize)
        ensures
            r == self.k,
    {
        self.k
    }

    /// Sets how many layers are fetched ahead, at least one.
    pub fn set_k(&mut self, k: usize)
        requires
            old(self).wf(),
        ensures
            final(self).wf(),
            final(self).k == (if k >= 1 {
                k
            } else {
                1
            }),
            final(self).reader == old(self).reader,
            final(self).num_layers == old(self).num_layers,
            final(self).prefetch_queue == old(self).prefetch_queue,
            final(self).transfer.triple_buffer == old(self).transfer.triple_buffer,
            final(self).transfer.timeline_val == old(self).transfer.timeline_val,
            final(self).transfer.telemetry == (StreamTelemetry {
                k_current: final(self).k as u64,
                ..old(self).transfer.telemetry
            }),
    {
        self.k = if k >= 1 {
            k
        } else {
            1
        };
        self.transfer.telemetry.k_current = self.k as u64;
    }

    pub fn num_layers(&self) -> (r: usize)
        ensures
            r == self.num_layers,
    {
        self.num_layers
    }

    /// The transfers of all weights that the index has, for each of the first `k` tokens.
    pub fn resolve_k(&self, tokens: &[usize], k: usize) -> (r: Vec<LayerSchedule>)
        ensures
            schedule_views(r@) == Seq::new(
                if k <= tokens@.len() {
                    k as nat
                } else {
                    tokens@.len()
                },
                |i: int|
                    ScheduleView {
                        token_id: tokens@[i],
                        transfers: all_indexed(&self.reader, self.num_layers as nat),
                    },
            ),
    {
        let n: usize = if k <= tokens.len() {
            k
        } else {
            tokens.len()
        };
        let mut out: Vec<LayerSchedule> = Vec::new();
        let mut i: usize = 0;
        while i < n
            invariant
                i <= n <= tokens@.len(),
                schedule_views(out@) =~= Seq::new(
                    i as nat,
                    |i: int|
                        ScheduleView {
                            token_id: tokens@[i],
                            transfers: all_indexed(&self.reader, self.num_layers as nat),
                        },
                ),
            decreases n - i,
        {
            let ghost before = out@;
            let s = LayerSchedule { token_id: tokens[i], transfers: self.indexed_transfers() };
            out.push(s);
            assert(schedule_views(out@) =~= schedule_views(before).push(s@));
            i += 1;
        }
        out
    }

    fn indexed_transfers(&self) -> (r: Vec<LayerTransfer>)
        ensures
            r@ == all_indexed(&self.reader, self.num_layers as nat),
    {
        let names = weight_list(true);
        let mut out: Vec<LayerTransfer> = Vec::new();
        let mut layer: usize = 0;
        while layer < self.num_layers
            invariant
                layer <= self.num_layers,
                names@ == all_weights(),
                out@ == all_indexed(&self.reader, layer as nat),
            decreases self.num_layers - layer,
        {
            let ghost before = out@;
            let mut n: usize = 0;
            assert(out@ =~= before + indexed(&self.reader, layer as int, 0));
            while n < 7
                invariant
                    n <= 7,
                    names@ == all_weights(),
                    out@ == before + indexed(&self.reader, layer as int, n as nat),
                decreases 7 - n,
            {
                let w = names[n];
                if self.reader.index.layer_offsets(layer_key(layer), w.name()).is_some() {
                    out.push(LayerTransfer { layer_id: layer, tensor_name: w });
                }
                assert(out@ =~= before + indexed(&self.reader, layer as int, (n + 1) as nat));
                n += 1;
            }
            layer += 1;
        }
        out
    }

    /// Starts to fetch a tensor of a layer. Gives the upload to be made; nothing where the
    /// shard does not have the tensor, it does not fit in a slot, or no slot is free, which
    /// counts as a miss.
    pub fn prefetch_layer(&mut self, layer_id: usize, tensor_name: &str) -> (r: Option<Upload>)
        requires
            old(self).wf(),
        ensures
            final(self).wf(),
            final(self).same_source(old(self)),
            final(self).prefetch_queue == old(self).prefetch_queue,
            match r {
                Some(u) => {
                    &&& u.start <= u.end <= old(self).reader.data@.len()
                    &&& old(self).reader.spec_tensor(low32(layer_id as int), tensor_name@) == Some(
                        old(self).reader.data@.subrange(u.start as int, u.end as int),
                    )
                    &&& old(self).transfer.fits((u.end - u.start) as nat)
                    &&& u.slot < 3
                    &&& old(self).transfer.triple_buffer.next_free(u.slot as int)
                    &&& u.timeline_value == old(self).transfer.timeline_val.wrapping_add(1)
                    &&& final(self).transfer.timeline_val == u.timeline_value
                    &&& final(self).transfer.telemetry == old(self).transfer.telemetry
                    &&& final(self).transfer.triple_buffer.write_index == u.slot
                    &&& old(self).transfer.triple_buffer.moved(
                        &final(self).transfer.triple_buffer,
                        u.slot as int,
                        (BufferSlot {
                            state: BufferSlotState::Staging,
                            ..old(self).transfer.triple_buffer.slots@[u.slot as int]
                        }),
                    )
                    &&& forall|i: int|
                        0 <= i < final(self).prefetch_queue@.len() ==> (#[trigger]
                        final(self).prefetch_queue@[i]).slot_index != u.slot
                },
                None => {
                    &&& final(self).transfer.triple_buffer == old(self).transfer.triple_buffer
                    &&& final(self).transfer.timeline_val == old(self).transfer.timeline_val
                    &&& final(self).transfer.telemetry == old(self).transfer.telemetry.missed()
                    &&& match old(self).reader.spec_tensor(low32(layer_id as int), tensor_name@) {
                        Some(s) => !old(self).transfer.fits(s.len())
                            || old(self).transfer.triple_buffer.count(BufferSlotState::Free) == 0,
                        None => true,
                    }
                },
            },
    {
        let (start, end) = match self.reader.tensor_range(layer_key(layer_id), tensor_name) {
            Some(x) => x,
            None => {
                self.transfer.telemetry.record_miss();
                return None;
            },
        };
        let ghost before = self.transfer.triple_buffer;
        match self.transfer.upload_slot(end - start) {
            Some((slot, timeline_value)) => {
                proof {
                    assert(before.slots@[slot as int].state == BufferSlotState::Free);
                    assert forall|i: int| 0 <= i < self.prefetch_queue@.len() implies (#[trigger]
                    self.prefetch_queue@[i]).slot_index < 3
                        && self.transfer.triple_buffer.slots@[self.prefetch_queue@[i].slot_index as int].state
                        != BufferSlotState::Free by {
                        assert(old(self).prefetch_queue@[i].slot_index < 3);
                    }
                }
                Some(Upload { start, end, slot, timeline_value })
            },
            None => {
                self.transfer.telemetry.record_miss();
                None
            },
        }
    }

    /// Takes in whether an upload was handed to the device. One that was is queued; one that
    /// was not counts as a miss, and keeps its slot.
    pub fn prefetched(&mut self, layer_id: usize, tensor_name: &str, upload: Upload, ok: bool)
        requires
            old(self).wf(),
            upload.slot < 3,
            upload.start <= upload.end,
            forall|i: int|
                0 <= i < old(self).prefetch_queue@.len() ==> (#[trigger]
                old(self).prefetch_queue@[i]).slot_index != upload.slot,
        ensures
            final(self).wf(),
            final(self).same_source(old(self)),
            final(self).transfer.timeline_val == old(self).transfer.timeline_val,
            final(self).transfer.triple_buffer.write_index == old(
                self,
            ).transfer.triple_buffer.write_index,
            if ok {
                &&& final(self).prefetch_queue@.len() == old(self).prefetch_queue@.len() + 1
                &&& final(self).prefetch_queue@.drop_last() == old(self).prefetch_queue@
                &&& final(self).prefetch_queue@.last().layer_id == layer_id
                &&& final(self).prefetch_queue@.last().tensor_name@ == tensor_name@
                &&& final(self).prefetch_queue@.last().slot_index == upload.slot
                &&& final(self).prefetch_queue@.last().timeline_value == upload.timeline_value
                &&& final(self).transfer.telemetry == old(self).transfer.telemetry.transferred(
                    (upload.end - upload.start) as u64,
                ).hit()
                &&& old(self).transfer.triple_buffer.moved(
                    &final(self).transfer.triple_buffer,
                    upload.slot as int,
                    (BufferSlot {
                        state: BufferSlotState::DeviceReady,
                        timeline_value: upload.timeline_value,
                        ..old(self).transfer.triple_buffer.slots@[upload.slot as int]
                    }),
                )
            } else {
                &&& final(self).prefetch_queue@ == old(self).prefetch_queue@
                &&& final(self).transfer.triple_buffer == old(self).transfer.triple_buffer
                &&& final(self).transfer.telemetry == old(self).transfer.telemetry.missed()
            },
    {
        if ok {
            let ghost before = self.prefetch_queue@;
            self.transfer.upload_done(
                upload.slot,
                upload.timeline_value,
                upload.end - upload.start,
            );
            let r = PrefetchRecord {
                layer_id,
                tensor_name: tensor_name.to_owned(),
                slot_index: upload.slot,
                timeline_value: upload.timeline_value,
            };
            self.prefetch_queue.push(r);
            self.transfer.telemetry.record_prefetch_hit();
            proof {
                let q = self.prefetch_queue@;
                assert(q.drop_last() =~= before);
                assert forall|i: int| 0 <= i < q.len() implies (#[trigger] q[i]).slot_index < 3
                    && self.transfer.triple_buffer.slots@[q[i].slot_index as int].state
                    != BufferSlotState::Free by {
                    if i < before.len() {
                        assert(q[i] == before[i]);
                    }
                }
                assert forall|i: int, j: int| 0 <= i < j < q.len() implies (#[trigger]
                q[i]).slot_index != (#[trigger] q[j]).slot_index by {
                    assert(q[i] == before[i]);
                    if j < before.len() {
                        assert(q[j] == before[j]);
                    }
                }
            }
        } else {
            self.transfer.telemetry.record_miss();
        }
    }

    /// What is fetched while a layer is computed: all weights of the next layer, and the
    /// attention weights of the layers up to `k` ahead.
    pub fn prefetch_k_ahead(&self, current_layer: usize) -> (r: Vec<LayerTransfer>)
        ensures
            r@ == ahead(current_layer as nat, self.k as nat, self.num_layers as nat),
    {
        let mut out: Vec<LayerTransfer> = Vec::new();
        let all = weight_list(true);
        let core = weight_list(false);
        let n = self.num_layers;
        if n > 0 && current_layer < n - 1 {
            push_transfers(&mut out, current_layer + 1, &all);
        }
        let ghost first = out@;
        assert(out@ =~= first + far_ahead(current_layer as nat, 1, n as nat));
        let left: usize = if current_layer < n {
            n - current_layer
        } else {
            0
        };
        let mut a: usize = 1;
        while a < self.k
            invariant
                n == self.num_layers,
                left == (if current_layer < n {
                    n - current_layer
                } else {
                    0
                }),
                1 <= a,
                if self.k >= 1 {
                    a <= self.k
                } else {
                    a == 1
                },
                core@ == core_weights(),
                out@ == first + far_ahead(current_layer as nat, a as nat, n as nat),
            decreases self.k - a,
        {
            a += 1;
            if a < left {
                push_transfers(&mut out, current_layer + a, &core);
            }
            assert(out@ =~= first + far_ahead(current_layer as nat, a as nat, n as nat));
        }
        proof {
            if self.k == 0 {
                assert(far_ahead(current_layer as nat, 0, n as nat) == Seq::<LayerTransfer>::empty());
                assert(far_ahead(current_layer as nat, 1, n as nat) == Seq::<LayerTransfer>::empty());
            }
            assert(first =~= if current_layer + 1 < n {
                transfers_of(current_layer + 1, all_weights())
            } else {
                Seq::empty()
            });
        }
        out
    }

    /// What is fetched by the predictions of a draft, of which each is as sure as said.
    pub fn prefetch_with_dspark(&self, confidences: &Vec<Confidence>, current_layer: usize) -> (r:
        Vec<LayerTransfer>)
        requires
            current_layer + self.num_layers + 3 <= usize::MAX,
        ensures
            r@ == by_predictions(
                current_layer as nat,
                self.k as nat,
                self.num_layers as nat,
                confidences@,
                if self.k <= confidences@.len() {
                    self.k as nat
                } else {
                    confidences@.len()
                },
            ),
    {
        let mut out: Vec<LayerTransfer> = Vec::new();
        let all = weight_list(true);
        let core = weight_list(false);
        let n: usize = self.num_layers;
        let m: usize = if self.k <= confidences.len() {
            self.k
        } else {
            confidences.len()
        };
        let stride: usize = n / (if self.k >= 1 {
            self.k
        } else {
            1
        });
        let mut i: usize = 0;
        while i < m
            invariant
                i <= m <= confidences@.len(),
                m <= self.k,
                n == self.num_layers,
                current_layer + n + 3 <= usize::MAX,
                stride == n as nat / (if self.k >= 1 {
                    self.k as nat
                } else {
                    1
                }),
                all@ == all_weights(),
                core@ == core_weights(),
                out@ == by_predictions(
                    current_layer as nat,
                    self.k as nat,
                    n as nat,
                    confidences@,
                    i as nat,
                ),
            decreases m - i,
        {
            let ghost before = out@;
            assert(0 <= i * stride <= n) by (nonlinear_arith)
                requires
                    0 <= i < self.k,
                    n >= 0,
                    stride == n as int / self.k as int,
            ;
            let first: usize = current_layer + 1 + i * stride;
            assert(first == predicted_layer(current_layer as nat, i as nat, n as nat, self.k as nat));
            let c = confidences[i];
            if c != Confidence::Low {
                let ws = if c == Confidence::High {
                    &all
                } else {
                    &core
                };
                if first < n {
                    push_transfers(&mut out, first, ws);
                }
                if first + 1 < n {
                    push_transfers(&mut out, first + 1, ws);
                }
                assert(out@ =~= before + pair_of_layers(first as nat, n as nat, ws@));
            }
            i += 1;
        }
        out
    }

    fn position(&self, layer_id: usize, tensor_name: &str) -> (r: Option<usize>)
        ensures
            match r {
                Some(i) => first_record(self.prefetch_queue@, layer_id, tensor_name@, i as int),
                None => no_record(self.prefetch_queue@, layer_id, tensor_name@),
            },
    {
        let mut i: usize = 0;
        while i < self.prefetch_queue.len()
            invariant
                i <= self.prefetch_queue@.len(),
                forall|k: int|
                    0 <= k < i ==> !((#[trigger] self.prefetch_queue@[k]).layer_id == layer_id
                        && self.prefetch_queue@[k].tensor_name@ == tensor_name@),
            decreases self.prefetch_queue@.len() - i,
        {
            if self.prefetch_queue[i].layer_id == layer_id && same_text(
                self.prefetch_queue[i].tensor_name.as_str(),
                tensor_name,
            ) {
                return Some(i);
            }
            i += 1;
        }
        None
    }

    /// Takes the started transfer of a tensor of a layer out of the queue, to be waited for.
    pub fn take_pending(&mut self, layer_id: usize, tensor_name: &str) -> (r: Option<Pending>)
        requires
            old(self).wf(),
        ensures
            final(self).wf(),
            final(self).same_source(old(self)),
            final(self).transfer == old(self).transfer,
            match r {
                Some(p) => exists|i: int|
                    {
                        &&& #[trigger] first_record(
                            old(self).prefetch_queue@,
                            layer_id,
                            tensor_name@,
                            i,
                        )
                        &&& p.slot == old(self).prefetch_queue@[i].slot_index
                        &&& p.timeline_value == old(self).prefetch_queue@[i].timeline_value
                        &&& final(self).prefetch_queue@ == old(self).prefetch_queue@.remove(i)
                    },
                None => {
                    &&& no_record(old(self).prefetch_queue@, layer_id, tensor_name@)
                    &&& final(self).prefetch_queue@ == old(self).prefetch_queue@
                },
            },
            r matches Some(p) ==> final(self).owned(p),
    {
        match self.position(layer_id, tensor_name) {
            Some(i) => {
                let ghost before = self.prefetch_queue@;
                let record = self.prefetch_queue.remove(i);
                proof {
                    let q = self.prefetch_queue@;
                    assert(q =~= before.remove(i as int));
                    assert forall|k: int| 0 <= k < q.len() implies (#[trigger] q[k]).slot_index < 3
                        && self.transfer.triple_buffer.slots@[q[k].slot_index as int].state
                        != BufferSlotState::Free && q[k].slot_index != before[i as int].slot_index by {
                        if k < i {
                            assert(q[k] == before[k]);
                        } else {
                            assert(q[k] == before[k + 1]);
                        }
                    }
                    assert forall|a: int, b: int| 0 <= a < b < q.len() implies (#[trigger]
                    q[a]).slot_index != (#[trigger] q[b]).slot_index by {
                        let x = if a < i {
                            a
                        } else {
                            a + 1
                        };
                        let y = if b < i {
                            b
                        } else {
                            b + 1
                        };
                        assert(q[a] == before[x] && q[b] == before[y]);
                    }
                }
                Some(Pending { slot: record.slot_index, timeline_value: record.timeline_value })
            },
            None => None,
        }
    }

    /// That a transfer's slot is one that no queued transfer has.
    pub open spec fn owned(&self, p: Pending) -> bool {
        &&& p.slot < 3
        &&& forall|i: int|
            0 <= i < self.prefetch_queue@.len() ==> (#[trigger]
            self.prefetch_queue@[i]).slot_index != p.slot
    }

    /// Where a layer runs, given the transfer that was waited for and whether it was done in
    /// time. One that was done runs on the device; else the layer runs on the host, with its
    /// data from the shard. The slot is freed either way.
    pub fn wait_for_layer(
        &mut self,
        layer_id: usize,
        tensor_name: &str,
        pending: Option<Pending>,
        in_time: bool,
    ) -> (r: LayerResult)
        requires
            old(self).wf(),
            pending matches Some(p) ==> old(self).owned(p),
        ensures
            final(self).wf(),
            final(self).same_source(old(self)),
            final(self).prefetch_queue == old(self).prefetch_queue,
            final(self).transfer.timeline_val == old(self).transfer.timeline_val,
            final(self).transfer.triple_buffer.write_index == old(
                self,
            ).transfer.triple_buffer.write_index,
            match pending {
                Some(p) => old(self).transfer.triple_buffer.moved(
                    &final(self).transfer.triple_buffer,
                    p.slot as int,
                    (BufferSlot {
                        state: BufferSlotState::Free,
                        ..old(self).transfer.triple_buffer.slots@[p.slot as int]
                    }),
                ),
                None => final(self).transfer.triple_buffer == old(self).transfer.triple_buffer,
            },
            if pending is Some && in_time {
                &&& r.decision == FallbackDecision::Gpu(pending->0.slot)
                &&& r.tensor_data is None
                &&& final(self).transfer.telemetry == old(self).transfer.telemetry.hit()
            } else {
                &&& r.decision == FallbackDecision::Cpu
                &&& match old(self).reader.spec_tensor(low32(layer_id as int), tensor_name@) {
                    Some(s) => {
                        &&& r.tensor_data matches Some(v) && v@ == s
                        &&& final(self).transfer.telemetry
                            == old(self).transfer.telemetry.prefetch_missed().missed()
                    },
                    None => {
                        &&& r.tensor_data is None
                        &&& final(self).transfer.telemetry
                            == old(self).transfer.telemetry.prefetch_missed()
                    },
                }
            },
    {
        if let Some(p) = pending {
            self.transfer.triple_buffer.release_slot(p.slot);
            proof {
                assert forall|i: int| 0 <= i < self.prefetch_queue@.len() implies (#[trigger]
                self.prefetch_queue@[i]).slot_index < 3
                    && self.transfer.triple_buffer.slots@[self.prefetch_queue@[i].slot_index as int].state
                    != BufferSlotState::Free by {
                    assert(old(self).prefetch_queue@[i].slot_index != p.slot);
                }
            }
            if in_time {
                self.transfer.telemetry.record_prefetch_hit();
                return LayerResult { decision: FallbackDecision::Gpu(p.slot), tensor_data: None };
            }
        }
        self.transfer.telemetry.record_prefetch_miss();
        let tensor_data = match self.reader.get_tensor(layer_key(layer_id), tensor_name) {
            Some(s) => {
                self.transfer.telemetry.record_miss();
                Some(copy_bytes(s))
            },
            None => None,
        };
        LayerResult { decision: FallbackDecision::Cpu, tensor_data }
    }

    /// The data of a tensor of a layer in the shard.
    pub fn read_tensor(&self, layer_id: usize, tensor_name: &str) -> (r: Option<&'a [u8]>)
        ensures
            match r {
                Some(s) => self.reader.spec_tensor(low32(layer_id as int), tensor_name@) == Some(
                    s@,
                ),
                None => self.reader.spec_tensor(low32(layer_id as int), tensor_name@) is None,
            },
    {
        self.reader.get_tensor(layer_key(layer_id), tensor_name)
    }

    /// Gives up all started transfers and frees their slots. Gives the points of the
    /// timeline at which they are done, oldest first.
    pub fn release_pending(&mut self) -> (r: Vec<u64>)
        requires
            old(self).wf(),
        ensures
            final(self).wf(),
            final(self).same_source(old(self)),
            final(self).prefetch_queue@.len() == 0,
            final(self).transfer.timeline_val == old(self).transfer.timeline_val,
            final(self).transfer.telemetry == old(self).transfer.telemetry,
            final(self).transfer.triple_buffer.write_index == old(
                self,
            ).transfer.triple_buffer.write_index,
            final(self).transfer.triple_buffer.max_slot_size == old(
                self,
            ).transfer.triple_buffer.max_slot_size,
            r@ == old(self).prefetch_queue@.map_values(|x: PrefetchRecord| x.timeline_value),
            forall|s: int|
                0 <= s < 3 ==> #[trigger] final(self).transfer.triple_buffer.slots@[s] == released(
                    old(self).transfer.triple_buffer.slots@[s],
                    old(self).prefetch_queue@,
                    s,
                ),
    {
        let mut out: Vec<u64> = Vec::new();
        let ghost q = self.prefetch_queue@;
        let mut i: usize = 0;
        while i < self.prefetch_queue.len()
            invariant
                q == old(self).prefetch_queue@,
                self.prefetch_queue@ == q,
                self.same_source(old(self)),
                self.transfer.wf(),
                self.transfer.timeline_val == old(self).transfer.timeline_val,
                self.transfer.telemetry == old(self).transfer.telemetry,
                i <= q.len(),
                out@ =~= q.map_values(|x: PrefetchRecord| x.timeline_value).take(i as int),
                forall|k: int| 0 <= k < q.len() ==> (#[trigger] q[k]).slot_index < 3,
                self.transfer.triple_buffer.write_index == old(
                    self,
                ).transfer.triple_buffer.write_index,
                self.transfer.triple_buffer.max_slot_size == old(
                    self,
                ).transfer.triple_buffer.max_slot_size,
                forall|s: int|
                    0 <= s < 3 ==> #[trigger] self.transfer.triple_buffer.slots@[s] == released(
                        old(self).transfer.triple_buffer.slots@[s],
                        q.take(i as int),
                        s,
                    ),
            decreases q.len() - i,
        {
            let slot: usize = self.prefetch_queue[i].slot_index;
            assert(q[i as int].slot_index == slot);
            out.push(self.prefetch_queue[i].timeline_value);
            let ghost before = self.transfer.triple_buffer;
            self.transfer.triple_buffer.release_slot(slot);
            proof {
                let now = q.take(i as int);
                let next = q.take(i + 1);
                assert(next =~= now.push(q[i as int]));
                assert forall|s: int| 0 <= s < 3 implies #[trigger]
                self.transfer.triple_buffer.slots@[s] == released(
                    old(self).transfer.triple_buffer.slots@[s],
                    next,
                    s,
                ) by {
                    assert(before.slots@[s] == released(
                        old(self).transfer.triple_buffer.slots@[s],
                        now,
                        s,
                    ));
                    if s == slot {
                        assert(next[i as int].slot_index == s);
                    } else {
                        assert(self.transfer.triple_buffer.slots@[s] == before.slots@[s]);
                        if exists|k: int| 0 <= k < now.len() && (#[trigger] now[k]).slot_index == s {
                            let k = choose|k: int|
                                0 <= k < now.len() && (#[trigger] now[k]).slot_index == s;
                            assert(next[k].slot_index == s);
                        }
                    }
                }
            }
            i += 1;
        }
        assert(q.map_values(|x: PrefetchRecord| x.timeline_value).take(i as int) =~= q.map_values(
            |x: PrefetchRecord| x.timeline_value,
        ));
        assert(q.take(i as int) =~= q);
        self.prefetch_queue.clear();
        out
    }

    /// The point of the timeline that all transfers are done at, where there was one.
    pub fn sync_all(&self) -> (r: Option<u64>)
        ensures
            r == (if self.transfer.timeline_val > 0 {
                Some(self.transfer.timeline_val)
            } else {
                None
            }),
    {
        self.transfer.sync_all()
    }

    /// The transfers, to be changed in place.
    pub fn transfer_mut(&mut self) -> (r: &mut TransferEngine)
        ensures
            *r == old(self).transfer,
            final(self).transfer == *final(r),
            final(self).same_source(old(self)),
            final(self).prefetch_queue == old(self).prefetch_queue,
    {
        &mut self.transfer
    }
}

fn copy_bytes(s: &[u8]) -> (r: Vec<u8>)
    ensures
        r@ == s@,
{
    let mut out: Vec<u8> = Vec::new();
    let mut i: usize = 0;
    while i < s.len()
        invariant
            i <= s@.len(),
            out@ =~= s@.take(i as int),
        decreases s@.len() - i,
    {
        out.push(s[i]);
        i += 1;
    }
    assert(s@.take(i as int) =~= s@);
    out
}

/// No more transfers are ever queued than there are slots.
pub proof fn law_queue_bounded(e: &HyperStreamEngine)
    requires
        e.wf(),
    ensures
        e.prefetch_queue@.len() <= 3,
{
    let q = e.prefetch_queue@;
    if q.len() > 3 {
        let a = q[0].slot_index;
        let b = q[1].slot_index;
        let c = q[2].slot_index;
        let d = q[3].slot_index;
        assert(a < 3 && b < 3 && c < 3 && d < 3);
        assert(q[0].slot_index != q[1].slot_index);
        assert(q[0].slot_index != q[2].slot_index);
        assert(q[0].slot_index != q[3].slot_index);
        assert(q[1].slot_index != q[2].slot_index);
        assert(q[1].slot_index != q[3].slot_index);
        assert(q[2].slot_index != q[3].slot_index);
    }
}

/// A new upload never goes to a slot that a queued transfer still has.
pub proof fn law_upload_spares_queue(e: &HyperStreamEngine, slot: int, i: int)
    requires
        e.wf(),
        0 <= slot < 3,
        e.transfer.triple_buffer.next_free(slot),
        0 <= i < e.prefetch_queue@.len(),
    ensures
        e.prefetch_queue@[i].slot_index != slot,
{
}

/// Giving up started transfers twice is giving them up once: with none left, every slot stays
/// as it is.
pub proof fn law_release_once(slot: BufferSlot, queue: Seq<PrefetchRecord>, i: int)
    ensures
        released(released(slot, queue, i), queue, i) == released(slot, queue, i),
        released(slot, Seq::<PrefetchRecord>::empty(), i) == slot,
{
}

/// The weights that the attention of a layer starts from: its queries, keys and values.
pub open spec fn for_attention(w: WeightName) -> bool {
    w == WeightName::Q || w == WeightName::K || w == WeightName::V
}

/// What is asked for of the layers behind the next one.
spec fn far_of(t: LayerTransfer, current: nat, k: nat, num_layers: nat) -> bool {
    &&& current + 2 <= t.layer_id <= current + k
    &&& t.layer_id < num_layers
    &&& for_attention(t.tensor_name)
}

proof fn lemma_all_weights(w: WeightName)
    ensures
        all_weights().contains(w),
        core_weights().contains(w) <==> for_attention(w),
        all_weights().no_duplicates(),
        core_weights().no_duplicates(),
{
    let a = all_weights();
    assert(a[0] == WeightName::Q && a[1] == WeightName::K && a[2] == WeightName::V && a[3]
        == WeightName::O && a[4] == WeightName::Gate && a[5] == WeightName::Up && a[6]
        == WeightName::Down);
    let c = core_weights();
    assert(c[0] == WeightName::Q && c[1] == WeightName::K && c[2] == WeightName::V);
}

proof fn lemma_transfers_of(layer: int, ws: Seq<WeightName>, t: LayerTransfer)
    requires
        0 <= layer <= usize::MAX,
    ensures
        transfers_of(layer, ws).contains(t) <==> t.layer_id == layer && ws.contains(t.tensor_name),
        transfers_of(layer, ws).len() == ws.len(),
        ws.no_duplicates() ==> transfers_of(layer, ws).no_duplicates(),
{
    let s = transfers_of(layer, ws);
    if s.contains(t) {
        let i = choose|i: int| 0 <= i < s.len() && s[i] == t;
        assert(ws[i] == t.tensor_name);
    }
    if t.layer_id == layer && ws.contains(t.tensor_name) {
        let i = choose|i: int| 0 <= i < ws.len() && ws[i] == t.tensor_name;
        assert(s[i] == t);
    }
    if ws.no_duplicates() {
        assert forall|i: int, j: int| 0 <= i < s.len() && 0 <= j < s.len() && i != j implies s[i]
            != s[j] by {
            assert(ws[i] != ws[j]);
        }
    }
}

proof fn lemma_in_both(a: Seq<LayerTransfer>, b: Seq<LayerTransfer>, t: LayerTransfer)
    ensures
        (a + b).contains(t) <==> a.contains(t) || b.contains(t),
{
    let s = a + b;
    if s.contains(t) {
        let i = choose|i: int| 0 <= i < s.len() && s[i] == t;
        if i < a.len() {
            assert(a[i] == t);
        } else {
            assert(b[i - a.len()] == t);
        }
    }
    if a.contains(t) {
        let i = choose|i: int| 0 <= i < a.len() && a[i] == t;
        assert(s[i] == t);
    }
    if b.contains(t) {
        let i = choose|i: int| 0 <= i < b.len() && b[i] == t;
        assert(s[i + a.len()] == t);
    }
}

proof fn lemma_far_ahead(current: nat, k: nat, num_layers: nat, t: LayerTransfer)
    requires
        num_layers <= usize::MAX,
    ensures
        far_ahead(current, k, num_layers).contains(t) <==> far_of(t, current, k, num_layers),
    decreases k,
{
    if k >= 2 {
        let rest = far_ahead(current, (k - 1) as nat, num_layers);
        lemma_far_ahead(current, (k - 1) as nat, num_layers, t);
        if current + k < num_layers {
            let last = transfers_of((current + k) as int, core_weights());
            lemma_in_both(rest, last, t);
            lemma_transfers_of((current + k) as int, core_weights(), t);
            lemma_all_weights(t.tensor_name);
        }
    }
}

/// What is fetched ahead of a layer: every weight of the next layer, the weights for the attention
/// of each layer up to `k` ahead, nothing of a layer that is past or does not exist, and nothing
/// else.
pub proof fn law_fetched_ahead(
    e: &HyperStreamEngine,
    current: usize,
    r: Vec<LayerTransfer>,
    t: LayerTransfer,
)
    requires
        call_ensures(HyperStreamEngine::prefetch_k_ahead, (e, current), r),
    ensures
        r@.contains(t) <==> {
            &&& current < t.layer_id < e.num_layers
            &&& t.layer_id == current + 1 || (t.layer_id - current <= e.k && for_attention(
                t.tensor_name,
            ))
        },
{
    let n = e.num_layers as nat;
    let next = if current + 1 < n {
        transfers_of(current + 1, all_weights())
    } else {
        Seq::empty()
    };
    let far = far_ahead(current as nat, e.k as nat, n);
    lemma_in_both(next, far, t);
    lemma_far_ahead(current as nat, e.k as nat, n, t);
    lemma_all_weights(t.tensor_name);
    if current + 1 < n {
        lemma_transfers_of(current + 1, all_weights(), t);
    }
}

proof fn lemma_pair_of_layers(first: nat, num_layers: nat, ws: Seq<WeightName>, t: LayerTransfer)
    requires
        num_layers <= usize::MAX,
    ensures
        pair_of_layers(first, num_layers, ws).contains(t) <==> {
            &&& first <= t.layer_id <= first + 1
            &&& t.layer_id < num_layers
            &&& ws.contains(t.tensor_name)
        },
{
    let a = if first < num_layers {
        transfers_of(first as int, ws)
    } else {
        Seq::empty()
    };
    let b = if first + 1 < num_layers {
        transfers_of((first + 1) as int, ws)
    } else {
        Seq::empty()
    };
    lemma_in_both(a, b, t);
    if first < num_layers {
        lemma_transfers_of(first as int, ws, t);
    }
    if first + 1 < num_layers {
        lemma_transfers_of((first + 1) as int, ws, t);
    }
}

/// What the prediction with a number asks for: of the two layers that it points at, with the
/// layers spread evenly over the predictions, every weight where it is sure, the weights for the
/// attention where it is less sure, and nothing where it is not.
pub open spec fn asked_by(
    t: LayerTransfer,
    i: int,
    current: int,
    k: int,
    num_layers: int,
    sure: Confidence,
) -> bool {
    let steps = if k >= 1 {
        k
    } else {
        1
    };
    let first = current + 1 + i * (num_layers / steps);
    &&& sure != Confidence::Low
    &&& t.layer_id == first || t.layer_id == first + 1
    &&& t.layer_id < num_layers
    &&& sure == Confidence::High || for_attention(t.tensor_name)
}

proof fn lemma_by_predictions(
    current: nat,
    k: nat,
    num_layers: nat,
    conf: Seq<Confidence>,
    n: nat,
    t: LayerTransfer,
)
    requires
        num_layers <= usize::MAX,
        n <= conf.len(),
    ensures
        by_predictions(current, k, num_layers, conf, n).contains(t) <==> exists|i: int|
            0 <= i < n && #[trigger] asked_by(
                t,
                i,
                current as int,
                k as int,
                num_layers as int,
                conf[i],
            ),
    decreases n,
{
    if n > 0 {
        let m = (n - 1) as nat;
        let rest = by_predictions(current, k, num_layers, conf, m);
        let first = predicted_layer(current, m, num_layers, k);
        lemma_by_predictions(current, k, num_layers, conf, m, t);
        lemma_all_weights(t.tensor_name);
        lemma_pair_of_layers(first, num_layers, core_weights(), t);
        lemma_pair_of_layers(first, num_layers, all_weights(), t);
        lemma_in_both(rest, pair_of_layers(first, num_layers, core_weights()), t);
        lemma_in_both(rest, pair_of_layers(first, num_layers, all_weights()), t);
        let asked = asked_by(t, m as int, current as int, k as int, num_layers as int, conf[m as int]);
        assert(by_predictions(current, k, num_layers, conf, n).contains(t) <==> rest.contains(t)
            || asked);
    }
}

/// What is fetched by predictions is what one of the first `k` of them asks for, and nothing else.
pub proof fn law_fetched_by_predictions(
    e: &HyperStreamEngine,
    conf: &Vec<Confidence>,
    current: usize,
    r: Vec<LayerTransfer>,
    t: LayerTransfer,
)
    requires
        call_ensures(HyperStreamEngine::prefetch_with_dspark, (e, conf, current), r),
    ensures
        r@.contains(t) <==> exists|i: int|
            0 <= i < conf@.len() && i < e.k && #[trigger] asked_by(
                t,
                i,
                current as int,
                e.k as int,
                e.num_layers as int,
                conf@[i],
            ),
        r@.contains(t) ==> current < t.layer_id < e.num_layers,
{
    let n = if e.k <= conf@.len() {
        e.k as nat
    } else {
        conf@.len()
    };
    lemma_by_predictions(current as nat, e.k as nat, e.num_layers as nat, conf@, n, t);
    if r@.contains(t) {
        let i = choose|i: int|
            0 <= i < n && #[trigger] asked_by(
                t,
                i,
                current as int,
                e.k as int,
                e.num_layers as int,
                conf@[i],
            );
        let steps: int = if e.k >= 1 {
            e.k as int
        } else {
            1
        };
        let d = e.num_layers as int / steps;
        assert(d >= 0) by (nonlinear_arith)
            requires
                d == e.num_layers as int / steps,
                steps >= 1,
        ;
        assert(i * d >= 0) by (nonlinear_arith)
            requires
                i >= 0,
                d >= 0,
        ;
    }
}

proof fn lemma_indexed(reader: &ShardReader, layer: int, n: nat, t: LayerTransfer)
    requires
        0 <= layer <= usize::MAX,
        n <= 7,
    ensures
        indexed(reader, layer, n).contains(t) <==> {
            &&& t.layer_id == layer
            &&& all_weights().take(n as int).contains(t.tensor_name)
            &&& entry_of(reader.index.layers@, low32(layer), t.tensor_name.spec_name()) is Some
        },
    decreases n,
{
    let all = all_weights();
    if n > 0 {
        let m = (n - 1) as nat;
        lemma_indexed(reader, layer, m, t);
        let rest = indexed(reader, layer, m);
        let w = all[n - 1];
        let x = LayerTransfer { layer_id: layer as usize, tensor_name: w };
        lemma_in_both(rest, seq![x], t);
        assert(rest.push(x) =~= rest + seq![x]);
        assert(seq![x][0] == x);
        assert(all.take(n as int) =~= all.take(m as int).push(w));
        if all.take(n as int).contains(t.tensor_name) {
            let i = choose|i: int|
                0 <= i < n && all.take(n as int)[i] == t.tensor_name;
            if i < m {
                assert(all.take(m as int)[i] == t.tensor_name);
            }
        }
        if all.take(m as int).contains(t.tensor_name) {
            let i = choose|i: int|
                0 <= i < m && all.take(m as int)[i] == t.tensor_name;
            assert(all.take(n as int)[i] == t.tensor_name);
        }
        assert(all.take(n as int)[m as int] == w);
    }
}

proof fn lemma_all_indexed(reader: &ShardReader, n: nat, t: LayerTransfer)
    requires
        n <= usize::MAX,
    ensures
        all_indexed(reader, n).contains(t) <==> {
            &&& t.layer_id < n
            &&& entry_of(
                reader.index.layers@,
                low32(t.layer_id as int),
                t.tensor_name.spec_name(),
            ) is Some
        },
    decreases n,
{
    if n > 0 {
        let m = (n - 1) as nat;
        lemma_all_indexed(reader, m, t);
        lemma_indexed(reader, m as int, 7, t);
        lemma_all_weights(t.tensor_name);
        assert(all_weights().take(7) =~= all_weights());
        lemma_in_both(all_indexed(reader, m), indexed(reader, m as int, 7), t);
    }
}

/// The schedules of a list of tokens: one for each of the first `k` tokens, in their order, each
/// with exactly the weights of the engine's layers that the shard holds.
pub proof fn law_schedules_hold_shard(
    e: &HyperStreamEngine,
    tokens: &[usize],
    k: usize,
    r: Vec<LayerSchedule>,
    i: int,
    t: LayerTransfer,
    name: &str,
    info: Option<&crate::gpu::streaming::shard::TensorInfo>,
)
    requires
        call_ensures(HyperStreamEngine::resolve_k, (e, tokens, k), r),
        0 <= i < r@.len(),
        t.layer_id <= u32::MAX,
        call_ensures(WeightName::name, (&t.tensor_name,), name),
        call_ensures(
            crate::gpu::streaming::shard::ShardIndex::layer_offsets,
            (&e.reader.index, t.layer_id as u32, name),
            info,
        ),
    ensures
        r@.len() <= k,
        r@.len() <= tokens@.len(),
        r@.len() == k || r@.len() == tokens@.len(),
        r@[i].token_id == tokens@[i],
        r@[i].transfers@.contains(t) <==> t.layer_id < e.num_layers && info is Some,
{
    let views = schedule_views(r@);
    assert(views.len() == r@.len());
    assert(views[i] == r@[i]@);
    lemma_all_indexed(&e.reader, e.num_layers as nat, t);
    assert(low32(t.layer_id as int) == t.layer_id as u32);
}

/// The names of a layer's weights in a shard.
pub proof fn law_weight_names(w: WeightName, s: &'static str)
    requires
        call_ensures(WeightName::name, (&w,), s),
    ensures
        w == WeightName::Q <==> s@ == "q"@,
        w == WeightName::K <==> s@ == "k"@,
        w == WeightName::V <==> s@ == "v"@,
        w == WeightName::O <==> s@ == "o"@,
        w == WeightName::Gate <==> s@ == "gate"@,
        w == WeightName::Up <==> s@ == "up"@,
        w == WeightName::Down <==> s@ == "down"@,
{
    reveal_strlit("q");
    reveal_strlit("k");
    reveal_strlit("v");
    reveal_strlit("o");
    reveal_strlit("gate");
    reveal_strlit("up");
    reveal_strlit("down");
    assert("q"@[0] == 'q' && "k"@[0] == 'k' && "v"@[0] == 'v' && "o"@[0] == 'o' && "gate"@[0] == 'g'
        && "up"@[0] == 'u' && "down"@[0] == 'd');
}

/// A tensor that was fetched ahead is taken once: in time, it runs on the device from the slot
/// that it was uploaded to; too late, it runs on the host with the bytes of the shard that the
/// upload covered. Either way the slot is free again and the other pending transfers are as they
/// were.
pub proof fn law_fetched_is_taken<'a>(
    fetch: &mut HyperStreamEngine<'a>,
    done: &mut HyperStreamEngine<'a>,
    take: &mut HyperStreamEngine<'a>,
    wait: &mut HyperStreamEngine<'a>,
    layer: usize,
    name: &str,
    upload: Upload,
    pending: Option<Pending>,
    in_time: bool,
    result: LayerResult,
)
    requires
        old(fetch).wf(),
        no_record(old(fetch).prefetch_queue@, layer, name@),
        call_ensures(HyperStreamEngine::prefetch_layer, (fetch, layer, name), Some(upload)),
        *old(done) == *final(fetch),
        call_ensures(HyperStreamEngine::prefetched, (done, layer, name, upload, true), ()),
        *old(take) == *final(done),
        call_ensures(HyperStreamEngine::take_pending, (take, layer, name), pending),
        *old(wait) == *final(take),
        call_ensures(
            HyperStreamEngine::wait_for_layer,
            (wait, layer, name, pending, in_time),
            result,
        ),
    ensures
        pending matches Some(p) && p.slot == upload.slot && p.timeline_value
            == upload.timeline_value,
        in_time ==> result.decision == FallbackDecision::Gpu(upload.slot)
            && result.tensor_data is None,
        !in_time ==> result.decision == FallbackDecision::Cpu && (
        result.tensor_data matches Some(v) && v@ == old(fetch).reader.data@.subrange(
            upload.start as int,
            upload.end as int,
        )),
        final(wait).transfer.triple_buffer.slots@[upload.slot as int].state
            == BufferSlotState::Free,
        final(wait).prefetch_queue@ == old(fetch).prefetch_queue@,
        final(wait).reader == old(fetch).reader,
{
    let before = old(fetch).prefetch_queue@;
    let queue = final(done).prefetch_queue@;
    let last = queue.len() - 1;
    assert(queue.drop_last() == before);
    assert(first_record(queue, layer, name@, last)) by {
        assert forall|k: int| 0 <= k < last implies !((#[trigger] queue[k]).layer_id == layer
            && queue[k].tensor_name@ == name@) by {
            assert(queue.drop_last()[k] == queue[k]);
        }
    }
    assert(!no_record(queue, layer, name@)) by {
        assert(queue[last].layer_id == layer && queue[last].tensor_name@ == name@);
    }
    let i = choose|i: int|
        {
            &&& #[trigger] first_record(queue, layer, name@, i)
            &&& pending->0.slot == queue[i].slot_index
            &&& pending->0.timeline_value == queue[i].timeline_value
            &&& final(take).prefetch_queue@ == queue.remove(i)
        };
    assert(i == last) by {
        if i < last {
            assert(queue[i].layer_id == layer && queue[i].tensor_name@ == name@);
        }
        if last < i {
            assert(queue[last].layer_id == layer && queue[last].tensor_name@ == name@);
        }
    }
    assert(queue.remove(last) =~= queue.drop_last());
}

/// A tensor that nothing was fetched for runs on the host with its bytes of the shard.
pub proof fn law_not_fetched_runs_on_host<'a>(
    take: &mut HyperStreamEngine<'a>,
    wait: &mut HyperStreamEngine<'a>,
    layer: usize,
    name: &str,
    pending: Option<Pending>,
    in_time: bool,
    result: LayerResult,
    read: Option<&'a [u8]>,
)
    requires
        old(take).wf(),
        no_record(old(take).prefetch_queue@, layer, name@),
        call_ensures(HyperStreamEngine::take_pending, (take, layer, name), pending),
        *old(wait) == *final(take),
        call_ensures(
            HyperStreamEngine::wait_for_layer,
            (wait, layer, name, pending, in_time),
            result,
        ),
        call_ensures(HyperStreamEngine::read_tensor, (&*old(take), layer, name), read),
    ensures
        result.decision == FallbackDecision::Cpu,
        match read {
            Some(s) => result.tensor_data matches Some(v) && v@ == s@,
            None => result.tensor_data is None,
        },
        final(wait).prefetch_queue@ == old(take).prefetch_queue@,
{
    let queue = old(take).prefetch_queue@;
    if pending is Some {
        let i = choose|i: int|
            {
                &&& #[trigger] first_record(queue, layer, name@, i)
                &&& pending->0.slot == queue[i].slot_index
                &&& pending->0.timeline_value == queue[i].timeline_value
                &&& final(take).prefetch_queue@ == queue.remove(i)
            };
        assert(queue[i].layer_id == layer && queue[i].tensor_name@ == name@);
    }
}

} // verus!
