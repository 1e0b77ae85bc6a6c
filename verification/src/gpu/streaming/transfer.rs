//! Transfers to the device: which slot one goes to, at which point of the timeline it is
//! done, and what is waited for.

use vstd::prelude::*;

use crate::gpu::streaming::no_transfers;
use crate::gpu::streaming::triple_buffer::BufferSlot;
use crate::gpu::streaming::triple_buffer::BufferSlotState;
use crate::gpu::streaming::triple_buffer::TripleBuffer;
use crate::gpu::streaming::StreamTelemetry;

verus! {

/// The state of the transfers.
pub struct TransferEngine {
    pub triple_buffer: TripleBuffer,
    pub timeline_val: u64,
    pub telemetry: StreamTelemetry,
}

impl TransferEngine {
    pub open spec fn wf(&self) -> bool {
        self.triple_buffer.wf()
    }

    /// No transfers yet, and slots of a size.
    pub fn new(slot_size: u64) -> (r: TransferEngine)
        ensures
            r.wf(),
            r.timeline_val == 0,
            r.telemetry == no_transfers(),
            r.triple_buffer.write_index == 0,
            r.triple_buffer.max_slot_size == slot_size,
            r.triple_buffer.slots@ == Seq::new(
                3,
                |i: int|
                    BufferSlot {
                        size: slot_size,
                        state: BufferSlotState::Free,
                        timeline_value: 0,
                    },
            ),
    {
        TransferEngine {
            triple_buffer: TripleBuffer::new(slot_size),
            timeline_val: 0,
            telemetry: StreamTelemetry::new(),
        }
    }

    /// The last point of the timeline that was given out.
    pub fn current_timeline(&self) -> (r: u64)
        ensures
            r == self.timeline_val,
    {
        self.timeline_val
    }

    /// Whether data fits in a slot.
    pub open spec fn fits(&self, len: nat) -> bool {
        len <= self.triple_buffer.max_slot_size
    }

    /// Starts an upload: takes a slot and the next point of the timeline. Nothing where the
    /// data does not fit or no slot is free.
    pub fn upload_slot(&mut self, len: usize) -> (r: Option<(usize, u64)>)
        requires
            old(self).wf(),
        ensures
            final(self).wf(),
            final(self).telemetry == old(self).telemetry,
            match r {
                Some((slot, value)) => {
                    &&& old(self).fits(len as nat)
                    &&& slot < 3
                    &&& old(self).triple_buffer.next_free(slot as int)
                    &&& value == old(self).timeline_val.wrapping_add(1)
                    &&& final(self).timeline_val == value
                    &&& final(self).triple_buffer.write_index == slot
                    &&& old(self).triple_buffer.moved(
                        &final(self).triple_buffer,
                        slot as int,
                        (BufferSlot {
                            state: BufferSlotState::Staging,
                            ..old(self).triple_buffer.slots@[slot as int]
                        }),
                    )
                },
                None => {
                    &&& *final(self) == *old(self)
                    &&& !old(self).fits(len as nat) || old(self).triple_buffer.count(
                        BufferSlotState::Free,
                    ) == 0
                },
            },
    {
        if len as u64 > self.triple_buffer.max_slot_size {
            return None;
        }
        match self.triple_buffer.acquire_write_slot() {
            Some(idx) => {
                self.timeline_val = self.timeline_val.wrapping_add(1);
                Some((idx, self.timeline_val))
            },
            None => None,
        }
    }

    /// Takes in that an upload was handed to the device. An upload of which this is never
    /// said keeps its slot.
    pub fn upload_done(&mut self, slot: usize, value: u64, len: usize)
        requires
            old(self).wf(),
            slot < 3,
        ensures
            final(self).wf(),
            final(self).timeline_val == old(self).timeline_val,
            final(self).telemetry == old(self).telemetry.transferred(len as u64),
            final(self).triple_buffer.write_index == old(self).triple_buffer.write_index,
            old(self).triple_buffer.moved(
                &final(self).triple_buffer,
                slot as int,
                (BufferSlot {
                    state: BufferSlotState::DeviceReady,
                    timeline_value: value,
                    ..old(self).triple_buffer.slots@[slot as int]
                }),
            ),
    {
        self.triple_buffer.mark_device_ready(slot, value);
        self.telemetry.record_transfer(len as u64);
    }

    /// The point of the timeline that all transfers are done at, where there was one.
    pub fn sync_all(&self) -> (r: Option<u64>)
        ensures
            r == (if self.timeline_val > 0 {
                Some(self.timeline_val)
            } else {
                None
            }),
    {
        if self.timeline_val > 0 {
            Some(self.timeline_val)
        } else {
            None
        }
    }
}

/// An upload from start to end: it takes a free slot for data that fits, its value is one more
/// than the last, and when it is done the slot is ready with that value, the bytes are counted,
/// the slots of others are as they were, and a wait for everything waits for that value.
pub proof fn law_upload_from_start_to_end(
    start: &mut TransferEngine,
    done: &mut TransferEngine,
    len: usize,
    slot: usize,
    value: u64,
    all: Option<u64>,
)
    requires
        old(start).wf(),
        old(start).timeline_val < u64::MAX,
        call_ensures(TransferEngine::upload_slot, (start, len), Some((slot, value))),
        *old(done) == *final(start),
        call_ensures(TransferEngine::upload_done, (done, slot, value, len), ()),
        call_ensures(TransferEngine::sync_all, (&*final(done),), all),
        old(start).telemetry.bytes_transferred + len <= u64::MAX,
        old(start).telemetry.transfers_completed < u64::MAX,
    ensures
        len <= old(start).triple_buffer.max_slot_size,
        slot < 3,
        old(start).triple_buffer.slots@[slot as int].state == BufferSlotState::Free,
        value == old(start).timeline_val + 1,
        final(start).triple_buffer.slots@[slot as int].state == BufferSlotState::Staging,
        final(done).triple_buffer.slots@[slot as int].state == BufferSlotState::DeviceReady,
        final(done).triple_buffer.slots@[slot as int].timeline_value == value,
        forall|i: int|
            0 <= i < 3 && i != slot ==> #[trigger] final(done).triple_buffer.slots@[i] == old(
                start,
            ).triple_buffer.slots@[i],
        final(done).telemetry.bytes_transferred - old(start).telemetry.bytes_transferred == len,
        final(done).telemetry.transfers_completed - old(start).telemetry.transfers_completed == 1,
        final(done).telemetry.transfers_missed == old(start).telemetry.transfers_missed,
        all == Some(value),
{
}

/// An upload is refused exactly where the data is longer than a slot or no slot is free, and a
/// refused one changes nothing.
pub proof fn law_upload_refused(e: &mut TransferEngine, len: usize, r: Option<(usize, u64)>)
    requires
        old(e).wf(),
        call_ensures(TransferEngine::upload_slot, (e, len), r),
    ensures
        r is None <==> (len > old(e).triple_buffer.max_slot_size || forall|i: int|
            0 <= i < 3 ==> (#[trigger] old(e).triple_buffer.slots@[i]).state
                != BufferSlotState::Free),
        r is None ==> *final(e) == *old(e),
{
    let s = old(e).triple_buffer.slots@;
    assert(s[0].state == s[0].state && s[1].state == s[1].state && s[2].state == s[2].state);
}

} // verus!
