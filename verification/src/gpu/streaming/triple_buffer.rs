//! Three buffers on the device that take turns.

use vstd::prelude::*;

verus! {

/// What a buffer is in use for.
#[derive(Clone, Copy, Debug, PartialEq, Eq, Structural)]
pub enum BufferSlotState {
    Free,
    Staging,
    DeviceReady,
    Computing,
}

/// A buffer on the device.
#[derive(Clone, Copy, Debug, PartialEq, Eq, Structural)]
pub struct BufferSlot {
    pub size: u64,
    pub state: BufferSlotState,
    pub timeline_value: u64,
}

impl BufferSlot {
    pub fn new(size: u64) -> (r: BufferSlot)
        ensures
            r == (BufferSlot { size, state: BufferSlotState::Free, timeline_value: 0 }),
    {
        BufferSlot { size, state: BufferSlotState::Free, timeline_value: 0 }
    }
}

/// Three buffers that take turns.
pub struct TripleBuffer {
    pub slots: [BufferSlot; 3],
    pub write_index: usize,
    pub max_slot_size: u64,
}

/// The position `offset` after the writing position.
pub open spec fn turn(write_index: int, offset: int) -> int {
    (write_index + offset) % 3
}

impl TripleBuffer {
    pub open spec fn wf(&self) -> bool {
        self.write_index < 3
    }

    /// Whether slot `i` is the first free one from the writing position on.
    pub open spec fn next_free(&self, i: int) -> bool {
        exists|o: int|
            {
                &&& 0 <= o < 3
                &&& #[trigger] turn(self.write_index as int, o) == i
                &&& self.slots@[i].state == BufferSlotState::Free
                &&& forall|p: int|
                    0 <= p < o ==> self.slots@[#[trigger] turn(
                        self.write_index as int,
                        p,
                    )].state != BufferSlotState::Free
            }
    }

    /// How many slots are in a state.
    pub open spec fn count(&self, s: BufferSlotState) -> int {
        (if self.slots@[0].state == s {
            1int
        } else {
            0
        }) + (if self.slots@[1].state == s {
            1int
        } else {
            0
        }) + (if self.slots@[2].state == s {
            1int
        } else {
            0
        })
    }

    /// That slot `i` went to a state, and nothing else changed.
    pub open spec fn moved(&self, post: &TripleBuffer, i: int, slot: BufferSlot) -> bool {
        &&& post.slots@ == self.slots@.update(i, slot)
        &&& post.max_slot_size == self.max_slot_size
    }

    /// Three free buffers of a size.
    pub fn new(slot_size: u64) -> (r: TripleBuffer)
        ensures
            r.wf(),
            r.write_index == 0,
            r.max_slot_size == slot_size,
            r.slots@ == Seq::new(
                3,
                |i: int|
                    BufferSlot {
                        size: slot_size,
                        state: BufferSlotState::Free,
                        timeline_value: 0,
                    },
            ),
    {
        let r = TripleBuffer {
            slots: [BufferSlot::new(slot_size), BufferSlot::new(slot_size), BufferSlot::new(slot_size)],
            write_index: 0,
            max_slot_size: slot_size,
        };
        assert(r.slots@ =~= Seq::new(
            3,
            |i: int|
                BufferSlot { size: slot_size, state: BufferSlotState::Free, timeline_value: 0 },
        ));
        r
    }

    fn set_state(&mut self, i: usize, state: BufferSlotState)
        requires
            i < 3,
        ensures
            old(self).moved(final(self), i as int, (BufferSlot { state, ..old(self).slots@[i as int] })),
            final(self).write_index == old(self).write_index,
    {
        let s = self.slots[i];
        self.slots[i] = BufferSlot { size: s.size, state, timeline_value: s.timeline_value };
    }

    /// Takes the next free slot for writing.
    pub fn acquire_write_slot(&mut self) -> (r: Option<usize>)
        requires
            old(self).wf(),
        ensures
            final(self).wf(),
            match r {
                Some(i) => {
                    &&& i < 3
                    &&& old(self).next_free(i as int)
                    &&& final(self).write_index == i
                    &&& old(self).moved(
                        final(self),
                        i as int,
                        (BufferSlot {
                            state: BufferSlotState::Staging,
                            ..old(self).slots@[i as int]
                        }),
                    )
                },
                None => {
                    &&& old(self).count(BufferSlotState::Free) == 0
                    &&& *final(self) == *old(self)
                },
            },
    {
        let mut offset: usize = 0;
        while offset < 3
            invariant
                *self == *old(self),
                self.wf(),
                offset <= 3,
                forall|p: int|
                    0 <= p < offset ==> self.slots@[#[trigger] turn(
                        self.write_index as int,
                        p,
                    )].state != BufferSlotState::Free,
            decreases 3 - offset,
        {
            let idx: usize = (self.write_index + offset) % 3;
            assert(turn(self.write_index as int, offset as int) == idx);
            if self.slots[idx].state == BufferSlotState::Free {
                self.set_state(idx, BufferSlotState::Staging);
                self.write_index = idx;
                return Some(idx);
            }
            offset += 1;
        }
        assert(turn(self.write_index as int, 0) == self.write_index);
        assert(turn(self.write_index as int, 1) == (self.write_index + 1) % 3);
        assert(turn(self.write_index as int, 2) == (self.write_index + 2) % 3);
        None
    }

    /// Marks a slot as filled at a point of the timeline.
    pub fn mark_device_ready(&mut self, idx: usize, timeline_value: u64)
        ensures
            final(self).write_index == old(self).write_index,
            if idx < 3 {
                old(self).moved(
                    final(self),
                    idx as int,
                    (BufferSlot {
                        state: BufferSlotState::DeviceReady,
                        timeline_value,
                        ..old(self).slots@[idx as int]
                    }),
                )
            } else {
                *final(self) == *old(self)
            },
    {
        if idx < 3 {
            let s = self.slots[idx];
            self.slots[idx] = BufferSlot {
                size: s.size,
                state: BufferSlotState::DeviceReady,
                timeline_value,
            };
        }
    }

    /// Takes the first filled slot for computing.
    pub fn acquire_compute_slot(&mut self) -> (r: Option<usize>)
        ensures
            final(self).write_index == old(self).write_index,
            match r {
                Some(i) => {
                    &&& i < 3
                    &&& old(self).slots@[i as int].state == BufferSlotState::DeviceReady
                    &&& forall|k: int|
                        0 <= k < i ==> (#[trigger] old(self).slots@[k]).state
                            != BufferSlotState::DeviceReady
                    &&& old(self).moved(
                        final(self),
                        i as int,
                        (BufferSlot {
                            state: BufferSlotState::Computing,
                            ..old(self).slots@[i as int]
                        }),
                    )
                },
                None => {
                    &&& old(self).count(BufferSlotState::DeviceReady) == 0
                    &&& *final(self) == *old(self)
                },
            },
    {
        let mut i: usize = 0;
        while i < 3
            invariant
                *self == *old(self),
                i <= 3,
                forall|k: int|
                    0 <= k < i ==> (#[trigger] self.slots@[k]).state != BufferSlotState::DeviceReady,
            decreases 3 - i,
        {
            if self.slots[i].state == BufferSlotState::DeviceReady {
                self.set_state(i, BufferSlotState::Computing);
                return Some(i);
            }
            i += 1;
        }
        None
    }

    /// Frees a slot.
    pub fn release_slot(&mut self, idx: usize)
        ensures
            final(self).write_index == old(self).write_index,
            if idx < 3 {
                old(self).moved(
                    final(self),
                    idx as int,
                    (BufferSlot { state: BufferSlotState::Free, ..old(self).slots@[idx as int] }),
                )
            } else {
                *final(self) == *old(self)
            },
    {
        if idx < 3 {
            self.set_state(idx, BufferSlotState::Free);
        }
    }

    fn count_state(&self, s: BufferSlotState) -> (n: usize)
        ensures
            n == self.count(s),
    {
        let mut n: usize = 0;
        if self.slots[0].state == s {
            n += 1;
        }
        if self.slots[1].state == s {
            n += 1;
        }
        if self.slots[2].state == s {
            n += 1;
        }
        n
    }

    /// Number of filled slots.
    pub fn slot_count_ready(&self) -> (n: usize)
        ensures
            n == self.count(BufferSlotState::DeviceReady),
    {
        self.count_state(BufferSlotState::DeviceReady)
    }

    /// Number of free slots.
    pub fn slot_count_free(&self) -> (n: usize)
        ensures
            n == self.count(BufferSlotState::Free),
    {
        self.count_state(BufferSlotState::Free)
    }
}

/// A slot that is taken for writing was free, so that nothing in use is written over; and it
/// leaves one free slot less.
pub proof fn law_write_slot_was_free(a: &TripleBuffer, b: &TripleBuffer, i: int)
    requires
        a.wf(),
        0 <= i < 3,
        a.next_free(i),
        a.moved(b, i, (BufferSlot { state: BufferSlotState::Staging, ..a.slots@[i] })),
    ensures
        a.slots@[i].state == BufferSlotState::Free,
        b.count(BufferSlotState::Free) == a.count(BufferSlotState::Free) - 1,
{
}

/// A slot goes round: taken for writing it was free and is the first free one from the last
/// written on; marked it is ready with the value it was marked with; taken for computing it was
/// ready; released it is free again, and the three slots are free as before the round.
pub proof fn law_slot_goes_round(
    write: &mut TripleBuffer,
    mark: &mut TripleBuffer,
    compute: &mut TripleBuffer,
    release: &mut TripleBuffer,
    slot: usize,
    value: u64,
    taken: Option<usize>,
)
    requires
        old(write).wf(),
        call_ensures(TripleBuffer::acquire_write_slot, (write,), Some(slot)),
        *old(mark) == *final(write),
        call_ensures(TripleBuffer::mark_device_ready, (mark, slot, value), ()),
        *old(compute) == *final(mark),
        call_ensures(TripleBuffer::acquire_compute_slot, (compute,), taken),
        *old(release) == *final(compute),
        taken == Some(slot),
        call_ensures(TripleBuffer::release_slot, (release, slot), ()),
    ensures
        slot < 3,
        old(write).slots@[slot as int].state == BufferSlotState::Free,
        final(write).slots@[slot as int].state == BufferSlotState::Staging,
        final(mark).slots@[slot as int].state == BufferSlotState::DeviceReady,
        final(mark).slots@[slot as int].timeline_value == value,
        final(compute).slots@[slot as int].state == BufferSlotState::Computing,
        forall|i: int|
            0 <= i < 3 ==> (#[trigger] final(release).slots@[i]).state == old(
                write,
            ).slots@[i].state && final(release).slots@[i].size == old(write).slots@[i].size,
        forall|i: int|
            0 <= i < 3 && i != slot ==> #[trigger] final(release).slots@[i] == old(
                write,
            ).slots@[i],
{
}

/// The slot taken for writing is the last written one where that is free, or else the one behind
/// it, or else the third; none is taken only where none is free.
pub proof fn law_write_in_turn(b: &mut TripleBuffer, r: Option<usize>)
    requires
        old(b).wf(),
        call_ensures(TripleBuffer::acquire_write_slot, (b,), r),
    ensures
        r is None <==> forall|i: int|
            0 <= i < 3 ==> (#[trigger] old(b).slots@[i]).state != BufferSlotState::Free,
        old(b).slots@[old(b).write_index as int].state == BufferSlotState::Free ==> r == Some(
            old(b).write_index,
        ),
        old(b).slots@[old(b).write_index as int].state != BufferSlotState::Free && old(b).slots@[(old(
            b,
        ).write_index + 1) % 3].state == BufferSlotState::Free ==> r == Some(
            ((old(b).write_index + 1) % 3) as usize,
        ),
        r matches Some(i) ==> final(b).write_index == i,
{
    let w = old(b).write_index as int;
    assert(turn(w, 0) == w);
    assert(turn(w, 1) == (w + 1) % 3);
    assert(turn(w, 2) == (w + 2) % 3);
    let s = old(b).slots@;
    assert(s[0].state == s[0].state && s[1].state == s[1].state && s[2].state == s[2].state);
}

/// The slot taken for computing is the first that is ready, and none is taken only where none is
/// ready.
pub proof fn law_compute_first_ready(b: &mut TripleBuffer, r: Option<usize>, i: int)
    requires
        call_ensures(TripleBuffer::acquire_compute_slot, (b,), r),
        0 <= i < 3,
        old(b).slots@[i].state == BufferSlotState::DeviceReady,
    ensures
        r matches Some(k) && k <= i && old(b).slots@[k as int].state
            == BufferSlotState::DeviceReady,
{
}

/// The two counts of a buffer go by its slots: one more for each that is free, or ready.
pub proof fn law_counts_of_slots(b: &TripleBuffer, free: usize, ready: usize, i: int)
    requires
        call_ensures(TripleBuffer::slot_count_free, (b,), free),
        call_ensures(TripleBuffer::slot_count_ready, (b,), ready),
        0 <= i < 3,
    ensures
        free + ready <= 3,
        b.slots@[i].state == BufferSlotState::Free ==> free >= 1,
        b.slots@[i].state != BufferSlotState::Free ==> free <= 2,
        b.slots@[i].state == BufferSlotState::DeviceReady ==> ready >= 1,
        b.slots@[i].state != BufferSlotState::DeviceReady ==> ready <= 2,
        free == 3 <==> forall|k: int|
            0 <= k < 3 ==> (#[trigger] b.slots@[k]).state == BufferSlotState::Free,
        ready == 3 <==> forall|k: int|
            0 <= k < 3 ==> (#[trigger] b.slots@[k]).state == BufferSlotState::DeviceReady,
{
    let s = b.slots@;
    assert(s[0].state == s[0].state && s[1].state == s[1].state && s[2].state == s[2].state);
}

} // verus!
