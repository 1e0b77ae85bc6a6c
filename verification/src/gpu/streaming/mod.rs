//! Streaming of layer weights: counts, the index of a shard, buffers and transfers.

use vstd::prelude::*;

pub mod shard;
pub mod transfer;
pub mod triple_buffer;

verus! {

/// Counts of the transfers.
#[derive(Clone, Copy, Debug, PartialEq, Eq, Structural)]
pub struct StreamTelemetry {
    pub bytes_transferred: u64,
    pub transfers_completed: u64,
    pub transfers_missed: u64,
    pub prefetch_hits: u64,
    pub prefetch_misses: u64,
    pub k_current: u64,
    pub bandwidth_gbps: u64,
}

/// Counts of nothing.
pub open spec fn no_transfers() -> StreamTelemetry {
    StreamTelemetry {
        bytes_transferred: 0,
        transfers_completed: 0,
        transfers_missed: 0,
        prefetch_hits: 0,
        prefetch_misses: 0,
        k_current: 0,
        bandwidth_gbps: 0,
    }
}

impl StreamTelemetry {
    pub open spec fn transferred(self, bytes: u64) -> StreamTelemetry {
        StreamTelemetry {
            bytes_transferred: self.bytes_transferred.wrapping_add(bytes),
            transfers_completed: self.transfers_completed.wrapping_add(1),
            ..self
        }
    }

    pub open spec fn missed(self) -> StreamTelemetry {
        StreamTelemetry { transfers_missed: self.transfers_missed.wrapping_add(1), ..self }
    }

    pub open spec fn hit(self) -> StreamTelemetry {
        StreamTelemetry { prefetch_hits: self.prefetch_hits.wrapping_add(1), ..self }
    }

    pub open spec fn prefetch_missed(self) -> StreamTelemetry {
        StreamTelemetry { prefetch_misses: self.prefetch_misses.wrapping_add(1), ..self }
    }

    pub fn new() -> (r: StreamTelemetry)
        ensures
            r == no_transfers(),
    {
        StreamTelemetry {
            bytes_transferred: 0,
            transfers_completed: 0,
            transfers_missed: 0,
            prefetch_hits: 0,
            prefetch_misses: 0,
            k_current: 0,
            bandwidth_gbps: 0,
        }
    }

    /// Counts a transfer.
    pub fn record_transfer(&mut self, bytes: u64)
        ensures
            *final(self) == old(self).transferred(bytes),
    {
        self.bytes_transferred = self.bytes_transferred.wrapping_add(bytes);
        self.transfers_completed = self.transfers_completed.wrapping_add(1);
    }

    /// Counts a transfer that did not come about.
    pub fn record_miss(&mut self)
        ensures
            *final(self) == old(self).missed(),
    {
        self.transfers_missed = self.transfers_missed.wrapping_add(1);
    }

    /// Counts a prefetch that was of use.
    pub fn record_prefetch_hit(&mut self)
        ensures
            *final(self) == old(self).hit(),
    {
        self.prefetch_hits = self.prefetch_hits.wrapping_add(1);
    }

    /// Counts a prefetch that was of no use.
    pub fn record_prefetch_miss(&mut self)
        ensures
            *final(self) == old(self).prefetch_missed(),
    {
        self.prefetch_misses = self.prefetch_misses.wrapping_add(1);
    }

    /// The share of prefetches that were of use, as numerator and denominator; the whole
    /// where there was none.
    pub fn hit_rate(&self) -> (r: (u64, u128))
        ensures
            r == (if self.prefetch_hits + self.prefetch_misses == 0 {
                (1u64, 1u128)
            } else {
                (self.prefetch_hits, (self.prefetch_hits + self.prefetch_misses) as u128)
            }),
    {
        let total: u128 = self.prefetch_hits as u128 + self.prefetch_misses as u128;
        if total == 0 {
            (1, 1)
        } else {
            (self.prefetch_hits, total)
        }
    }

    /// The header of the table of snapshots.
    pub fn snapshot_header() -> (s: &'static str)
        ensures
            s@ == "elapsed_s,bytes,bw_gbps,hit_rate,k"@,
    {
        "elapsed_s,bytes,bw_gbps,hit_rate,k"
    }
}

/// The counters of a streaming: a transfer adds its bytes and one transfer, a hit adds one hit, a
/// miss adds one miss, and none of them touches another counter, as long as a counter does not
/// run over.
pub proof fn law_counters_apart(
    transfer: &mut StreamTelemetry,
    bytes: u64,
    miss: &mut StreamTelemetry,
    hit: &mut StreamTelemetry,
    late: &mut StreamTelemetry,
)
    requires
        call_ensures(StreamTelemetry::record_transfer, (transfer, bytes), ()),
        old(transfer).bytes_transferred + bytes <= u64::MAX,
        old(transfer).transfers_completed < u64::MAX,
        call_ensures(StreamTelemetry::record_miss, (miss,), ()),
        old(miss).transfers_missed < u64::MAX,
        call_ensures(StreamTelemetry::record_prefetch_hit, (hit,), ()),
        old(hit).prefetch_hits < u64::MAX,
        call_ensures(StreamTelemetry::record_prefetch_miss, (late,), ()),
        old(late).prefetch_misses < u64::MAX,
    ensures
        final(transfer).bytes_transferred - old(transfer).bytes_transferred == bytes,
        final(transfer).transfers_completed - old(transfer).transfers_completed == 1,
        final(transfer).transfers_missed == old(transfer).transfers_missed,
        final(transfer).prefetch_hits == old(transfer).prefetch_hits,
        final(transfer).prefetch_misses == old(transfer).prefetch_misses,
        final(miss).transfers_missed - old(miss).transfers_missed == 1,
        final(miss).transfers_completed == old(miss).transfers_completed,
        final(miss).bytes_transferred == old(miss).bytes_transferred,
        final(miss).prefetch_hits == old(miss).prefetch_hits,
        final(miss).prefetch_misses == old(miss).prefetch_misses,
        final(hit).prefetch_hits - old(hit).prefetch_hits == 1,
        final(hit).prefetch_misses == old(hit).prefetch_misses,
        final(hit).transfers_missed == old(hit).transfers_missed,
        final(hit).transfers_completed == old(hit).transfers_completed,
        final(late).prefetch_misses - old(late).prefetch_misses == 1,
        final(late).prefetch_hits == old(late).prefetch_hits,
        final(late).transfers_missed == old(late).transfers_missed,
        final(late).transfers_completed == old(late).transfers_completed,
{
}

/// The hit rate is a share between nothing and all: all before the first prefetch, and from then
/// on the hits among the hits and misses.
pub proof fn law_hit_rate_is_share(t: &StreamTelemetry, r: (u64, u128))
    requires
        call_ensures(StreamTelemetry::hit_rate, (t,), r),
    ensures
        r.1 >= 1,
        r.0 <= r.1,
        t.prefetch_hits + t.prefetch_misses > 0 ==> r.1 - r.0 == t.prefetch_misses && r.0
            == t.prefetch_hits,
        t.prefetch_hits == 0 && t.prefetch_misses == 0 ==> r.0 == r.1,
{
}

} // verus!
