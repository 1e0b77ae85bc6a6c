//! Streaming of layers to a device.

use llamanyon::engine::streamer::{
    Confidence, FallbackDecision, HyperStreamEngine, LayerTransfer, WeightName,
};
use llamanyon::gpu::streaming::shard::{LayerInfo, ShardIndex, ShardReader, TensorInfo};
use llamanyon::gpu::streaming::transfer::TransferEngine;
use llamanyon::gpu::streaming::triple_buffer::{BufferSlotState, TripleBuffer};
use llamanyon::gpu::streaming::StreamTelemetry;
use llamanyon::gpu::{attention_sizes_match, check_code, check_handle, GpuError};

fn layer(id: u32, tensors: &[(&str, u64, u64)]) -> LayerInfo {
    LayerInfo {
        id,
        name: format!("layer{}", id),
        tensors: tensors
            .iter()
            .map(|(n, offset, size)| {
                (n.to_string(), TensorInfo { offset: *offset, size: *size, n_blocks: 1 })
            })
            .collect(),
    }
}

fn index() -> ShardIndex {
    ShardIndex {
        format: "f".to_string(),
        model: "m".to_string(),
        quant: "q4_k".to_string(),
        num_layers: 3,
        layers: vec![
            layer(0, &[("q", 0, 4), ("k", 4, 4)]),
            layer(1, &[("q", 8, 4), ("down", 12, 8), ("v", 30, 10)]),
            layer(2, &[("up", 20, 2)]),
        ],
    }
}

fn bytes() -> Vec<u8> {
    (0..32).collect()
}

#[test]
fn tensors_of_a_shard() {
    let data = bytes();
    let r = ShardReader::new(index(), &data);
    assert_eq!(r.get_tensor(0, "k").unwrap().to_vec(), vec![4, 5, 6, 7]);
    assert_eq!(r.tensor_range(1, "down"), Some((12, 20)));
    assert!(r.get_tensor(1, "v").is_none());
    assert!(r.get_tensor(1, "x").is_none());
    assert!(r.get_tensor(7, "q").is_none());
    assert_eq!(r.total_size(), 32);
    assert_eq!(r.index.layer_offsets(1, "v").unwrap().offset, 30);
}

#[test]
fn three_slots_take_turns() {
    let mut b = TripleBuffer::new(100);
    assert_eq!((b.slot_count_free(), b.slot_count_ready()), (3, 0));
    let w: Vec<Option<usize>> = (0..4).map(|_| b.acquire_write_slot()).collect();
    assert!(w[3].is_none());
    let mut got: Vec<usize> = w.into_iter().flatten().collect();
    got.sort();
    assert_eq!(got, vec![0, 1, 2]);
    assert!(b.acquire_compute_slot().is_none());
    b.mark_device_ready(1, 9);
    assert_eq!(b.slot_count_ready(), 1);
    assert_eq!(b.slots[1].timeline_value, 9);
    assert_eq!(b.acquire_compute_slot(), Some(1));
    assert_eq!(b.slots[1].state, BufferSlotState::Computing);
    b.release_slot(1);
    assert_eq!(b.slot_count_free(), 1);
    assert_eq!(b.acquire_write_slot(), Some(1));
}

#[test]
fn uploads_move_the_timeline() {
    let mut t = TransferEngine::new(8);
    assert_eq!(t.current_timeline(), 0);
    assert_eq!(t.sync_all(), None);
    assert_eq!(t.upload_slot(9), None);
    let (slot, value) = t.upload_slot(8).unwrap();
    assert_eq!(value, 1);
    t.upload_done(slot, value, 8);
    assert_eq!(t.sync_all(), Some(1));
    assert_eq!(t.telemetry.bytes_transferred, 8);
    assert_eq!(t.telemetry.transfers_completed, 1);
    assert_eq!(t.triple_buffer.slot_count_ready(), 1);
}

#[test]
fn counts_of_a_stream() {
    let mut s = StreamTelemetry::new();
    assert_eq!(s.hit_rate(), (1, 1));
    s.record_prefetch_hit();
    s.record_prefetch_miss();
    s.record_miss();
    s.record_transfer(5);
    assert_eq!(s.hit_rate(), (1, 2));
    assert_eq!((s.transfers_missed, s.bytes_transferred), (1, 5));
    assert_eq!(StreamTelemetry::snapshot_header(), "elapsed_s,bytes,bw_gbps,hit_rate,k");
}

fn transfers(layer_id: usize, names: &[WeightName]) -> Vec<LayerTransfer> {
    names.iter().map(|n| LayerTransfer { layer_id, tensor_name: *n }).collect()
}

const CORE: [WeightName; 3] = [WeightName::Q, WeightName::K, WeightName::V];
const ALL: [WeightName; 7] = [
    WeightName::Q,
    WeightName::K,
    WeightName::V,
    WeightName::O,
    WeightName::Gate,
    WeightName::Up,
    WeightName::Down,
];

#[test]
fn layers_are_scheduled_as_far_as_the_shard_has_them() {
    let data = bytes();
    let e = HyperStreamEngine::open(ShardReader::new(index(), &data), 8);
    let s = e.resolve_k(&[11, 12, 13], 2);
    assert_eq!(s.len(), 2);
    assert_eq!((s[0].token_id, s[1].token_id), (11, 12));
    let mut want = transfers(0, &[WeightName::Q, WeightName::K]);
    want.append(&mut transfers(1, &[WeightName::Q, WeightName::V, WeightName::Down]));
    want.append(&mut transfers(2, &[WeightName::Up]));
    assert_eq!(s[1].transfers, want);
    assert_eq!(WeightName::Gate.name(), "gate");
}

#[test]
fn layers_ahead() {
    let data = bytes();
    let mut ix = index();
    ix.num_layers = 10;
    let mut e = HyperStreamEngine::open(ShardReader::new(ix, &data), 8);
    assert_eq!((e.k(), e.num_layers()), (3, 10));
    let mut want = transfers(5, &ALL);
    want.append(&mut transfers(6, &CORE));
    want.append(&mut transfers(7, &CORE));
    assert_eq!(e.prefetch_k_ahead(4), want);
    assert_eq!(e.prefetch_k_ahead(8), transfers(9, &ALL));
    assert!(e.prefetch_k_ahead(9).is_empty());
    e.set_k(0);
    assert_eq!(e.k(), 1);
    assert_eq!(e.telemetry().k_current, 1);
    assert_eq!(e.prefetch_k_ahead(4), transfers(5, &ALL));
    e.set_k(2);
    // every fifth layer, two at a time
    let mut want = transfers(1, &CORE);
    want.append(&mut transfers(2, &CORE));
    want.append(&mut transfers(6, &ALL));
    want.append(&mut transfers(7, &ALL));
    assert_eq!(
        e.prefetch_with_dspark(&vec![Confidence::Middle, Confidence::High, Confidence::High], 0),
        want
    );
    assert_eq!(e.prefetch_with_dspark(&vec![Confidence::High], 8), transfers(9, &ALL));
    assert!(e.prefetch_with_dspark(&vec![Confidence::Low], 0).is_empty());
}

#[test]
fn a_prefetched_layer_runs_on_the_device() {
    let data = bytes();
    let mut e = HyperStreamEngine::open(ShardReader::new(index(), &data), 8);
    let u = e.prefetch_layer(1, "down").unwrap();
    assert_eq!((u.start, u.end, u.timeline_value), (12, 20, 1));
    e.prefetched(1, "down", u, true);
    assert_eq!(e.telemetry().prefetch_hits, 1);
    let p = e.take_pending(1, "down");
    assert_eq!(p.unwrap().timeline_value, 1);
    let r = e.wait_for_layer(1, "down", p, true);
    assert_eq!(r.decision, FallbackDecision::Gpu(u.slot));
    assert!(r.tensor_data.is_none());
    assert_eq!(e.transfer_mut().triple_buffer.slot_count_free(), 3);
    assert_eq!(e.sync_all(), Some(1));
}

#[test]
fn a_late_layer_falls_back() {
    let data = bytes();
    let mut e = HyperStreamEngine::open(ShardReader::new(index(), &data), 8);
    let u = e.prefetch_layer(0, "q").unwrap();
    e.prefetched(0, "q", u, true);
    let p = e.take_pending(0, "q");
    let r = e.wait_for_layer(0, "q", p, false);
    assert_eq!(r.decision, FallbackDecision::Cpu);
    assert_eq!(r.tensor_data, Some(vec![0, 1, 2, 3]));
    assert_eq!(e.telemetry().prefetch_misses, 1);
    assert_eq!(e.telemetry().transfers_missed, 1);
    assert_eq!(e.transfer_mut().triple_buffer.slot_count_free(), 3);
    assert!(e.take_pending(0, "q").is_none());
    let r = e.wait_for_layer(0, "o", None, true);
    assert_eq!((r.decision, r.tensor_data), (FallbackDecision::Cpu, None));
    assert_eq!(e.read_tensor(0, "q").unwrap().to_vec(), vec![0, 1, 2, 3]);
}

#[test]
fn misses_are_counted() {
    let data = bytes();
    let mut e = HyperStreamEngine::open(ShardReader::new(index(), &data), 4);
    assert!(e.prefetch_layer(0, "nothing").is_none());
    assert!(e.prefetch_layer(1, "down").is_none());
    assert_eq!(e.telemetry().transfers_missed, 2);
    let u = e.prefetch_layer(0, "q").unwrap();
    e.prefetched(0, "q", u, false);
    assert_eq!(e.telemetry().transfers_missed, 3);
    assert!(e.take_pending(0, "q").is_none());
    for _ in 0..2 {
        let u = e.prefetch_layer(0, "q").unwrap();
        e.prefetched(0, "q", u, true);
    }
    // no slot is left
    assert!(e.prefetch_layer(0, "q").is_none());
    assert_eq!(e.release_pending(), vec![2, 3]);
    assert!(e.release_pending().is_empty());
    let none = e.take_pending(0, "q");
    assert!(none.is_none());
    assert_eq!(e.wait_for_layer(0, "q", none, true).decision, FallbackDecision::Cpu);
    assert!(e.prefetch_layer(0, "q").is_some());
}

#[test]
fn codes_of_the_device() {
    assert!(check_code(0).is_ok());
    match check_code(-7) {
        Err(e) => assert_eq!(e.message(), "GPU kernel returned error code -7"),
        Ok(_) => panic!("accepted"),
    }
    assert!(check_handle(false).is_ok());
    match check_handle(true) {
        Err(GpuError::KernelError(c)) => assert_eq!(c, -1),
        _ => panic!("accepted"),
    }
    assert_eq!(
        GpuError::NotAvailable("x".to_string()).message(),
        "CUDA/GPU not available: x"
    );
    assert_eq!(GpuError::LibLoad("x".to_string()).message(), "Library load failed: x");
    assert_eq!(GpuError::Symbol("x".to_string()).message(), "Symbol lookup failed: x");
}

#[test]
fn sizes_of_attention() {
    assert!(attention_sizes_match(16, 32, 32, 16, 2, 1, 4, 8));
    assert!(!attention_sizes_match(15, 32, 32, 16, 2, 1, 4, 8));
    assert!(!attention_sizes_match(16, 31, 32, 16, 2, 1, 4, 8));
}
