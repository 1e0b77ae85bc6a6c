//! Kernels: products of quantised matrices, and the simulated vector unit.

use half::{bf16, f16};

use llamanyon::kernels::fused_gemv_q4k::{
    fused_gemv_q4k, fused_gemv_q4k_batched, fused_gemv_q4k_multi, row_weights, shapes_match,
    unpack_scales_q4k, SubDot,
};
use llamanyon::kernels::fused_gemv_q6k::{f16_to_f32_raw, fused_gemv_q6k};
use llamanyon::kernels::hvx_sim::{
    bf16_from_f32_bits, f32_to_bf16_stochastic, fma_operands, hvx_permute_and_relu, Bf1616,
    Bf3232, ChannelActivationStats, HyperVecReg, SparsityMask, Xorshift32,
};
use llamanyon::quant::q4_k::dequant_q4k;
use llamanyon::quant::Weight;

// --- four bits ------------------------------------------------------------

fn make_q4k_block(
    d: f32,
    dmin: f32,
    scales: &[u8; 8],
    mins: &[u8; 8],
    nibble_val: u8,
) -> Vec<u8> {
    let mut block = vec![0u8; 144];
    block[0..2].copy_from_slice(&f16::from_f32(d).to_le_bytes());
    block[2..4].copy_from_slice(&f16::from_f32(dmin).to_le_bytes());
    for j in 0..4 {
        block[4 + j] = (scales[j] & 0x3F) | ((scales[4 + j] >> 4) << 6);
        block[8 + j] = (mins[j] & 0x3F) | ((mins[4 + j] >> 4) << 6);
    }
    block[12] = (scales[4] & 0x0F) | ((mins[4] & 0x0F) << 4);
    block[13] = (scales[5] & 0x0F) | ((mins[5] & 0x0F) << 4);
    block[14] = (scales[6] & 0x0F) | ((mins[6] & 0x0F) << 4);
    block[15] = (scales[7] & 0x0F) | ((mins[7] & 0x0F) << 4);
    for i in 0..128 {
        block[16 + i] = nibble_val | (nibble_val << 4);
    }
    block
}

fn make_weight(n_rows: usize, _n_cols: usize) -> Vec<u8> {
    let mut w = vec![0u8; 0];
    for r in 0..n_rows {
        let d = 0.5 + r as f32 * 0.1;
        let dm = 0.1 + r as f32 * 0.05;
        let scales = [(r as u8 + 1) & 0x3F; 8];
        let mins = [(r as u8 + 2) & 0x3F; 8];
        w.append(&mut make_q4k_block(d, dm, &scales, &mins, 8));
    }
    w
}

fn make_x(n_cols: usize) -> Vec<f32> {
    (0..n_cols).map(|i| (i % 100) as f32 / 50.0 - 1.0).collect()
}

/// The vector as bytes, and the size of a step.
fn quantized(x: &[f32]) -> (Vec<i8>, f32) {
    let max = x.iter().fold(0f32, |m, v| m.max(v.abs()));
    let step = max / 127.0;
    (x.iter().map(|v| (v / step).round() as i8).collect(), step)
}

fn row_sum(dots: &[SubDot], step: f32) -> f32 {
    dots.iter()
        .map(|s| {
            let d = f32::from_bits(s.d) * s.scale as f32 * s.dot as f32;
            let m = f32::from_bits(s.dmin) * s.min as f32 * s.sum as f32;
            (d - m) * step
        })
        .sum()
}

fn number(w: &Weight) -> f32 {
    f32::from_bits(w.d) * w.scale as f32 * w.q as f32 - f32::from_bits(w.dmin) * w.min as f32
}

fn batch_of_one(n_rows: usize) {
    let n_cols = 256;
    let w = make_weight(n_rows, n_cols);
    let x = make_x(n_cols);
    let (q, step) = quantized(&x);
    let expected = fused_gemv_q4k(&w, &q, n_rows, n_cols);
    let actual = fused_gemv_q4k_batched(&w, &vec![q.as_slice()], n_rows, n_cols);
    assert_eq!(actual.len(), 1);
    for r in 0..n_rows {
        let diff = (row_sum(&expected[r], step) - row_sum(&actual[0][r], step)).abs();
        assert!(diff < 0.01, "row={}: n_rows={} diff={:.6}", r, n_rows, diff);
    }
}

#[test]
fn test_batched_batch1_vs_single_2rows() {
    batch_of_one(2);
}

#[test]
fn test_batched_batch1_vs_single_3rows() {
    batch_of_one(3);
}

#[test]
fn test_batched_batch1_vs_single_4rows() {
    batch_of_one(4);
}

#[test]
fn test_batched_batch1_vs_single_7rows() {
    batch_of_one(7);
}

#[test]
fn test_batched_scalar_vs_single_scalar() {
    let n_rows = 4;
    let n_cols = 256;
    let w = make_weight(n_rows, n_cols);
    let x = make_x(n_cols);
    let all = match dequant_q4k(&w, n_rows * n_cols) {
        Ok(v) => v,
        Err(e) => panic!("{}", e.message()),
    };
    for r in 0..n_rows {
        let expected: f32 = (0..n_cols).map(|i| number(&all[r * n_cols + i]) * x[i]).sum();
        let row = row_weights(&w, r, n_rows, n_cols);
        let actual: f32 = row.iter().zip(x.iter()).map(|(a, b)| number(a) * b).sum();
        let diff = (expected - actual).abs();
        assert!(diff < 0.01, "row={}: diff={:.6}", r, diff);
    }
    let (q, scale) = quantized(&x);
    let batched = fused_gemv_q4k_batched(&w, &vec![q.as_slice()], n_rows, n_cols);
    let single = fused_gemv_q4k(&w, &q, n_rows, n_cols);
    assert_eq!(batched.len(), 1);
    for r in 0..n_rows {
        let expected = row_sum(&single[r], scale);
        let actual = row_sum(&batched[0][r], scale);
        let diff = (expected - actual).abs();
        assert!(diff < 0.01, "row={}: diff={:.6}", r, diff);
    }
}

#[test]
fn integer_sums_are_exact() {
    let w = make_q4k_block(1.0, 0.5, &[1, 2, 3, 4, 5, 6, 7, 8], &[8, 7, 6, 5, 4, 3, 2, 1], 5);
    let x: Vec<i8> = (0..256).map(|i| (i % 11) as i8 - 5).collect();
    let dots = fused_gemv_q4k(&w, &x, 1, 256);
    assert_eq!(dots[0].len(), 8);
    for sb in 0..8 {
        let part: i32 = x[32 * sb..32 * sb + 32].iter().map(|v| *v as i32).sum();
        assert_eq!(dots[0][sb].sum, part);
        assert_eq!(dots[0][sb].dot, 5 * part);
        assert_eq!(dots[0][sb].scale, sb as u8 + 1);
        assert_eq!(dots[0][sb].min, 8 - sb as u8);
    }
    // the sums give the product of the weights and the vector
    let weights = row_weights(&w, 0, 1, 256);
    let direct: f32 = weights.iter().zip(x.iter()).map(|(a, b)| number(a) * *b as f32).sum();
    assert_eq!(row_sum(&dots[0], 1.0), direct);
}

#[test]
fn several_matrices_and_one_vector() {
    let a = make_weight(2, 256);
    let b = make_weight(3, 256);
    let (q, _) = quantized(&make_x(256));
    let both = fused_gemv_q4k_multi(&vec![a.as_slice(), b.as_slice()], &q, &vec![2, 3], 256);
    assert_eq!(both[0], fused_gemv_q4k(&a, &q, 2, 256));
    assert_eq!(both[1], fused_gemv_q4k(&b, &q, 3, 256));
}

#[test]
fn shapes_of_a_product() {
    assert!(shapes_match(288, 256, 2, 2, 256));
    assert!(!shapes_match(287, 256, 2, 2, 256));
    assert!(!shapes_match(288, 255, 2, 2, 256));
    assert!(!shapes_match(288, 256, 1, 2, 256));
    assert!(!shapes_match(0, 100, 0, 0, 100));
    let b = make_q4k_block(1.0, 1.0, &[9, 8, 7, 6, 50, 40, 30, 20], &[1, 2, 3, 4, 61, 6, 7, 8], 0);
    let (s, m) = unpack_scales_q4k(&b[4..16]);
    assert_eq!(s, [9, 8, 7, 6, 50, 40, 30, 20]);
    assert_eq!(m, [1, 2, 3, 4, 61, 6, 7, 8]);
}

// --- six bits -------------------------------------------------------------

fn dequant_q6k_reference(raw: &[u8], row: usize, n_blocks: usize) -> Vec<f32> {
    let mut dst = vec![0.0f32; n_blocks * 256];
    for blk in 0..n_blocks {
        let base = (row * n_blocks + blk) * 210;
        let block = &raw[base..base + 210];
        let d = f16::from_le_bytes([block[208], block[209]]).to_f32();
        let ql = &block[0..128];
        let qh = &block[128..192];
        let sc = &block[192..208];
        let out = &mut dst[blk * 256..(blk + 1) * 256];
        let mut idx = 0;
        for half in 0..2 {
            let ql_h = &ql[half * 64..(half + 1) * 64];
            let qh_h = &qh[half * 32..(half + 1) * 32];
            let sc_h = &sc[half * 8..(half + 1) * 8];
            for l in 0..32 {
                let is = l / 16;
                let q1 = ((ql_h[l] as u16 & 0x0F) | ((qh_h[l] as u16 & 3) << 4)) as i8 - 32;
                let q2 =
                    ((ql_h[l + 32] as u16 & 0x0F) | (((qh_h[l] as u16 >> 2) & 3) << 4)) as i8 - 32;
                let q3 = (((ql_h[l] as u16) >> 4) | (((qh_h[l] as u16 >> 4) & 3) << 4)) as i8 - 32;
                let q4 =
                    (((ql_h[l + 32] as u16) >> 4) | (((qh_h[l] as u16 >> 6) & 3) << 4)) as i8 - 32;
                out[idx + l] = d * (sc_h[is] as i8 as f32) * (q1 as f32);
                out[idx + l + 32] = d * (sc_h[is + 2] as i8 as f32) * (q2 as f32);
                out[idx + l + 64] = d * (sc_h[is + 4] as i8 as f32) * (q3 as f32);
                out[idx + l + 96] = d * (sc_h[is + 6] as i8 as f32) * (q4 as f32);
            }
            idx += 128;
        }
    }
    dst
}

fn create_test_data(n_rows: usize, n_blocks: usize) -> Vec<u8> {
    let total_size = n_rows * n_blocks * 210;
    let mut raw = vec![0u8; total_size];
    for row in 0..n_rows {
        for blk in 0..n_blocks {
            let base = (row * n_blocks + blk) * 210;
            let block = &mut raw[base..base + 210];
            for i in 0..128 {
                let lo = (i as u8) & 0x0F;
                let hi = ((i + 128) as u8) & 0x0F;
                block[i] = lo | (hi << 4);
            }
            for i in 0..64 {
                let b0 = ((i as u8) >> 4) & 3;
                let b1 = (((i + 64) as u8) >> 4) & 3;
                let b2 = (((i + 128) as u8) >> 4) & 3;
                let b3 = (((i + 192) as u8) >> 4) & 3;
                block[128 + i] = b0 | (b1 << 2) | (b2 << 4) | (b3 << 6);
            }
            for i in 0..16 {
                block[192 + i] = ((row * 16 + i + 1) as u8) & 0x7F;
            }
            let d: u16 = 0x3800;
            block[208..210].copy_from_slice(&d.to_le_bytes());
        }
    }
    raw
}

fn dot_of_row(raw: &[u8], row: usize, n_rows: usize, n_cols: usize, x: &[f32]) -> f32 {
    let w = fused_gemv_q6k(raw, row, n_rows, n_cols);
    w.iter().zip(x.iter()).map(|(a, b)| number(a) * b).sum()
}

#[test]
fn test_q6k_bitexact_vs_dequant_scalar() {
    let n_rows = 2;
    let n_blocks = 2;
    let raw = create_test_data(n_rows, n_blocks);
    let n_cols = n_blocks * 256;
    let x: Vec<f32> = (0..n_cols).map(|i| ((i as f32) * 0.01).sin()).collect();
    for row in 0..n_rows {
        let out = dot_of_row(&raw, row, n_rows, n_cols, &x);
        let w = dequant_q6k_reference(&raw, row, n_blocks);
        let dot_ref: f32 = w.iter().zip(x.iter()).map(|(a, b)| a * b).sum();
        let diff = (out - dot_ref).abs();
        assert!(
            diff < 1.0 || diff / dot_ref.abs().max(1.0) < 1e-4,
            "row={} fused={} ref={} diff={}",
            row,
            out,
            dot_ref,
            diff
        );
    }
}

#[test]
fn six_bit_rows_with_negative_scales() {
    let mut raw = create_test_data(3, 1);
    raw[210 + 192] = 0x80;
    let w: Vec<f32> = fused_gemv_q6k(&raw, 1, 3, 256).iter().map(number).collect();
    assert_eq!(w, dequant_q6k_reference(&raw, 1, 1));
}

#[test]
fn short_widening_of_half_precision() {
    for h in [0x3C00u16, 0xC000, 0x3555, 0x7BFF, 0x0400] {
        assert_eq!(f32::from_bits(f16_to_f32_raw(h)), f16::from_bits(h).to_f32());
    }
}

// --- vector unit ----------------------------------------------------------

fn bits(data: &[f32; 32]) -> [u32; 32] {
    data.map(|v| v.to_bits())
}

fn wide(h: u16) -> f32 {
    bf16::from_bits(h).to_f32()
}

#[test]
fn roundtrip_bf16_lanes() {
    let mut data = [0f32; 32];
    for i in 0..32 {
        data[i] = i as f32 - 16.0;
    }
    let reg = HyperVecReg::load_bf16_16_from_f32(&bits(&data));
    let lanes = reg.bf16_16_lanes();
    assert_eq!(wide(lanes[0].primary), -16.0);
    assert_eq!(wide(lanes[15].secondary), 15.0);
}

fn multiply_add(acc: &mut HyperVecReg, a: &HyperVecReg, b: &HyperVecReg) {
    let lanes = fma_operands(acc, a, b);
    let fma = |c: u32, x: u32, y: u32| {
        (f32::from_bits(c) + f32::from_bits(x) * f32::from_bits(y)).to_bits()
    };
    for (i, l) in lanes.iter().enumerate() {
        let primary = fma(l.acc.primary, l.a.primary, l.b.primary);
        let secondary = fma(l.acc.secondary, l.a.secondary, l.b.secondary);
        acc.set_bf32_32_lane(i, Bf3232 { primary, secondary });
    }
}

#[test]
fn fma_accumulates_across_calls() {
    let a = HyperVecReg::load_bf16_16_from_f32(&bits(&[1.0; 32]));
    let b = HyperVecReg::load_bf16_16_from_f32(&bits(&[2.0; 32]));
    let mut acc = HyperVecReg::zeroed();
    multiply_add(&mut acc, &a, &b);
    multiply_add(&mut acc, &a, &b);
    let lanes = acc.bf32_32_lanes();
    assert!((f32::from_bits(lanes[0].primary) - 4.0).abs() < 1e-6);
}

#[test]
fn operands_come_from_every_other_lane() {
    let mut data = [0f32; 32];
    for i in 0..32 {
        data[i] = i as f32;
    }
    let a = HyperVecReg::load_bf16_16_from_f32(&bits(&data));
    let ops = fma_operands(&HyperVecReg::default(), &a, &a);
    assert_eq!(ops.len(), 8);
    assert_eq!(f32::from_bits(ops[3].a.primary), 12.0);
    assert_eq!(f32::from_bits(ops[3].b.secondary), 13.0);
    assert_eq!(ops[3].acc.primary, 0);
}

#[test]
fn sparsity_mask_skips_zero_lanes() {
    let mut data = [0f32; 32];
    data[3] = 5.0;
    let reg = HyperVecReg::load_bf16_16_from_f32(&bits(&data));
    let mask = SparsityMask::from_reg(&reg, 1e-6f32.to_bits());
    assert!(mask.is_active(3));
    assert!(!mask.is_active(0));
    assert_eq!(mask.active_count(), 1);
}

#[test]
fn magnitudes_count_and_nans_do_not() {
    let mut data = [0f32; 32];
    data[0] = -5.0;
    data[1] = f32::NAN;
    data[2] = f32::INFINITY;
    let reg = HyperVecReg::load_bf16_16_from_f32(&bits(&data));
    let mask = SparsityMask::from_reg(&reg, 1.0f32.to_bits());
    assert!(mask.is_active(0) && !mask.is_active(1) && mask.is_active(2));
    // below zero every number counts
    assert_eq!(SparsityMask::from_reg(&reg, (-1.0f32).to_bits()).active_count(), 31);
    assert_eq!(SparsityMask::from_reg(&reg, f32::NAN.to_bits()).active_count(), 0);
}

#[test]
fn stochastic_rounding_is_unbiased_on_average() {
    let mut rng = Xorshift32::new(42);
    let val = 1.0000001_f32;
    let mut sum = 0.0f64;
    let n = 20_000;
    for _ in 0..n {
        sum += wide(f32_to_bf16_stochastic(val.to_bits(), &mut rng)) as f64;
    }
    let mean = sum / n as f64;
    assert!((mean - val as f64).abs() < 0.01);
}

#[test]
fn stochastic_rounding_takes_a_neighbour() {
    let mut rng = Xorshift32::new(7);
    let val = 1.003f32;
    let (mut down, mut up) = (0, 0);
    for _ in 0..1000 {
        match f32_to_bf16_stochastic(val.to_bits(), &mut rng) {
            0x3F80 => down += 1,
            0x3F81 => up += 1,
            other => panic!("not a neighbour: {:x}", other),
        }
    }
    assert!(down > 500 && up > 250);
    assert_eq!(f32_to_bf16_stochastic(1.0f32.to_bits(), &mut rng), 0x3F80);
    let state = rng.0;
    assert_eq!(f32_to_bf16_stochastic(f32::INFINITY.to_bits(), &mut rng), 0x7F80);
    assert_eq!(rng.0, state);
}

#[test]
fn rounding_to_the_nearest() {
    for x in [0f32, 1.0, 1.00390625, 1.01171875, -3.3, 1e38, 1e-40, f32::INFINITY] {
        assert_eq!(bf16_from_f32_bits(x.to_bits()), bf16::from_f32(x).to_bits());
    }
    assert!(bf16::from_bits(bf16_from_f32_bits(0x7F80_0001)).is_nan());
}

#[test]
fn the_generator_of_rounding() {
    let mut rng = Xorshift32::new(1);
    assert_eq!(rng.next_u32(), 270369);
    assert_eq!(Xorshift32::new(0).0, 0xdead_beef);
}

#[test]
fn lanes_are_permuted_and_cut() {
    let mut a = HyperVecReg::zeroed();
    a.set_bf16_16_lane(3, Bf1616 { primary: 0x3F80, secondary: 0xBF80 });
    let mut mask = [0u32; 16];
    mask[5] = 3;
    mask[6] = 19;
    let mut d = HyperVecReg::zeroed();
    hvx_permute_and_relu(&mut d, &a, &mask);
    let l = d.bf16_16_lanes();
    assert_eq!(l[5], Bf1616 { primary: 0x3F80, secondary: 0 });
    assert_eq!(l[6], Bf1616 { primary: 0x3F80, secondary: 0 });
    assert_eq!(l[3], Bf1616 { primary: 0, secondary: 0 });
}

/// Scales that even out activations and weights.
fn smooth_scales(stats: &ChannelActivationStats, weight_max: &[f32], alpha: f32) -> Vec<f32> {
    (0..weight_max.len())
        .map(|i| {
            let act = f32::from_bits(stats.max_abs[i]).max(1e-5);
            act.powf(alpha) / weight_max[i].max(1e-5).powf(1.0 - alpha)
        })
        .collect()
}

#[test]
fn smooth_scales_basic() {
    let mut stats = ChannelActivationStats::new(2);
    stats.profile_row(&[10.0f32.to_bits(), 1.0f32.to_bits()], 1e-6f32.to_bits());
    let weight_max = vec![1.0, 1.0];
    let scales = smooth_scales(&stats, &weight_max, 0.5);
    assert!(scales[0] > scales[1]);
}

#[test]
fn activations_are_counted_by_channel() {
    let mut stats = ChannelActivationStats::new(3);
    let eps = 0.5f32.to_bits();
    let r = stats.profile_row(&[2f32.to_bits(), (-4f32).to_bits(), 0.25f32.to_bits()], eps);
    assert_eq!(r, vec![Some(2f32.to_bits()), Some(4f32.to_bits()), None]);
    stats.profile_row(&[1f32.to_bits(), (-8f32).to_bits(), 0], eps);
    assert_eq!(stats.max_abs, vec![2f32.to_bits(), 8f32.to_bits(), 0]);
    assert_eq!(stats.active_samples, vec![2, 2, 0]);
    assert_eq!(stats.total_samples, 2);
}

#[test]
fn test_q6k_avx512_bitexact() {
    let (n_rows, n_blocks) = (4, 3);
    let raw = create_test_data(n_rows, n_blocks);
    let n_cols = n_blocks * 256;
    let x: Vec<f32> = (0..n_cols).map(|i| ((i as f32) * 0.01).cos()).collect();
    for row in 0..n_rows {
        let out = dot_of_row(&raw, row, n_rows, n_cols, &x);
        let w = dequant_q6k_reference(&raw, row, n_blocks);
        let scalar: f32 = w.iter().zip(x.iter()).map(|(a, b)| a * b).sum();
        let diff = (out - scalar).abs();
        assert!(diff < 1e-3 || diff / scalar.abs().max(1.0) < 1e-4, "row={} diff={}", row, diff);
    }
}

#[test]
fn test_q6k_avx2_bitexact() {
    let (n_rows, n_blocks) = (4, 3);
    let raw = create_test_data(n_rows, n_blocks);
    let n_cols = n_blocks * 256;
    let x: Vec<f32> = (0..n_cols).map(|i| ((i as f32) * 0.01).cos()).collect();
    for row in 0..n_rows {
        let all: Vec<f32> = fused_gemv_q6k(&raw, row, n_rows, n_cols).iter().map(number).collect();
        let w = dequant_q6k_reference(&raw, row, n_blocks);
        for half in 0..2 {
            let part = |v: &[f32]| -> f32 {
                (0..n_cols).filter(|i| i % 2 == half).map(|i| v[i] * x[i]).sum()
            };
            let (out, scalar) = (part(&all), part(&w));
            let diff = (out - scalar).abs();
            assert!(diff < 1e-3 || diff / scalar.abs().max(1.0) < 1e-4, "row={}", row);
        }
    }
}
