//! Tensors: layout, elements and integer operations.

use half::f16;

use llamanyon::tensors::arena::{MemoryBlock, TensorArena};
use llamanyon::tensors::layout::Layout;
use llamanyon::tensors::ops::{
    dequantize_q4_k_block_avx512, exp_q16_16, gemv_q8_0_vnni, matmul, rope_place, row, rows,
    softmax_exps, softmax_padic_avx512, BlockQ4K, BlockQ8_0,
};
use llamanyon::tensors::tensor::CpuTensor;

#[test]
fn layouts_run_fastest_along_the_last_dimension() {
    let l = Layout::new(vec![2, 3, 4]);
    assert_eq!(l.strides().to_vec(), vec![12, 4, 1]);
    assert_eq!(l.shape().to_vec(), vec![2, 3, 4]);
    assert_eq!((l.ndim(), l.size(), l.offset()), (3, 24, 0));
    assert_eq!(l.offset_for(&[1, 2, 3]), 23);
    assert_eq!(l.offset_for(&[1, 0, 0]), 12);
    assert!(l.is_contiguous());
    // in order, and every place once
    let mut next = 0;
    for i in 0..2 {
        for j in 0..3 {
            for k in 0..4 {
                assert_eq!(l.offset_for(&[i, j, k]), next);
                next += 1;
            }
        }
    }
    assert_eq!(next, 24);
}

#[test]
fn layouts_can_be_strided() {
    let t = Layout::with_strides(vec![3, 2], vec![1, 3]);
    assert!(!t.is_contiguous());
    assert_eq!(t.offset_for(&[2, 1]), 5);
    let o = Layout::with_offset(vec![2], vec![1], 10);
    assert_eq!(o.offset_for(&[1]), 11);
    assert!(o.is_contiguous());
    assert!(Layout::fits(&vec![usize::MAX, 0]));
    assert!(!Layout::fits(&vec![0, usize::MAX, 2]));
    assert_eq!(Layout::new(vec![]).size(), 1);
    assert_eq!(Layout::with_strides(vec![usize::MAX, 2, 0], vec![1, 1, 1]).size(), 0);
    assert!(!Layout::with_strides(vec![2, usize::MAX, 2], vec![9, 2, 1]).is_contiguous());
}

#[test]
fn what_is_set_is_read_back() {
    let mut t = CpuTensor::zeros(vec![2, 3]);
    assert_eq!((t.size(), t.data().to_vec()), (6, vec![0; 6]));
    t.set(&[1, 0], 2.5f32.to_bits());
    assert_eq!(f32::from_bits(t.get(&[1, 0])), 2.5);
    assert_eq!(t.get(&[0, 0]), 0);
    assert_eq!(t.data()[3], 2.5f32.to_bits());
    t.data_mut()[5] = 7;
    assert_eq!(t.get(&[1, 2]), 7);
    assert_eq!(t.shape().to_vec(), vec![2, 3]);
    assert_eq!(t.strides().to_vec(), vec![3, 1]);
    assert_eq!(t.layout().ndim(), 2);
}

#[test]
fn the_first_free_block_is_used_again() {
    let mut a = TensorArena::default();
    assert_eq!(a.allocate(1), None);
    a.blocks = vec![
        MemoryBlock { size: 4, active: false },
        MemoryBlock { size: 9, active: true },
        MemoryBlock { size: 8, active: false },
        MemoryBlock { size: 8, active: false },
    ];
    assert_eq!(a.allocate(5), Some(2));
    assert_eq!(a.allocate(5), Some(3));
    assert_eq!(a.allocate(5), None);
    assert_eq!(a.allocate(4), Some(0));
}

/// The exponential in double precision.
fn float_exp(x: i32) -> u32 {
    if x < -655360 {
        return 0;
    }
    if x >= 0 {
        return 65536;
    }
    let y = ((x as i64 * 94548i64) >> 16) as i32;
    let f = (y & 0xFFFF) as f64 / 65536.0;
    let two_to_f = 1.0 + f * (0.693147 + f * (0.240226 + f * 0.055504));
    ((two_to_f * 65536.0) as u32) >> (-(y >> 16))
}

#[test]
fn the_exponential_is_that_of_double_precision() {
    for x in -655400..10 {
        assert_eq!(exp_q16_16(x), float_exp(x));
    }
    assert_eq!(exp_q16_16(i32::MIN), 0);
    assert_eq!(exp_q16_16(i32::MAX), 65536);
}

#[test]
fn the_exponential_grows() {
    let mut last = 0;
    for x in (-700000..0).step_by(37) {
        let e = exp_q16_16(x);
        assert!(e >= last && e < 65536);
        last = e;
    }
}

#[test]
fn exponentials_and_their_sum() {
    let (e, sum) = softmax_exps(&[0, -65536, -700000]);
    assert_eq!(e[0], 65536);
    assert_eq!(e[2], 0);
    assert_eq!(e[1], float_exp(-65536));
    assert_eq!(sum, 65536 + e[1] as u64);
}

/// The softmax in wrapping 32-bit lanes.
fn lanes(logits: &[i32]) -> Vec<i32> {
    let n = logits.len();
    let m = n / 16 * 16;
    let max = *logits.iter().max().unwrap();
    let mut probs: Vec<i32> = Vec::new();
    let mut quire = 0i32;
    for &l in &logits[..m] {
        let x = l.wrapping_sub(max);
        let s = x >> 8;
        let e = 65536i32.wrapping_add(x).wrapping_add(s.wrapping_mul(s) >> 1);
        probs.push(e);
        quire = quire.wrapping_add(e);
    }
    let mut sum = quire as u64;
    for &l in &logits[m..] {
        let e = float_exp(l.wrapping_sub(max)) as i32;
        probs.push(e);
        sum = sum.wrapping_add(e as u64);
    }
    if sum > 0 {
        let inv = ((1u64 << 32) / sum) as u32;
        for (i, p) in probs.iter_mut().enumerate() {
            *p = if i < m {
                ((p.wrapping_mul(inv as i32)) as u32 >> 16) as i32
            } else {
                ((*p as u64 * inv as u64) >> 16) as i32
            };
        }
    }
    probs
}

#[test]
fn softmax_in_lanes() {
    let even = vec![5; 16];
    assert_eq!(softmax_padic_avx512(&even), vec![4096; 16]);
    let mut state = 12345u32;
    for n in [16usize, 17, 31, 32, 40] {
        for shift in [0u32, 8, 14, 20] {
            let logits: Vec<i32> = (0..n)
                .map(|_| {
                    state = state.wrapping_mul(1664525).wrapping_add(1013904223);
                    (state as i32) >> shift
                })
                .collect();
            assert_eq!(softmax_padic_avx512(&logits), lanes(&logits));
        }
    }
}

#[test]
fn products_of_signed_blocks() {
    let mut qs = [0i8; 32];
    for i in 0..32 {
        qs[i] = i as i8 - 16;
    }
    let block = BlockQ8_0 { d: f16::from_f32(0.5).to_le_bytes(), qs };
    let a: Vec<i8> = (0..64).map(|i| (i % 7) as i8 - 3).collect();
    let r = gemv_q8_0_vnni(&a, &[block, block]);
    assert_eq!(r.len(), 2);
    for b in 0..2 {
        assert_eq!(f32::from_bits(r[b].d), 0.5);
        let whole: i32 = (0..32).map(|i| qs[i] as i32 * a[32 * b + i] as i32).sum();
        assert_eq!(r[b].lanes.iter().sum::<i32>(), whole);
        let third: i32 = (8..12).map(|i| qs[i] as i32 * a[32 * b + i] as i32).sum();
        assert_eq!(r[b].lanes[2], third);
    }
}

#[test]
fn weights_of_a_block() {
    let mut scales = [0u8; 12];
    scales[0] = 0x85;
    scales[4] = 0x07;
    scales[8] = 0x3A;
    let mut qs = [0u8; 128];
    qs[0] = 0x94;
    qs[16] = 0x02;
    let block = BlockQ4K {
        d: f16::from_f32(1.0).to_le_bytes(),
        dmin: f16::from_f32(2.0).to_le_bytes(),
        scales,
        qs,
    };
    let w = dequantize_q4_k_block_avx512(&block);
    assert_eq!(w.len(), 256);
    // s0 & 63, and s0 >> 6 below the low half of s2
    assert_eq!((w[0].scale, w[0].min, w[0].q), (5, 2 + 4 * 10, 4));
    assert_eq!(w[16].q, 9);
    assert_eq!((w[32].scale, w[32].min, w[32].q), (7, 4 * 3, 2));
    assert_eq!((f32::from_bits(w[0].d), f32::from_bits(w[0].dmin)), (1.0, 2.0));
}

fn matrix(r: usize, c: usize, first: u32) -> CpuTensor {
    CpuTensor::new(vec![r, c], (0..(r * c) as u32).map(|i| first + i).collect())
}

#[test]
fn factors_of_a_product() {
    let a = matrix(2, 3, 0);
    let b = matrix(3, 2, 100);
    assert_eq!(matmul(&a, &b, false, 1, 0), vec![(3, 100), (4, 102), (5, 104)]);
    let bt = matrix(2, 3, 100);
    assert_eq!(matmul(&a, &bt, true, 1, 1), vec![(3, 103), (4, 104), (5, 105)]);
}

#[test]
fn rows_of_a_tensor() {
    let t = matrix(3, 4, 0);
    assert_eq!(rows(&t), (3, 4));
    assert_eq!(row(&t, 2).to_vec(), vec![8, 9, 10, 11]);
    let cube = CpuTensor::zeros(vec![5, 2, 4]);
    assert_eq!(rows(&cube), (10, 4));
    assert_eq!(rope_place(&cube, 3, 1, 2), cube.layout().offset_for(&[3, 1, 2]));
}
