//! Decoding of quantised blocks.

use half::{bf16, f16};

use llamanyon::gguf::dtype::GgmlDType;
use llamanyon::gguf::error::GgufError;
use llamanyon::halves::f16_to_f32_bits;
use llamanyon::quant::floats::{dequant_bf16, dequant_f16};
use llamanyon::quant::q2_k::dequant_q2k;
use llamanyon::quant::q3_k::dequant_q3k;
use llamanyon::quant::q4_k::{dequant_q4k, unpack_scales};
use llamanyon::quant::q5_k::dequant_q5k;
use llamanyon::quant::q6_k::dequant_q6k;
use llamanyon::quant::{dequantize, iq2_xxs, q4_0, q8_0, Weight};

fn number(w: &Weight) -> f32 {
    let d = f32::from_bits(w.d);
    let dmin = f32::from_bits(w.dmin);
    d * w.scale as f32 * w.q as f32 / (1u32 << w.shift) as f32 - dmin * w.min as f32
}

fn decoded(r: Result<Vec<Weight>, GgufError>) -> Vec<f32> {
    match r {
        Ok(v) => v.iter().map(number).collect(),
        Err(e) => panic!("{}", e.message()),
    }
}

fn block(n: usize, d_at: usize, d: f32) -> Vec<u8> {
    let mut b = vec![0u8; n];
    b[d_at..d_at + 2].copy_from_slice(&f16::from_f32(d).to_le_bytes());
    b
}

#[test]
fn half_precision_widens_exactly() {
    for h in 0..=u16::MAX {
        let want = f16::from_bits(h).to_f32();
        let got = f32::from_bits(f16_to_f32_bits(h));
        assert!(got.to_bits() == want.to_bits() || (got.is_nan() && want.is_nan()));
    }
}

#[test]
fn plain_formats() {
    let mut raw = Vec::new();
    raw.extend_from_slice(&f16::from_f32(1.5).to_le_bytes());
    raw.extend_from_slice(&f16::from_f32(-0.25).to_le_bytes());
    assert_eq!(decoded(dequant_f16(&raw, 2)), vec![1.5, -0.25]);
    let mut raw = Vec::new();
    raw.extend_from_slice(&bf16::from_f32(3.0).to_le_bytes());
    raw.extend_from_slice(&bf16::from_f32(-8.0).to_le_bytes());
    assert_eq!(decoded(dequant_bf16(&raw, 2)), vec![3.0, -8.0]);
    assert_eq!(decoded(dequantize(GgmlDType::F32, &2.5f32.to_le_bytes(), 1)), vec![2.5]);
    match dequant_f16(&raw, 3) {
        Err(e) => assert_eq!(e.message(), "Buffer too small: needed 6, got 4"),
        Ok(_) => panic!("decoded"),
    }
}

#[test]
fn four_bits() {
    let mut b = block(18, 0, 0.5);
    b[2] = 0xF0;
    b[17] = 0x19;
    let v = decoded(q4_0::dequant(&b, 32));
    assert_eq!(v.len(), 32);
    assert_eq!((v[0], v[1]), (-4.0, 3.5));
    assert_eq!((v[30], v[31]), (0.5, -3.5));
}

#[test]
fn eight_bits() {
    let mut b = block(34, 0, 2.0);
    b[2] = 0xFF;
    b[33] = 100;
    let v = decoded(q8_0::dequant(&b, 32));
    assert_eq!((v[0], v[1], v[31]), (-2.0, 0.0, 200.0));
}

#[test]
fn two_bits_with_scales() {
    let mut b = block(84, 80, 1.0);
    b[82..84].copy_from_slice(&f16::from_f32(0.5).to_le_bytes());
    b[0] = 0x23;
    b[8] = 0x01;
    b[16] = 0b11_10_01_00;
    let v = decoded(dequant_q2k(&b, 256));
    assert_eq!(v[0..4].to_vec(), vec![-0.5, 2.5, 5.5, 8.5]);
    assert_eq!(v[16], 0.0);
}

#[test]
fn three_bits_with_scales() {
    let mut b = block(110, 108, 1.0);
    // the high bit of the first element is set, its two low bits are three
    b[0] = 1;
    b[32] = 3;
    let v = decoded(dequant_q3k(&b, 256));
    // scales of zero stand for minus 32
    assert_eq!(v[0], -96.0);
    assert_eq!(v[1], 128.0);
}

fn q4k_block(d: f32, dmin: f32, scales: &[u8; 8], mins: &[u8; 8], q: u8) -> Vec<u8> {
    let mut b = block(144, 0, d);
    b[2..4].copy_from_slice(&f16::from_f32(dmin).to_le_bytes());
    for j in 0..4 {
        b[4 + j] = (scales[j] & 0x3F) | ((scales[4 + j] >> 4) << 6);
        b[8 + j] = (mins[j] & 0x3F) | ((mins[4 + j] >> 4) << 6);
        b[12 + j] = (scales[4 + j] & 0x0F) | ((mins[4 + j] & 0x0F) << 4);
    }
    for i in 0..128 {
        b[16 + i] = q;
    }
    b
}

#[test]
fn four_bits_with_packed_scales() {
    let scales = [1, 2, 3, 63, 5, 60, 7, 33];
    let mins = [8, 7, 6, 5, 44, 3, 62, 1];
    let b = q4k_block(0.5, 0.25, &scales, &mins, 0xA3);
    assert_eq!(unpack_scales(&b[4..16]), (scales, mins));
    let v = decoded(dequant_q4k(&b, 256));
    for sb in 0..8 {
        let q = if sb % 2 == 0 { 3.0 } else { 10.0 };
        let want = 0.5 * scales[sb] as f32 * q - 0.25 * mins[sb] as f32;
        assert_eq!(v[32 * sb], want);
        assert_eq!(v[32 * sb + 31], want);
    }
}

#[test]
fn five_bits_with_scales() {
    let mut b = block(176, 0, 1.0);
    b[2..4].copy_from_slice(&f16::from_f32(1.0).to_le_bytes());
    b[4] = 0x42;
    b[12] = 0x01;
    b[16] = 0x01;
    b[48] = 0x5F;
    let v = decoded(dequant_q5k(&b, 256));
    // scale 2, minimum 1 + 4
    assert_eq!(v[0], 2.0 * 31.0 - 5.0);
    assert_eq!(v[1], -5.0);
    assert_eq!(v[16], 2.0 * 5.0 - 5.0);
}

#[test]
fn six_bits_with_scales() {
    let mut b = block(210, 208, 0.5);
    b[0] = 0x2F;
    b[128] = 0b00_01_00_11;
    b[192] = 0xFE;
    b[196] = 3;
    let v = decoded(dequant_q6k(&b, 256));
    assert_eq!(v[0], 0.5 * -2.0 * (15 + 48 - 32) as f32);
    // the high half of the same byte, 64 elements on
    assert_eq!(v[64], 0.5 * 3.0 * (2 + 16 - 32) as f32);
}

#[test]
fn grid_of_two_bits() {
    let b = block(66, 0, 1.0);
    let v = decoded(iq2_xxs::dequant(&b, 256));
    assert_eq!(v.len(), 256);
    assert_eq!(v[0].abs(), v[8].abs());
    let mut c = b.clone();
    c[3] = 0x10;
    let w = decoded(iq2_xxs::dequant(&c, 256));
    // a sign bit turns two elements round
    assert_eq!((w[0], w[1], w[2]), (-v[0], -v[1], v[2]));
    let mut s = b.clone();
    s[3] = 0x01;
    assert_eq!(decoded(iq2_xxs::dequant(&s, 256))[0], 3.0 * v[0]);
}

#[test]
fn every_type_goes_to_its_decoder() {
    let b = q4k_block(1.0, 0.0, &[1; 8], &[0; 8], 0x21);
    assert_eq!(dequantize(GgmlDType::Q4_K, &b, 256).ok(), dequant_q4k(&b, 256).ok());
    let z = vec![7u8; 400];
    assert_eq!(dequantize(GgmlDType::Q2_K, &z, 256).ok(), dequant_q2k(&z, 256).ok());
    assert_eq!(dequantize(GgmlDType::Q3_K, &z, 256).ok(), dequant_q3k(&z, 256).ok());
    assert_eq!(dequantize(GgmlDType::Q5_K, &z, 256).ok(), dequant_q5k(&z, 256).ok());
    assert_eq!(dequantize(GgmlDType::Q6_K, &z, 256).ok(), dequant_q6k(&z, 256).ok());
    assert_eq!(dequantize(GgmlDType::Q8_0, &z, 64).ok(), q8_0::dequant(&z, 64).ok());
    assert_eq!(dequantize(GgmlDType::Q4_0, &z, 64).ok(), q4_0::dequant(&z, 64).ok());
    assert_eq!(dequantize(GgmlDType::F16, &z, 64).ok(), dequant_f16(&z, 64).ok());
    assert_eq!(dequantize(GgmlDType::BF16, &z, 64).ok(), dequant_bf16(&z, 64).ok());
    assert_eq!(dequantize(GgmlDType::IQ2_XXS, &z, 256).ok(), iq2_xxs::dequant(&z, 256).ok());
    match dequantize(GgmlDType::I8, &z, 1) {
        Err(GgufError::Dequant(_)) => {}
        _ => panic!("decoded"),
    }
    match dequant_q6k(&z, 512) {
        Err(e) => assert_eq!(e.message(), "Buffer too small: needed 420, got 400"),
        Ok(_) => panic!("decoded"),
    }
}

// --- decoders written out, on arbitrary blocks ------------------------------

struct Noise(u32);

impl Noise {
    fn byte(&mut self) -> u8 {
        self.0 = self.0.wrapping_mul(1664525).wrapping_add(1013904223);
        (self.0 >> 24) as u8
    }

    /// Blocks of bytes, with a small number at each of some places.
    fn blocks(&mut self, count: usize, bytes: usize, halves: &[usize]) -> Vec<u8> {
        let mut raw: Vec<u8> = (0..count * bytes).map(|_| self.byte()).collect();
        for b in 0..count {
            for at in halves {
                let d = f16::from_f32((self.byte() as f32 - 128.0) / 64.0);
                raw[b * bytes + at..b * bytes + at + 2].copy_from_slice(&d.to_le_bytes());
            }
        }
        raw
    }
}

fn half_at(raw: &[u8], at: usize) -> f32 {
    f16::from_le_bytes([raw[at], raw[at + 1]]).to_f32()
}

#[test]
fn two_bit_blocks_at_large() {
    let raw = Noise(1).blocks(3, 84, &[80, 82]);
    let mut want = Vec::new();
    for b in raw.chunks(84) {
        let (d, dmin) = (half_at(b, 80), half_at(b, 82));
        for sb in 0..16 {
            let pick = |x: u8| if sb % 2 == 0 { x & 0x0F } else { x >> 4 };
            let scale = d * pick(b[sb / 2]) as f32;
            let min = dmin * pick(b[8 + sb / 2]) as f32;
            for i in 0..16 {
                let q = (b[16 + sb * 4 + i / 4] >> ((i % 4) * 2)) & 3;
                want.push(scale * q as f32 - min);
            }
        }
    }
    assert_eq!(decoded(dequant_q2k(&raw, 768)), want);
}

#[test]
fn three_bit_blocks_at_large() {
    let raw = Noise(2).blocks(3, 110, &[108]);
    let mut want = Vec::new();
    for b in raw.chunks(110) {
        let d = half_at(b, 108);
        let word = |at: usize| u32::from_le_bytes([b[at], b[at + 1], b[at + 2], b[at + 3]]);
        let (x, y, t) = (word(96), word(100), word(104));
        let (low, high) = (0x0f0f0f0fu32, 0x03030303u32);
        let parts = [
            (x & low) | ((t & high) << 4),
            (y & low) | (((t >> 2) & high) << 4),
            ((x >> 4) & low) | (((t >> 4) & high) << 4),
            ((y >> 4) & low) | (((t >> 6) & high) << 4),
        ];
        let scales: Vec<i8> =
            parts.iter().flat_map(|p| p.to_le_bytes()).map(|v| v as i8).collect();
        for e in 0..256 {
            let (half, j, l) = (e / 128, e % 128 / 32, e % 32);
            let q = (b[32 + half * 32 + l] >> (2 * j)) & 3;
            let m = 1u8 << (half * 4 + j);
            let less = if b[l] & m != 0 { 0 } else { 4 };
            want.push(d * (scales[e / 16] as f32 - 32.0) * (q as i8 - less) as f32);
        }
    }
    assert_eq!(decoded(dequant_q3k(&raw, 768)), want);
}

#[test]
fn five_bit_blocks_at_large() {
    let raw = Noise(3).blocks(3, 176, &[0, 2]);
    let mut want = Vec::new();
    for b in raw.chunks(176) {
        let (d, dmin) = (half_at(b, 0), half_at(b, 2));
        let (sc, qh, qs) = (&b[4..16], &b[16..48], &b[48..176]);
        for sb in 0..8 {
            let s = sc[sb / 2 + 4 * (sb % 2)];
            let s2 = if sb % 2 == 0 { sc[8 + sb / 2] & 0x0F } else { sc[8 + sb / 2] >> 4 };
            let scale = d * (s & 0x3F) as f32;
            let min = dmin * (((s >> 6) | (s2 << 2)) & 0x3F) as f32;
            for i in 0..32 {
                let e = sb * 32 + i;
                let ql =
                    if i < 16 { qs[sb * 16 + i] & 0x0F } else { qs[sb * 16 + i - 16] >> 4 };
                let q = ql as u32 | (((qh[e / 8] >> (e % 8)) & 1) as u32) << 4;
                want.push(scale * q as f32 - min);
            }
        }
    }
    assert_eq!(decoded(dequant_q5k(&raw, 768)), want);
}

#[test]
fn four_bit_blocks_at_large() {
    let raw = Noise(4).blocks(3, 144, &[0, 2]);
    let mut want = Vec::new();
    for b in raw.chunks(144) {
        let (d, dmin) = (half_at(b, 0), half_at(b, 2));
        let sc = &b[4..16];
        for sb in 0..8 {
            let (s, m) = if sb < 4 {
                (sc[sb] & 63, sc[sb + 4] & 63)
            } else {
                (
                    (sc[sb + 4] & 0xF) | ((sc[sb - 4] >> 6) << 4),
                    (sc[sb + 4] >> 4) | ((sc[sb] >> 6) << 4),
                )
            };
            for i in 0..32 {
                let byte = b[16 + sb / 2 * 32 + i];
                let q = if sb % 2 == 0 { byte & 0x0F } else { byte >> 4 };
                want.push(d * s as f32 * q as f32 - dmin * m as f32);
            }
        }
    }
    assert_eq!(decoded(dequant_q4k(&raw, 768)), want);
    // part of the last block
    assert_eq!(decoded(dequant_q4k(&raw, 600)), want[..600].to_vec());
}

#[test]
fn six_bit_blocks_at_large() {
    let raw = Noise(5).blocks(3, 210, &[208]);
    let mut want = vec![0.0f32; 768];
    for (n, b) in raw.chunks(210).enumerate() {
        let d = half_at(b, 208);
        for half in 0..2 {
            let (ql, qh, sc) =
                (&b[half * 64..], &b[128 + half * 32..], &b[192 + half * 8..]);
            let y = &mut want[n * 256 + half * 128..];
            for l in 0..32 {
                let is = l / 16;
                let q = [
                    ((ql[l] & 0xF) | ((qh[l] & 3) << 4)) as i8 - 32,
                    ((ql[l + 32] & 0xF) | (((qh[l] >> 2) & 3) << 4)) as i8 - 32,
                    ((ql[l] >> 4) | (((qh[l] >> 4) & 3) << 4)) as i8 - 32,
                    ((ql[l + 32] >> 4) | (((qh[l] >> 6) & 3) << 4)) as i8 - 32,
                ];
                for k in 0..4 {
                    y[l + 32 * k] = d * (sc[is + 2 * k] as i8) as f32 * q[k] as f32;
                }
            }
        }
    }
    assert_eq!(decoded(dequant_q6k(&raw, 768)), want);
}

#[test]
fn small_blocks_at_large() {
    let raw = Noise(6).blocks(3, 18, &[0]);
    let mut want = Vec::new();
    for b in raw.chunks(18) {
        for i in 0..32 {
            let q = if i % 2 == 0 { b[2 + i / 2] & 0x0F } else { b[2 + i / 2] >> 4 };
            want.push((q as i32 - 8) as f32 * half_at(b, 0));
        }
    }
    assert_eq!(decoded(q4_0::dequant(&raw, 96)), want);
    let raw = Noise(7).blocks(3, 34, &[0]);
    let mut want = Vec::new();
    for b in raw.chunks(34) {
        want.extend(b[2..].iter().map(|q| *q as i8 as f32 * half_at(b, 0)));
    }
    assert_eq!(decoded(q8_0::dequant(&raw, 96)), want);
}

#[test]
fn grid_blocks_at_large() {
    let raw = Noise(8).blocks(3, 66, &[0]);
    let mut want = Vec::new();
    for b in raw.chunks(66) {
        for g in 0..32 {
            let (at, s) = (b[2 + 2 * g] as usize, b[3 + 2 * g]);
            let scale = half_at(b, 0) * (0.5 + (s & 0x0F) as f32) * 0.25;
            for j in 0..8 {
                let v = ((iq2_xxs::GRID[at] >> (8 * j)) & 0x7F) as i8;
                let sign = if (s >> (4 + j / 2)) & 1 != 0 { -1.0f32 } else { 1.0 };
                want.push(scale * sign * v as f32);
            }
        }
    }
    assert_eq!(decoded(iq2_xxs::dequant(&raw, 768)), want);
}
