//! A simulated 512-bit vector unit with paired bfloat16 and single-precision lanes, and
//! the activation statistics that are collected through it. Lanes hold bit patterns.

use vstd::prelude::*;

use crate::halves::bf16_to_f32_bits;
use crate::halves::bf16_widened;

verus! {

/// A register of 64 bytes.
#[derive(Clone, Copy)]
pub struct HyperVecReg {
    pub bytes: [u8; 64],
}

/// A lane of two bfloat16 patterns.
#[derive(Clone, Copy, Debug, PartialEq, Eq, Structural)]
pub struct Bf1616 {
    pub primary: u16,
    pub secondary: u16,
}

/// A lane of two single-precision patterns.
#[derive(Clone, Copy, Debug, PartialEq, Eq, Structural)]
pub struct Bf3232 {
    pub primary: u32,
    pub secondary: u32,
}

/// The bfloat16 pattern nearest to a single-precision pattern: ties go to the even one, a
/// NaN is made quiet.
pub open spec fn bf16_rounded(x: u32) -> u16 {
    let hi = x as int / 0x1_0000;
    let lo = x as int % 0x1_0000;
    if x as int % 0x8000_0000 > 0x7F80_0000 {
        (if hi / 0x40 % 2 == 1 {
            hi
        } else {
            hi + 0x40
        }) as u16
    } else if lo > 0x8000 || (lo == 0x8000 && hi % 2 == 1) {
        (hi + 1) as u16
    } else {
        hi as u16
    }
}

/// Rounds a single-precision pattern to the nearest bfloat16 pattern.
pub fn bf16_from_f32_bits(x: u32) -> (r: u16)
    ensures
        r == bf16_rounded(x),
{
    let hi: u32 = x / 0x1_0000;
    let lo: u32 = x % 0x1_0000;
    if x % 0x8000_0000 > 0x7F80_0000 {
        if hi / 0x40 % 2 == 1 {
            hi as u16
        } else {
            (hi + 0x40) as u16
        }
    } else if lo > 0x8000 || (lo == 0x8000 && hi % 2 == 1) {
        (hi + 1) as u16
    } else {
        hi as u16
    }
}

/// Whether the magnitude of the single-precision number `x` is greater than the number
/// `eps`, both as bit patterns. Nothing compares with a NaN.
pub open spec fn magnitude_exceeds(x: u32, eps: u32) -> bool {
    let a = x % 0x8000_0000;
    &&& a <= 0x7F80_0000
    &&& eps % 0x8000_0000 <= 0x7F80_0000
    &&& if eps < 0x8000_0000 {
        a > eps
    } else {
        eps > 0x8000_0000 || a > 0
    }
}

fn exceeds(x: u32, eps: u32) -> (r: bool)
    ensures
        r == magnitude_exceeds(x, eps),
{
    let a: u32 = x % 0x8000_0000;
    a <= 0x7F80_0000 && eps % 0x8000_0000 <= 0x7F80_0000 && if eps < 0x8000_0000 {
        a > eps
    } else {
        eps > 0x8000_0000 || a > 0
    }
}

impl Default for HyperVecReg {
    fn default() -> (r: HyperVecReg)
        ensures
            r.bytes@ == Seq::new(64, |i: int| 0u8),
    {
        let r = HyperVecReg { bytes: [0u8; 64] };
        assert(r.bytes@ =~= Seq::new(64, |i: int| 0u8));
        r
    }
}

impl HyperVecReg {
    /// Bfloat16 lane `i`.
    pub open spec fn lane16(&self, i: int) -> Bf1616 {
        Bf1616 {
            primary: (self.bytes@[4 * i] + 0x100 * self.bytes@[4 * i + 1]) as u16,
            secondary: (self.bytes@[4 * i + 2] + 0x100 * self.bytes@[4 * i + 3]) as u16,
        }
    }

    /// Single-precision lane `i`.
    pub open spec fn lane32(&self, i: int) -> Bf3232 {
        Bf3232 {
            primary: (self.bytes@[8 * i] + 0x100 * self.bytes@[8 * i + 1] + 0x1_0000
                * self.bytes@[8 * i + 2] + 0x100_0000 * self.bytes@[8 * i + 3]) as u32,
            secondary: (self.bytes@[8 * i + 4] + 0x100 * self.bytes@[8 * i + 5] + 0x1_0000
                * self.bytes@[8 * i + 6] + 0x100_0000 * self.bytes@[8 * i + 7]) as u32,
        }
    }

    /// Bfloat16 value `k` of the 32 in the register.
    pub open spec fn value16(&self, k: int) -> u16 {
        if k % 2 == 0 {
            self.lane16(k / 2).primary
        } else {
            self.lane16(k / 2).secondary
        }
    }

    /// The register with all bytes zero.
    pub fn zeroed() -> (r: HyperVecReg)
        ensures
            r.bytes@ == Seq::new(64, |i: int| 0u8),
            forall|i: int| 0 <= i < 16 ==> #[trigger] r.lane16(i) == (Bf1616 {
                primary: 0,
                secondary: 0,
            }),
            forall|i: int| 0 <= i < 8 ==> #[trigger] r.lane32(i) == (Bf3232 {
                primary: 0,
                secondary: 0,
            }),
    {
        HyperVecReg::default()
    }

    fn get16(&self, i: usize) -> (r: Bf1616)
        requires
            i < 16,
        ensures
            r == self.lane16(i as int),
    {
        Bf1616 {
            primary: self.bytes[4 * i] as u16 + 0x100 * self.bytes[4 * i + 1] as u16,
            secondary: self.bytes[4 * i + 2] as u16 + 0x100 * self.bytes[4 * i + 3] as u16,
        }
    }

    fn get32(&self, i: usize) -> (r: Bf3232)
        requires
            i < 8,
        ensures
            r == self.lane32(i as int),
    {
        Bf3232 {
            primary: self.bytes[8 * i] as u32 + 0x100 * self.bytes[8 * i + 1] as u32 + 0x1_0000
                * self.bytes[8 * i + 2] as u32 + 0x100_0000 * self.bytes[8 * i + 3] as u32,
            secondary: self.bytes[8 * i + 4] as u32 + 0x100 * self.bytes[8 * i + 5] as u32
                + 0x1_0000 * self.bytes[8 * i + 6] as u32 + 0x100_0000 * self.bytes[8 * i
                + 7] as u32,
        }
    }

    /// The 16 bfloat16 lanes.
    pub fn bf16_16_lanes(&self) -> (r: [Bf1616; 16])
        ensures
            forall|i: int| 0 <= i < 16 ==> #[trigger] r@[i] == self.lane16(i),
    {
        [
            self.get16(0),
            self.get16(1),
            self.get16(2),
            self.get16(3),
            self.get16(4),
            self.get16(5),
            self.get16(6),
            self.get16(7),
            self.get16(8),
            self.get16(9),
            self.get16(10),
            self.get16(11),
            self.get16(12),
            self.get16(13),
            self.get16(14),
            self.get16(15),
        ]
    }

    /// Puts a bfloat16 lane in place `i`.
    pub fn set_bf16_16_lane(&mut self, i: usize, v: Bf1616)
        requires
            i < 16,
        ensures
            final(self).lane16(i as int) == v,
            forall|k: int|
                0 <= k < 16 && k != i ==> #[trigger] final(self).lane16(k) == old(self).lane16(k),
    {
        self.bytes[4 * i] = (v.primary % 0x100) as u8;
        self.bytes[4 * i + 1] = (v.primary / 0x100) as u8;
        self.bytes[4 * i + 2] = (v.secondary % 0x100) as u8;
        self.bytes[4 * i + 3] = (v.secondary / 0x100) as u8;
    }

    /// The 8 single-precision lanes.
    pub fn bf32_32_lanes(&self) -> (r: [Bf3232; 8])
        ensures
            forall|i: int| 0 <= i < 8 ==> #[trigger] r@[i] == self.lane32(i),
    {
        [
            self.get32(0),
            self.get32(1),
            self.get32(2),
            self.get32(3),
            self.get32(4),
            self.get32(5),
            self.get32(6),
            self.get32(7),
        ]
    }

    /// Puts a single-precision lane in place `i`.
    pub fn set_bf32_32_lane(&mut self, i: usize, v: Bf3232)
        requires
            i < 8,
        ensures
            final(self).lane32(i as int) == v,
            forall|k: int|
                0 <= k < 8 && k != i ==> #[trigger] final(self).lane32(k) == old(self).lane32(k),
    {
        self.bytes[8 * i] = (v.primary % 0x100) as u8;
        self.bytes[8 * i + 1] = (v.primary / 0x100 % 0x100) as u8;
        self.bytes[8 * i + 2] = (v.primary / 0x1_0000 % 0x100) as u8;
        self.bytes[8 * i + 3] = (v.primary / 0x100_0000) as u8;
        self.bytes[8 * i + 4] = (v.secondary % 0x100) as u8;
        self.bytes[8 * i + 5] = (v.secondary / 0x100 % 0x100) as u8;
        self.bytes[8 * i + 6] = (v.secondary / 0x1_0000 % 0x100) as u8;
        self.bytes[8 * i + 7] = (v.secondary / 0x100_0000) as u8;
    }

    /// The register with 32 single-precision numbers, rounded to bfloat16.
    pub fn load_bf16_16_from_f32(data: &[u32; 32]) -> (r: HyperVecReg)
        ensures
            forall|k: int| 0 <= k < 32 ==> #[trigger] r.value16(k) == bf16_rounded(data@[k]),
    {
        let mut reg = HyperVecReg::zeroed();
        let mut i: usize = 0;
        while i < 16
            invariant
                i <= 16,
                forall|k: int|
                    0 <= k < i ==> #[trigger] reg.lane16(k) == (Bf1616 {
                        primary: bf16_rounded(data@[2 * k]),
                        secondary: bf16_rounded(data@[2 * k + 1]),
                    }),
            decreases 16 - i,
        {
            let v = Bf1616 {
                primary: bf16_from_f32_bits(data[2 * i]),
                secondary: bf16_from_f32_bits(data[2 * i + 1]),
            };
            reg.set_bf16_16_lane(i, v);
            i += 1;
        }
        assert forall|k: int| 0 <= k < 32 implies #[trigger] reg.value16(k) == bf16_rounded(
            data@[k],
        ) by {
            let _ = reg.lane16(k / 2);
        }
        reg
    }
}

/// One bit for each of the 32 bfloat16 values of a register: set for those that count.
#[derive(Clone, Copy)]
pub struct SparsityMask(pub u32);

/// Bit `k` of a mask.
pub open spec fn mask_bit(m: u32, k: int) -> bool {
    (m >> (k as u32)) & 1 == 1
}

/// Number of set bits below position `n`.
pub open spec fn ones_below(m: u32, n: nat) -> nat
    decreases n,
{
    if n == 0 {
        0
    } else {
        ones_below(m, (n - 1) as nat) + if mask_bit(m, n - 1) {
            1nat
        } else {
            0
        }
    }
}

impl SparsityMask {
    /// Marks the values whose magnitude is greater than `eps`, a single-precision pattern.
    pub fn from_reg(reg: &HyperVecReg, eps: u32) -> (r: SparsityMask)
        ensures
            forall|k: int|
                0 <= k < 32 ==> #[trigger] mask_bit(r.0, k) == magnitude_exceeds(
                    bf16_widened(reg.value16(k)),
                    eps,
                ),
    {
        let lanes = reg.bf16_16_lanes();
        let mut mask: u32 = 0;
        let mut k: u32 = 0;
        assert forall|j: int| 0 <= j < 32 implies !#[trigger] mask_bit(mask, j) by {
            lemma_no_bits(j as u32);
        }
        while k < 32
            invariant
                k <= 32,
                forall|i: int| 0 <= i < 16 ==> #[trigger] lanes@[i] == reg.lane16(i),
                forall|j: int|
                    0 <= j < k ==> #[trigger] mask_bit(mask, j) == magnitude_exceeds(
                        bf16_widened(reg.value16(j)),
                        eps,
                    ),
                forall|j: int| k <= j < 32 ==> !#[trigger] mask_bit(mask, j),
            decreases 32 - k,
        {
            let lane = lanes[(k / 2) as usize];
            let v: u16 = if k % 2 == 0 {
                lane.primary
            } else {
                lane.secondary
            };
            assert(v == reg.value16(k as int));
            if exceeds(bf16_to_f32_bits(v), eps) {
                let ghost before = mask;
                mask = mask | (1u32 << k);
                assert forall|j: int| 0 <= j < 32 implies #[trigger] mask_bit(mask, j) == (j == k
                    || mask_bit(before, j)) by {
                    lemma_set_bit(before, k, j as u32);
                }
            }
            k += 1;
        }
        SparsityMask(mask)
    }

    /// Whether value `lane_idx` counts.
    pub fn is_active(&self, lane_idx: usize) -> (r: bool)
        requires
            lane_idx < 32,
        ensures
            r == mask_bit(self.0, lane_idx as int),
    {
        (self.0 >> (lane_idx as u32)) & 1 == 1
    }

    /// Number of values that count.
    pub fn active_count(&self) -> (r: u32)
        ensures
            r == ones_below(self.0, 32),
    {
        let mut n: u32 = 0;
        let mut k: usize = 0;
        while k < 32
            invariant
                k <= 32,
                n == ones_below(self.0, k as nat),
                n <= k,
            decreases 32 - k,
        {
            if self.is_active(k) {
                n += 1;
            }
            k += 1;
        }
        n
    }
}

proof fn lemma_no_bits(j: u32)
    by (bit_vector)
    requires
        j < 32,
    ensures
        (0u32 >> j) & 1 != 1,
{
}

proof fn lemma_set_bit(m: u32, k: u32, j: u32)
    by (bit_vector)
    requires
        k < 32,
        j < 32,
    ensures
        (((m | (1u32 << k)) >> j) & 1 == 1) == (j == k || (m >> j) & 1 == 1),
{
}

/// The next state of the generator.
pub open spec fn xorshift32(x: u32) -> u32 {
    let a = x ^ (x << 13u32);
    let b = a ^ (a >> 17u32);
    b ^ (b << 5u32)
}

/// A small generator of pseudo-random numbers.
pub struct Xorshift32(pub u32);

impl Xorshift32 {
    /// The generator with a seed; zero stands for a fixed seed.
    pub fn new(seed: u32) -> (r: Xorshift32)
        ensures
            r.0 == (if seed == 0 {
                0xdead_beef
            } else {
                seed
            }),
            r.0 != 0,
    {
        Xorshift32(
            if seed == 0 {
                0xdead_beef
            } else {
                seed
            },
        )
    }

    /// Steps the generator and gives its new state.
    pub fn next_u32(&mut self) -> (r: u32)
        ensures
            final(self).0 == xorshift32(old(self).0),
            r == final(self).0,
    {
        let mut x: u32 = self.0;
        x = x ^ (x << 13u32);
        x = x ^ (x >> 17u32);
        x = x ^ (x << 5u32);
        self.0 = x;
        x
    }
}

/// The generator never gets stuck at zero.
pub proof fn law_xorshift32_nonzero(x: u32)
    by (bit_vector)
    requires
        x != 0,
    ensures
        xorshift32(x) != 0,
{
}

/// No two states have the same next state.
pub proof fn law_xorshift32_injective(x: u32, y: u32)
    by (bit_vector)
    requires
        xorshift32(x) == xorshift32(y),
    ensures
        x == y,
{
}

/// The rounding of a finite pattern for a drawn threshold of 16 bits: up where the bits
/// that are lost are more than the threshold.
pub open spec fn rounded_at(bits: u32, threshold: int) -> u16 {
    let hi = bits as int / 0x1_0000;
    if bits as int % 0x1_0000 > threshold {
        ((hi + 1) % 0x1_0000) as u16
    } else {
        hi as u16
    }
}

/// Rounds a single-precision pattern to bfloat16, up with a probability that grows with
/// the part that is lost. An infinity or a NaN is rounded to nearest, and draws nothing.
pub fn f32_to_bf16_stochastic(bits: u32, rng: &mut Xorshift32) -> (r: u16)
    ensures
        if bits % 0x8000_0000 >= 0x7F80_0000 {
            r == bf16_rounded(bits) && final(rng).0 == old(rng).0
        } else {
            &&& final(rng).0 == xorshift32(old(rng).0)
            &&& r == rounded_at(bits, xorshift32(old(rng).0) as int % 0x1_0000)
        },
{
    if bits % 0x8000_0000 >= 0x7F80_0000 {
        return bf16_from_f32_bits(bits);
    }
    let threshold: u32 = rng.next_u32() % 0x1_0000;
    let hi: u32 = bits / 0x1_0000;
    if bits % 0x1_0000 > threshold {
        ((hi + 1) % 0x1_0000) as u16
    } else {
        hi as u16
    }
}

/// The stochastic rounding of a finite number is one of its two neighbours, and a number
/// that bfloat16 holds stays as it is.
pub proof fn law_rounding_neighbours(bits: u32, threshold: int)
    requires
        bits % 0x8000_0000 < 0x7F80_0000,
        0 <= threshold < 0x1_0000,
    ensures
        rounded_at(bits, threshold) == bits / 0x1_0000 || rounded_at(bits, threshold) == bits
            / 0x1_0000 + 1,
        bits % 0x1_0000 == 0 ==> rounded_at(bits, threshold) == bits / 0x1_0000,
{
}

/// The operands of one fused multiply-add, as single-precision patterns.
#[derive(Clone, Copy, Debug, PartialEq, Eq, Structural)]
pub struct FmaLane {
    pub acc: Bf3232,
    pub a: Bf3232,
    pub b: Bf3232,
}

/// How many of the first `n` thresholds do not round a pattern down.
pub open spec fn rounds_up(bits: u32, n: nat) -> nat
    decreases n,
{
    if n == 0 {
        0
    } else {
        rounds_up(bits, (n - 1) as nat) + if rounded_at(bits, n - 1) != bits / 0x1_0000 {
            1nat
        } else {
            0
        }
    }
}

proof fn lemma_rounds_up(bits: u32, n: nat)
    ensures
        rounds_up(bits, n) == if n <= bits as nat % 0x1_0000 {
            n
        } else {
            bits as nat % 0x1_0000
        },
    decreases n,
{
    if n > 0 {
        lemma_rounds_up(bits, (n - 1) as nat);
    }
}

/// The stochastic rounding has no bias: over all thresholds, a number is rounded up as many
/// times as the part of it that is lost is worth, so that the mean is the number itself.
pub proof fn law_rounding_unbiased(bits: u32)
    ensures
        rounds_up(bits, 0x1_0000) == bits % 0x1_0000,
        0x1_0000 * (bits / 0x1_0000) + rounds_up(bits, 0x1_0000) == bits,
{
    lemma_rounds_up(bits, 0x1_0000);
}

pub open spec fn widened(l: Bf1616) -> Bf3232 {
    Bf3232 { primary: bf16_widened(l.primary), secondary: bf16_widened(l.secondary) }
}

fn widen(l: Bf1616) -> (r: Bf3232)
    ensures
        r == widened(l),
{
    Bf3232 { primary: bf16_to_f32_bits(l.primary), secondary: bf16_to_f32_bits(l.secondary) }
}

/// The operands of the multiply-add of two bfloat16 registers into a single-precision one:
/// accumulator lane `i` takes the product of the bfloat16 lanes `2 * i`.
pub fn fma_operands(vd: &HyperVecReg, va: &HyperVecReg, vb: &HyperVecReg) -> (r: Vec<FmaLane>)
    ensures
        r@ == Seq::new(
            8,
            |i: int|
                FmaLane {
                    acc: vd.lane32(i),
                    a: widened(va.lane16(2 * i)),
                    b: widened(vb.lane16(2 * i)),
                },
        ),
{
    let mut out: Vec<FmaLane> = Vec::new();
    let mut i: usize = 0;
    while i < 8
        invariant
            i <= 8,
            out@ =~= Seq::new(
                i as nat,
                |i: int|
                    FmaLane {
                        acc: vd.lane32(i),
                        a: widened(va.lane16(2 * i)),
                        b: widened(vb.lane16(2 * i)),
                    },
            ),
        decreases 8 - i,
    {
        out.push(
            FmaLane { acc: vd.get32(i), a: widen(va.get16(2 * i)), b: widen(vb.get16(2 * i)) },
        );
        i += 1;
    }
    out
}

/// A pattern, or zero where its number is not greater than zero.
pub open spec fn relu16(h: u16) -> u16 {
    if 0 < h <= 0x7F80 {
        h
    } else {
        0
    }
}

fn relu(h: u16) -> (r: u16)
    ensures
        r == relu16(h),
{
    if 0 < h && h <= 0x7F80 {
        h
    } else {
        0
    }
}

/// Whether each lane of a register is the one of another that a mask names, cut at zero.
pub open spec fn selected_from(to: HyperVecReg, from: HyperVecReg, mask: Seq<u32>) -> bool {
    forall|i: int|
        0 <= i < 16 ==> {
            &&& (#[trigger] to.lane16(i)).primary == relu16(
                from.lane16((mask[i] % 16) as int).primary,
            )
            &&& to.lane16(i).secondary == relu16(from.lane16((mask[i] % 16) as int).secondary)
        }
}

/// Reorders the lanes of `va` by `mask`, modulo 16, and keeps what is greater than zero.
pub fn hvx_permute_and_relu(vd: &mut HyperVecReg, va: &HyperVecReg, mask: &[u32; 16])
    ensures
        forall|i: int|
            0 <= i < 16 ==> #[trigger] final(vd).lane16(i) == (Bf1616 {
                primary: relu16(va.lane16((mask@[i] % 16) as int).primary),
                secondary: relu16(va.lane16((mask@[i] % 16) as int).secondary),
            }),
        selected_from(*final(vd), *va, mask@),
{
    let mut i: usize = 0;
    while i < 16
        invariant
            i <= 16,
            forall|k: int|
                0 <= k < i ==> #[trigger] vd.lane16(k) == (Bf1616 {
                    primary: relu16(va.lane16((mask@[k] % 16) as int).primary),
                    secondary: relu16(va.lane16((mask@[k] % 16) as int).secondary),
                }),
        decreases 16 - i,
    {
        let selected = va.get16((mask[i] % 16) as usize);
        vd.set_bf16_16_lane(
            i,
            Bf1616 { primary: relu(selected.primary), secondary: relu(selected.secondary) },
        );
        i += 1;
    }
}

/// Activation statistics by input channel. The largest magnitudes are single-precision
/// patterns; the sums of the magnitudes are kept by the caller, who gets each addend from
/// [`ChannelActivationStats::profile_row`].
pub struct ChannelActivationStats {
    pub max_abs: Vec<u32>,
    pub active_samples: Vec<u64>,
    pub total_samples: u64,
}

/// The magnitude that a number of a row counts with, if it counts.
pub open spec fn counted(bits: u32, eps: u32) -> Option<u32> {
    let v = bf16_widened(bf16_rounded(bits));
    if magnitude_exceeds(v, eps) {
        Some(v % 0x8000_0000)
    } else {
        None
    }
}

impl ChannelActivationStats {
    /// A sample per row at most, and magnitudes that are numbers.
    pub open spec fn wf(&self) -> bool {
        &&& self.max_abs@.len() == self.active_samples@.len()
        &&& forall|i: int|
            0 <= i < self.active_samples@.len() ==> #[trigger] self.active_samples@[i]
                <= self.total_samples
        &&& forall|i: int|
            0 <= i < self.max_abs@.len() ==> #[trigger] self.max_abs@[i] <= 0x7F80_0000
    }

    /// Statistics without samples.
    pub fn new(num_channels: usize) -> (r: ChannelActivationStats)
        ensures
            r.wf(),
            r.max_abs@ == Seq::new(num_channels as nat, |i: int| 0u32),
            r.active_samples@ == Seq::new(num_channels as nat, |i: int| 0u64),
            r.total_samples == 0,
    {
        let r = ChannelActivationStats {
            max_abs: vec![0u32; num_channels],
            active_samples: vec![0u64; num_channels],
            total_samples: 0,
        };
        assert(r.max_abs@ =~= Seq::new(num_channels as nat, |i: int| 0u32));
        assert(r.active_samples@ =~= Seq::new(num_channels as nat, |i: int| 0u64));
        r
    }

    /// Adds a row of single-precision patterns. A number counts where its magnitude, in
    /// bfloat16, is greater than `eps`; what counts is returned by channel.
    pub fn profile_row(&mut self, row: &[u32], eps: u32) -> (r: Vec<Option<u32>>)
        requires
            old(self).wf(),
            row@.len() == old(self).max_abs@.len(),
            old(self).total_samples < u64::MAX,
        ensures
            final(self).wf(),
            final(self).total_samples == old(self).total_samples + 1,
            final(self).max_abs@.len() == row@.len(),
            r@ == Seq::new(row@.len(), |i: int| counted(row@[i], eps)),
            forall|i: int|
                0 <= i < row@.len() ==> #[trigger] final(self).max_abs@[i] == (match counted(
                    row@[i],
                    eps,
                ) {
                    Some(a) => if a > old(self).max_abs@[i] {
                        a
                    } else {
                        old(self).max_abs@[i]
                    },
                    None => old(self).max_abs@[i],
                }),
            forall|i: int|
                0 <= i < row@.len() ==> #[trigger] final(self).active_samples@[i] == old(
                    self,
                ).active_samples@[i] + if counted(row@[i], eps) is Some {
                    1int
                } else {
                    0
                },
    {
        let ghost before = *self;
        self.total_samples = self.total_samples + 1;
        let mut out: Vec<Option<u32>> = Vec::new();
        let mut i: usize = 0;
        while i < row.len()
            invariant
                i <= row@.len(),
                before == *old(self),
                before.wf(),
                row@.len() == before.max_abs@.len(),
                self.total_samples == before.total_samples + 1,
                self.max_abs@.len() == row@.len(),
                self.active_samples@.len() == row@.len(),
                out@ =~= Seq::new(i as nat, |i: int| counted(row@[i], eps)),
                forall|k: int|
                    i <= k < row@.len() ==> #[trigger] self.max_abs@[k] == before.max_abs@[k],
                forall|k: int|
                    i <= k < row@.len() ==> #[trigger] self.active_samples@[k]
                        == before.active_samples@[k],
                forall|k: int|
                    0 <= k < i ==> #[trigger] self.max_abs@[k] == (match counted(row@[k], eps) {
                        Some(a) => if a > before.max_abs@[k] {
                            a
                        } else {
                            before.max_abs@[k]
                        },
                        None => before.max_abs@[k],
                    }),
                forall|k: int|
                    0 <= k < i ==> #[trigger] self.active_samples@[k] == before.active_samples@[k]
                        + if counted(row@[k], eps) is Some {
                        1int
                    } else {
                        0
                    },
            decreases row@.len() - i,
        {
            let v: u32 = bf16_to_f32_bits(bf16_from_f32_bits(row[i]));
            if exceeds(v, eps) {
                let a: u32 = v % 0x8000_0000;
                let n: u64 = self.active_samples[i];
                assert(before.active_samples@[i as int] == n);
                if a > self.max_abs[i] {
                    self.max_abs.set(i, a);
                }
                self.active_samples.set(i, n + 1);
                out.push(Some(a));
            } else {
                out.push(None);
            }
            i += 1;
        }
        assert forall|k: int| 0 <= k < self.active_samples@.len() implies #[trigger]
            self.active_samples@[k] <= self.total_samples by {
            let _ = before.active_samples@[k];
        }
        assert forall|k: int| 0 <= k < self.max_abs@.len() implies #[trigger] self.max_abs@[k]
            <= 0x7F80_0000 by {
            let _ = before.max_abs@[k];
        }
        out
    }
}

/// The rounding of a number to bfloat16 is the nearest one, and of two as near the even one; what
/// is no number stays none, with its sign.
pub proof fn law_rounded_to_nearest(x: u32, r: u16)
    requires
        call_ensures(bf16_from_f32_bits, (x,), r),
    ensures
        x % 0x8000_0000 <= 0x7F80_0000 ==> -0x8000 <= x - 0x1_0000 * r <= 0x8000,
        x % 0x8000_0000 <= 0x7F80_0000 && (x - 0x1_0000 * r == 0x8000 || x - 0x1_0000 * r
            == -0x8000) ==> r % 2 == 0,
        x % 0x8000_0000 > 0x7F80_0000 ==> r % 0x8000 > 0x7F80 && r / 0x8000 == x / 0x8000_0000,
{
}

/// The lanes of a register lie one behind the other in its bytes, the low byte first: those of
/// sixteen bits four bytes each, those of thirty-two bits eight.
pub proof fn law_lanes_of_bytes(
    reg: &HyperVecReg,
    narrow: [Bf1616; 16],
    wide: [Bf3232; 8],
    i: int,
    j: int,
)
    requires
        call_ensures(HyperVecReg::bf16_16_lanes, (reg,), narrow),
        call_ensures(HyperVecReg::bf32_32_lanes, (reg,), wide),
        0 <= i < 16,
        0 <= j < 8,
    ensures
        narrow@[i].primary % 256 == reg.bytes@[4 * i],
        narrow@[i].primary / 256 == reg.bytes@[4 * i + 1],
        narrow@[i].secondary % 256 == reg.bytes@[4 * i + 2],
        narrow@[i].secondary / 256 == reg.bytes@[4 * i + 3],
        wide@[j].primary % 256 == reg.bytes@[8 * j],
        wide@[j].primary / 256 % 256 == reg.bytes@[8 * j + 1],
        wide@[j].primary / 0x1_0000 % 256 == reg.bytes@[8 * j + 2],
        wide@[j].primary / 0x100_0000 == reg.bytes@[8 * j + 3],
        wide@[j].secondary % 256 == reg.bytes@[8 * j + 4],
        wide@[j].secondary / 256 % 256 == reg.bytes@[8 * j + 5],
        wide@[j].secondary / 0x1_0000 % 256 == reg.bytes@[8 * j + 6],
        wide@[j].secondary / 0x100_0000 == reg.bytes@[8 * j + 7],
{
    let b = reg.bytes@;
    assert(narrow@[i] == reg.lane16(i));
    assert(wide@[j] == reg.lane32(j));
    lemma_four_bytes(
        wide@[j].primary as int,
        b[8 * j] as int,
        b[8 * j + 1] as int,
        b[8 * j + 2] as int,
        b[8 * j + 3] as int,
    );
    lemma_four_bytes(
        wide@[j].secondary as int,
        b[8 * j + 4] as int,
        b[8 * j + 5] as int,
        b[8 * j + 6] as int,
        b[8 * j + 7] as int,
    );
}

proof fn lemma_four_bytes(v: int, b0: int, b1: int, b2: int, b3: int)
    requires
        v == b0 + 0x100 * b1 + 0x1_0000 * b2 + 0x100_0000 * b3,
        0 <= b0 < 256,
        0 <= b1 < 256,
        0 <= b2 < 256,
        0 <= b3 < 256,
    ensures
        v % 256 == b0,
        v / 256 % 256 == b1,
        v / 0x1_0000 % 256 == b2,
        v / 0x100_0000 == b3,
{
    assert(v / 256 == b1 + 0x100 * b2 + 0x1_0000 * b3);
    assert(v / 0x1_0000 == b2 + 0x100 * b3);
}

/// A lane that was set is read back, and the others stay as they were.
pub proof fn law_set_lane_is_read(
    narrow: &mut HyperVecReg,
    i: usize,
    v: Bf1616,
    before: [Bf1616; 16],
    after: [Bf1616; 16],
    wide: &mut HyperVecReg,
    j: usize,
    w: Bf3232,
    wide_before: [Bf3232; 8],
    wide_after: [Bf3232; 8],
    k: int,
)
    requires
        i < 16,
        j < 8,
        0 <= k < 16,
        call_ensures(HyperVecReg::bf16_16_lanes, (&*old(narrow),), before),
        call_ensures(HyperVecReg::set_bf16_16_lane, (narrow, i, v), ()),
        call_ensures(HyperVecReg::bf16_16_lanes, (&*final(narrow),), after),
        call_ensures(HyperVecReg::bf32_32_lanes, (&*old(wide),), wide_before),
        call_ensures(HyperVecReg::set_bf32_32_lane, (wide, j, w), ()),
        call_ensures(HyperVecReg::bf32_32_lanes, (&*final(wide),), wide_after),
    ensures
        after@[i as int] == v,
        k != i ==> after@[k] == before@[k],
        wide_after@[j as int] == w,
        k < 8 && k != j ==> wide_after@[k] == wide_before@[k],
{
    assert(after@[i as int] == final(narrow).lane16(i as int));
    assert(after@[k] == final(narrow).lane16(k) && before@[k] == old(narrow).lane16(k));
    assert(wide_after@[j as int] == final(wide).lane32(j as int));
    if k < 8 {
        assert(wide_after@[k] == final(wide).lane32(k) && wide_before@[k] == old(wide).lane32(k));
    }
}

/// Thirty-two numbers are loaded in their order, two to a lane, each rounded by itself.
pub proof fn law_loaded_in_order(
    data: &[u32; 32],
    reg: HyperVecReg,
    lanes: [Bf1616; 16],
    i: int,
    first: u16,
    second: u16,
)
    requires
        call_ensures(HyperVecReg::load_bf16_16_from_f32, (data,), reg),
        call_ensures(HyperVecReg::bf16_16_lanes, (&reg,), lanes),
        0 <= i < 16,
        call_ensures(bf16_from_f32_bits, (data@[2 * i],), first),
        call_ensures(bf16_from_f32_bits, (data@[2 * i + 1],), second),
    ensures
        lanes@[i].primary == first,
        lanes@[i].secondary == second,
{
    assert(lanes@[i] == reg.lane16(i));
    assert(reg.value16(2 * i) == bf16_rounded(data@[2 * i]));
    assert(reg.value16(2 * i + 1) == bf16_rounded(data@[2 * i + 1]));
    assert((2 * i) / 2 == i && (2 * i) % 2 == 0 && (2 * i + 1) / 2 == i && (2 * i + 1) % 2 == 1);
}

proof fn lemma_ones_total(m: u32, n: nat)
    ensures
        ones_below(m, n) == crate::sums::total(
            |k: int|
                if mask_bit(m, k) {
                    1int
                } else {
                    0
                },
            n,
        ),
    decreases n,
{
    let f = |k: int|
        if mask_bit(m, k) {
            1int
        } else {
            0
        };
    if n > 0 {
        lemma_ones_total(m, (n - 1) as nat);
        assert(f(n - 1) == if mask_bit(m, n - 1) {
            1int
        } else {
            0
        });
    }
}

/// A mask of a register is active at the values that are further from zero than the bound, counting
/// two to a lane, and its count is that of the active ones among all thirty-two.
pub proof fn law_mask_of_values(
    reg: &HyperVecReg,
    eps: u32,
    mask: SparsityMask,
    lanes: [Bf1616; 16],
    i: usize,
    first: bool,
    second: bool,
    count: u32,
)
    requires
        call_ensures(SparsityMask::from_reg, (reg, eps), mask),
        call_ensures(HyperVecReg::bf16_16_lanes, (reg,), lanes),
        i < 16,
        call_ensures(SparsityMask::is_active, (&mask, (2 * i) as usize), first),
        call_ensures(SparsityMask::is_active, (&mask, (2 * i + 1) as usize), second),
        call_ensures(SparsityMask::active_count, (&mask,), count),
        eps <= 0x7F80_0000,
    ensures
        lanes@[i as int].primary % 0x8000 <= 0x7F80 ==> (first <==> 0x1_0000 * (
        lanes@[i as int].primary % 0x8000) > eps),
        lanes@[i as int].secondary % 0x8000 <= 0x7F80 ==> (second <==> 0x1_0000 * (
        lanes@[i as int].secondary % 0x8000) > eps),
        count <= 32,
        first || second ==> count >= 1,
        count == crate::sums::total(
            |k: int|
                if mask_bit(mask.0, k) {
                    1int
                } else {
                    0
                },
            32,
        ),
{
    let n = i as int;
    assert(lanes@[n] == reg.lane16(n));
    assert((2 * n) / 2 == n && (2 * n) % 2 == 0 && (2 * n + 1) / 2 == n && (2 * n + 1) % 2 == 1);
    assert(mask_bit(mask.0, 2 * n) == magnitude_exceeds(bf16_widened(reg.value16(2 * n)), eps));
    assert(mask_bit(mask.0, 2 * n + 1) == magnitude_exceeds(
        bf16_widened(reg.value16(2 * n + 1)),
        eps,
    ));
    lemma_ones_total(mask.0, 32);
    lemma_ones_bounds(mask.0, 32, 2 * n);
    lemma_ones_bounds(mask.0, 32, 2 * n + 1);
}

proof fn lemma_ones_bounds(m: u32, n: nat, k: int)
    requires
        0 <= k < n,
    ensures
        ones_below(m, n) <= n,
        mask_bit(m, k) ==> ones_below(m, n) >= 1,
    decreases n,
{
    if n > 1 {
        lemma_ones_bounds(
            m,
            (n - 1) as nat,
            if k < n - 1 {
                k
            } else {
                0
            },
        );
    } else {
        assert(ones_below(m, 0) == 0);
    }
}

/// The operands of a lane of a product: the lane of the sum that it is added to, and every other
/// lane of the two factors, each widened by sixteen bits of nothing.
pub proof fn law_operands_of_lanes(
    vd: &HyperVecReg,
    va: &HyperVecReg,
    vb: &HyperVecReg,
    r: Vec<FmaLane>,
    acc: [Bf3232; 8],
    a: [Bf1616; 16],
    b: [Bf1616; 16],
    i: int,
)
    requires
        call_ensures(fma_operands, (vd, va, vb), r),
        call_ensures(HyperVecReg::bf32_32_lanes, (vd,), acc),
        call_ensures(HyperVecReg::bf16_16_lanes, (va,), a),
        call_ensures(HyperVecReg::bf16_16_lanes, (vb,), b),
        0 <= i < 8,
    ensures
        r@.len() == 8,
        r@[i].acc == acc@[i],
        a@[2 * i].primary % 0x8000 <= 0x7F80 ==> r@[i].a.primary == 0x1_0000 * a@[2 * i].primary,
        a@[2 * i].secondary % 0x8000 <= 0x7F80 ==> r@[i].a.secondary == 0x1_0000 * a@[2
            * i].secondary,
        b@[2 * i].primary % 0x8000 <= 0x7F80 ==> r@[i].b.primary == 0x1_0000 * b@[2 * i].primary,
        b@[2 * i].secondary % 0x8000 <= 0x7F80 ==> r@[i].b.secondary == 0x1_0000 * b@[2
            * i].secondary,
{
    assert(acc@[i] == vd.lane32(i));
    assert(a@[2 * i] == va.lane16(2 * i));
    assert(b@[2 * i] == vb.lane16(2 * i));
}

/// A permutation puts into each lane the lane that its place of the mask names, with what is not
/// above zero taken as zero.
pub proof fn law_permuted_and_cut(
    vd: &mut HyperVecReg,
    va: &HyperVecReg,
    mask: &[u32; 16],
    from: [Bf1616; 16],
    to: [Bf1616; 16],
    i: int,
)
    requires
        call_ensures(hvx_permute_and_relu, (vd, va, mask), ()),
        call_ensures(HyperVecReg::bf16_16_lanes, (va,), from),
        call_ensures(HyperVecReg::bf16_16_lanes, (&*final(vd),), to),
        0 <= i < 16,
        mask@[i] < 16,
    ensures
        ({
            let x = from@[mask@[i] as int];
            let y = to@[i];
            &&& 0 < x.primary <= 0x7F80 ==> y.primary == x.primary
            &&& x.primary == 0 || x.primary > 0x7F80 ==> y.primary == 0
            &&& 0 < x.secondary <= 0x7F80 ==> y.secondary == x.secondary
            &&& x.secondary == 0 || x.secondary > 0x7F80 ==> y.secondary == 0
        }),
{
    let m = mask@[i];
    assert(m % 16 == m);
    assert(to@[i] == final(vd).lane16(i));
    assert(from@[m as int] == va.lane16(m as int));
}

/// A row raises a channel's count by one where its value is further from zero than the bound, and
/// its greatest value to that where it is greater; the other channels stay as they were, and every
/// row is counted.
pub proof fn law_row_is_counted(
    stats: &mut ChannelActivationStats,
    row: &[u32],
    eps: u32,
    r: Vec<Option<u32>>,
    i: int,
    rounded: u16,
)
    requires
        old(stats).wf(),
        row@.len() == old(stats).max_abs@.len(),
        old(stats).total_samples < u64::MAX,
        call_ensures(ChannelActivationStats::profile_row, (stats, row, eps), r),
        0 <= i < row@.len(),
        call_ensures(bf16_from_f32_bits, (row@[i],), rounded),
        eps <= 0x7F80_0000,
        rounded % 0x8000 <= 0x7F80,
    ensures
        r@.len() == row@.len(),
        final(stats).total_samples == old(stats).total_samples + 1,
        r@[i] is Some <==> 0x1_0000 * (rounded % 0x8000) > eps,
        r@[i] matches Some(a) ==> {
            &&& a == 0x1_0000 * (rounded % 0x8000)
            &&& final(stats).active_samples@[i] == old(stats).active_samples@[i] + 1
            &&& final(stats).max_abs@[i] >= a
            &&& final(stats).max_abs@[i] >= old(stats).max_abs@[i]
            &&& final(stats).max_abs@[i] == a || final(stats).max_abs@[i] == old(stats).max_abs@[i]
        },
        r@[i] is None ==> final(stats).active_samples@[i] == old(stats).active_samples@[i]
            && final(stats).max_abs@[i] == old(stats).max_abs@[i],
{
    assert(r@[i] == counted(row@[i], eps));
    assert(final(stats).max_abs@[i] == final(stats).max_abs@[i]);
    assert(final(stats).active_samples@[i] == final(stats).active_samples@[i]);
}

/// The stochastic rounding of a finite number is one of its two neighbours, a number that bfloat16
/// holds stays as it is, and what is not finite is rounded as ever, without drawing a number.
pub proof fn law_stochastic_between(bits: u32, rng: &mut Xorshift32, r: u16, plain: u16)
    requires
        call_ensures(f32_to_bf16_stochastic, (bits, rng), r),
        call_ensures(bf16_from_f32_bits, (bits,), plain),
    ensures
        bits % 0x8000_0000 < 0x7F80_0000 ==> r == bits / 0x1_0000 || r == bits / 0x1_0000 + 1,
        bits % 0x1_0000 == 0 && bits % 0x8000_0000 < 0x7F80_0000 ==> r == bits / 0x1_0000,
        bits % 0x8000_0000 >= 0x7F80_0000 ==> r == plain && final(rng).0 == old(rng).0,
{
    if bits % 0x8000_0000 < 0x7F80_0000 {
        law_rounding_neighbours(bits, xorshift32(old(rng).0) as int % 0x1_0000);
    }
}

} // verus!
