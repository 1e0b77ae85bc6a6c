//! The element types of a GGUF tensor.

use vstd::prelude::*;

use crate::gguf::error::GgufError;

verus! {

/// An element type; a quantized one packs a fixed number of elements in a block.
#[allow(non_camel_case_types)]
#[derive(Clone, Copy, Debug, PartialEq, Eq, Hash, Structural)]
pub enum GgmlDType {
    F32,
    F16,
    Q4_0,
    Q4_1,
    Q5_0,
    Q5_1,
    Q8_0,
    Q8_1,
    Q2_K,
    Q3_K,
    Q4_K,
    Q5_K,
    Q6_K,
    Q8_K,
    IQ2_XXS,
    IQ2_XS,
    IQ3_XXS,
    IQ1_S,
    IQ4_NL,
    IQ3_S,
    IQ2_S,
    IQ4_XS,
    I8,
    I16,
    I32,
    I64,
    F64,
    IQ1_M,
    BF16,
}

impl GgmlDType {
    /// The code that stands for the type in a file.
    pub open spec fn code(self) -> nat {
        match self {
            GgmlDType::F32 => 0,
            GgmlDType::F16 => 1,
            GgmlDType::Q4_0 => 2,
            GgmlDType::Q4_1 => 3,
            GgmlDType::Q5_0 => 6,
            GgmlDType::Q5_1 => 7,
            GgmlDType::Q8_0 => 8,
            GgmlDType::Q8_1 => 9,
            GgmlDType::Q2_K => 10,
            GgmlDType::Q3_K => 11,
            GgmlDType::Q4_K => 12,
            GgmlDType::Q5_K => 13,
            GgmlDType::Q6_K => 14,
            GgmlDType::Q8_K => 15,
            GgmlDType::IQ2_XXS => 16,
            GgmlDType::IQ2_XS => 17,
            GgmlDType::IQ3_XXS => 18,
            GgmlDType::IQ1_S => 19,
            GgmlDType::IQ4_NL => 20,
            GgmlDType::IQ3_S => 21,
            GgmlDType::IQ2_S => 22,
            GgmlDType::IQ4_XS => 23,
            GgmlDType::I8 => 24,
            GgmlDType::I16 => 25,
            GgmlDType::I32 => 26,
            GgmlDType::I64 => 27,
            GgmlDType::F64 => 28,
            GgmlDType::IQ1_M => 29,
            GgmlDType::BF16 => 30,
        }
    }

    /// Elements per block.
    pub open spec fn spec_block_size(self) -> nat {
        match self {
            GgmlDType::F32 => 1,
            GgmlDType::F16 => 1,
            GgmlDType::Q4_0 => 32,
            GgmlDType::Q4_1 => 32,
            GgmlDType::Q5_0 => 32,
            GgmlDType::Q5_1 => 32,
            GgmlDType::Q8_0 => 32,
            GgmlDType::Q8_1 => 32,
            GgmlDType::Q2_K => 256,
            GgmlDType::Q3_K => 256,
            GgmlDType::Q4_K => 256,
            GgmlDType::Q5_K => 256,
            GgmlDType::Q6_K => 256,
            GgmlDType::Q8_K => 256,
            GgmlDType::IQ2_XXS => 256,
            GgmlDType::IQ2_XS => 256,
            GgmlDType::IQ3_XXS => 256,
            GgmlDType::IQ1_S => 256,
            GgmlDType::IQ4_NL => 32,
            GgmlDType::IQ3_S => 256,
            GgmlDType::IQ2_S => 256,
            GgmlDType::IQ4_XS => 32,
            GgmlDType::I8 => 1,
            GgmlDType::I16 => 1,
            GgmlDType::I32 => 1,
            GgmlDType::I64 => 1,
            GgmlDType::F64 => 1,
            GgmlDType::IQ1_M => 256,
            GgmlDType::BF16 => 1,
        }
    }

    /// Bytes per block.
    pub open spec fn spec_type_size(self) -> nat {
        match self {
            GgmlDType::F32 => 4,
            GgmlDType::F16 => 2,
            GgmlDType::Q4_0 => 18,
            GgmlDType::Q4_1 => 20,
            GgmlDType::Q5_0 => 22,
            GgmlDType::Q5_1 => 24,
            GgmlDType::Q8_0 => 34,
            GgmlDType::Q8_1 => 40,
            GgmlDType::Q2_K => 84,
            GgmlDType::Q3_K => 110,
            GgmlDType::Q4_K => 144,
            GgmlDType::Q5_K => 176,
            GgmlDType::Q6_K => 210,
            GgmlDType::Q8_K => 292,
            GgmlDType::IQ2_XXS => 66,
            GgmlDType::IQ2_XS => 74,
            GgmlDType::IQ3_XXS => 98,
            GgmlDType::IQ1_S => 50,
            GgmlDType::IQ4_NL => 18,
            GgmlDType::IQ3_S => 110,
            GgmlDType::IQ2_S => 82,
            GgmlDType::IQ4_XS => 136,
            GgmlDType::I8 => 1,
            GgmlDType::I16 => 2,
            GgmlDType::I32 => 4,
            GgmlDType::I64 => 8,
            GgmlDType::F64 => 8,
            GgmlDType::IQ1_M => 56,
            GgmlDType::BF16 => 2,
        }
    }

    pub open spec fn spec_name(self) -> Seq<char> {
        match self {
            GgmlDType::F32 => "F32"@,
            GgmlDType::F16 => "F16"@,
            GgmlDType::Q4_0 => "Q4_0"@,
            GgmlDType::Q4_1 => "Q4_1"@,
            GgmlDType::Q5_0 => "Q5_0"@,
            GgmlDType::Q5_1 => "Q5_1"@,
            GgmlDType::Q8_0 => "Q8_0"@,
            GgmlDType::Q8_1 => "Q8_1"@,
            GgmlDType::Q2_K => "Q2_K"@,
            GgmlDType::Q3_K => "Q3_K"@,
            GgmlDType::Q4_K => "Q4_K"@,
            GgmlDType::Q5_K => "Q5_K"@,
            GgmlDType::Q6_K => "Q6_K"@,
            GgmlDType::Q8_K => "Q8_K"@,
            GgmlDType::IQ2_XXS => "IQ2_XXS"@,
            GgmlDType::IQ2_XS => "IQ2_XS"@,
            GgmlDType::IQ3_XXS => "IQ3_XXS"@,
            GgmlDType::IQ1_S => "IQ1_S"@,
            GgmlDType::IQ4_NL => "IQ4_NL"@,
            GgmlDType::IQ3_S => "IQ3_S"@,
            GgmlDType::IQ2_S => "IQ2_S"@,
            GgmlDType::IQ4_XS => "IQ4_XS"@,
            GgmlDType::I8 => "I8"@,
            GgmlDType::I16 => "I16"@,
            GgmlDType::I32 => "I32"@,
            GgmlDType::I64 => "I64"@,
            GgmlDType::F64 => "F64"@,
            GgmlDType::IQ1_M => "IQ1_M"@,
            GgmlDType::BF16 => "BF16"@,
        }
    }

    /// Blocks that hold `n` elements, the last one possibly in part.
    pub open spec fn blocks_for(self, n: nat) -> nat {
        let bs = self.spec_block_size();
        if n % bs == 0 {
            n / bs
        } else {
            n / bs + 1
        }
    }

    /// Bytes that hold `n` elements.
    pub open spec fn spec_nbytes_for(self, n: nat) -> nat {
        self.blocks_for(n) * self.spec_type_size()
    }

    /// The type with code `v`.
    pub fn from_u32(v: u32) -> (r: Result<GgmlDType, GgufError>)
        ensures
            match r {
                Ok(d) => d.code() == v,
                Err(e) => e == GgufError::UnknownDType(v) && forall|d: GgmlDType|
                    #![trigger d.code()]
                    d.code() != v,
            },
    {
        match v {
            0 => Ok(GgmlDType::F32),
            1 => Ok(GgmlDType::F16),
            2 => Ok(GgmlDType::Q4_0),
            3 => Ok(GgmlDType::Q4_1),
            6 => Ok(GgmlDType::Q5_0),
            7 => Ok(GgmlDType::Q5_1),
            8 => Ok(GgmlDType::Q8_0),
            9 => Ok(GgmlDType::Q8_1),
            10 => Ok(GgmlDType::Q2_K),
            11 => Ok(GgmlDType::Q3_K),
            12 => Ok(GgmlDType::Q4_K),
            13 => Ok(GgmlDType::Q5_K),
            14 => Ok(GgmlDType::Q6_K),
            15 => Ok(GgmlDType::Q8_K),
            16 => Ok(GgmlDType::IQ2_XXS),
            17 => Ok(GgmlDType::IQ2_XS),
            18 => Ok(GgmlDType::IQ3_XXS),
            19 => Ok(GgmlDType::IQ1_S),
            20 => Ok(GgmlDType::IQ4_NL),
            21 => Ok(GgmlDType::IQ3_S),
            22 => Ok(GgmlDType::IQ2_S),
            23 => Ok(GgmlDType::IQ4_XS),
            24 => Ok(GgmlDType::I8),
            25 => Ok(GgmlDType::I16),
            26 => Ok(GgmlDType::I32),
            27 => Ok(GgmlDType::I64),
            28 => Ok(GgmlDType::F64),
            29 => Ok(GgmlDType::IQ1_M),
            30 => Ok(GgmlDType::BF16),
            _ => Err(GgufError::UnknownDType(v)),
        }
    }

    /// Number of elements per quantization block.
    pub fn block_size(&self) -> (r: usize)
        ensures
            r == self.spec_block_size(),
    {
        match self {
            GgmlDType::F32 => 1,
            GgmlDType::F16 => 1,
            GgmlDType::Q4_0 => 32,
            GgmlDType::Q4_1 => 32,
            GgmlDType::Q5_0 => 32,
            GgmlDType::Q5_1 => 32,
            GgmlDType::Q8_0 => 32,
            GgmlDType::Q8_1 => 32,
            GgmlDType::Q2_K => 256,
            GgmlDType::Q3_K => 256,
            GgmlDType::Q4_K => 256,
            GgmlDType::Q5_K => 256,
            GgmlDType::Q6_K => 256,
            GgmlDType::Q8_K => 256,
            GgmlDType::IQ2_XXS => 256,
            GgmlDType::IQ2_XS => 256,
            GgmlDType::IQ3_XXS => 256,
            GgmlDType::IQ1_S => 256,
            GgmlDType::IQ4_NL => 32,
            GgmlDType::IQ3_S => 256,
            GgmlDType::IQ2_S => 256,
            GgmlDType::IQ4_XS => 32,
            GgmlDType::I8 => 1,
            GgmlDType::I16 => 1,
            GgmlDType::I32 => 1,
            GgmlDType::I64 => 1,
            GgmlDType::F64 => 1,
            GgmlDType::IQ1_M => 256,
            GgmlDType::BF16 => 1,
        }
    }

    /// Number of bytes per quantization block.
    pub fn type_size(&self) -> (r: usize)
        ensures
            r == self.spec_type_size(),
    {
        match self {
            GgmlDType::F32 => 4,
            GgmlDType::F16 => 2,
            GgmlDType::Q4_0 => 18,
            GgmlDType::Q4_1 => 20,
            GgmlDType::Q5_0 => 22,
            GgmlDType::Q5_1 => 24,
            GgmlDType::Q8_0 => 34,
            GgmlDType::Q8_1 => 40,
            GgmlDType::Q2_K => 84,
            GgmlDType::Q3_K => 110,
            GgmlDType::Q4_K => 144,
            GgmlDType::Q5_K => 176,
            GgmlDType::Q6_K => 210,
            GgmlDType::Q8_K => 292,
            GgmlDType::IQ2_XXS => 66,
            GgmlDType::IQ2_XS => 74,
            GgmlDType::IQ3_XXS => 98,
            GgmlDType::IQ1_S => 50,
            GgmlDType::IQ4_NL => 18,
            GgmlDType::IQ3_S => 110,
            GgmlDType::IQ2_S => 82,
            GgmlDType::IQ4_XS => 136,
            GgmlDType::I8 => 1,
            GgmlDType::I16 => 2,
            GgmlDType::I32 => 4,
            GgmlDType::I64 => 8,
            GgmlDType::F64 => 8,
            GgmlDType::IQ1_M => 56,
            GgmlDType::BF16 => 2,
        }
    }

    /// Number of bytes for `n_elems` elements of this type.
    pub fn nbytes_for(&self, n_elems: usize) -> (r: usize)
        requires
            n_elems + self.spec_block_size() <= usize::MAX,
            self.spec_nbytes_for(n_elems as nat) <= usize::MAX,
        ensures
            r == self.spec_nbytes_for(n_elems as nat),
    {
        let bs = self.block_size();
        let blocks = (n_elems + bs - 1) / bs;
        proof {
            self.lemma_round_up(n_elems as nat);
        }
        blocks * self.type_size()
    }

    /// The number of bytes for `n_elems` elements, where it can be represented.
    pub fn checked_nbytes_for(&self, n_elems: usize) -> (r: Option<usize>)
        ensures
            r matches Some(v) ==> v == self.spec_nbytes_for(n_elems as nat),
            r is None <==> self.spec_nbytes_for(n_elems as nat) > usize::MAX,
    {
        let bs = self.block_size();
        assert(bs == 1 || bs == 32 || bs == 256);
        let whole = n_elems / bs;
        proof {
            if bs == 32 {
                assert(whole == n_elems / 32);
            } else if bs == 256 {
                assert(whole == n_elems / 256);
            } else {
                assert(n_elems % bs == n_elems % 1);
            }
        }
        let blocks = if n_elems % bs == 0 {
            whole
        } else {
            whole + 1
        };
        blocks.checked_mul(self.type_size())
    }

    /// Rounding up adds a block for a partial one.
    proof fn lemma_round_up(self, n: nat)
        ensures
            (n + self.spec_block_size() - 1) / (self.spec_block_size() as int) == self.blocks_for(n),
    {
        let bs = self.spec_block_size();
        assert(bs == 1 || bs == 32 || bs == 256);
    }

    /// Whether elements have to be decoded before use as plain numbers.
    pub fn is_quantized(&self) -> (r: bool)
        ensures
            r == !(self is F32 || self is F64 || self is I8 || self is I16 || self is I32
                || self is I64),
    {
        match self {
            GgmlDType::F32
            | GgmlDType::F64
            | GgmlDType::I8
            | GgmlDType::I16
            | GgmlDType::I32
            | GgmlDType::I64 => false,
            _ => true,
        }
    }

    /// The name of the type.
    pub fn name(&self) -> (s: &'static str)
        ensures
            s@ == self.spec_name(),
    {
        match self {
            GgmlDType::F32 => "F32",
            GgmlDType::F16 => "F16",
            GgmlDType::Q4_0 => "Q4_0",
            GgmlDType::Q4_1 => "Q4_1",
            GgmlDType::Q5_0 => "Q5_0",
            GgmlDType::Q5_1 => "Q5_1",
            GgmlDType::Q8_0 => "Q8_0",
            GgmlDType::Q8_1 => "Q8_1",
            GgmlDType::Q2_K => "Q2_K",
            GgmlDType::Q3_K => "Q3_K",
            GgmlDType::Q4_K => "Q4_K",
            GgmlDType::Q5_K => "Q5_K",
            GgmlDType::Q6_K => "Q6_K",
            GgmlDType::Q8_K => "Q8_K",
            GgmlDType::IQ2_XXS => "IQ2_XXS",
            GgmlDType::IQ2_XS => "IQ2_XS",
            GgmlDType::IQ3_XXS => "IQ3_XXS",
            GgmlDType::IQ1_S => "IQ1_S",
            GgmlDType::IQ4_NL => "IQ4_NL",
            GgmlDType::IQ3_S => "IQ3_S",
            GgmlDType::IQ2_S => "IQ2_S",
            GgmlDType::IQ4_XS => "IQ4_XS",
            GgmlDType::I8 => "I8",
            GgmlDType::I16 => "I16",
            GgmlDType::I32 => "I32",
            GgmlDType::I64 => "I64",
            GgmlDType::F64 => "F64",
            GgmlDType::IQ1_M => "IQ1_M",
            GgmlDType::BF16 => "BF16",
        }
    }
}

/// No two types share a code.
pub proof fn law_codes_are_distinct(a: GgmlDType, b: GgmlDType)
    requires
        a.code() == b.code(),
    ensures
        a == b,
{
}

/// The bytes for a whole number of blocks split at any block boundary.
pub proof fn law_nbytes_add(d: GgmlDType, blocks: nat, rest: nat)
    ensures
        d.spec_nbytes_for(blocks * d.spec_block_size() + rest) == blocks * d.spec_type_size()
            + d.spec_nbytes_for(rest),
{
    let bs = d.spec_block_size();
    let ts = d.spec_type_size();
    assert(bs == 1 || bs == 32 || bs == 256);
    if bs == 1 {
        assert(blocks * bs == blocks) by (nonlinear_arith)
            requires
                bs == 1,
        ;
    } else if bs == 32 {
        assert(blocks * bs == 32 * blocks) by (nonlinear_arith)
            requires
                bs == 32,
        ;
    } else {
        assert(blocks * bs == 256 * blocks) by (nonlinear_arith)
            requires
                bs == 256,
        ;
    }
    assert(d.blocks_for(blocks * bs + rest) == blocks + d.blocks_for(rest));
    assert((blocks + d.blocks_for(rest)) * ts == blocks * ts + d.blocks_for(rest) * ts)
        by (nonlinear_arith);
}

/// The codes of the GGUF format: each stands for one type, and any other number for none.
pub proof fn law_codes_of_the_format(v: u32, r: Result<GgmlDType, GgufError>)
    requires
        call_ensures(GgmlDType::from_u32, (v,), r),
    ensures
        v == 0 <==> r == Ok::<GgmlDType, GgufError>(GgmlDType::F32),
        v == 1 <==> r == Ok::<GgmlDType, GgufError>(GgmlDType::F16),
        v == 2 <==> r == Ok::<GgmlDType, GgufError>(GgmlDType::Q4_0),
        v == 3 <==> r == Ok::<GgmlDType, GgufError>(GgmlDType::Q4_1),
        v == 6 <==> r == Ok::<GgmlDType, GgufError>(GgmlDType::Q5_0),
        v == 7 <==> r == Ok::<GgmlDType, GgufError>(GgmlDType::Q5_1),
        v == 8 <==> r == Ok::<GgmlDType, GgufError>(GgmlDType::Q8_0),
        v == 9 <==> r == Ok::<GgmlDType, GgufError>(GgmlDType::Q8_1),
        v == 10 <==> r == Ok::<GgmlDType, GgufError>(GgmlDType::Q2_K),
        v == 11 <==> r == Ok::<GgmlDType, GgufError>(GgmlDType::Q3_K),
        v == 12 <==> r == Ok::<GgmlDType, GgufError>(GgmlDType::Q4_K),
        v == 13 <==> r == Ok::<GgmlDType, GgufError>(GgmlDType::Q5_K),
        v == 14 <==> r == Ok::<GgmlDType, GgufError>(GgmlDType::Q6_K),
        v == 15 <==> r == Ok::<GgmlDType, GgufError>(GgmlDType::Q8_K),
        v == 16 <==> r == Ok::<GgmlDType, GgufError>(GgmlDType::IQ2_XXS),
        v == 17 <==> r == Ok::<GgmlDType, GgufError>(GgmlDType::IQ2_XS),
        v == 18 <==> r == Ok::<GgmlDType, GgufError>(GgmlDType::IQ3_XXS),
        v == 19 <==> r == Ok::<GgmlDType, GgufError>(GgmlDType::IQ1_S),
        v == 20 <==> r == Ok::<GgmlDType, GgufError>(GgmlDType::IQ4_NL),
        v == 21 <==> r == Ok::<GgmlDType, GgufError>(GgmlDType::IQ3_S),
        v == 22 <==> r == Ok::<GgmlDType, GgufError>(GgmlDType::IQ2_S),
        v == 23 <==> r == Ok::<GgmlDType, GgufError>(GgmlDType::IQ4_XS),
        v == 24 <==> r == Ok::<GgmlDType, GgufError>(GgmlDType::I8),
        v == 25 <==> r == Ok::<GgmlDType, GgufError>(GgmlDType::I16),
        v == 26 <==> r == Ok::<GgmlDType, GgufError>(GgmlDType::I32),
        v == 27 <==> r == Ok::<GgmlDType, GgufError>(GgmlDType::I64),
        v == 28 <==> r == Ok::<GgmlDType, GgufError>(GgmlDType::F64),
        v == 29 <==> r == Ok::<GgmlDType, GgufError>(GgmlDType::IQ1_M),
        v == 30 <==> r == Ok::<GgmlDType, GgufError>(GgmlDType::BF16),
        v == 4 || v == 5 || v > 30 <==> r == Err::<GgmlDType, GgufError>(
            GgufError::UnknownDType(v),
        ),
{
    if r is Err {
        assert(forall|d: GgmlDType| (#[trigger] d.code()) != v);
        assert(GgmlDType::F32.code() != v);
        assert(GgmlDType::F16.code() != v);
        assert(GgmlDType::Q4_0.code() != v);
        assert(GgmlDType::Q4_1.code() != v);
        assert(GgmlDType::Q5_0.code() != v);
        assert(GgmlDType::Q5_1.code() != v);
        assert(GgmlDType::Q8_0.code() != v);
        assert(GgmlDType::Q8_1.code() != v);
        assert(GgmlDType::Q2_K.code() != v);
        assert(GgmlDType::Q3_K.code() != v);
        assert(GgmlDType::Q4_K.code() != v);
        assert(GgmlDType::Q5_K.code() != v);
        assert(GgmlDType::Q6_K.code() != v);
        assert(GgmlDType::Q8_K.code() != v);
        assert(GgmlDType::IQ2_XXS.code() != v);
        assert(GgmlDType::IQ2_XS.code() != v);
        assert(GgmlDType::IQ3_XXS.code() != v);
        assert(GgmlDType::IQ1_S.code() != v);
        assert(GgmlDType::IQ4_NL.code() != v);
        assert(GgmlDType::IQ3_S.code() != v);
        assert(GgmlDType::IQ2_S.code() != v);
        assert(GgmlDType::IQ4_XS.code() != v);
        assert(GgmlDType::I8.code() != v);
        assert(GgmlDType::I16.code() != v);
        assert(GgmlDType::I32.code() != v);
        assert(GgmlDType::I64.code() != v);
        assert(GgmlDType::F64.code() != v);
        assert(GgmlDType::IQ1_M.code() != v);
        assert(GgmlDType::BF16.code() != v);
    }
}

/// A type holds as many elements as it has in a block: one where they are plain numbers, 32 in
/// the first formats and in the two of four bits without a grid, else 256.
pub proof fn law_block_sizes(d: GgmlDType, r: usize)
    requires
        call_ensures(GgmlDType::block_size, (&d,), r),
    ensures
        r == 1 <==> (d is F32 || d is F16 || d is BF16 || d is F64 || d is I8 || d is I16 || d is I32
            || d is I64),
        r == 32 <==> (d is Q4_0 || d is Q4_1 || d is Q5_0 || d is Q5_1 || d is Q8_0 || d is Q8_1 || d is IQ4_NL
            || d is IQ4_XS),
        r == 1 || r == 32 || r == 256,
{
}

/// The bytes of a block are those of its parts: factors of two bytes, scales, and the bits of
/// its elements.
pub proof fn law_type_sizes(d: GgmlDType, r: usize)
    requires
        call_ensures(GgmlDType::type_size, (&d,), r),
    ensures
        d is I8 ==> 8 * r == 8,
        d is F16 || d is BF16 || d is I16 ==> 8 * r == 16,
        d is F32 || d is I32 ==> 8 * r == 32,
        d is F64 || d is I64 ==> 8 * r == 64,
        // a factor, or a factor and a minimum, and 32 elements
        d is Q4_0 || d is IQ4_NL ==> r == 2 + 32int * 4 / 8,
        d is Q4_1 ==> r == 2 + 2 + 32int * 4 / 8,
        d is Q5_0 ==> r == 2 + 32int * 5 / 8,
        d is Q5_1 ==> r == 2 + 2 + 32int * 5 / 8,
        d is Q8_0 ==> r == 2 + 32,
        d is Q8_1 ==> r == 4 + 4 + 32,
        // 16 scales and minima of four bits, and two factors
        d is Q2_K ==> r == 16int * (4 + 4) / 8 + 256int * 2 / 8 + 2 + 2,
        // 16 scales of six bits, and a factor
        d is Q3_K || d is IQ3_S ==> r == 256int * 3 / 8 + 16int * 6 / 8 + 2,
        // 8 scales and minima of six bits, and two factors
        d is Q4_K ==> r == 2 + 2 + 8int * (6 + 6) / 8 + 256int * 4 / 8,
        d is Q5_K ==> r == 2 + 2 + 8int * (6 + 6) / 8 + 256int * 5 / 8,
        // 16 scales of a byte, and a factor
        d is Q6_K ==> r == 256int * 6 / 8 + 16 + 2,
        // a factor of four bytes, and 16 sums of two
        d is Q8_K ==> r == 4 + 256int + 16 * 2,
        d is IQ2_XXS ==> r == 2 + 256int / 8 * 2,
        d is IQ2_XS ==> r == 2 + 256int / 8 * 2 + 256int / 32,
        d is IQ2_S ==> r == 2 + 256int / 4 + 256int / 16,
        d is IQ3_XXS ==> r == 2 + 256int * 3 / 8,
        d is IQ1_S ==> r == 2 + 256int / 8 + 256int / 16,
        d is IQ1_M ==> r == 256int / 8 + 256int / 16 + 256int / 32,
        d is IQ4_XS ==> r == 2 + 2 + 256int / 64 + 256int / 2,
{
}

/// The bytes for some elements are those of whole blocks, as many as hold them and no more.
pub proof fn law_nbytes_hold(d: GgmlDType, n: usize, r: Option<usize>)
    requires
        call_ensures(GgmlDType::checked_nbytes_for, (&d, n), r),
        r is Some,
    ensures
        exists|blocks: nat|
            {
                &&& r->0 == #[trigger] (blocks * d.spec_type_size())
                &&& n <= blocks * d.spec_block_size() < n + d.spec_block_size()
            },
{
    let b = d.blocks_for(n as nat);
    let bs = d.spec_block_size();
    assert(bs == 1 || bs == 32 || bs == 256);
    assert(n <= b * bs < n + bs) by {
        if bs == 1 {
            assert(b * bs == b) by (nonlinear_arith)
                requires
                    bs == 1,
            ;
        } else if bs == 32 {
            assert(b * bs == 32 * b) by (nonlinear_arith)
                requires
                    bs == 32,
            ;
        } else {
            assert(b * bs == 256 * b) by (nonlinear_arith)
                requires
                    bs == 256,
            ;
        }
    }
    assert(r->0 == b * d.spec_type_size());
}

/// The two ways to the bytes for some elements agree.
pub proof fn law_nbytes_agree(d: GgmlDType, n: usize, a: usize, b: Option<usize>)
    requires
        call_ensures(GgmlDType::nbytes_for, (&d, n), a),
        call_ensures(GgmlDType::checked_nbytes_for, (&d, n), b),
    ensures
        b == Some(a),
{
}

/// Every type has a name of its own.
pub proof fn law_names_are_distinct(a: GgmlDType, b: GgmlDType)
    requires
        a.spec_name() == b.spec_name(),
    ensures
        a == b,
{
    reveal_strlit("F32");
    reveal_strlit("F16");
    reveal_strlit("Q4_0");
    reveal_strlit("Q4_1");
    reveal_strlit("Q5_0");
    reveal_strlit("Q5_1");
    reveal_strlit("Q8_0");
    reveal_strlit("Q8_1");
    reveal_strlit("Q2_K");
    reveal_strlit("Q3_K");
    reveal_strlit("Q4_K");
    reveal_strlit("Q5_K");
    reveal_strlit("Q6_K");
    reveal_strlit("Q8_K");
    reveal_strlit("IQ2_XXS");
    reveal_strlit("IQ2_XS");
    reveal_strlit("IQ3_XXS");
    reveal_strlit("IQ1_S");
    reveal_strlit("IQ4_NL");
    reveal_strlit("IQ3_S");
    reveal_strlit("IQ2_S");
    reveal_strlit("IQ4_XS");
    reveal_strlit("I8");
    reveal_strlit("I16");
    reveal_strlit("I32");
    reveal_strlit("I64");
    reveal_strlit("F64");
    reveal_strlit("IQ1_M");
    reveal_strlit("BF16");
    let (x, y) = (a.spec_name(), b.spec_name());
    assert(x.len() == y.len());
    assert(x[0] == y[0] && x[1] == y[1]);
    assert(x.len() > 2 ==> x[2] == y[2]);
    assert(x.len() > 3 ==> x[3] == y[3]);
    assert(x.len() > 4 ==> x[4] == y[4]);
    assert(x.len() > 5 ==> x[5] == y[5]);
}

} // verus!
