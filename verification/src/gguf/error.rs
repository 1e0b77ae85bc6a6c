//! What can go wrong while a model file is read.

use vstd::prelude::*;

use crate::text::decimal;
use crate::text::push_decimal;

verus! {

/// The read that ran past the end of the data.
#[derive(Clone, Copy, Debug, PartialEq, Eq, Structural)]
pub enum ReadOp {
    U8,
    U16,
    U32,
    U64,
    String,
    Bytes,
}

impl ReadOp {
    pub open spec fn spec_name(self) -> Seq<char> {
        match self {
            ReadOp::U8 => "read_u8"@,
            ReadOp::U16 => "read_u16"@,
            ReadOp::U32 => "read_u32"@,
            ReadOp::U64 => "read_u64"@,
            ReadOp::String => "read_string"@,
            ReadOp::Bytes => "read_bytes"@,
        }
    }

    /// The name of the read.
    pub fn name(&self) -> (s: &'static str)
        ensures
            s@ == self.spec_name(),
    {
        match self {
            ReadOp::U8 => "read_u8",
            ReadOp::U16 => "read_u16",
            ReadOp::U32 => "read_u32",
            ReadOp::U64 => "read_u64",
            ReadOp::String => "read_string",
            ReadOp::Bytes => "read_bytes",
        }
    }
}

/// An error of the GGUF layer.
#[allow(inconsistent_fields)]
#[derive(Debug)]
pub enum GgufError {
    /// The data ended before the read was complete.
    Io(ReadOp),
    InvalidMagic([u8; 4]),
    UnsupportedVersion(u32),
    UnknownDType(u32),
    TensorNotFound(String),
    MetadataKeyNotFound(String),
    MetadataTypeMismatch { key: String, expected: String, got: String },
    Dequant(String),
    InvalidTensor(String),
    BufferTooSmall { needed: usize, got: usize },
}

/// The bytes of a file magic, as a bracketed list.
pub open spec fn magic_text(m: Seq<u8>) -> Seq<char> {
    "["@ + decimal(m[0] as nat) + ", "@ + decimal(m[1] as nat) + ", "@ + decimal(m[2] as nat)
        + ", "@ + decimal(m[3] as nat) + "]"@
}

impl GgufError {
    pub open spec fn spec_message(self) -> Seq<char> {
        match self {
            GgufError::Io(op) => "IO error: "@ + op.spec_name(),
            GgufError::InvalidMagic(m) => "Invalid GGUF magic: expected GGUF, got "@ + magic_text(m@),
            GgufError::UnsupportedVersion(v) => "Unsupported GGUF version: "@ + decimal(v as nat),
            GgufError::UnknownDType(d) => "Unknown GGMLDType: "@ + decimal(d as nat),
            GgufError::TensorNotFound(n) => "Tensor not found: "@ + n@,
            GgufError::MetadataKeyNotFound(k) => "Metadata key not found: "@ + k@,
            GgufError::MetadataTypeMismatch { key, expected, got } => "Type mismatch for metadata key '"@
                + key@ + "': expected "@ + expected@ + ", got "@ + got@,
            GgufError::Dequant(m) => "Dequantization error: "@ + m@,
            GgufError::InvalidTensor(m) => "Invalid tensor data: "@ + m@,
            GgufError::BufferTooSmall { needed, got } => "Buffer too small: needed "@
                + decimal(needed as nat) + ", got "@ + decimal(got as nat),
        }
    }

    /// The message shown to the user.
    pub fn message(&self) -> (r: String)
        ensures
            r@ == self.spec_message(),
    {
        let mut out = String::new();
        match self {
            GgufError::Io(op) => {
                out.append("IO error: ");
                out.append(op.name());
            },
            GgufError::InvalidMagic(m) => {
                out.append("Invalid GGUF magic: expected GGUF, got ");
                out.append("[");
                push_decimal(&mut out, m[0] as u64);
                out.append(", ");
                push_decimal(&mut out, m[1] as u64);
                out.append(", ");
                push_decimal(&mut out, m[2] as u64);
                out.append(", ");
                push_decimal(&mut out, m[3] as u64);
                out.append("]");
            },
            GgufError::UnsupportedVersion(v) => {
                out.append("Unsupported GGUF version: ");
                push_decimal(&mut out, *v as u64);
            },
            GgufError::UnknownDType(d) => {
                out.append("Unknown GGMLDType: ");
                push_decimal(&mut out, *d as u64);
            },
            GgufError::TensorNotFound(n) => {
                out.append("Tensor not found: ");
                out.append(n.as_str());
            },
            GgufError::MetadataKeyNotFound(k) => {
                out.append("Metadata key not found: ");
                out.append(k.as_str());
            },
            GgufError::MetadataTypeMismatch { key, expected, got } => {
                out.append("Type mismatch for metadata key '");
                out.append(key.as_str());
                out.append("': expected ");
                out.append(expected.as_str());
                out.append(", got ");
                out.append(got.as_str());
            },
            GgufError::Dequant(m) => {
                out.append("Dequantization error: ");
                out.append(m.as_str());
            },
            GgufError::InvalidTensor(m) => {
                out.append("Invalid tensor data: ");
                out.append(m.as_str());
            },
            GgufError::BufferTooSmall { needed, got } => {
                out.append("Buffer too small: needed ");
                push_decimal(&mut out, *needed as u64);
                out.append(", got ");
                push_decimal(&mut out, *got as u64);
            },
        }
        assert(out@ =~= self.spec_message());
        out
    }
}

/// The messages of the errors of a file say which of them it is, and what it is about.
pub proof fn law_messages(e: GgufError, s: String, number: String, other: String)
    requires
        call_ensures(GgufError::message, (&e,), s),
        e matches GgufError::UnsupportedVersion(v) ==> call_ensures(
            crate::text::decimal_string,
            (v as u64,),
            number,
        ),
        e matches GgufError::UnknownDType(v) ==> call_ensures(
            crate::text::decimal_string,
            (v as u64,),
            number,
        ),
        e matches GgufError::BufferTooSmall { needed, got } ==> call_ensures(
            crate::text::decimal_string,
            (needed as u64,),
            number,
        ) && call_ensures(crate::text::decimal_string, (got as u64,), other),
    ensures
        e matches GgufError::UnsupportedVersion(v) ==> s@ == "Unsupported GGUF version: "@ + number@,
        e matches GgufError::UnknownDType(v) ==> s@ == "Unknown GGMLDType: "@ + number@,
        e matches GgufError::TensorNotFound(n) ==> s@ == "Tensor not found: "@ + n@,
        e matches GgufError::MetadataKeyNotFound(k) ==> s@ == "Metadata key not found: "@ + k@,
        e matches GgufError::MetadataTypeMismatch { key, expected, got } ==> s@
            == "Type mismatch for metadata key '"@ + key@ + "': expected "@ + expected@ + ", got "@
            + got@,
        e matches GgufError::Dequant(m) ==> s@ == "Dequantization error: "@ + m@,
        e matches GgufError::InvalidTensor(m) ==> s@ == "Invalid tensor data: "@ + m@,
        e matches GgufError::BufferTooSmall { needed, got } ==> s@ == "Buffer too small: needed "@
            + number@ + ", got "@ + other@,
        e matches GgufError::Io(ReadOp::U32) ==> s@ == "IO error: "@ + "read_u32"@,
        e matches GgufError::Io(ReadOp::U64) ==> s@ == "IO error: "@ + "read_u64"@,
        e matches GgufError::Io(ReadOp::String) ==> s@ == "IO error: "@ + "read_string"@,
        e matches GgufError::Io(ReadOp::Bytes) ==> s@ == "IO error: "@ + "read_bytes"@,
{
}

} // verus!
