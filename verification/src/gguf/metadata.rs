//! The metadata of a model file: typed values under string keys.

use vstd::prelude::*;

use crate::gguf::error::GgufError;
use crate::gguf::reader::bool_at;
use crate::gguf::reader::fields_at;
use crate::gguf::reader::i16_at;
use crate::gguf::reader::i32_at;
use crate::gguf::reader::i64_at;
use crate::gguf::reader::i8_at;
use crate::gguf::reader::mapped;
use crate::gguf::reader::read_fields;
use crate::gguf::reader::string_at;
use crate::gguf::reader::u16_at;
use crate::gguf::reader::u32_at;
use crate::gguf::reader::u64_at;
use crate::gguf::reader::u8_at;
use crate::gguf::reader::views;
use crate::gguf::reader::Outcome;
use crate::gguf::reader::Reader;
use crate::text::replace_first;
use crate::text::replaced_first;
use crate::text::same_text;

verus! {

/// A metadata value. The floating-point variants hold the bit pattern.
#[derive(Debug)]
pub enum MetadataValue {
    U8(u8),
    I8(i8),
    U16(u16),
    I16(i16),
    U32(u32),
    I32(i32),
    F32(u32),
    U64(u64),
    I64(i64),
    F64(u64),
    Bool(bool),
    String(String),
    Array(MetadataArray),
}

/// An array of metadata values of one type.
#[derive(Debug)]
pub enum MetadataArray {
    U8(Vec<u8>),
    I8(Vec<i8>),
    U16(Vec<u16>),
    I16(Vec<i16>),
    U32(Vec<u32>),
    I32(Vec<i32>),
    F32(Vec<u32>),
    U64(Vec<u64>),
    I64(Vec<i64>),
    F64(Vec<u64>),
    Bool(Vec<bool>),
    String(Vec<String>),
}

/// What an array holds.
pub enum ArrayView {
    U8(Seq<u8>),
    I8(Seq<i8>),
    U16(Seq<u16>),
    I16(Seq<i16>),
    U32(Seq<u32>),
    I32(Seq<i32>),
    F32(Seq<u32>),
    U64(Seq<u64>),
    I64(Seq<i64>),
    F64(Seq<u64>),
    Bool(Seq<bool>),
    String(Seq<Seq<char>>),
}

/// What a value holds.
pub enum ValueView {
    U8(u8),
    I8(i8),
    U16(u16),
    I16(i16),
    U32(u32),
    I32(i32),
    F32(u32),
    U64(u64),
    I64(i64),
    F64(u64),
    Bool(bool),
    String(Seq<char>),
    Array(ArrayView),
}

impl View for MetadataArray {
    type V = ArrayView;

    open spec fn view(&self) -> ArrayView {
        match self {
            MetadataArray::U8(v) => ArrayView::U8(v@),
            MetadataArray::I8(v) => ArrayView::I8(v@),
            MetadataArray::U16(v) => ArrayView::U16(v@),
            MetadataArray::I16(v) => ArrayView::I16(v@),
            MetadataArray::U32(v) => ArrayView::U32(v@),
            MetadataArray::I32(v) => ArrayView::I32(v@),
            MetadataArray::F32(v) => ArrayView::F32(v@),
            MetadataArray::U64(v) => ArrayView::U64(v@),
            MetadataArray::I64(v) => ArrayView::I64(v@),
            MetadataArray::F64(v) => ArrayView::F64(v@),
            MetadataArray::Bool(v) => ArrayView::Bool(v@),
            MetadataArray::String(v) => ArrayView::String(views(v@)),
        }
    }
}

impl View for MetadataValue {
    type V = ValueView;

    open spec fn view(&self) -> ValueView {
        match self {
            MetadataValue::U8(v) => ValueView::U8(*v),
            MetadataValue::I8(v) => ValueView::I8(*v),
            MetadataValue::U16(v) => ValueView::U16(*v),
            MetadataValue::I16(v) => ValueView::I16(*v),
            MetadataValue::U32(v) => ValueView::U32(*v),
            MetadataValue::I32(v) => ValueView::I32(*v),
            MetadataValue::F32(v) => ValueView::F32(*v),
            MetadataValue::U64(v) => ValueView::U64(*v),
            MetadataValue::I64(v) => ValueView::I64(*v),
            MetadataValue::F64(v) => ValueView::F64(*v),
            MetadataValue::Bool(v) => ValueView::Bool(*v),
            MetadataValue::String(s) => ValueView::String(s@),
            MetadataValue::Array(a) => ValueView::Array(a@),
        }
    }
}

/// A number that converts to single precision: its bit pattern, or the value to convert.
#[derive(Clone, Copy, Debug, PartialEq, Eq, Structural)]
pub enum FloatSource {
    /// A single-precision bit pattern.
    F32(u32),
    /// A double-precision bit pattern, to be narrowed.
    F64(u64),
    U32(u32),
    I32(i32),
}

impl ValueView {
    pub open spec fn u32_value(self) -> Option<u32> {
        match self {
            ValueView::U8(v) => Some(v as u32),
            ValueView::U16(v) => Some(v as u32),
            ValueView::U32(v) => Some(v),
            ValueView::I32(v) => Some(
                (if v >= 0 {
                    v as int
                } else {
                    v + 0x1_0000_0000
                }) as u32,
            ),
            _ => None,
        }
    }

    pub open spec fn u64_value(self) -> Option<u64> {
        match self {
            ValueView::U8(v) => Some(v as u64),
            ValueView::U16(v) => Some(v as u64),
            ValueView::U32(v) => Some(v as u64),
            ValueView::U64(v) => Some(v),
            ValueView::I32(v) => Some(
                (if v >= 0 {
                    v as int
                } else {
                    v + 0x1_0000_0000_0000_0000
                }) as u64,
            ),
            ValueView::I64(v) => Some(
                (if v >= 0 {
                    v as int
                } else {
                    v + 0x1_0000_0000_0000_0000
                }) as u64,
            ),
            _ => None,
        }
    }

    pub open spec fn float_value(self) -> Option<FloatSource> {
        match self {
            ValueView::F32(v) => Some(FloatSource::F32(v)),
            ValueView::F64(v) => Some(FloatSource::F64(v)),
            ValueView::U32(v) => Some(FloatSource::U32(v)),
            ValueView::I32(v) => Some(FloatSource::I32(v)),
            _ => None,
        }
    }

    pub open spec fn str_value(self) -> Option<Seq<char>> {
        match self {
            ValueView::String(s) => Some(s),
            _ => None,
        }
    }

    pub open spec fn spec_kind_name(self) -> Seq<char> {
        match self {
            ValueView::U8(_) => "u8"@,
            ValueView::I8(_) => "i8"@,
            ValueView::U16(_) => "u16"@,
            ValueView::I16(_) => "i16"@,
            ValueView::U32(_) => "u32"@,
            ValueView::I32(_) => "i32"@,
            ValueView::F32(_) => "f32"@,
            ValueView::U64(_) => "u64"@,
            ValueView::I64(_) => "i64"@,
            ValueView::F64(_) => "f64"@,
            ValueView::Bool(_) => "bool"@,
            ValueView::String(_) => "string"@,
            ValueView::Array(_) => "array"@,
        }
    }
}

impl MetadataValue {
    /// The name of the value's type.
    pub fn kind_name(&self) -> (s: &'static str)
        ensures
            s@ == self@.spec_kind_name(),
    {
        match self {
            MetadataValue::U8(_) => "u8",
            MetadataValue::I8(_) => "i8",
            MetadataValue::U16(_) => "u16",
            MetadataValue::I16(_) => "i16",
            MetadataValue::U32(_) => "u32",
            MetadataValue::I32(_) => "i32",
            MetadataValue::F32(_) => "f32",
            MetadataValue::U64(_) => "u64",
            MetadataValue::I64(_) => "i64",
            MetadataValue::F64(_) => "f64",
            MetadataValue::Bool(_) => "bool",
            MetadataValue::String(_) => "string",
            MetadataValue::Array(_) => "array",
        }
    }

    /// The value as 32 unsigned bits, where it is an integer of at most 32 bits that converts.
    pub fn as_u32(&self) -> (r: Option<u32>)
        ensures
            r == self@.u32_value(),
    {
        match self {
            MetadataValue::U8(v) => Some(*v as u32),
            MetadataValue::U16(v) => Some(*v as u32),
            MetadataValue::U32(v) => Some(*v),
            MetadataValue::I32(v) => {
                let x: i32 = *v;
                assert(x as u32 == if x >= 0 {
                    x as int
                } else {
                    x + 0x1_0000_0000
                }) by (bit_vector);
                Some(x as u32)
            },
            _ => None,
        }
    }

    /// The value as 64 unsigned bits, where it is an integer that converts.
    pub fn as_u64(&self) -> (r: Option<u64>)
        ensures
            r == self@.u64_value(),
    {
        match self {
            MetadataValue::U8(v) => Some(*v as u64),
            MetadataValue::U16(v) => Some(*v as u64),
            MetadataValue::U32(v) => Some(*v as u64),
            MetadataValue::U64(v) => Some(*v),
            MetadataValue::I32(v) => {
                let x: i32 = *v;
                assert(x as u64 == if x >= 0 {
                    x as int
                } else {
                    x + 0x1_0000_0000_0000_0000
                }) by (bit_vector);
                Some(x as u64)
            },
            MetadataValue::I64(v) => {
                let x: i64 = *v;
                assert(x as u64 == if x >= 0 {
                    x as int
                } else {
                    x + 0x1_0000_0000_0000_0000
                }) by (bit_vector);
                Some(x as u64)
            },
            _ => None,
        }
    }

    /// The number that the value converts to single precision from.
    pub fn as_f32(&self) -> (r: Option<FloatSource>)
        ensures
            r == self@.float_value(),
    {
        match self {
            MetadataValue::F32(v) => Some(FloatSource::F32(*v)),
            MetadataValue::F64(v) => Some(FloatSource::F64(*v)),
            MetadataValue::U32(v) => Some(FloatSource::U32(*v)),
            MetadataValue::I32(v) => Some(FloatSource::I32(*v)),
            _ => None,
        }
    }

    /// The text, where the value is a string.
    pub fn as_str(&self) -> (r: Option<&str>)
        ensures
            match r {
                Some(s) => self@.str_value() == Some(s@),
                None => self@.str_value() is None,
            },
    {
        match self {
            MetadataValue::String(s) => Some(s.as_str()),
            _ => None,
        }
    }

    /// The items, where the value is an array of 32-bit unsigned integers.
    pub fn as_u32_array(&self) -> (r: Option<&[u32]>)
        ensures
            match r {
                Some(s) => self@ == ValueView::Array(ArrayView::U32(s@)),
                None => !(self@ matches ValueView::Array(a) && a is U32),
            },
    {
        match self {
            MetadataValue::Array(MetadataArray::U32(v)) => Some(v.as_slice()),
            _ => None,
        }
    }

    /// The items, where the value is an array of strings.
    pub fn as_string_array(&self) -> (r: Option<&[String]>)
        ensures
            match r {
                Some(s) => self@ == ValueView::Array(ArrayView::String(views(s@))),
                None => !(self@ matches ValueView::Array(a) && a is String),
            },
    {
        match self {
            MetadataValue::Array(MetadataArray::String(v)) => Some(v.as_slice()),
            _ => None,
        }
    }
}

/// `count` array items of the type with code `ty`.
pub open spec fn array_at(d: Seq<u8>, p: nat, ty: u32, count: nat) -> Outcome<ArrayView> {
    if ty == 0 {
        mapped(fields_at::<u8>(d, p, count), |s: Seq<u8>| ArrayView::U8(s))
    } else if ty == 1 {
        mapped(fields_at::<i8>(d, p, count), |s: Seq<i8>| ArrayView::I8(s))
    } else if ty == 2 {
        mapped(fields_at::<u16>(d, p, count), |s: Seq<u16>| ArrayView::U16(s))
    } else if ty == 3 {
        mapped(fields_at::<i16>(d, p, count), |s: Seq<i16>| ArrayView::I16(s))
    } else if ty == 4 {
        mapped(fields_at::<u32>(d, p, count), |s: Seq<u32>| ArrayView::U32(s))
    } else if ty == 5 {
        mapped(fields_at::<i32>(d, p, count), |s: Seq<i32>| ArrayView::I32(s))
    } else if ty == 6 {
        mapped(fields_at::<u32>(d, p, count), |s: Seq<u32>| ArrayView::F32(s))
    } else if ty == 10 {
        mapped(fields_at::<u64>(d, p, count), |s: Seq<u64>| ArrayView::U64(s))
    } else if ty == 11 {
        mapped(fields_at::<i64>(d, p, count), |s: Seq<i64>| ArrayView::I64(s))
    } else if ty == 12 {
        mapped(fields_at::<u64>(d, p, count), |s: Seq<u64>| ArrayView::F64(s))
    } else if ty == 7 {
        mapped(fields_at::<bool>(d, p, count), |s: Seq<bool>| ArrayView::Bool(s))
    } else if ty == 8 {
        mapped(fields_at::<String>(d, p, count), |s: Seq<Seq<char>>| ArrayView::String(s))
    } else {
        (Err(GgufError::UnknownDType(ty)), p)
    }
}

/// An array: the code of the item type, the number of items, the items.
pub open spec fn whole_array_at(d: Seq<u8>, p: nat) -> Outcome<ArrayView> {
    let (ty, q) = u32_at(d, p);
    match ty {
        Err(e) => (Err(e), q),
        Ok(ty) => {
            let (n, q2) = u64_at(d, q);
            match n {
                Err(e) => (Err(e), q2),
                Ok(n) => array_at(d, q2, ty, n as nat),
            }
        },
    }
}

/// A value of the type with code `ty`.
pub open spec fn value_at(d: Seq<u8>, p: nat, ty: u32) -> Outcome<ValueView> {
    if ty == 0 {
        mapped(u8_at(d, p), |v: u8| ValueView::U8(v))
    } else if ty == 1 {
        mapped(i8_at(d, p), |v: i8| ValueView::I8(v))
    } else if ty == 2 {
        mapped(u16_at(d, p), |v: u16| ValueView::U16(v))
    } else if ty == 3 {
        mapped(i16_at(d, p), |v: i16| ValueView::I16(v))
    } else if ty == 4 {
        mapped(u32_at(d, p), |v: u32| ValueView::U32(v))
    } else if ty == 5 {
        mapped(i32_at(d, p), |v: i32| ValueView::I32(v))
    } else if ty == 6 {
        mapped(u32_at(d, p), |v: u32| ValueView::F32(v))
    } else if ty == 10 {
        mapped(u64_at(d, p), |v: u64| ValueView::U64(v))
    } else if ty == 11 {
        mapped(i64_at(d, p), |v: i64| ValueView::I64(v))
    } else if ty == 12 {
        mapped(u64_at(d, p), |v: u64| ValueView::F64(v))
    } else if ty == 7 {
        mapped(bool_at(d, p), |v: bool| ValueView::Bool(v))
    } else if ty == 8 {
        mapped(string_at(d, p), |s: Seq<char>| ValueView::String(s))
    } else if ty == 9 {
        mapped(whole_array_at(d, p), |a: ArrayView| ValueView::Array(a))
    } else {
        (Err(GgufError::UnknownDType(ty)), p)
    }
}

/// Reads a value of the type with code `value_type`.
pub fn parse_metadata_value(r: &mut Reader<'_>, value_type: u32) -> (res: Result<
    MetadataValue,
    GgufError,
>)
    requires
        old(r).wf(),
    ensures
        old(r).gives(*final(r), res, value_at(old(r).bytes(), old(r).at(), value_type)),
{
    match value_type {
        0 => match r.read_u8() {
            Ok(v) => Ok(MetadataValue::U8(v)),
            Err(e) => Err(e),
        },
        1 => match r.read_i8() {
            Ok(v) => Ok(MetadataValue::I8(v)),
            Err(e) => Err(e),
        },
        2 => match r.read_u16() {
            Ok(v) => Ok(MetadataValue::U16(v)),
            Err(e) => Err(e),
        },
        3 => match r.read_i16() {
            Ok(v) => Ok(MetadataValue::I16(v)),
            Err(e) => Err(e),
        },
        4 => match r.read_u32() {
            Ok(v) => Ok(MetadataValue::U32(v)),
            Err(e) => Err(e),
        },
        5 => match r.read_i32() {
            Ok(v) => Ok(MetadataValue::I32(v)),
            Err(e) => Err(e),
        },
        6 => match r.read_f32() {
            Ok(v) => Ok(MetadataValue::F32(v)),
            Err(e) => Err(e),
        },
        10 => match r.read_u64() {
            Ok(v) => Ok(MetadataValue::U64(v)),
            Err(e) => Err(e),
        },
        11 => match r.read_i64() {
            Ok(v) => Ok(MetadataValue::I64(v)),
            Err(e) => Err(e),
        },
        12 => match r.read_f64() {
            Ok(v) => Ok(MetadataValue::F64(v)),
            Err(e) => Err(e),
        },
        7 => match r.read_bool() {
            Ok(v) => Ok(MetadataValue::Bool(v)),
            Err(e) => Err(e),
        },
        8 => match r.read_string() {
            Ok(s) => Ok(MetadataValue::String(s)),
            Err(e) => Err(e),
        },
        9 => {
            let elem_type: u32 = match r.read_u32() {
                Ok(t) => t,
                Err(e) => {
                    return Err(e);
                },
            };
            let count: u64 = match r.read_u64() {
                Ok(n) => n,
                Err(e) => {
                    return Err(e);
                },
            };
            match parse_metadata_array(r, elem_type, count) {
                Ok(a) => Ok(MetadataValue::Array(a)),
                Err(e) => Err(e),
            }
        },
        _ => Err(GgufError::UnknownDType(value_type)),
    }
}

/// Reads `count` array items of the type with code `elem_type`.
fn parse_metadata_array(r: &mut Reader<'_>, elem_type: u32, count: u64) -> (res: Result<
    MetadataArray,
    GgufError,
>)
    requires
        old(r).wf(),
    ensures
        old(r).gives(*final(r), res, array_at(old(r).bytes(), old(r).at(), elem_type, count as nat)),
{
    match elem_type {
        0 => match read_fields::<u8>(r, count) {
            Ok(v) => {
                assert(views(v@) =~= v@);
                Ok(MetadataArray::U8(v))
            },
            Err(e) => Err(e),
        },
        1 => match read_fields::<i8>(r, count) {
            Ok(v) => {
                assert(views(v@) =~= v@);
                Ok(MetadataArray::I8(v))
            },
            Err(e) => Err(e),
        },
        2 => match read_fields::<u16>(r, count) {
            Ok(v) => {
                assert(views(v@) =~= v@);
                Ok(MetadataArray::U16(v))
            },
            Err(e) => Err(e),
        },
        3 => match read_fields::<i16>(r, count) {
            Ok(v) => {
                assert(views(v@) =~= v@);
                Ok(MetadataArray::I16(v))
            },
            Err(e) => Err(e),
        },
        4 => match read_fields::<u32>(r, count) {
            Ok(v) => {
                assert(views(v@) =~= v@);
                Ok(MetadataArray::U32(v))
            },
            Err(e) => Err(e),
        },
        5 => match read_fields::<i32>(r, count) {
            Ok(v) => {
                assert(views(v@) =~= v@);
                Ok(MetadataArray::I32(v))
            },
            Err(e) => Err(e),
        },
        6 => match read_fields::<u32>(r, count) {
            Ok(v) => {
                assert(views(v@) =~= v@);
                Ok(MetadataArray::F32(v))
            },
            Err(e) => Err(e),
        },
        10 => match read_fields::<u64>(r, count) {
            Ok(v) => {
                assert(views(v@) =~= v@);
                Ok(MetadataArray::U64(v))
            },
            Err(e) => Err(e),
        },
        11 => match read_fields::<i64>(r, count) {
            Ok(v) => {
                assert(views(v@) =~= v@);
                Ok(MetadataArray::I64(v))
            },
            Err(e) => Err(e),
        },
        12 => match read_fields::<u64>(r, count) {
            Ok(v) => {
                assert(views(v@) =~= v@);
                Ok(MetadataArray::F64(v))
            },
            Err(e) => Err(e),
        },
        7 => match read_fields::<bool>(r, count) {
            Ok(v) => {
                assert(views(v@) =~= v@);
                Ok(MetadataArray::Bool(v))
            },
            Err(e) => Err(e),
        },
        8 => match read_fields::<String>(r, count) {
            Ok(v) => {
                Ok(MetadataArray::String(v))
            },
            Err(e) => Err(e),
        },
        _ => Err(GgufError::UnknownDType(elem_type)),
    }
}

/// The map that a list of entries stands for: of equal keys, the last one counts.
pub open spec fn entries_map(s: Seq<(Seq<char>, ValueView)>) -> Map<Seq<char>, ValueView>
    decreases s.len(),
{
    if s.len() == 0 {
        Map::empty()
    } else {
        entries_map(s.drop_last()).insert(s.last().0, s.last().1)
    }
}

/// The metadata of a model: values under string keys.
#[derive(Debug)]
pub struct Metadata {
    entries: Vec<(String, MetadataValue)>,
}

impl View for Metadata {
    type V = Map<Seq<char>, ValueView>;

    closed spec fn view(&self) -> Map<Seq<char>, ValueView> {
        entries_map(self.entry_views())
    }
}

/// The architecture prefixes that keys are tried under.
pub open spec fn arch_prefixes() -> Seq<Seq<char>> {
    seq![
        "llama"@,
        "qwen2"@,
        "mistral"@,
        "phi3"@,
        "gemma"@,
        "starcoder2"@,
        "falcon"@,
        "mpt"@,
    ]
}

/// The value under `key`, tried as a candidate in place of `base`.
pub open spec fn candidate(
    m: Map<Seq<char>, ValueView>,
    base: Seq<char>,
    key: Seq<char>,
) -> Option<ValueView> {
    if key != base && m.contains_key(key) {
        Some(m[key])
    } else {
        None
    }
}

/// The first hit among the prefixes from the `i`-th on: with the prefix in `base`
/// replaced by the architecture, then with the architecture replaced by the prefix.
pub open spec fn resolved_from(
    m: Map<Seq<char>, ValueView>,
    arch: Seq<char>,
    base: Seq<char>,
    i: nat,
) -> Option<ValueView>
    decreases arch_prefixes().len() - i,
{
    if i >= arch_prefixes().len() {
        None
    } else {
        let pfx = arch_prefixes()[i as int];
        let a = candidate(m, base, replaced_first(base, pfx, arch));
        let b = candidate(m, base, replaced_first(base, arch, pfx));
        if a is Some {
            a
        } else if b is Some {
            b
        } else {
            resolved_from(m, arch, base, i + 1)
        }
    }
}

/// The architecture that the metadata names.
pub open spec fn arch_of(m: Map<Seq<char>, ValueView>) -> Seq<char> {
    let k = "general.architecture"@;
    if m.contains_key(k) && m[k].str_value() is Some {
        m[k].str_value()->0
    } else {
        "unknown"@
    }
}

/// The value under `base`, or else under the key of another architecture's spelling.
pub open spec fn resolved(m: Map<Seq<char>, ValueView>, base: Seq<char>) -> Option<ValueView> {
    if m.contains_key(base) {
        Some(m[base])
    } else {
        resolved_from(m, arch_of(m), base, 0)
    }
}

/// The integer that `base` resolves to.
pub open spec fn resolved_u32(m: Map<Seq<char>, ValueView>, base: Seq<char>) -> Option<u32> {
    match resolved(m, base) {
        Some(v) => v.u32_value(),
        None => None,
    }
}

impl Metadata {
    spec fn entry_views(&self) -> Seq<(Seq<char>, ValueView)> {
        Seq::new(self.entries@.len(), |i: int| (self.entries@[i].0@, self.entries@[i].1@))
    }

    /// Metadata without entries.
    pub fn new() -> (r: Metadata)
        ensures
            r@ == Map::<Seq<char>, ValueView>::empty(),
    {
        Metadata { entries: Vec::new() }
    }

    /// Puts a value under a key, in place of one that is there.
    pub fn insert(&mut self, key: String, value: MetadataValue)
        ensures
            final(self)@ == old(self)@.insert(key@, value@),
    {
        let ghost before = self.entry_views();
        self.entries.push((key, value));
        proof {
            assert(self.entry_views().drop_last() =~= before);
        }
    }

    /// The value under `key`.
    pub fn get(&self, key: &str) -> (r: Option<&MetadataValue>)
        ensures
            match r {
                Some(v) => self@.contains_key(key@) && self@[key@] == v@,
                None => !self@.contains_key(key@),
            },
    {
        let ghost all = self.entry_views();
        let mut i: usize = self.entries.len();
        assert(all.take(all.len() as int) =~= all);
        while i > 0
            invariant
                all == self.entry_views(),
                i <= self.entries@.len(),
                entries_map(all).contains_key(key@) == entries_map(all.take(i as int)).contains_key(
                    key@,
                ),
                entries_map(all).contains_key(key@) ==> entries_map(all)[key@] == entries_map(
                    all.take(i as int),
                )[key@],
            decreases i,
        {
            i -= 1;
            proof {
                assert(all.take(i + 1).drop_last() =~= all.take(i as int));
                assert(all.take(i + 1).last() == all[i as int]);
            }
            if same_text(self.entries[i].0.as_str(), key) {
                return Some(&self.entries[i].1);
            }
        }
        None
    }

    /// The integer under `key`.
    pub fn get_u32(&self, key: &str) -> (r: Result<u32, GgufError>)
        ensures
            match r {
                Ok(v) => self@.contains_key(key@) && self@[key@].u32_value() == Some(v),
                Err(e) => {
                    &&& self@.contains_key(key@) ==> self@[key@].u32_value() is None
                    &&& e matches GgufError::MetadataKeyNotFound(k) && k@ == key@
                },
            },
    {
        if let Some(v) = self.get(key) {
            if let Some(u) = v.as_u32() {
                return Ok(u);
            }
        }
        Err(GgufError::MetadataKeyNotFound(key.to_owned()))
    }

    /// The integer under `key`, or `default`.
    pub fn get_u32_or(&self, key: &str, default: u32) -> (r: u32)
        ensures
            r == (if self@.contains_key(key@) && self@[key@].u32_value() is Some {
                self@[key@].u32_value()->0
            } else {
                default
            }),
    {
        if let Some(v) = self.get(key) {
            if let Some(u) = v.as_u32() {
                return u;
            }
        }
        default
    }

    /// The number under `key` that converts to single precision.
    pub fn get_f32(&self, key: &str) -> (r: Result<FloatSource, GgufError>)
        ensures
            match r {
                Ok(v) => self@.contains_key(key@) && self@[key@].float_value() == Some(v),
                Err(e) => {
                    &&& self@.contains_key(key@) ==> self@[key@].float_value() is None
                    &&& e matches GgufError::MetadataKeyNotFound(k) && k@ == key@
                },
            },
    {
        if let Some(v) = self.get(key) {
            if let Some(u) = v.as_f32() {
                return Ok(u);
            }
        }
        Err(GgufError::MetadataKeyNotFound(key.to_owned()))
    }

    /// The number under `key` that converts to single precision, or `default`.
    pub fn get_f32_or(&self, key: &str, default: FloatSource) -> (r: FloatSource)
        ensures
            r == (if self@.contains_key(key@) && self@[key@].float_value() is Some {
                self@[key@].float_value()->0
            } else {
                default
            }),
    {
        if let Some(v) = self.get(key) {
            if let Some(u) = v.as_f32() {
                return u;
            }
        }
        default
    }

    /// The text under `key`.
    pub fn get_str(&self, key: &str) -> (r: Result<&str, GgufError>)
        ensures
            match r {
                Ok(v) => self@.contains_key(key@) && self@[key@].str_value() == Some(v@),
                Err(e) => {
                    &&& self@.contains_key(key@) ==> self@[key@].str_value() is None
                    &&& e matches GgufError::MetadataKeyNotFound(k) && k@ == key@
                },
            },
    {
        if let Some(v) = self.get(key) {
            if let Some(s) = v.as_str() {
                return Ok(s);
            }
        }
        Err(GgufError::MetadataKeyNotFound(key.to_owned()))
    }

    /// The integer under `key`, at 64 bits.
    pub fn get_u64(&self, key: &str) -> (r: Result<u64, GgufError>)
        ensures
            match r {
                Ok(v) => self@.contains_key(key@) && self@[key@].u64_value() == Some(v),
                Err(e) => {
                    &&& self@.contains_key(key@) ==> self@[key@].u64_value() is None
                    &&& e matches GgufError::MetadataKeyNotFound(k) && k@ == key@
                },
            },
    {
        if let Some(v) = self.get(key) {
            if let Some(u) = v.as_u64() {
                return Ok(u);
            }
        }
        Err(GgufError::MetadataKeyNotFound(key.to_owned()))
    }

    /// The architecture that the metadata names.
    pub fn architecture(&self) -> (s: &str)
        ensures
            s@ == arch_of(self@),
    {
        if let Some(v) = self.get("general.architecture") {
            if let Some(s) = v.as_str() {
                return s;
            }
        }
        "unknown"
    }

    fn try_key(&self, base: &str, key: &str) -> (r: Option<&MetadataValue>)
        ensures
            match r {
                Some(v) => candidate(self@, base@, key@) == Some(v@),
                None => candidate(self@, base@, key@) is None,
            },
    {
        if same_text(key, base) {
            None
        } else {
            self.get(key)
        }
    }

    /// The value under `base`, or else under the key of another architecture's spelling.
    pub fn resolve(&self, base: &str) -> (r: Option<&MetadataValue>)
        ensures
            match r {
                Some(v) => resolved(self@, base@) == Some(v@),
                None => resolved(self@, base@) is None,
            },
    {
        if let Some(v) = self.get(base) {
            return Some(v);
        }
        let arch = self.architecture();
        let prefixes: [&str; 8] = [
            "llama",
            "qwen2",
            "mistral",
            "phi3",
            "gemma",
            "starcoder2",
            "falcon",
            "mpt",
        ];
        let mut i: usize = 0;
        while i < 8
            invariant
                i <= 8,
                arch@ == arch_of(self@),
                forall|k: int| 0 <= k < 8 ==> #[trigger] prefixes@[k]@ == arch_prefixes()[k],
                !self@.contains_key(base@),
                resolved(self@, base@) == resolved_from(self@, arch@, base@, i as nat),
            decreases 8 - i,
        {
            let pfx = prefixes[i];
            let ghost _ = prefixes@[i as int]@;
            let one = replace_first(base, pfx, arch);
            if let Some(v) = self.try_key(base, one.as_str()) {
                return Some(v);
            }
            let two = replace_first(base, arch, pfx);
            if let Some(v) = self.try_key(base, two.as_str()) {
                return Some(v);
            }
            i += 1;
        }
        None
    }

    fn resolve_u32(&self, base: &str) -> (r: Option<u32>)
        ensures
            r == resolved_u32(self@, base@),
    {
        match self.resolve(base) {
            Some(v) => v.as_u32(),
            None => None,
        }
    }

    /// Number of attention heads.
    pub fn n_head(&self) -> (r: Result<u32, GgufError>)
        ensures
            found(resolved_u32(self@, "llama.attention.head_count"@), r, "llama.attention.head_count"@),
    {
        match self.resolve_u32("llama.attention.head_count") {
            Some(v) => Ok(v),
            None => Err(
                GgufError::MetadataKeyNotFound("llama.attention.head_count".to_owned()),
            ),
        }
    }

    /// Number of key/value heads; the number of attention heads where none is given.
    pub fn n_kv_head(&self) -> (r: u32)
        ensures
            r == kv_heads(self@),
    {
        match self.resolve_u32("llama.attention.head_count_kv") {
            Some(v) => v,
            None => match self.n_head() {
                Ok(v) => v,
                Err(_) => 1,
            },
        }
    }

    /// Number of layers.
    pub fn n_layer(&self) -> (r: Result<u32, GgufError>)
        ensures
            found(resolved_u32(self@, "llama.block_count"@), r, "llama.block_count"@),
    {
        match self.resolve_u32("llama.block_count") {
            Some(v) => Ok(v),
            None => Err(GgufError::MetadataKeyNotFound("llama.block_count".to_owned())),
        }
    }

    /// Width of the embedding.
    pub fn n_embd(&self) -> (r: Result<u32, GgufError>)
        ensures
            found(resolved_u32(self@, "llama.embedding_length"@), r, "llama.embedding_length"@),
    {
        match self.resolve_u32("llama.embedding_length") {
            Some(v) => Ok(v),
            None => Err(GgufError::MetadataKeyNotFound("llama.embedding_length".to_owned())),
        }
    }

    /// Width of the feed-forward layer; 0 where none is given.
    pub fn n_ff(&self) -> (r: u32)
        ensures
            r == or_else(resolved_u32(self@, "llama.feed_forward_length"@), 0),
    {
        match self.resolve_u32("llama.feed_forward_length") {
            Some(v) => v,
            None => 0,
        }
    }

    /// Context length of the training; 4096 where none is given.
    pub fn n_ctx_train(&self) -> (r: u32)
        ensures
            r == or_else(resolved_u32(self@, "llama.context_length"@), 4096),
    {
        match self.resolve_u32("llama.context_length") {
            Some(v) => v,
            None => 4096,
        }
    }

    /// Base frequency of the rotary embedding; 10000 where none is given.
    pub fn rope_freq_base(&self) -> (r: FloatSource)
        ensures
            r == freq_base(self@),
    {
        match self.resolve("llama.rope.freq_base") {
            Some(v) => match v.as_f32() {
                Some(f) => f,
                None => FloatSource::F32(TEN_THOUSAND_BITS),
            },
            None => FloatSource::F32(TEN_THOUSAND_BITS),
        }
    }

    /// Whether the width of the rotary embedding is given or can be derived.
    pub fn has_rope_dimension(&self) -> (r: bool)
        ensures
            r == rope_dimension_defined(self@),
    {
        if self.resolve_u32("llama.rope.dimension_count").is_some() {
            return true;
        }
        match self.resolve_u32("llama.attention.head_count") {
            Some(h) => h != 0,
            None => true,
        }
    }

    /// Width of the rotary embedding; where none is given, the embedding's share of a head.
    pub fn rope_dimension(&self) -> (r: u32)
        requires
            rope_dimension_defined(self@),
        ensures
            r == rope_width(self@),
    {
        if let Some(v) = self.resolve_u32("llama.rope.dimension_count") {
            return v;
        }
        let embd: u32 = match self.resolve_u32("llama.embedding_length") {
            Some(v) => v,
            None => 1,
        };
        let heads: u32 = match self.resolve_u32("llama.attention.head_count") {
            Some(v) => v,
            None => 1,
        };
        embd / heads
    }
}

/// The bit pattern of 10000 in single precision.
pub const TEN_THOUSAND_BITS: u32 = 0x461C_4000;

/// That a lookup's result is the value found, or the error that names the key.
pub open spec fn found(v: Option<u32>, r: Result<u32, GgufError>, key: Seq<char>) -> bool {
    match r {
        Ok(u) => v == Some(u),
        Err(e) => v is None && (e matches GgufError::MetadataKeyNotFound(k) && k@ == key),
    }
}

pub open spec fn or_else(v: Option<u32>, default: u32) -> u32 {
    match v {
        Some(u) => u,
        None => default,
    }
}

pub open spec fn kv_heads(m: Map<Seq<char>, ValueView>) -> u32 {
    or_else(
        resolved_u32(m, "llama.attention.head_count_kv"@),
        or_else(resolved_u32(m, "llama.attention.head_count"@), 1),
    )
}

pub open spec fn freq_base(m: Map<Seq<char>, ValueView>) -> FloatSource {
    match resolved(m, "llama.rope.freq_base"@) {
        Some(v) => match v.float_value() {
            Some(f) => f,
            None => FloatSource::F32(TEN_THOUSAND_BITS),
        },
        None => FloatSource::F32(TEN_THOUSAND_BITS),
    }
}

/// The width is given, or the number of heads to divide by is not zero.
pub open spec fn rope_dimension_defined(m: Map<Seq<char>, ValueView>) -> bool {
    resolved_u32(m, "llama.rope.dimension_count"@) is Some || or_else(
        resolved_u32(m, "llama.attention.head_count"@),
        1,
    ) != 0
}

pub open spec fn rope_width(m: Map<Seq<char>, ValueView>) -> u32 {
    or_else(
        resolved_u32(m, "llama.rope.dimension_count"@),
        or_else(resolved_u32(m, "llama.embedding_length"@), 1) / or_else(
            resolved_u32(m, "llama.attention.head_count"@),
            1,
        ),
    )
}

/// Of entries with one key the last one counts.
pub proof fn law_last_entry_counts(s: Seq<(Seq<char>, ValueView)>, k: int)
    requires
        0 <= k < s.len(),
        forall|m: int| k < m < s.len() ==> (#[trigger] s[m]).0 != s[k].0,
    ensures
        entries_map(s).contains_key(s[k].0),
        entries_map(s)[s[k].0] == s[k].1,
    decreases s.len(),
{
    if k < s.len() - 1 {
        let front = s.drop_last();
        assert forall|m: int| k < m < front.len() implies (#[trigger] front[m]).0 != front[k].0 by {
            assert(front[m] == s[m]);
        }
        law_last_entry_counts(front, k);
        assert(s[s.len() - 1].0 != s[k].0);
    }
}

/// A key that no entry has is not there.
pub proof fn law_no_other_entries(s: Seq<(Seq<char>, ValueView)>, key: Seq<char>)
    requires
        forall|m: int| 0 <= m < s.len() ==> (#[trigger] s[m]).0 != key,
    ensures
        !entries_map(s).contains_key(key),
    decreases s.len(),
{
    if s.len() > 0 {
        let front = s.drop_last();
        assert forall|m: int| 0 <= m < front.len() implies (#[trigger] front[m]).0 != key by {
            assert(front[m] == s[m]);
        }
        law_no_other_entries(front, key);
        assert(s[s.len() - 1].0 != key);
    }
}

/// A value is given as the number that it is: one that is not negative as itself, a negative one
/// by its bits; and a wider number than asked for, or another kind of value, is none.
pub proof fn law_numbers_keep_value(v: &MetadataValue, a: Option<u32>, b: Option<u64>)
    requires
        call_ensures(MetadataValue::as_u32, (v,), a),
        call_ensures(MetadataValue::as_u64, (v,), b),
    ensures
        v@ matches ValueView::U8(x) ==> a == Some(x as u32) && b == Some(x as u64),
        v@ matches ValueView::U16(x) ==> a == Some(x as u32) && b == Some(x as u64),
        v@ matches ValueView::U32(x) ==> a == Some(x) && b == Some(x as u64),
        v@ matches ValueView::U64(x) ==> a is None && b == Some(x),
        v@ matches ValueView::I32(x) ==> x >= 0 ==> a == Some(x as u32) && b == Some(x as u64),
        v@ matches ValueView::I32(x) ==> x < 0 ==> a is Some && b is Some && a->0 == x
            + 0x1_0000_0000 && b->0 == x + 0x1_0000_0000_0000_0000,
        v@ matches ValueView::I64(x) ==> a is None && b is Some && (x >= 0 ==> b->0 == x) && (x < 0
            ==> b->0 == x + 0x1_0000_0000_0000_0000),
        v@ is F32 || v@ is F64 || v@ is Bool || v@ is String || v@ is Array || v@ is I8 || v@ is I16
            ==> a is None && b is None,
{
}

/// A key that is there is found as it is; else the key in the spelling of the file's own
/// architecture is taken, which has its name in place of "llama".
pub proof fn law_resolved_by_architecture(
    md: &Metadata,
    base: &str,
    r: Option<&MetadataValue>,
    key: Seq<char>,
)
    requires
        call_ensures(Metadata::resolve, (md, base), r),
        key == replaced_first(base@, "llama"@, arch_of(md@)),
    ensures
        md@.contains_key(base@) ==> (r matches Some(v) && v@ == md@[base@]),
        !md@.contains_key(base@) && key != base@ && md@.contains_key(key) ==> (r matches Some(v) && v@
            == md@[key]),
        md@.dom().len() == 0 && md@.dom().finite() ==> r is None,
{
    assert(arch_prefixes()[0] == "llama"@);
    reveal_with_fuel(resolved_from, 2);
    if md@.dom().len() == 0 && md@.dom().finite() {
        md@.dom().lemma_len0_is_empty();
        lemma_nothing_resolved(md@, arch_of(md@), base@, 0);
    }
}

proof fn lemma_nothing_resolved(
    m: Map<Seq<char>, ValueView>,
    arch: Seq<char>,
    base: Seq<char>,
    i: nat,
)
    requires
        forall|k: Seq<char>| !(#[trigger] m.contains_key(k)),
    ensures
        resolved_from(m, arch, base, i) is None,
    decreases arch_prefixes().len() - i,
{
    if i < arch_prefixes().len() {
        lemma_nothing_resolved(m, arch, base, i + 1);
    }
}

/// The sizes of a model are read from the keys that the format gives them.
pub proof fn law_sizes_from_keys(
    md: &Metadata,
    heads: Result<u32, GgufError>,
    kv_heads: u32,
    layers: Result<u32, GgufError>,
    embd: Result<u32, GgufError>,
    ff: u32,
    ctx: u32,
    v: u32,
)
    requires
        call_ensures(Metadata::n_head, (md,), heads),
        call_ensures(Metadata::n_kv_head, (md,), kv_heads),
        call_ensures(Metadata::n_layer, (md,), layers),
        call_ensures(Metadata::n_embd, (md,), embd),
        call_ensures(Metadata::n_ff, (md,), ff),
        call_ensures(Metadata::n_ctx_train, (md,), ctx),
    ensures
        holds(md@, "llama.attention.head_count"@, v) ==> heads == Ok::<u32, GgufError>(v),
        holds(md@, "llama.attention.head_count_kv"@, v) ==> kv_heads == v,
        holds(md@, "llama.block_count"@, v) ==> layers == Ok::<u32, GgufError>(v),
        holds(md@, "llama.embedding_length"@, v) ==> embd == Ok::<u32, GgufError>(v),
        holds(md@, "llama.feed_forward_length"@, v) ==> ff == v,
        holds(md@, "llama.context_length"@, v) ==> ctx == v,
        // heads of keys and values are as many as all heads, where nothing else is said
        resolved(md@, "llama.attention.head_count_kv"@) is None && heads is Ok ==> kv_heads
            == heads->Ok_0,
        resolved(md@, "llama.context_length"@) is None ==> ctx == 4096,
        resolved(md@, "llama.feed_forward_length"@) is None ==> ff == 0,
{
}

/// Whether a key holds a number of four bytes.
pub open spec fn holds(m: Map<Seq<char>, ValueView>, key: Seq<char>, v: u32) -> bool {
    m.contains_key(key) && m[key] == ValueView::U32(v)
}

/// The width of the rotation is the one given, or else what a head has of the embedding; its base
/// is the one given, or else 10000.
pub proof fn law_rotation_from_keys(
    md: &Metadata,
    width: u32,
    base: FloatSource,
    heads: u32,
    embd: u32,
    v: u32,
)
    requires
        rope_dimension_defined(md@),
        call_ensures(Metadata::rope_dimension, (md,), width),
        call_ensures(Metadata::rope_freq_base, (md,), base),
    ensures
        holds(md@, "llama.rope.dimension_count"@, v) ==> width == v,
        resolved(md@, "llama.rope.dimension_count"@) is None && holds(
            md@,
            "llama.attention.head_count"@,
            heads,
        ) && holds(md@, "llama.embedding_length"@, embd) && heads > 0 ==> width * heads <= embd
            < width * heads + heads,
        md@.contains_key("llama.rope.freq_base"@) && md@["llama.rope.freq_base"@] == ValueView::F32(
            v,
        ) ==> base == FloatSource::F32(v),
        resolved(md@, "llama.rope.freq_base"@) is None ==> base == FloatSource::F32(0x461c_4000),
{
    if heads > 0 {
        let q = embd as int / heads as int;
        vstd::arithmetic::div_mod::lemma_fundamental_div_mod(embd as int, heads as int);
        vstd::arithmetic::div_mod::lemma_mod_bound(embd as int, heads as int);
        assert(heads * q == q * heads) by (nonlinear_arith);
    }
}

/// The architecture is the text under its key, and unknown where there is none; a file that says
/// nothing of its heads has one for keys and values, and its rotation has a width.
pub proof fn law_nothing_said(
    md: &Metadata,
    name: &str,
    text: Seq<char>,
    kv_heads: u32,
    wide: bool,
)
    requires
        call_ensures(Metadata::architecture, (md,), name),
        call_ensures(Metadata::n_kv_head, (md,), kv_heads),
        call_ensures(Metadata::has_rope_dimension, (md,), wide),
    ensures
        md@.contains_key("general.architecture"@) && md@["general.architecture"@]
            == ValueView::String(text) ==> name@ == text,
        !md@.contains_key("general.architecture"@) ==> name@ == "unknown"@,
        resolved(md@, "llama.attention.head_count_kv"@) is None && resolved(
            md@,
            "llama.attention.head_count"@,
        ) is None ==> kv_heads == 1,
        resolved(md@, "llama.attention.head_count"@) is None ==> wide,
        holds(md@, "llama.attention.head_count"@, 0) && resolved(
            md@,
            "llama.rope.dimension_count"@,
        ) is None ==> !wide,
{
}

} // verus!
