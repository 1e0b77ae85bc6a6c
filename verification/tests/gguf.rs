//! The file format: reading, metadata, tensors and errors.

use llamanyon::engine::prefetch::next_layer_ranges;
use llamanyon::gguf::dtype::GgmlDType;
use llamanyon::gguf::error::{GgufError, ReadOp};
use llamanyon::gguf::file::GgufFile;
use llamanyon::gguf::metadata::{
    parse_metadata_value, FloatSource, Metadata, MetadataArray, MetadataValue,
};
use llamanyon::gguf::reader::{read_fields, Reader};
use llamanyon::gguf::tensor_info::TensorInfo;
use llamanyon::quant::Weight;

fn put_string(out: &mut Vec<u8>, s: &[u8]) {
    out.extend_from_slice(&(s.len() as u64).to_le_bytes());
    out.extend_from_slice(s);
}

fn put_tensor(out: &mut Vec<u8>, name: &str, dims: &[u64], dtype: u32, offset: u64) {
    put_string(out, name.as_bytes());
    out.extend_from_slice(&(dims.len() as u32).to_le_bytes());
    for d in dims {
        out.extend_from_slice(&d.to_le_bytes());
    }
    out.extend_from_slice(&dtype.to_le_bytes());
    out.extend_from_slice(&offset.to_le_bytes());
}

/// A file with an architecture, an integer, and two tensors of single precision.
fn small_file() -> Vec<u8> {
    let mut f = Vec::new();
    f.extend_from_slice(b"GGUF");
    f.extend_from_slice(&3u32.to_le_bytes());
    f.extend_from_slice(&2u64.to_le_bytes());
    f.extend_from_slice(&2u64.to_le_bytes());
    put_string(&mut f, b"general.architecture");
    f.extend_from_slice(&8u32.to_le_bytes());
    put_string(&mut f, b"llama");
    put_string(&mut f, b"llama.block_count");
    f.extend_from_slice(&4u32.to_le_bytes());
    f.extend_from_slice(&22u32.to_le_bytes());
    put_tensor(&mut f, "a", &[2, 1], 0, 0);
    put_tensor(&mut f, "b", &[1], 0, 8);
    while f.len() % 32 != 0 {
        f.push(0);
    }
    for x in [1.5f32, -2.0, 4.0] {
        f.extend_from_slice(&x.to_le_bytes());
    }
    f
}

fn parse(data: &[u8]) -> GgufFile {
    match GgufFile::parse(data) {
        Ok(f) => f,
        Err(e) => panic!("{}", e.message()),
    }
}

fn parse_error(data: &[u8]) -> GgufError {
    match GgufFile::parse(data) {
        Ok(_) => panic!("the file was accepted"),
        Err(e) => e,
    }
}

fn plain(x: f32) -> Weight {
    Weight { d: x.to_bits(), dmin: 0, scale: 1, min: 0, q: 1, shift: 0 }
}

#[test]
fn a_file_is_read_back() {
    let bytes = small_file();
    let f = parse(&bytes);
    assert_eq!(f.n_tensors(), 2);
    assert_eq!(f.file_size(), bytes.len());
    assert_eq!(f.architecture(), "llama");
    assert_eq!(f.metadata.get_u32("llama.block_count").ok(), Some(22));
    assert_eq!(f.data_offset % 32, 0);
    assert_eq!(f.data().len(), 12);
    let b = f.tensor("b").unwrap();
    assert_eq!(b.offset, f.data_offset as u64 + 8);
    assert_eq!(f.tensor_raw_bytes(b).ok().unwrap().to_vec(), 4.0f32.to_le_bytes().to_vec());
    assert_eq!(f.tensor_raw_offset_len("b"), Some((b.offset, 4)));
    assert_eq!(f.tensor_raw_offset_len("c"), None);
    let a = f.tensor_or_err("a").ok().unwrap();
    assert_eq!(f.dequantize_tensor_alloc(a).ok().unwrap(), vec![plain(1.5), plain(-2.0)]);
    let mut dst = vec![plain(0.0); 3];
    assert!(f.dequantize_tensor(a, &mut dst).is_ok());
    assert_eq!(dst, vec![plain(1.5), plain(-2.0), plain(0.0)]);
}

#[test]
fn a_file_may_hold_nothing() {
    let mut f = Vec::new();
    f.extend_from_slice(b"GGUF");
    f.extend_from_slice(&1u32.to_le_bytes());
    f.extend_from_slice(&0u32.to_le_bytes());
    f.extend_from_slice(&0u32.to_le_bytes());
    let g = parse(&f);
    assert_eq!(g.n_tensors(), 0);
    assert_eq!(g.architecture(), "unknown");
    assert_eq!(g.data_offset, 32);
}

#[test]
fn files_that_are_none_are_refused() {
    assert_eq!(parse_error(b"GG").message(), "IO error: read_bytes");
    assert_eq!(
        parse_error(b"GGML\x03\x00\x00\x00").message(),
        "Invalid GGUF magic: expected GGUF, got [71, 71, 77, 76]"
    );
    assert_eq!(parse_error(b"GGUF\x04\x00\x00\x00").message(), "Unsupported GGUF version: 4");
    assert_eq!(parse_error(b"GGUF\x03\x00").message(), "IO error: read_u32");
    assert_eq!(parse_error(b"GGUF\x03\x00\x00\x00\x01").message(), "IO error: read_u64");
    let full = small_file();
    // the tables end before the data, so every shorter file is refused
    let end = parse(&full).data_offset;
    for n in (0..end - 32).step_by(7) {
        assert!(GgufFile::parse(&full[..n]).is_err());
    }
}

#[test]
fn unknown_types_are_refused() {
    let mut f = Vec::new();
    f.extend_from_slice(b"GGUF");
    f.extend_from_slice(&3u32.to_le_bytes());
    f.extend_from_slice(&1u64.to_le_bytes());
    f.extend_from_slice(&0u64.to_le_bytes());
    put_tensor(&mut f, "t", &[1], 99, 0);
    assert_eq!(parse_error(&f).message(), "Unknown GGMLDType: 99");
}

#[test]
fn what_is_not_there_is_named() {
    let bytes = small_file();
    let f = parse(&bytes);
    match f.tensor_or_err("nothing") {
        Err(e) => assert_eq!(e.message(), "Tensor not found: nothing"),
        Ok(_) => panic!("found"),
    }
    match f.metadata.get_str("nothing") {
        Err(e) => assert_eq!(e.message(), "Metadata key not found: nothing"),
        Ok(_) => panic!("found"),
    }
    let outside = TensorInfo {
        name: "t".to_string(),
        shape: vec![1000],
        dtype: GgmlDType::F32,
        offset: 0,
    };
    match f.tensor_raw_bytes(&outside) {
        Err(GgufError::InvalidTensor(_)) => {}
        _ => panic!("read outside"),
    }
    let mut dst = vec![plain(0.0); 1];
    match f.dequantize_tensor(f.tensor("a").unwrap(), &mut dst) {
        Err(e) => assert_eq!(e.message(), "Buffer too small: needed 2, got 1"),
        Ok(_) => panic!("decoded"),
    }
}

#[test]
fn other_messages() {
    let e = GgufError::MetadataTypeMismatch {
        key: "k".to_string(),
        expected: "u32".to_string(),
        got: "string".to_string(),
    };
    assert_eq!(e.message(), "Type mismatch for metadata key 'k': expected u32, got string");
    assert_eq!(GgufError::Dequant("x".to_string()).message(), "Dequantization error: x");
    assert_eq!(GgufError::Io(ReadOp::U16).message(), "IO error: read_u16");
}

#[test]
fn numbers_are_little_endian() {
    let data = [1u8, 0xFE, 0xFF, 0, 1, 2, 3, 0xFF, 0xFF, 0xFF, 0xFF, 1];
    let mut r = Reader::new(&data);
    assert_eq!(r.read_u8().ok(), Some(1));
    assert_eq!(r.read_i16().ok(), Some(-2));
    assert_eq!(r.read_u32().ok(), Some(0x0302_0100));
    assert_eq!(r.read_i32().ok(), Some(-1));
    assert_eq!(r.pos(), 11);
    assert_eq!(r.read_bool().ok(), Some(true));
    assert!(r.read_u8().is_err());
    let mut r = Reader::new(&data);
    assert_eq!(r.read_i64().ok(), Some(i64::from_le_bytes([1, 0xFE, 0xFF, 0, 1, 2, 3, 0xFF])));
    assert_eq!(r.read_f32().ok(), Some(0x01FF_FFFF));
    let mut r = Reader::new(&data);
    assert_eq!(r.read_bytes(3).ok().unwrap().to_vec(), vec![1, 0xFE, 0xFF]);
    assert_eq!(read_fields::<u16>(&mut r, 2).ok(), Some(vec![0x0100, 0x0302]));
    assert!(read_fields::<u64>(&mut r, 1).is_err());
}

#[test]
fn strings_are_read_as_text() {
    let mut data = Vec::new();
    put_string(&mut data, "aé".as_bytes());
    put_string(&mut data, &[b'x', 0xFF, b'y']);
    data.extend_from_slice(&9u64.to_le_bytes());
    let mut r = Reader::new(&data);
    assert_eq!(r.read_string().ok(), Some("aé".to_string()));
    assert_eq!(r.read_string().ok(), Some("x\u{FFFD}y".to_string()));
    assert!(r.read_string().is_err());
}

fn value(bytes: &[u8], ty: u32) -> MetadataValue {
    let mut r = Reader::new(bytes);
    match parse_metadata_value(&mut r, ty) {
        Ok(v) => v,
        Err(e) => panic!("{}", e.message()),
    }
}

#[test]
fn values_of_all_kinds() {
    let kinds = [
        (0, "u8"), (1, "i8"), (2, "u16"), (3, "i16"), (4, "u32"), (5, "i32"), (6, "f32"),
        (7, "bool"), (10, "u64"), (11, "i64"), (12, "f64"),
    ];
    for (ty, name) in kinds {
        assert_eq!(value(&[1, 0, 0, 0, 0, 0, 0, 0], ty).kind_name(), name);
    }
    let mut s = Vec::new();
    put_string(&mut s, b"text");
    assert_eq!(value(&s, 8).as_str(), Some("text"));
    let mut a = Vec::new();
    a.extend_from_slice(&4u32.to_le_bytes());
    a.extend_from_slice(&2u64.to_le_bytes());
    a.extend_from_slice(&7u32.to_le_bytes());
    a.extend_from_slice(&8u32.to_le_bytes());
    let v = value(&a, 9);
    assert_eq!(v.as_u32_array().unwrap().to_vec(), vec![7, 8]);
    assert!(v.as_string_array().is_none());
    assert_eq!(v.kind_name(), "array");
    let mut r = Reader::new(&a);
    assert_eq!(parse_metadata_value(&mut r, 13).err().unwrap().message(), "Unknown GGMLDType: 13");
}

#[test]
fn values_convert() {
    assert_eq!(MetadataValue::I32(-1).as_u32(), Some(u32::MAX));
    assert_eq!(MetadataValue::I32(-1).as_u64(), Some(u64::MAX));
    assert_eq!(MetadataValue::U64(5).as_u32(), None);
    assert_eq!(MetadataValue::U64(5).as_u64(), Some(5));
    assert_eq!(MetadataValue::U16(5).as_u32(), Some(5));
    assert_eq!(MetadataValue::F32(7).as_f32(), Some(FloatSource::F32(7)));
    assert_eq!(MetadataValue::U32(7).as_f32(), Some(FloatSource::U32(7)));
    assert_eq!(MetadataValue::Bool(true).as_f32(), None);
    assert_eq!(MetadataValue::Bool(true).as_str(), None);
}

#[test]
fn the_last_of_equal_keys_counts() {
    let mut m = Metadata::new();
    m.insert("k".to_string(), MetadataValue::U32(1));
    m.insert("k".to_string(), MetadataValue::U32(2));
    assert_eq!(m.get_u32("k").ok(), Some(2));
    assert_eq!(m.get_u32_or("l", 9), 9);
    assert_eq!(m.get_u64("k").ok(), Some(2));
    assert_eq!(m.get_f32_or("l", FloatSource::F32(3)), FloatSource::F32(3));
    assert!(m.get_f32("l").is_err());
    assert!(m.get("l").is_none());
}

#[test]
fn keys_are_found_under_other_architectures() {
    let mut m = Metadata::new();
    m.insert("general.architecture".to_string(), MetadataValue::String("qwen2".to_string()));
    m.insert("qwen2.block_count".to_string(), MetadataValue::U32(24));
    m.insert("qwen2.attention.head_count".to_string(), MetadataValue::U32(14));
    m.insert("qwen2.embedding_length".to_string(), MetadataValue::U32(896));
    assert_eq!(m.n_layer().ok(), Some(24));
    assert_eq!(m.n_head().ok(), Some(14));
    assert_eq!(m.n_kv_head(), 14);
    assert_eq!(m.n_embd().ok(), Some(896));
    assert_eq!(m.n_ctx_train(), 4096);
    assert_eq!(m.rope_dimension(), 64);
    assert_eq!(m.architecture(), "qwen2");
    assert!(m.resolve("llama.nothing").is_none());
}

#[test]
fn sizes_of_types() {
    assert_eq!(GgmlDType::from_u32(12).ok(), Some(GgmlDType::Q4_K));
    assert!(GgmlDType::from_u32(4).is_err());
    assert_eq!((GgmlDType::Q4_K.block_size(), GgmlDType::Q4_K.type_size()), (256, 144));
    assert_eq!(GgmlDType::Q8_0.nbytes_for(64), 68);
    assert_eq!(GgmlDType::Q8_0.nbytes_for(33), 68);
    assert_eq!(GgmlDType::F32.checked_nbytes_for(usize::MAX), None);
    assert!(GgmlDType::Q6_K.is_quantized());
    assert!(GgmlDType::BF16.is_quantized());
    assert!(!GgmlDType::F32.is_quantized());
    assert_eq!(GgmlDType::Q4_K.name(), "Q4_K");
}

#[test]
fn tensors_know_their_size() {
    let t = TensorInfo {
        name: "t".to_string(),
        shape: vec![256, 3],
        dtype: GgmlDType::Q4_K,
        offset: 0,
    };
    assert_eq!(t.n_elems(), 768);
    assert_eq!(t.nbytes(), 432);
    assert_eq!(t.shape_str(), "[256, 3]");
    let huge = TensorInfo {
        name: "h".to_string(),
        shape: vec![u64::MAX, 2],
        dtype: GgmlDType::F32,
        offset: 0,
    };
    assert_eq!(huge.checked_n_elems(), None);
    assert_eq!(huge.checked_nbytes(), None);
    assert!(huge.raw_bytes(&[0; 8]).is_err());
    let part = TensorInfo {
        name: "p".to_string(),
        shape: vec![2],
        dtype: GgmlDType::F32,
        offset: 4,
    };
    let data: Vec<u8> = (0..12).collect();
    assert_eq!(part.raw_bytes(&data).ok().unwrap().to_vec(), (4..12).collect::<Vec<u8>>());
    assert_eq!(part.file_bytes(&data).ok().unwrap().len(), 8);
    assert!(part.raw_bytes(&data[..11]).is_err());
    assert_eq!(part.dequantize(&data).ok().unwrap()[0].d, 0x0706_0504);
}

#[test]
fn arrays_of_strings() {
    let v = MetadataValue::Array(MetadataArray::String(vec!["a".to_string()]));
    assert_eq!(v.as_string_array().unwrap().to_vec(), vec!["a".to_string()]);
    assert!(v.as_u32_array().is_none());
}

#[test]
fn ranges_of_the_next_layer_lie_within_the_file() {
    let mut f = Vec::new();
    f.extend_from_slice(b"GGUF");
    f.extend_from_slice(&3u32.to_le_bytes());
    f.extend_from_slice(&3u64.to_le_bytes());
    f.extend_from_slice(&0u64.to_le_bytes());
    put_tensor(&mut f, "blk.1.ffn_down.weight", &[2], 0, 8);
    put_tensor(&mut f, "blk.1.attn_q.weight", &[2], 0, 0);
    put_tensor(&mut f, "blk.1.attn_k.weight", &[200], 0, 0);
    while f.len() % 32 != 0 {
        f.push(0);
    }
    f.extend_from_slice(&[0; 16]);
    let g = parse(&f);
    let base = g.data_offset;
    // in the order of their use, without the one that the file cuts off
    assert_eq!(next_layer_ranges(&g, 0, 2), vec![(base, 8), (base + 8, 8)]);
    assert!(next_layer_ranges(&g, 1, 2).is_empty());
    assert!(next_layer_ranges(&g, 1, 9).is_empty());
}

#[test]
fn codes_and_sizes_of_all_types() {
    let mut seen = Vec::new();
    for code in 0..64 {
        if let Ok(t) = GgmlDType::from_u32(code) {
            assert!(!seen.contains(&t));
            seen.push(t);
            let n = t.block_size();
            assert_eq!(t.nbytes_for(3 * n), t.nbytes_for(n) + t.nbytes_for(2 * n));
            assert_eq!(t.nbytes_for(n), t.type_size());
        }
    }
    assert_eq!(seen.len(), 29);
}
