use llm_engine::gguf::{parse, try_parse, GgufError, GgufValue};

fn put_u32(b: &mut Vec<u8>, x: u32) {
    b.extend_from_slice(&x.to_le_bytes());
}

fn put_u64(b: &mut Vec<u8>, x: u64) {
    b.extend_from_slice(&x.to_le_bytes());
}

fn put_str(b: &mut Vec<u8>, s: &str) {
    put_u64(b, s.len() as u64);
    b.extend_from_slice(s.as_bytes());
}

fn header(b: &mut Vec<u8>, version: u32, tensors: u64, metadata: u64) {
    b.extend_from_slice(b"GGUF");
    put_u32(b, version);
    put_u64(b, tensors);
    put_u64(b, metadata);
}

/// A small file: three metadata entries (a u32, an f32, a string array),
/// two tensors.
fn sample(alignment: Option<u32>) -> Vec<u8> {
    let mut b = Vec::new();
    let n_md = if alignment.is_some() { 4 } else { 3 };
    header(&mut b, 3, 2, n_md);
    put_str(&mut b, "llama.block_count");
    put_u32(&mut b, 4);
    put_u32(&mut b, 22);
    put_str(&mut b, "llama.attention.layer_norm_rms_epsilon");
    put_u32(&mut b, 6);
    put_u32(&mut b, 1e-5f32.to_bits());
    put_str(&mut b, "tokenizer.ggml.tokens");
    put_u32(&mut b, 9);
    put_u32(&mut b, 8);
    put_u64(&mut b, 2);
    put_str(&mut b, "<s>");
    put_str(&mut b, "\u{2581}a");
    if let Some(a) = alignment {
        put_str(&mut b, "general.alignment");
        put_u32(&mut b, 4);
        put_u32(&mut b, a);
    }
    put_str(&mut b, "token_embd.weight");
    put_u32(&mut b, 2);
    put_u64(&mut b, 64);
    put_u64(&mut b, 32000);
    put_u32(&mut b, 8);
    put_u64(&mut b, 0);
    put_str(&mut b, "output_norm.weight");
    put_u32(&mut b, 1);
    put_u64(&mut b, 64);
    put_u32(&mut b, 0);
    put_u64(&mut b, 2176);
    b
}

#[test]
fn parses_header_metadata_and_tensors() {
    let bytes = sample(None);
    let f = parse(&bytes).unwrap();
    assert_eq!(f.version, 3);
    assert_eq!(f.metadata.len(), 3);
    assert_eq!(f.metadata[0].0, "llama.block_count");
    assert!(matches!(f.metadata[0].1, GgufValue::U32(22)));
    match &f.metadata[1].1 {
        GgufValue::F32(bits) => assert_eq!(f32::from_bits(*bits), 1e-5f32),
        _ => panic!("expected an f32"),
    }
    match &f.metadata[2].1 {
        GgufValue::Array(items) => {
            assert_eq!(items.len(), 2);
            assert!(matches!(&items[0], GgufValue::String(s) if s == "<s>"));
            assert!(matches!(&items[1], GgufValue::String(s) if s == "\u{2581}a"));
        }
        _ => panic!("expected an array"),
    }
    assert_eq!(f.tensors.len(), 2);
    assert_eq!(f.tensors[0].name, "token_embd.weight");
    assert_eq!(f.tensors[0].dims, vec![64, 32000]);
    assert_eq!(f.tensors[0].dtype, 8);
    assert_eq!(f.tensors[1].name, "output_norm.weight");
    assert_eq!(f.tensors[1].dims, vec![64]);
    assert_eq!(f.tensors[1].offset, 2176);
}

#[test]
fn tensor_data_starts_at_default_alignment() {
    let bytes = sample(None);
    let f = parse(&bytes).unwrap();
    let end = bytes.len() as u64;
    assert_eq!(f.tensor_data_offset % 32, 0);
    assert!(f.tensor_data_offset >= end && f.tensor_data_offset < end + 32);
}

#[test]
fn tensor_data_starts_at_configured_alignment() {
    let bytes = sample(Some(64));
    let f = parse(&bytes).unwrap();
    let end = bytes.len() as u64;
    assert_eq!(f.tensor_data_offset % 64, 0);
    assert!(f.tensor_data_offset >= end && f.tensor_data_offset < end + 64);
}

#[test]
fn trailing_bytes_do_not_change_the_header() {
    let bytes = sample(Some(16));
    let a = parse(&bytes).unwrap();
    let mut longer = bytes.clone();
    longer.extend(std::iter::repeat(0xAB).take(1000));
    let b = parse(&longer).unwrap();
    assert_eq!(a.tensor_data_offset, b.tensor_data_offset);
    assert_eq!(a.metadata.len(), b.metadata.len());
    assert_eq!(a.tensors.len(), b.tensors.len());
    assert_eq!(a.tensors[1].offset, b.tensors[1].offset);
}

#[test]
fn truncated_header_is_unexpected_eof() {
    let bytes = sample(None);
    for cut in [0, 3, 4, 20, 30, bytes.len() - 1] {
        assert_eq!(parse(&bytes[..cut]).err(), Some(GgufError::UnexpectedEof), "cut at {cut}");
    }
}

#[test]
fn bad_magic_is_rejected() {
    let mut bytes = sample(None);
    bytes[0] = b'X';
    assert_eq!(try_parse(&bytes).err(), Some(GgufError::BadMagic));
}

#[test]
fn unknown_value_type_is_rejected() {
    let mut b = Vec::new();
    header(&mut b, 3, 0, 1);
    put_str(&mut b, "k");
    put_u32(&mut b, 13);
    put_u32(&mut b, 0);
    assert_eq!(try_parse(&b).err(), Some(GgufError::UnknownValueType(13)));
}

#[test]
fn invalid_utf8_string_is_rejected() {
    let mut b = Vec::new();
    header(&mut b, 3, 0, 1);
    put_u64(&mut b, 2);
    b.extend_from_slice(&[0xC3, 0x28]);
    put_u32(&mut b, 0);
    b.push(1);
    assert_eq!(try_parse(&b).err(), Some(GgufError::InvalidUtf8));
}

#[test]
fn zero_alignment_is_rejected() {
    let bytes = sample(Some(0));
    assert_eq!(try_parse(&bytes).err(), Some(GgufError::ZeroAlignment));
}

#[test]
fn every_scalar_type_is_read() {
    let mut b = Vec::new();
    header(&mut b, 2, 0, 12);
    let entries: Vec<(u32, Vec<u8>)> = vec![
        (0, vec![200]),
        (1, vec![0xFF]),
        (2, 0xBEEFu16.to_le_bytes().to_vec()),
        (3, (-2i16).to_le_bytes().to_vec()),
        (4, 7u32.to_le_bytes().to_vec()),
        (5, (-7i32).to_le_bytes().to_vec()),
        (6, 1.5f32.to_bits().to_le_bytes().to_vec()),
        (7, vec![2]),
        (10, u64::MAX.to_le_bytes().to_vec()),
        (11, (-9i64).to_le_bytes().to_vec()),
        (12, 2.25f64.to_bits().to_le_bytes().to_vec()),
        (7, vec![0]),
    ];
    for (i, (ty, payload)) in entries.iter().enumerate() {
        put_str(&mut b, &format!("k{i}"));
        put_u32(&mut b, *ty);
        b.extend_from_slice(payload);
    }
    let f = parse(&b).unwrap();
    let v: Vec<&GgufValue> = f.metadata.iter().map(|(_, v)| v).collect();
    assert!(matches!(v[0], GgufValue::U8(200)));
    assert!(matches!(v[1], GgufValue::I8(-1)));
    assert!(matches!(v[2], GgufValue::U16(0xBEEF)));
    assert!(matches!(v[3], GgufValue::I16(-2)));
    assert!(matches!(v[4], GgufValue::U32(7)));
    assert!(matches!(v[5], GgufValue::I32(-7)));
    assert!(matches!(v[6], GgufValue::F32(bits) if f32::from_bits(*bits) == 1.5));
    assert!(matches!(v[7], GgufValue::Bool(true)));
    assert!(matches!(v[8], GgufValue::U64(u64::MAX)));
    assert!(matches!(v[9], GgufValue::I64(-9)));
    assert!(matches!(v[10], GgufValue::F64(bits) if f64::from_bits(*bits) == 2.25));
    assert!(matches!(v[11], GgufValue::Bool(false)));
}

#[test]
fn nested_arrays_are_read() {
    let mut b = Vec::new();
    header(&mut b, 3, 0, 1);
    put_str(&mut b, "nested");
    put_u32(&mut b, 9);
    put_u32(&mut b, 9);
    put_u64(&mut b, 2);
    put_u32(&mut b, 0);
    put_u64(&mut b, 1);
    b.push(5);
    put_u32(&mut b, 4);
    put_u64(&mut b, 0);
    let f = parse(&b).unwrap();
    match &f.metadata[0].1 {
        GgufValue::Array(outer) => {
            assert_eq!(outer.len(), 2);
            assert!(matches!(&outer[0], GgufValue::Array(inner) if inner.len() == 1 && matches!(inner[0], GgufValue::U8(5))));
            assert!(matches!(&outer[1], GgufValue::Array(inner) if inner.is_empty()));
        }
        _ => panic!("expected an array"),
    }
}

#[test]
fn find_metadata_returns_the_first_entry_with_the_key() {
    let mut b = Vec::new();
    header(&mut b, 3, 0, 2);
    put_str(&mut b, "dup");
    put_u32(&mut b, 4);
    put_u32(&mut b, 1);
    put_str(&mut b, "dup");
    put_u32(&mut b, 4);
    put_u32(&mut b, 2);
    let f = parse(&b).unwrap();
    assert!(matches!(f.find_metadata("dup"), Some(GgufValue::U32(1))));
    assert!(f.find_metadata("missing").is_none());
}

#[test]
fn alignment_of_the_wrong_type_falls_back_to_32() {
    let mut b = Vec::new();
    header(&mut b, 3, 0, 1);
    put_str(&mut b, "general.alignment");
    put_u32(&mut b, 10);
    put_u64(&mut b, 64);
    let f = parse(&b).unwrap();
    assert_eq!(f.tensor_data_offset % 32, 0);
    assert!(f.tensor_data_offset >= b.len() as u64 && f.tensor_data_offset < b.len() as u64 + 32);
}
