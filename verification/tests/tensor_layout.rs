use llm_engine::tensor::{
    decode_f32_bits, decode_q8_0_blocks, dtype_name, tensor_byte_len, total_elements,
    GGML_TYPE_F32, GGML_TYPE_Q8_0, Q8_0_BLOCK_BYTES, Q8_0_BLOCK_SIZE,
};

#[test]
fn total_elements_multiplies_dimensions() {
    assert_eq!(total_elements(&[2048, 32000]), 65_536_000);
    assert_eq!(total_elements(&[64]), 64);
    assert_eq!(total_elements(&[]), 1);
    assert_eq!(total_elements(&[3, 0, 7]), 0);
}

#[test]
fn dtype_names() {
    assert_eq!(dtype_name(0), "F32");
    assert_eq!(dtype_name(1), "F16");
    assert_eq!(dtype_name(8), "Q8_0");
    assert_eq!(dtype_name(2), "unknown");
    assert_eq!(dtype_name(12), "unknown");
}

#[test]
fn block_constants() {
    assert_eq!(GGML_TYPE_F32, 0);
    assert_eq!(GGML_TYPE_Q8_0, 8);
    assert_eq!(Q8_0_BLOCK_SIZE, 32);
    assert_eq!(Q8_0_BLOCK_BYTES, 34);
}

#[test]
fn byte_lengths_of_supported_types() {
    assert_eq!(tensor_byte_len(GGML_TYPE_F32, 10), 40);
    assert_eq!(tensor_byte_len(GGML_TYPE_Q8_0, 64), 68);
    assert_eq!(tensor_byte_len(GGML_TYPE_Q8_0, 0), 0);
    // TinyLlama's token embedding table: 2048 × 32000 Q8_0 weights.
    assert_eq!(tensor_byte_len(GGML_TYPE_Q8_0, 65_536_000), 69_632_000);
}

#[test]
fn f32_values_are_read_little_endian() {
    let mut bytes = Vec::new();
    for v in [1.0f32, -2.5, 1e-5] {
        bytes.extend_from_slice(&v.to_le_bytes());
    }
    bytes.push(0xFF); // a trailing partial value is ignored
    let bits = decode_f32_bits(&bytes);
    assert_eq!(bits.len(), 3);
    assert_eq!(f32::from_bits(bits[0]), 1.0);
    assert_eq!(f32::from_bits(bits[1]), -2.5);
    assert_eq!(f32::from_bits(bits[2]), 1e-5);
    assert_eq!(bits[0], 0x3F80_0000);
}

#[test]
fn q8_0_blocks_split_scale_and_signed_quants() {
    let mut bytes = vec![0x00, 0x3C]; // f16 1.0
    for j in 0..32u8 {
        bytes.push(j.wrapping_mul(9));
    }
    bytes.extend_from_slice(&[0x00, 0xB8]); // f16 -0.5
    bytes.extend(std::iter::repeat(0xFFu8).take(32));
    bytes.extend_from_slice(&[1, 2, 3]); // a trailing partial block is ignored
    let blocks = decode_q8_0_blocks(&bytes);
    assert_eq!(blocks.len(), 2);
    assert_eq!(blocks[0].scale_bits, 0x3C00);
    assert_eq!(blocks[0].quants.len(), 32);
    assert_eq!(blocks[0].quants[1], 9);
    assert_eq!(blocks[0].quants[15], (15u8 * 9) as i8);
    assert_eq!(blocks[0].quants[20], (20u8.wrapping_mul(9)) as i8);
    assert!(blocks[0].quants[20] < 0);
    assert_eq!(blocks[1].scale_bits, 0xB800);
    assert!(blocks[1].quants.iter().all(|&q| q == -1));
}

#[test]
fn empty_input_decodes_to_nothing() {
    assert!(decode_f32_bits(&[1, 2, 3]).is_empty());
    assert!(decode_q8_0_blocks(&[0u8; 33]).is_empty());
}
