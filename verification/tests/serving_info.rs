use llm_engine::gguf::{GgufFile, GgufValue, TensorInfo};
use llm_engine::serving::{model_name, quantization_name, GenerationMode};

fn file(metadata: Vec<(&str, GgufValue)>, tensors: Vec<(&str, u32)>) -> GgufFile {
    GgufFile {
        version: 3,
        metadata: metadata.into_iter().map(|(k, v)| (k.to_string(), v)).collect(),
        tensors: tensors
            .into_iter()
            .map(|(n, t)| TensorInfo { name: n.to_string(), dims: vec![64, 64], dtype: t, offset: 0 })
            .collect(),
        tensor_data_offset: 0,
    }
}

#[test]
fn mode_names() {
    assert_eq!(GenerationMode::from_name("naive"), GenerationMode::Naive);
    assert_eq!(GenerationMode::from_name("cached"), GenerationMode::Cached);
    assert_eq!(GenerationMode::from_name("Naive"), GenerationMode::Cached);
    assert_eq!(GenerationMode::from_name(""), GenerationMode::Cached);
}

#[test]
fn model_name_comes_from_general_name() {
    let f = file(
        vec![
            ("general.architecture", GgufValue::String("llama".to_string())),
            ("general.name", GgufValue::String("tinyllama_tinyllama-1.1b-chat-v1.0".to_string())),
        ],
        vec![],
    );
    assert_eq!(model_name(&f), "tinyllama_tinyllama-1.1b-chat-v1.0");
}

#[test]
fn model_name_defaults_to_unknown() {
    assert_eq!(model_name(&file(vec![], vec![])), "unknown");
    let f = file(vec![("general.name", GgufValue::U32(7))], vec![]);
    assert_eq!(model_name(&f), "unknown");
}

#[test]
fn quantization_is_read_off_the_first_attention_query() {
    let f = file(vec![], vec![("token_embd.weight", 0), ("blk.0.attn_q.weight", 8)]);
    assert_eq!(quantization_name(&f), "Q8_0");
    let f = file(vec![], vec![("blk.0.attn_q.weight", 1)]);
    assert_eq!(quantization_name(&f), "F16");
    let f = file(vec![], vec![("blk.0.attn_q.weight", 14)]);
    assert_eq!(quantization_name(&f), "unknown");
    let f = file(vec![], vec![("token_embd.weight", 8)]);
    assert_eq!(quantization_name(&f), "unknown");
}
