use llm_engine::gguf::{GgufFile, GgufValue, TensorInfo};
use llm_engine::model::{
    dims2, embed_token, find_tensor, load_config, try_dims2, try_find_tensor, try_load_config,
    BatchGeneration, BatchState, ConfigKey, Generation, ModelError, TokenEvent,
};
use llm_engine::model::layer_tensor_name;

fn tensor(name: &str, dims: &[u64]) -> TensorInfo {
    TensorInfo { name: name.to_string(), dims: dims.to_vec(), dtype: 8, offset: 0 }
}

fn tinyllama_file() -> GgufFile {
    GgufFile {
        version: 3,
        metadata: vec![
            ("general.architecture".to_string(), GgufValue::String("llama".to_string())),
            ("llama.embedding_length".to_string(), GgufValue::U32(2048)),
            ("llama.attention.head_count".to_string(), GgufValue::U32(32)),
            ("llama.attention.head_count_kv".to_string(), GgufValue::U32(4)),
            ("llama.rope.dimension_count".to_string(), GgufValue::U32(64)),
            ("llama.block_count".to_string(), GgufValue::U32(22)),
            (
                "llama.attention.layer_norm_rms_epsilon".to_string(),
                GgufValue::F32(1e-5f32.to_bits()),
            ),
        ],
        tensors: vec![
            tensor("output_norm.weight", &[2048]),
            tensor("token_embd.weight", &[2048, 32000]),
            tensor("blk.0.ffn_gate.weight", &[2048, 5632]),
            tensor("token_embd.weight", &[1, 1]),
        ],
        tensor_data_offset: 4096,
    }
}

#[test]
fn config_comes_from_metadata_and_the_embedding_table() {
    let cfg = load_config(&tinyllama_file());
    assert_eq!(cfg.hidden_size, 2048);
    assert_eq!(cfg.n_heads, 32);
    assert_eq!(cfg.n_kv_heads, 4);
    assert_eq!(cfg.head_dim, 64);
    assert_eq!(cfg.n_layers, 22);
    assert_eq!(cfg.vocab_size, 32000);
    assert_eq!(f32::from_bits(cfg.rms_eps_bits), 1e-5);
}

#[test]
fn config_reports_the_first_problem() {
    let mut f = tinyllama_file();
    f.tensors.retain(|t| t.name != "token_embd.weight");
    f.metadata.clear();
    assert_eq!(try_load_config(&f).err(), Some(ModelError::TensorNotFound));

    let mut f = tinyllama_file();
    f.tensors[1].dims = vec![2048, 32000, 1];
    assert_eq!(try_load_config(&f).err(), Some(ModelError::NotMatrix));

    let mut f = tinyllama_file();
    f.metadata.remove(3);
    f.metadata.remove(1);
    assert_eq!(try_load_config(&f).err(), Some(ModelError::MissingKey(ConfigKey::EmbeddingLength)));

    let mut f = tinyllama_file();
    f.metadata[5].1 = GgufValue::U64(22);
    assert_eq!(try_load_config(&f).err(), Some(ModelError::MissingKey(ConfigKey::BlockCount)));

    let mut f = tinyllama_file();
    f.metadata[6].1 = GgufValue::F64(1e-5f64.to_bits());
    assert_eq!(try_load_config(&f).err(), Some(ModelError::MissingKey(ConfigKey::RmsEpsilon)));

    let mut f = tinyllama_file();
    f.metadata.remove(4);
    assert_eq!(try_load_config(&f).err(), Some(ModelError::MissingKey(ConfigKey::RopeDimensionCount)));
}

#[test]
fn first_metadata_entry_with_a_key_wins() {
    let mut f = tinyllama_file();
    f.metadata.insert(1, ("llama.block_count".to_string(), GgufValue::U32(2)));
    assert_eq!(load_config(&f).n_layers, 2);
}

#[test]
fn find_tensor_takes_the_first_match() {
    let f = tinyllama_file();
    let t = find_tensor(&f, "token_embd.weight");
    assert_eq!(t.dims, vec![2048, 32000]);
    assert!(try_find_tensor(&f, "output.weight").is_none());
}

#[test]
fn dims2_reads_in_and_out_features() {
    let f = tinyllama_file();
    assert_eq!(dims2(&f, "blk.0.ffn_gate.weight"), (2048, 5632));
    assert_eq!(try_dims2(&f, "blk.0.ffn_gate.weight"), Ok((2048, 5632)));
    assert_eq!(try_dims2(&f, "output_norm.weight"), Err(ModelError::NotMatrix));
    assert_eq!(try_dims2(&f, "missing"), Err(ModelError::TensorNotFound));
}

#[test]
fn embedding_is_a_row_of_the_table() {
    let table: Vec<f32> = (0..12).map(|i| i as f32).collect();
    assert_eq!(embed_token(&table, 4, 0), vec![0.0, 1.0, 2.0, 3.0]);
    assert_eq!(embed_token(&table, 4, 2), vec![8.0, 9.0, 10.0, 11.0]);
    assert!(embed_token(&table, 0, 5).is_empty());
}

#[test]
fn batch_state_is_column_major() {
    let vectors = vec![vec![1.0f32, 2.0, 3.0], vec![4.0, 5.0, 6.0]];
    let b = BatchState::from_vectors(&vectors, 0.0);
    assert_eq!(b.rows, 3);
    assert_eq!(b.batch_size, 2);
    assert_eq!(b.data, vec![1.0, 4.0, 2.0, 5.0, 3.0, 6.0]);
    assert_eq!(b.column(0), vectors[0]);
    assert_eq!(b.column(1), vectors[1]);
}

#[test]
fn short_vectors_are_padded_with_zero() {
    let vectors = vec![vec![1, 2, 3], vec![7]];
    let b = BatchState::from_vectors(&vectors, 0);
    assert_eq!(b.column(1), vec![7, 0, 0]);
}

#[test]
fn set_column_then_column_gives_the_values_back() {
    let vectors = vec![vec![1, 2, 3], vec![4, 5, 6], vec![7, 8, 9]];
    let mut b = BatchState::from_vectors(&vectors, 0);
    b.set_column(1, &[40, 50, 60]);
    assert_eq!(b.column(1), vec![40, 50, 60]);
    assert_eq!(b.column(0), vec![1, 2, 3]);
    assert_eq!(b.column(2), vec![7, 8, 9]);
    b.set_column(2, &[70]);
    assert_eq!(b.column(2), vec![70, 8, 9]);
}

#[test]
fn generation_runs_to_its_limit() {
    let mut g = Generation::start(&[1, 450, 7483], 3, None);
    let mut steps = Vec::new();
    let mut next = 100;
    while !g.is_finished() {
        steps.push(g.accept(next));
        next += 1;
    }
    assert_eq!(steps, vec![(1, 3), (2, 4), (3, 5)]);
    assert_eq!(g.tokens(), &vec![1, 450, 7483, 100, 101, 102]);
    assert_eq!(g.into_tokens(), vec![1, 450, 7483, 100, 101, 102]);
}

#[test]
fn generation_stops_after_the_stop_token() {
    let mut g = Generation::start(&[1, 450], 10, Some(2));
    assert!(!g.is_finished());
    assert_eq!(g.accept(13), (1, 2));
    assert!(!g.is_finished());
    assert_eq!(g.accept(2), (2, 3));
    assert!(g.is_finished());
    assert_eq!(g.into_tokens(), vec![1, 450, 13, 2]);
}

#[test]
fn a_stop_token_in_the_prompt_does_not_end_generation() {
    let g = Generation::start(&[1, 2], 4, Some(2));
    assert!(!g.is_finished());
}

#[test]
fn generation_of_zero_tokens_is_finished_at_once() {
    let g = Generation::start(&[1, 2, 3], 0, None);
    assert!(g.is_finished());
    assert_eq!(g.into_tokens(), vec![1, 2, 3]);
}

#[test]
fn batch_prompts_are_cut_to_the_shortest() {
    let prompts = vec![vec![1, 10, 11, 12], vec![1, 20], vec![1, 30, 31]];
    let mut b = BatchGeneration::start(&prompts);
    assert_eq!(b.prompt_len(), 2);
    assert_eq!(b.batch_size(), 3);
    assert_eq!(b.tokens_at(0), vec![1, 1, 1]);
    assert_eq!(b.tokens_at(1), vec![10, 20, 30]);
    b.accept(&[100, 200, 300]);
    b.accept(&[101, 201, 301]);
    assert_eq!(
        b.into_sequences(),
        vec![vec![1, 10, 100, 101], vec![1, 20, 200, 201], vec![1, 30, 300, 301]]
    );
}

#[test]
fn token_event_carries_progress() {
    let e = TokenEvent { step: 1, token_id: 450, elapsed_ms: 12, cache_bytes: 45056 };
    assert_eq!((e.step, e.token_id, e.elapsed_ms, e.cache_bytes), (1, 450, 12, 45056));
}

#[test]
fn heads_are_consecutive_slices() {
    let v: Vec<u32> = (0..12).collect();
    let heads = llm_engine::model::split_heads(&v, 3, 4);
    assert_eq!(heads, vec![vec![0, 1, 2, 3], vec![4, 5, 6, 7], vec![8, 9, 10, 11]]);
    let first_two = llm_engine::model::split_heads(&v, 2, 5);
    assert_eq!(first_two, vec![vec![0, 1, 2, 3, 4], vec![5, 6, 7, 8, 9]]);
    assert!(llm_engine::model::split_heads(&v, 0, 4).is_empty());
}

#[test]
fn query_heads_share_kv_heads_in_groups() {
    // TinyLlama: 32 query heads over 4 KV heads, 8 query heads per KV head.
    let map: Vec<usize> = (0..32).map(|h| llm_engine::model::kv_head(h, 32, 4)).collect();
    assert_eq!(map[0], 0);
    assert_eq!(map[7], 0);
    assert_eq!(map[8], 1);
    assert_eq!(map[31], 3);
    assert_eq!(llm_engine::model::kv_head(5, 6, 6), 5);
}

#[test]
fn write_head_fills_one_slot() {
    let mut out = vec![0u8; 8];
    llm_engine::model::write_head(&mut out, 1, 3, &[7, 8, 9]);
    assert_eq!(out, vec![0, 0, 0, 7, 8, 9, 0, 0]);
    llm_engine::model::write_head(&mut out, 0, 3, &[1, 2, 3]);
    assert_eq!(out, vec![1, 2, 3, 7, 8, 9, 0, 0]);
}

#[test]
fn cache_kilobytes_round_down() {
    let e = TokenEvent { step: 1, token_id: 0, elapsed_ms: 0, cache_bytes: 45056 };
    assert_eq!(e.cache_kb(), 44);
    let e = TokenEvent { step: 1, token_id: 0, elapsed_ms: 0, cache_bytes: 1023 };
    assert_eq!(e.cache_kb(), 0);
}

#[test]
fn config_keys_name_their_metadata_entries() {
    assert_eq!(ConfigKey::BlockCount.as_str(), "llama.block_count");
    assert_eq!(ConfigKey::RmsEpsilon.as_str(), "llama.attention.layer_norm_rms_epsilon");
    assert_eq!(ConfigKey::HeadCountKv.as_str(), "llama.attention.head_count_kv");
}

#[test]
fn layer_tensor_names() {
    assert_eq!(layer_tensor_name(0, "attn_q.weight"), "blk.0.attn_q.weight");
    assert_eq!(layer_tensor_name(21, "ffn_down.weight"), "blk.21.ffn_down.weight");
    assert_eq!(layer_tensor_name(100, "attn_norm.weight"), "blk.100.attn_norm.weight");
    assert_eq!(layer_tensor_name(9, ""), "blk.9.");
}

#[test]
fn a_batch_of_one_keeps_its_whole_prompt() {
    let b = BatchGeneration::start(&[vec![1, 450, 7483, 310]]);
    assert_eq!(b.prompt_len(), 4);
    assert_eq!(b.batch_size(), 1);
    assert_eq!(b.into_sequences(), vec![vec![1, 450, 7483, 310]]);
}
