use llm_engine::kv_cache::{BatchKvCache, KvCache};
use llm_engine::model::{batch_cache_bytes, Config};

/// TinyLlama's shape: 22 layers, 4 KV heads of 64 dimensions.
fn tinyllama() -> Config {
    Config {
        hidden_size: 2048,
        n_heads: 32,
        n_kv_heads: 4,
        head_dim: 64,
        n_layers: 22,
        vocab_size: 32000,
        rms_eps_bits: 1e-5f32.to_bits(),
    }
}

fn push_position(cache: &mut KvCache<f32>, n_kv_heads: usize, head_dim: usize) {
    for layer in cache.layers.iter_mut() {
        layer.keys.push(vec![vec![0.0f32; head_dim]; n_kv_heads]);
        layer.values.push(vec![vec![0.0f32; head_dim]; n_kv_heads]);
    }
}

#[test]
fn new_cache_has_one_empty_layer_per_block() {
    let cache: KvCache<f32> = KvCache::new(22);
    assert_eq!(cache.layers.len(), 22);
    assert!(cache.layers.iter().all(|l| l.keys.is_empty() && l.values.is_empty()));
    assert_eq!(cache.memory_bytes(4, 64), 0);
}

#[test]
fn one_cached_position_costs_about_44_kb() {
    // 2 × 22 layers × 4 KV heads × 64 dims × 4 bytes = 45056 bytes.
    let mut cache: KvCache<f32> = KvCache::new(22);
    push_position(&mut cache, 4, 64);
    assert_eq!(cache.memory_bytes(4, 64), 45056);
}

#[test]
fn memory_grows_linearly_with_positions() {
    let mut cache: KvCache<f32> = KvCache::new(22);
    for n in 1..=5 {
        push_position(&mut cache, 4, 64);
        assert_eq!(cache.memory_bytes(4, 64), n * 45056);
    }
}

#[test]
fn memory_scales_with_element_size() {
    let mut cache: KvCache<u8> = KvCache::new(2);
    for layer in cache.layers.iter_mut() {
        layer.keys.push(vec![vec![0u8; 8]; 3]);
        layer.values.push(vec![vec![0u8; 8]; 3]);
    }
    assert_eq!(cache.memory_bytes(3, 8), 2 * 3 * 8 * 2);
}

#[test]
fn cache_without_layers_holds_nothing() {
    let cache: KvCache<f32> = KvCache::new(0);
    assert_eq!(cache.memory_bytes(4, 64), 0);
}

#[test]
fn batch_cache_sums_its_sequences() {
    let cfg = tinyllama();
    let mut batch: BatchKvCache<f32> = BatchKvCache::new(3, cfg.n_layers);
    assert_eq!(batch.sequences.len(), 3);
    assert_eq!(batch_cache_bytes(&batch, &cfg), 0);
    push_position(&mut batch.sequences[0], 4, 64);
    push_position(&mut batch.sequences[2], 4, 64);
    push_position(&mut batch.sequences[2], 4, 64);
    assert_eq!(batch.memory_bytes(4, 64), 3 * 45056);
    assert_eq!(batch_cache_bytes(&batch, &cfg), 3 * 45056);
}

#[test]
fn empty_batch_holds_nothing() {
    let batch: BatchKvCache<f32> = BatchKvCache::new(0, 22);
    assert!(batch.sequences.is_empty());
    assert_eq!(batch.memory_bytes(4, 64), 0);
}

#[test]
fn pushing_a_position_keeps_earlier_ones() {
    let mut cache: KvCache<i32> = KvCache::new(1);
    cache.layers[0].push_position(vec![vec![1, 2]], vec![vec![3, 4]]);
    cache.layers[0].push_position(vec![vec![5, 6]], vec![vec![7, 8]]);
    assert_eq!(cache.layers[0].keys, vec![vec![vec![1, 2]], vec![vec![5, 6]]]);
    assert_eq!(cache.layers[0].values, vec![vec![vec![3, 4]], vec![vec![7, 8]]]);
    assert_eq!(cache.memory_bytes(1, 2), 2 * 1 * 1 * 2 * 2 * 4);
}
