use llm_engine::ranking::{argmax_key, order_key, rank_descending};

fn keys(values: &[f32]) -> Vec<u32> {
    values.iter().map(|v| order_key(v.to_bits())).collect()
}

#[test]
fn keys_compare_as_the_floats_do() {
    let values = [
        f32::NEG_INFINITY, -3.5e10, -2.0, -1.0, -1e-40, -0.0, 0.0, 1e-45, 1e-40, 0.5, 1.0, 2.0,
        3.4e38, f32::INFINITY,
    ];
    let ks = keys(&values);
    for i in 0..values.len() {
        for j in 0..values.len() {
            assert_eq!(ks[i].cmp(&ks[j]), values[i].partial_cmp(&values[j]).unwrap(), "{} vs {}", values[i], values[j]);
        }
    }
}

#[test]
fn key_formula() {
    assert_eq!(order_key(0x0000_0000), 0x8000_0000);
    assert_eq!(order_key(0x8000_0000), 0x8000_0000);
    assert_eq!(order_key(0x3F80_0000), 0xBF80_0000);
    assert_eq!(order_key(0xBF80_0000), 0x407F_FFFF);
}

#[test]
fn argmax_takes_the_last_of_equal_maxima() {
    assert_eq!(argmax_key(&[3, 9, 2, 9, 1]), 3);
    assert_eq!(argmax_key(&[5]), 0);
    assert_eq!(argmax_key(&keys(&[0.1, -2.0, 0.7, 0.3])), 2);
    assert_eq!(argmax_key(&keys(&[0.0, -0.0])), 1);
}

#[test]
fn ranking_is_descending_and_stable() {
    assert_eq!(rank_descending(&[3, 9, 2, 9, 1, 3]), vec![1, 3, 0, 5, 2, 4]);
    assert_eq!(rank_descending(&[]), Vec::<usize>::new());
    assert_eq!(rank_descending(&[7, 7, 7]), vec![0, 1, 2]);
    let probs = [0.05f32, 0.4, 0.05, 0.3, 0.2];
    assert_eq!(rank_descending(&keys(&probs)), vec![1, 3, 4, 0, 2]);
}

#[test]
fn ranking_matches_a_stable_sort() {
    let values: Vec<u32> = (0..500u32).map(|i| (i * 7919 + 13) % 37).collect();
    let mut expected: Vec<usize> = (0..values.len()).collect();
    expected.sort_by(|&a, &b| values[b].cmp(&values[a]));
    assert_eq!(rank_descending(&values), expected);
}

#[test]
fn top_k_is_a_prefix_of_the_ranking() {
    let probs = [0.1f32, 0.25, 0.25, 0.4];
    let ranked = rank_descending(&keys(&probs));
    let top2: Vec<usize> = ranked[..2].to_vec();
    assert_eq!(top2, vec![3, 1]);
}
