use rag_llm::ranking::{argmax_first, last_nonzero, order_key, rank_descending, top_k_indices};

fn keys_of(values: &[f32]) -> Vec<u32> {
    values.iter().map(|v| order_key(v.to_bits())).collect()
}

#[test]
fn test_argmax() {
    let probs = keys_of(&[0.1, 0.5, 0.3, 0.1]);
    assert_eq!(argmax_first(&probs), 1);
}

#[test]
fn test_top_k_filtering() {
    let probs = keys_of(&[0.1, 0.2, 0.3, 0.4]);
    let kept = top_k_indices(&probs, 2);
    assert!(kept.contains(&3));
    assert!(kept.contains(&2));
    assert!(!kept.contains(&1));
    assert!(!kept.contains(&0));
}

#[test]
fn top_k_scenario_keeps_two_best_in_order() {
    let scores = keys_of(&[1.0, 2.0, 3.0, 4.0]);
    assert_eq!(top_k_indices(&scores, 2), vec![3, 2]);
}

#[test]
fn top_k_edge_cases() {
    let keys = vec![5u32, 1, 9];
    assert_eq!(top_k_indices(&keys, 0), Vec::<usize>::new());
    assert_eq!(top_k_indices(&Vec::new(), 3), Vec::<usize>::new());
    assert_eq!(top_k_indices(&keys, 10), vec![2, 0, 1]);
    assert_eq!(top_k_indices(&keys, 3).len(), 3);
}

#[test]
fn ranking_is_stable_on_ties() {
    let keys = vec![7u32, 3, 7, 9, 3];
    assert_eq!(rank_descending(&keys), vec![3, 0, 2, 1, 4]);
    assert_eq!(rank_descending(&Vec::new()), Vec::<usize>::new());
}

#[test]
fn argmax_takes_first_of_ties() {
    assert_eq!(argmax_first(&vec![2, 8, 8, 1]), 1);
    assert_eq!(argmax_first(&vec![4]), 0);
}

#[test]
fn order_key_follows_numeric_order() {
    let values = [-3.5f32, -1.0, -0.0, 0.0, 1e-30, 0.5, 2.0, 1e30];
    for w in values.windows(2) {
        assert!(order_key(w[0].to_bits()) < order_key(w[1].to_bits()));
    }
    assert_eq!(order_key(0), 0x8000_0000);
    assert_eq!(order_key(0x8000_0000), 0x7FFF_FFFF);
    assert_eq!(order_key(0xFFFF_FFFF), 0);
}

#[test]
fn last_nonzero_finds_fallback() {
    assert_eq!(last_nonzero(&vec![0, 3, 0, 2, 0]), Some(3));
    assert_eq!(last_nonzero(&vec![0, 0]), None);
    assert_eq!(last_nonzero(&Vec::new()), None);
}
