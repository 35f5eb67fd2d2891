use predictive_shuffle::Shuffle;

fn sorted(mut v: Vec<String>) -> Vec<String> {
    v.sort();
    v
}

fn words() -> Vec<String> {
    vec!["ash", "birch", "cedar", "drum", "elm", "fir"].into_iter().map(String::from).collect()
}

#[test]
fn modern_shuffle_drains_and_keeps_elements() {
    let mut v = words();
    let out = v.modern_shuffle();
    assert!(v.is_empty());
    assert_eq!(sorted(out), sorted(words()));
}

#[test]
fn crypto_modern_shuffle_keeps_elements() {
    let mut v = words();
    let out = v.crypto_modern_shuffle();
    assert!(v.is_empty());
    assert_eq!(sorted(out), sorted(words()));
}

#[test]
fn seeded_element_shuffle_is_deterministic() {
    let mut v1 = words();
    let mut v2 = words();
    let out1 = v1.modern_shuffle_from_seed(b"grove".to_vec());
    let out2 = v2.modern_shuffle_from_seed(b"grove".to_vec());
    assert_eq!(out1, out2);
    assert_eq!(sorted(out1), sorted(words()));
    let mut c1 = words();
    let mut c2 = words();
    let out1 = c1.crypto_modern_shuffle_from_seed(b"grove".to_vec());
    let out2 = c2.crypto_modern_shuffle_from_seed(b"grove".to_vec());
    assert_eq!(out1, out2);
}

#[test]
fn seeded_in_place_shuffle_rearranges() {
    let mut w = words();
    w.fastrand_shuffle_from_seed(b"grove".to_vec());
    assert_ne!(w, words());
    let mut w2 = words();
    w2.fastrand_shuffle_from_seed(b"grove".to_vec());
    assert_eq!(w, w2);
}

#[test]
fn fastrand_shuffle_keeps_elements_in_place() {
    let mut v = words();
    v.fastrand_shuffle();
    assert_eq!(sorted(v), sorted(words()));
    let mut w = words();
    w.fastrand_shuffle_from_seed(b"grove".to_vec());
    assert_eq!(sorted(w), sorted(words()));
}

#[test]
fn predictive_methods_leave_the_vector_alone() {
    let mut v: Vec<usize> = (0..40).collect();
    let m = v.predictive_shuffle(vec![2, 3]);
    assert_eq!(v, (0..40).collect::<Vec<usize>>());
    assert_eq!(m.len(), 2);
    let m = v.batch_predictive_shuffle(4, vec![2, 3]);
    assert_eq!(v, (0..40).collect::<Vec<usize>>());
    assert_eq!(m.len(), 2);
}

#[test]
fn trait_and_free_prediction_agree_when_seeded() {
    let mut v: Vec<usize> = (0..100).collect();
    let trait_map = v.predictive_shuffle_from_seed(vec![1, 5], b"seed phrase".to_vec());
    let free_map =
        predictive_shuffle::gen_predictive_shuffle_from_seed(100, vec![1, 5], b"seed phrase".to_vec());
    assert_eq!(trait_map, free_map);
}
