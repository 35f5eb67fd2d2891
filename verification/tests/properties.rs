use predictive_shuffle::{
    batched_predict_positions, full_shuffle, gen_batch_predictive_shuffle,
    gen_crypto_batch_predictive_shuffle, gen_crypto_modern_shuffle,
    gen_crypto_modern_shuffle_from_seed, gen_crypto_predictive_shuffle,
    gen_crypto_predictive_shuffle_from_seed, gen_fastrand_shuffle, gen_fastrand_shuffle_from_seed,
    gen_modern_shuffle, gen_modern_shuffle_from_seed, gen_predictive_shuffle,
    gen_predictive_shuffle_from_seed, predict_positions, Backend, Seeding, ShuffleError,
};
use std::collections::HashMap;

fn assert_is_permutation(v: &[usize], n: usize) {
    assert_eq!(v.len(), n);
    let mut seen = vec![false; n];
    for &x in v {
        assert!(x < n);
        assert!(!seen[x], "value {} appears twice", x);
        seen[x] = true;
    }
}

#[test]
fn full_shuffle_is_permutation_every_mode() {
    let seed = b"any seed".to_vec();
    for n in [0usize, 1, 2, 3, 10, 100] {
        for backend in [Backend::Fast, Backend::Secure] {
            assert_is_permutation(&full_shuffle(n, backend, &Seeding::Unseeded), n);
            assert_is_permutation(
                &full_shuffle(n, backend, &Seeding::SeededWith(seed.clone())),
                n,
            );
        }
    }
}

#[test]
fn gen_shuffles_are_permutations() {
    assert_is_permutation(&gen_modern_shuffle(50), 50);
    assert_is_permutation(&gen_crypto_modern_shuffle(50), 50);
    assert_is_permutation(&gen_modern_shuffle_from_seed(50, b"s".to_vec()), 50);
    assert_is_permutation(&gen_crypto_modern_shuffle_from_seed(50, b"s".to_vec()), 50);
    assert_is_permutation(&gen_fastrand_shuffle(50), 50);
    assert_is_permutation(&gen_fastrand_shuffle_from_seed(50, b"s".to_vec()), 50);
}

fn positions_in(perm: &[usize], peers: &[usize]) -> HashMap<usize, usize> {
    let mut m = HashMap::new();
    for (at, &p) in perm.iter().enumerate() {
        if peers.contains(&p) {
            m.insert(p, at);
        }
    }
    m
}

#[test]
fn predict_agrees_with_full_shuffle_fast() {
    let seed = b"seed phrase".to_vec();
    let perm = full_shuffle(100, Backend::Fast, &Seeding::SeededWith(seed.clone()));
    let peers: Vec<usize> = vec![1, 5];
    let predicted =
        predict_positions(100, &peers, Backend::Fast, &Seeding::SeededWith(seed)).unwrap();
    assert_eq!(predicted, positions_in(&perm, &peers));
}

#[test]
fn predict_agrees_with_full_shuffle_secure() {
    let seed = b"seed phrase".to_vec();
    let perm = full_shuffle(100, Backend::Secure, &Seeding::SeededWith(seed.clone()));
    let peers: Vec<usize> = (0..100).collect();
    let predicted =
        predict_positions(100, &peers, Backend::Secure, &Seeding::SeededWith(seed)).unwrap();
    assert_eq!(predicted, positions_in(&perm, &peers));
}

#[test]
fn predict_agrees_for_every_position() {
    let seed = b"agreement".to_vec();
    let perm = full_shuffle(200, Backend::Fast, &Seeding::SeededWith(seed.clone()));
    let peers: Vec<usize> = (0..200).collect();
    let predicted = gen_predictive_shuffle_from_seed(200, peers, seed);
    for (at, &p) in perm.iter().enumerate() {
        assert_eq!(predicted[&p], at);
    }
}

#[test]
fn seeded_runs_are_deterministic() {
    let m1 = gen_predictive_shuffle_from_seed(100, vec![1, 5, 7], b"seed phrase".to_vec());
    let m2 = gen_predictive_shuffle_from_seed(100, vec![1, 5, 7], b"seed phrase".to_vec());
    assert_eq!(m1, m2);
    let v1 = gen_modern_shuffle_from_seed(100, b"seed phrase".to_vec());
    let v2 = gen_modern_shuffle_from_seed(100, b"seed phrase".to_vec());
    assert_eq!(v1, v2);
    let c1 = gen_crypto_predictive_shuffle_from_seed(100, (0..100).collect(), b"x".to_vec());
    let c2 = gen_crypto_predictive_shuffle_from_seed(100, (0..100).collect(), b"x".to_vec());
    assert_eq!(c1, c2);
}

#[test]
fn entropy_seeded_secure_runs_differ() {
    let peers: Vec<usize> = (0..100).collect();
    let m1 = gen_crypto_predictive_shuffle(100, peers.clone());
    let m2 = gen_crypto_predictive_shuffle(100, peers);
    assert_ne!(m1, m2);
}

#[test]
fn predict_covers_distinct_positions() {
    let m = gen_predictive_shuffle(100, vec![1, 5, 5, 1]);
    assert_eq!(m.len(), 2);
    assert!(m.contains_key(&1) && m.contains_key(&5));
    let all: Vec<usize> = (0..100).collect();
    let m = gen_crypto_predictive_shuffle(100, all);
    assert_eq!(m.len(), 100);
}

#[test]
fn single_position_stays_put() {
    for backend in [Backend::Fast, Backend::Secure] {
        for seeding in [Seeding::Unseeded, Seeding::SeededWith(b"seed".to_vec())] {
            assert_eq!(full_shuffle(1, backend, &seeding), vec![0]);
            let m = predict_positions(1, &vec![0], backend, &seeding).unwrap();
            assert_eq!(m.len(), 1);
            assert_eq!(m[&0], 0);
        }
    }
}

#[test]
fn batched_values_are_distinct() {
    let seed = b"seed phrase".to_vec();
    let peers: Vec<usize> = (0..100).collect();
    for batch in [1usize, 2, 4, 50, 100] {
        let m = batched_predict_positions(
            100,
            &peers,
            batch,
            Backend::Fast,
            &Seeding::SeededWith(seed.clone()),
        )
        .unwrap();
        assert_eq!(m.len(), 100);
        let mut seen = vec![false; 100];
        for (_, &at) in m.iter() {
            assert!(at < 100 && !seen[at]);
            seen[at] = true;
        }
        let m = batched_predict_positions(
            100,
            &peers,
            batch,
            Backend::Secure,
            &Seeding::SeededWith(seed.clone()),
        )
        .unwrap();
        assert_eq!(m.len(), 100);
        let mut seen = vec![false; 100];
        for (_, &at) in m.iter() {
            assert!(at < 100 && !seen[at]);
            seen[at] = true;
        }
    }
    let m = gen_batch_predictive_shuffle(100, 4, (0..100).collect());
    assert_eq!(m.len(), 100);
    let m = gen_crypto_batch_predictive_shuffle(100, 4, (0..100).collect());
    assert_eq!(m.len(), 100);
}

#[test]
fn batched_million_positions_no_duplicates() {
    let n: usize = 1_000_000;
    let peers: Vec<usize> = (0..n).collect();
    let m = batched_predict_positions(
        n,
        &peers,
        8,
        Backend::Fast,
        &Seeding::SeededWith(b"an arbitrary seed".to_vec()),
    )
    .unwrap();
    assert_eq!(m.len(), n);
    let mut seen = vec![false; n];
    for (_, &at) in m.iter() {
        assert!(at < n && !seen[at]);
        seen[at] = true;
    }
}

#[test]
fn out_of_range_position_is_rejected() {
    let r = predict_positions(10, &vec![3, 10], Backend::Fast, &Seeding::Unseeded);
    assert_eq!(r, Err(ShuffleError::RangeError));
    let r = predict_positions(0, &vec![0], Backend::Secure, &Seeding::Unseeded);
    assert_eq!(r, Err(ShuffleError::RangeError));
    let r = batched_predict_positions(10, &vec![3, 10], 2, Backend::Fast, &Seeding::Unseeded);
    assert_eq!(r, Err(ShuffleError::RangeError));
}

#[test]
fn degenerate_batch_is_rejected() {
    let peers: Vec<usize> = vec![1, 5];
    let r = batched_predict_positions(10, &peers, 0, Backend::Fast, &Seeding::Unseeded);
    assert_eq!(r, Err(ShuffleError::ParameterError));
    let r = batched_predict_positions(10, &peers, 11, Backend::Secure, &Seeding::Unseeded);
    assert_eq!(r, Err(ShuffleError::ParameterError));
    assert!(batched_predict_positions(10, &peers, 10, Backend::Fast, &Seeding::Unseeded).is_ok());
}

#[test]
fn empty_peer_set_gives_empty_mapping() {
    let m = predict_positions(25, &Vec::new(), Backend::Fast, &Seeding::Unseeded).unwrap();
    assert!(m.is_empty());
}

#[test]
fn seed_phrase_scenario_pins_exact_values() {
    // N = 100, seed "seed phrase", positions {1, 5}, fast deterministic mode:
    // the mapping must equal the placement of 1 and 5 in a full shuffle with
    // the same derived key, whose values are pinned here.
    let seed = b"seed phrase".to_vec();
    let m = gen_predictive_shuffle_from_seed(100, vec![1, 5], seed.clone());
    assert_eq!(m.get(&1), Some(&87));
    assert_eq!(m.get(&5), Some(&49));
    let perm = full_shuffle(100, Backend::Fast, &Seeding::SeededWith(seed));
    assert_eq!(perm[87], 1);
    assert_eq!(perm[49], 5);
}

#[test]
fn seeded_fastrand_shuffle_pins_exact_arrangement() {
    let seed = b"seed phrase".to_vec();
    let v = gen_fastrand_shuffle_from_seed(10, seed.clone());
    assert_eq!(v, vec![1, 3, 6, 9, 5, 2, 7, 4, 8, 0]);
    let w = gen_modern_shuffle_from_seed(10, seed);
    assert_eq!(w, vec![5, 0, 2, 8, 1, 4, 7, 9, 6, 3]);
}

#[test]
fn secure_seeded_scenario_pins_exact_values() {
    let m = gen_crypto_predictive_shuffle_from_seed(100, vec![1, 5], b"seed phrase".to_vec());
    assert_eq!(m.get(&1), Some(&30));
    assert_eq!(m.get(&5), Some(&93));
}
