//! Seed-reproducible permutations of `[0, n)`, and prediction of where chosen
//! positions land after such a permutation, without materializing it.
//!
//! The shuffle is the Durstenfeld form of Fisher–Yates: for `i` from `n-1`
//! down to `0` a value `x <= i` is drawn and positions `i` and `x` are
//! exchanged, fixing position `i`.  The predictive run issues the identical
//! draws but keeps only a marker array of the positions a caller asked about,
//! stopping as soon as all of them are settled.  A batched variant reuses a
//! small pre-shuffled pool of draws, trading exact agreement with the full
//! shuffle for fewer draws; its result is still injective.
//!
//! Draws come from one of two backends: a fast generator (`fastrand`) and a
//! cryptographically secure one (ChaCha20), each either freshly entropy-seeded
//! or seeded from a key derived by hashing caller-supplied seed bytes.

use vstd::prelude::*;

pub mod laws;
pub mod model;
pub mod predict;
pub mod seed;
pub mod shuffle;
pub mod source;
pub mod vec_shuffle;

pub use predict::{
    batched_predict_positions, gen_batch_predictive_shuffle, gen_batch_predictive_shuffle_from_seed,
    gen_crypto_batch_predictive_shuffle, gen_crypto_batch_predictive_shuffle_from_seed,
    gen_crypto_predictive_shuffle, gen_crypto_predictive_shuffle_from_seed, gen_predictive_shuffle,
    gen_predictive_shuffle_from_seed, predict_positions,
};
pub use seed::{byte_array, hash, truncate_to_u64};
pub use shuffle::{
    full_shuffle, gen_crypto_modern_shuffle, gen_crypto_modern_shuffle_from_seed,
    gen_fastrand_shuffle, gen_fastrand_shuffle_from_seed, gen_modern_shuffle,
    gen_modern_shuffle_from_seed,
};
pub use vec_shuffle::Shuffle;

verus! {

/// Which draw generator backs a run.
#[derive(Clone, Copy, PartialEq, Eq, Structural, Debug)]
pub enum Backend {
    /// A fast, deterministic-when-seeded generator; not attack-resistant.
    Fast,
    /// A cryptographically secure generator for unpredictable draws.
    Secure,
}

/// Whether a run is reproducible from caller-supplied seed bytes or drawn
/// from fresh entropy.
#[derive(Clone, Debug)]
pub enum Seeding {
    /// Seed from system entropy: results are not reproducible.
    Unseeded,
    /// Derive the generator key from these bytes: results are reproducible.
    SeededWith(Vec<u8>),
}

/// Rejected caller input.
#[derive(Clone, Copy, PartialEq, Eq, Structural, Debug)]
pub enum ShuffleError {
    /// A requested position lies outside `[0, n)`.
    RangeError,
    /// A derived digest is shorter than the prefix a key needs.
    KeyLengthError,
    /// A batch size is zero or exceeds the number of positions.
    ParameterError,
}

impl ShuffleError {
    /// A short description of the error.
    pub fn message(&self) -> (r: &'static str)
        ensures
            r@.len() > 0,
    {
        proof {
            reveal_strlit("position out of range");
            reveal_strlit("digest shorter than the key prefix");
            reveal_strlit("batch size out of range");
        }
        match self {
            ShuffleError::RangeError => "position out of range",
            ShuffleError::KeyLengthError => "digest shorter than the key prefix",
            ShuffleError::ParameterError => "batch size out of range",
        }
    }
}

} // verus!
