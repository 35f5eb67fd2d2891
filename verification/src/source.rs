//! The draw abstraction: a fast backend (`fastrand`) and a secure backend
//! (ChaCha20), each constructed either from a derived key or from system
//! entropy, behind one `next_in_range` capability.
//!
//! A generator value is opaque, so each one carries a ghost record of how it
//! was seeded and of the bounds drawn so far.  For a key-seeded generator the
//! draws are a pure function of the key and that history, which the
//! uninterpreted names `fast_draw` and `secure_draw` stand for; an
//! entropy-seeded generator promises nothing beyond the range of each draw.

use vstd::prelude::*;

use crate::model::valid_draws;
use crate::seed::{derive_key, key_of_seed};
use crate::{Backend, Seeding};
use rand::{Rng as _, SeedableRng};

verus! {

#[verifier::external_type_specification]
#[verifier::external_body]
pub struct ExFastrandRng(fastrand::Rng);

#[verifier::external_type_specification]
#[verifier::external_body]
pub struct ExChaCha20Rng(rand_chacha::ChaCha20Rng);

/// What a key-seeded fastrand generator draws from `0..=bound` after the
/// draws whose bounds are `prior`: a function of those arguments alone.
pub uninterp spec fn fast_draw(key: u64, prior: Seq<usize>, bound: usize) -> usize;

/// What a key-seeded ChaCha20 generator draws from `0..=bound` after the
/// draws whose bounds are `prior`: a function of those arguments alone.
pub uninterp spec fn secure_draw(key: u64, prior: Seq<usize>, bound: usize) -> usize;

/// How a freshly key-seeded fastrand generator rearranges a slice: a function
/// of the key and the contents alone.
pub uninterp spec fn fast_shuffled(key: u64, input: Seq<usize>) -> Seq<usize>;

/// The fast backend: a fastrand generator with the ghost record of its
/// seeding and its draw history.
pub struct FastRng {
    pub inner: fastrand::Rng,
    pub key: Ghost<Option<u64>>,
    pub history: Ghost<Seq<usize>>,
}

/// Relies on fastrand::Rng::with_seed: the generator whose state is exactly
/// the given key, as seeding an existing generator with it would leave it.
/// Nothing is claimed of the returned value; the ghost record is kept by the
/// verified constructor around it.
#[verifier::external_body]
fn fastrand_from_key(key: u64) -> fastrand::Rng {
    fastrand::Rng::with_seed(key)
}

/// Relies on fastrand::Rng::new: a generator forked from the thread-local
/// entropy-seeded one.  Nothing is claimed of the returned value.
#[verifier::external_body]
fn fastrand_from_entropy() -> fastrand::Rng {
    fastrand::Rng::new()
}

impl FastRng {
    /// A fast generator seeded with the given key.
    pub fn from_key(key: u64) -> (r: FastRng)
        ensures
            r.key@ == Some(key),
            r.history@ == Seq::<usize>::empty(),
    {
        FastRng {
            inner: fastrand_from_key(key),
            key: Ghost(Some(key)),
            history: Ghost(Seq::empty()),
        }
    }

    /// A fast generator seeded from entropy; no key is recorded.
    pub fn from_entropy() -> (r: FastRng)
        ensures
            r.key@ is None,
            r.history@ == Seq::<usize>::empty(),
    {
        FastRng { inner: fastrand_from_entropy(), key: Ghost(None), history: Ghost(Seq::empty()) }
    }

    /// Relies on fastrand::Rng::usize over `0..=bound`: the range is never
    /// empty, so the call returns, and the result lies within it; for a
    /// key-seeded generator the result is a function of the key and the
    /// bounds drawn before.
    #[verifier::external_body]
    pub fn next_in_range(&mut self, bound: usize) -> (x: usize)
        ensures
            x <= bound,
            final(self).key@ == old(self).key@,
            final(self).history@ == old(self).history@.push(bound),
            old(self).key@ matches Some(k) ==> x == fast_draw(k, old(self).history@, bound),
    {
        self.inner.usize(0..=bound)
    }

    /// Relies on fastrand::Rng::shuffle: it rearranges the slice in place by
    /// element exchanges, so the contents are kept as a multiset.
    #[verifier::external_body]
    pub fn shuffle_vec<T>(self, v: &mut Vec<T>)
        ensures
            final(v)@.to_multiset() == old(v)@.to_multiset(),
    {
        let mut rng = self.inner;
        rng.shuffle(v.as_mut_slice());
    }

    /// Relies on fastrand::Rng::shuffle, as `shuffle_vec` does; in addition,
    /// for a freshly key-seeded generator the arrangement it leaves is a
    /// function of the key and the contents alone, named `fast_shuffled`.
    #[verifier::external_body]
    pub fn shuffle_positions(self, v: &mut Vec<usize>)
        ensures
            final(v)@.to_multiset() == old(v)@.to_multiset(),
            self.key@ matches Some(k) ==> self.history@ == Seq::<usize>::empty() ==> final(v)@
                == fast_shuffled(k, old(v)@),
    {
        let mut rng = self.inner;
        rng.shuffle(v.as_mut_slice());
    }
}

/// The secure backend: a ChaCha20 generator with the ghost record of its
/// seeding and its draw history.
pub struct SecureRng {
    pub inner: rand_chacha::ChaCha20Rng,
    pub key: Ghost<Option<u64>>,
    pub history: Ghost<Seq<usize>>,
}

/// Relies on rand_core::SeedableRng::seed_from_u64 for ChaCha20Rng: a
/// deterministic expansion of the key into the generator state.  Nothing is
/// claimed of the returned value.
#[verifier::external_body]
fn chacha_from_key(key: u64) -> rand_chacha::ChaCha20Rng {
    rand_chacha::ChaCha20Rng::seed_from_u64(key)
}

/// Relies on rand_core::SeedableRng::from_entropy for ChaCha20Rng: a
/// generator seeded from the operating system's entropy source.  Nothing is
/// claimed of the returned value.
#[verifier::external_body]
fn chacha_from_entropy() -> rand_chacha::ChaCha20Rng {
    rand_chacha::ChaCha20Rng::from_entropy()
}

impl SecureRng {
    /// A secure generator seeded with the given key.
    pub fn from_key(key: u64) -> (r: SecureRng)
        ensures
            r.key@ == Some(key),
            r.history@ == Seq::<usize>::empty(),
    {
        SecureRng {
            inner: chacha_from_key(key),
            key: Ghost(Some(key)),
            history: Ghost(Seq::empty()),
        }
    }

    /// A secure generator seeded from entropy; no key is recorded.
    pub fn from_entropy() -> (r: SecureRng)
        ensures
            r.key@ is None,
            r.history@ == Seq::<usize>::empty(),
    {
        SecureRng { inner: chacha_from_entropy(), key: Ghost(None), history: Ghost(Seq::empty()) }
    }

    /// Relies on rand::Rng::gen_range over `0..=bound`: the range is never
    /// empty, so the call returns, and the result lies within it; for a
    /// key-seeded generator the result is a function of the key and the
    /// bounds drawn before.
    #[verifier::external_body]
    pub fn next_in_range(&mut self, bound: usize) -> (x: usize)
        ensures
            x <= bound,
            final(self).key@ == old(self).key@,
            final(self).history@ == old(self).history@.push(bound),
            old(self).key@ matches Some(k) ==> x == secure_draw(k, old(self).history@, bound),
    {
        self.inner.gen_range(0..=bound)
    }
}

/// A draw of either backend, as a function of the key and the history; which
/// function applies follows the backend.
pub open spec fn backend_draw(b: Backend, key: u64, prior: Seq<usize>, bound: usize) -> usize {
    match b {
        Backend::Fast => fast_draw(key, prior, bound),
        Backend::Secure => secure_draw(key, prior, bound),
    }
}

/// One capability over both backends, keeping their ghost records.
pub enum RandomSource {
    Fast(FastRng),
    Secure(SecureRng),
}

impl RandomSource {
    /// The backend and key this source was seeded with, if it was key-seeded.
    pub open spec fn key_model(&self) -> Option<(Backend, u64)> {
        match self {
            RandomSource::Fast(r) => match r.key@ {
                Some(k) => Some((Backend::Fast, k)),
                None => None,
            },
            RandomSource::Secure(r) => match r.key@ {
                Some(k) => Some((Backend::Secure, k)),
                None => None,
            },
        }
    }

    /// The bounds of the draws made so far.
    pub open spec fn history(&self) -> Seq<usize> {
        match self {
            RandomSource::Fast(r) => r.history@,
            RandomSource::Secure(r) => r.history@,
        }
    }

    /// A fresh source for the given backend and seeding: key-seeded sources
    /// carry the key the seed bytes derive, entropy-seeded sources carry none.
    pub fn from_mode(backend: Backend, seeding: &Seeding) -> (s: RandomSource)
        ensures
            s.history() == Seq::<usize>::empty(),
            (match seeding {
                Seeding::SeededWith(bytes) => s.key_model() == Some((backend, key_of_seed(bytes@))),
                Seeding::Unseeded => s.key_model() is None,
            }),
    {
        match backend {
            Backend::Fast => match seeding {
                Seeding::Unseeded => RandomSource::Fast(FastRng::from_entropy()),
                Seeding::SeededWith(bytes) => RandomSource::Fast(FastRng::from_key(derive_key(bytes))),
            },
            Backend::Secure => match seeding {
                Seeding::Unseeded => RandomSource::Secure(SecureRng::from_entropy()),
                Seeding::SeededWith(bytes) => RandomSource::Secure(
                    SecureRng::from_key(derive_key(bytes)),
                ),
            },
        }
    }

    /// A draw from `0..=bound`: within range always; a function of the key
    /// and the draw history for a key-seeded source.
    pub fn next_in_range(&mut self, bound: usize) -> (x: usize)
        ensures
            x <= bound,
            final(self).history() == old(self).history().push(bound),
            final(self).key_model() == old(self).key_model(),
            old(self).key_model() matches Some((b, k)) ==> x == backend_draw(
                b,
                k,
                old(self).history(),
                bound,
            ),
    {
        match self {
            RandomSource::Fast(r) => r.next_in_range(bound),
            RandomSource::Secure(r) => r.next_in_range(bound),
        }
    }
}

/// The bounds of the first `k` draws of a run over `n` positions: `n-1`,
/// `n-2`, and so on downward.
pub open spec fn fy_bounds(n: nat, k: nat) -> Seq<usize>
    recommends
        k <= n <= usize::MAX,
{
    Seq::new(k, |j: int| (n - 1 - j) as usize)
}

/// The whole draw sequence a key-seeded run over `n` positions consumes:
/// draw `k` is the backend's function of the key and the bounds before it.
pub open spec fn key_draws(b: Backend, key: u64, n: nat) -> Seq<usize>
    recommends
        n <= usize::MAX,
{
    Seq::new(n, |k: int| backend_draw(b, key, fy_bounds(n, k as nat), (n - 1 - k) as usize))
}

} // verus!
