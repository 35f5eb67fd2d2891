//! The vector-level surface: every shuffle and prediction, as methods on the
//! vector whose positions are in question.  The shuffles rearrange the
//! elements themselves; the predictions read only the length and leave the
//! vector as it was.

use vstd::prelude::*;

use crate::model::{fy_apply, lemma_fy_from_multiset, valid_draws};
use crate::predict::{
    batch_core_pool, batch_core_secure, fast_pool, predict_core, spec_batch_predict, spec_predict,
};
use crate::seed::{derive_key, key_of_seed};
use crate::source::{key_draws, FastRng, RandomSource};
use crate::{Backend, Seeding};
use std::collections::HashMap;

verus! {

/// Shuffling and position prediction over an ordered collection of opaque
/// elements, addressed by position.
pub trait Shuffle<T>: Sized {
    /// The elements, in their current order.
    spec fn elems(&self) -> Seq<T>;

    /// Rearranges the elements in place with `fastrand`'s own shuffle,
    /// entropy-seeded: the contents are kept as a multiset.
    fn fastrand_shuffle(&mut self)
        ensures
            final(self).elems().to_multiset() == old(self).elems().to_multiset(),
    ;

    /// Rearranges the elements in place with `fastrand`'s own shuffle under
    /// the key the seed derives: the contents are kept as a multiset.
    fn fastrand_shuffle_from_seed(&mut self, seed: Vec<u8>)
        ensures
            final(self).elems().to_multiset() == old(self).elems().to_multiset(),
    ;

    /// One Fisher–Yates pass under the entropy-seeded fast backend: the
    /// result holds the same elements; the vector itself is drained.
    fn modern_shuffle(&mut self) -> (r: Vec<T>)
        ensures
            r@.to_multiset() == old(self).elems().to_multiset(),
            final(self).elems() == Seq::<T>::empty(),
    ;

    /// One Fisher–Yates pass under the fast backend seeded from the given
    /// bytes: the arrangement the derived key determines.
    fn modern_shuffle_from_seed(&mut self, seed: Vec<u8>) -> (r: Vec<T>)
        ensures
            r@.to_multiset() == old(self).elems().to_multiset(),
            final(self).elems() == Seq::<T>::empty(),
            r@ == fy_apply(
                old(self).elems(),
                key_draws(Backend::Fast, key_of_seed(seed@), old(self).elems().len()),
            ),
            valid_draws(
                old(self).elems().len(),
                key_draws(Backend::Fast, key_of_seed(seed@), old(self).elems().len()),
            ),
    ;

    /// One Fisher–Yates pass under the entropy-seeded secure backend.
    fn crypto_modern_shuffle(&mut self) -> (r: Vec<T>)
        ensures
            r@.to_multiset() == old(self).elems().to_multiset(),
            final(self).elems() == Seq::<T>::empty(),
    ;

    /// One Fisher–Yates pass under the secure backend seeded from the given
    /// bytes: the arrangement the derived key determines.
    fn crypto_modern_shuffle_from_seed(&mut self, seed: Vec<u8>) -> (r: Vec<T>)
        ensures
            r@.to_multiset() == old(self).elems().to_multiset(),
            final(self).elems() == Seq::<T>::empty(),
            r@ == fy_apply(
                old(self).elems(),
                key_draws(Backend::Secure, key_of_seed(seed@), old(self).elems().len()),
            ),
            valid_draws(
                old(self).elems().len(),
                key_draws(Backend::Secure, key_of_seed(seed@), old(self).elems().len()),
            ),
    ;

    /// Where each requested position lands under an entropy-seeded fast
    /// shuffle of this vector, without performing it: the mapping covers
    /// exactly the distinct requested positions, with pairwise distinct
    /// values below the length.
    fn predictive_shuffle(&mut self, positions: Vec<usize>) -> (m: HashMap<usize, usize>)
        requires
            forall|t: int|
                0 <= t < positions@.len() ==> (#[trigger] positions@[t] as int)
                    < old(self).elems().len(),
        ensures
            final(self).elems() == old(self).elems(),
            m@.dom() == positions@.to_set(),
            forall|p: usize| #[trigger] m@.contains_key(p) ==> m@[p] < old(self).elems().len(),
            forall|p1: usize, p2: usize|
                m@.contains_key(p1) && m@.contains_key(p2) && p1 != p2 ==> m@[p1] != m@[p2],
    ;

    /// Where each requested position lands under the fast shuffle the seed
    /// determines: the mapping the derived key pins down.
    fn predictive_shuffle_from_seed(&mut self, positions: Vec<usize>, seed: Vec<u8>) -> (m: HashMap<
        usize,
        usize,
    >)
        requires
            forall|t: int|
                0 <= t < positions@.len() ==> (#[trigger] positions@[t] as int)
                    < old(self).elems().len(),
        ensures
            final(self).elems() == old(self).elems(),
            m@.dom() == positions@.to_set(),
            forall|p: usize| #[trigger] m@.contains_key(p) ==> m@[p] < old(self).elems().len(),
            forall|p1: usize, p2: usize|
                m@.contains_key(p1) && m@.contains_key(p2) && p1 != p2 ==> m@[p1] != m@[p2],
            m@ == spec_predict(
                old(self).elems().len(),
                positions@.to_set(),
                Backend::Fast,
                key_of_seed(seed@),
            ),
    ;

    /// Where each requested position lands under an entropy-seeded secure
    /// shuffle of this vector.
    fn crypto_predictive_shuffle(&mut self, positions: Vec<usize>) -> (m: HashMap<usize, usize>)
        requires
            forall|t: int|
                0 <= t < positions@.len() ==> (#[trigger] positions@[t] as int)
                    < old(self).elems().len(),
        ensures
            final(self).elems() == old(self).elems(),
            m@.dom() == positions@.to_set(),
            forall|p: usize| #[trigger] m@.contains_key(p) ==> m@[p] < old(self).elems().len(),
            forall|p1: usize, p2: usize|
                m@.contains_key(p1) && m@.contains_key(p2) && p1 != p2 ==> m@[p1] != m@[p2],
    ;

    /// Where each requested position lands under the secure shuffle the seed
    /// determines: the mapping the derived key pins down.
    fn crypto_predictive_shuffle_from_seed(
        &mut self,
        positions: Vec<usize>,
        seed: Vec<u8>,
    ) -> (m: HashMap<usize, usize>)
        requires
            forall|t: int|
                0 <= t < positions@.len() ==> (#[trigger] positions@[t] as int)
                    < old(self).elems().len(),
        ensures
            final(self).elems() == old(self).elems(),
            m@.dom() == positions@.to_set(),
            forall|p: usize| #[trigger] m@.contains_key(p) ==> m@[p] < old(self).elems().len(),
            forall|p1: usize, p2: usize|
                m@.contains_key(p1) && m@.contains_key(p2) && p1 != p2 ==> m@[p1] != m@[p2],
            m@ == spec_predict(
                old(self).elems().len(),
                positions@.to_set(),
                Backend::Secure,
                key_of_seed(seed@),
            ),
    ;

    /// The batched, draw-reducing prediction over an entropy-seeded fast
    /// pool: values are still pairwise distinct, though not the exact
    /// full-shuffle placement.
    fn batch_predictive_shuffle(&mut self, batch: usize, positions: Vec<usize>) -> (m: HashMap<
        usize,
        usize,
    >)
        requires
            1 <= batch <= old(self).elems().len(),
            forall|t: int|
                0 <= t < positions@.len() ==> (#[trigger] positions@[t] as int)
                    < old(self).elems().len(),
        ensures
            final(self).elems() == old(self).elems(),
            m@.dom() == positions@.to_set(),
            forall|p: usize| #[trigger] m@.contains_key(p) ==> m@[p] < old(self).elems().len(),
            forall|p1: usize, p2: usize|
                m@.contains_key(p1) && m@.contains_key(p2) && p1 != p2 ==> m@[p1] != m@[p2],
    ;

    /// The batched prediction over the fast pool the seed determines: the
    /// mapping the derived key pins down.
    fn batch_predictive_shuffle_from_seed(
        &mut self,
        batch: usize,
        positions: Vec<usize>,
        seed: Vec<u8>,
    ) -> (m: HashMap<usize, usize>)
        requires
            1 <= batch <= old(self).elems().len(),
            forall|t: int|
                0 <= t < positions@.len() ==> (#[trigger] positions@[t] as int)
                    < old(self).elems().len(),
        ensures
            final(self).elems() == old(self).elems(),
            m@.dom() == positions@.to_set(),
            forall|p: usize| #[trigger] m@.contains_key(p) ==> m@[p] < old(self).elems().len(),
            forall|p1: usize, p2: usize|
                m@.contains_key(p1) && m@.contains_key(p2) && p1 != p2 ==> m@[p1] != m@[p2],
            m@ == spec_batch_predict(
                old(self).elems().len(),
                positions@.to_set(),
                batch as nat,
                key_of_seed(seed@),
            ),
    ;

    /// The batched prediction with fresh secure draws for the first pool's
    /// worth of steps, entropy-seeded.
    fn crypto_batch_predictive_shuffle(&mut self, batch: usize, positions: Vec<usize>) -> (m:
        HashMap<usize, usize>)
        requires
            1 <= batch <= old(self).elems().len(),
            forall|t: int|
                0 <= t < positions@.len() ==> (#[trigger] positions@[t] as int)
                    < old(self).elems().len(),
        ensures
            final(self).elems() == old(self).elems(),
            m@.dom() == positions@.to_set(),
            forall|p: usize| #[trigger] m@.contains_key(p) ==> m@[p] < old(self).elems().len(),
            forall|p1: usize, p2: usize|
                m@.contains_key(p1) && m@.contains_key(p2) && p1 != p2 ==> m@[p1] != m@[p2],
    ;

    /// The batched prediction with fresh secure draws, seeded from the given
    /// bytes.
    fn crypto_batch_predictive_shuffle_from_seed(
        &mut self,
        batch: usize,
        positions: Vec<usize>,
        seed: Vec<u8>,
    ) -> (m: HashMap<usize, usize>)
        requires
            1 <= batch <= old(self).elems().len(),
            forall|t: int|
                0 <= t < positions@.len() ==> (#[trigger] positions@[t] as int)
                    < old(self).elems().len(),
        ensures
            final(self).elems() == old(self).elems(),
            m@.dom() == positions@.to_set(),
            forall|p: usize| #[trigger] m@.contains_key(p) ==> m@[p] < old(self).elems().len(),
            forall|p1: usize, p2: usize|
                m@.contains_key(p1) && m@.contains_key(p2) && p1 != p2 ==> m@[p1] != m@[p2],
    ;
}

impl<T> Shuffle<T> for Vec<T> {
    open spec fn elems(&self) -> Seq<T> {
        self@
    }

    fn fastrand_shuffle(&mut self) {
        let rng = FastRng::from_entropy();
        rng.shuffle_vec(self);
    }

    fn fastrand_shuffle_from_seed(&mut self, seed: Vec<u8>) {
        let rng = FastRng::from_key(derive_key(&seed));
        rng.shuffle_vec(self);
    }

    fn modern_shuffle(&mut self) -> (r: Vec<T>) {
        let mut taken: Vec<T> = Vec::new();
        core::mem::swap(self, &mut taken);
        let mut source = RandomSource::from_mode(Backend::Fast, &Seeding::Unseeded);
        let out = shuffle_taken(taken, &mut source);
        out
    }

    fn modern_shuffle_from_seed(&mut self, seed: Vec<u8>) -> (r: Vec<T>) {
        let mut taken: Vec<T> = Vec::new();
        core::mem::swap(self, &mut taken);
        let mut source = RandomSource::from_mode(Backend::Fast, &Seeding::SeededWith(seed));
        let out = shuffle_taken(taken, &mut source);
        out
    }

    fn crypto_modern_shuffle(&mut self) -> (r: Vec<T>) {
        let mut taken: Vec<T> = Vec::new();
        core::mem::swap(self, &mut taken);
        let mut source = RandomSource::from_mode(Backend::Secure, &Seeding::Unseeded);
        let out = shuffle_taken(taken, &mut source);
        out
    }

    fn crypto_modern_shuffle_from_seed(&mut self, seed: Vec<u8>) -> (r: Vec<T>) {
        let mut taken: Vec<T> = Vec::new();
        core::mem::swap(self, &mut taken);
        let mut source = RandomSource::from_mode(Backend::Secure, &Seeding::SeededWith(seed));
        let out = shuffle_taken(taken, &mut source);
        out
    }

    fn predictive_shuffle(&mut self, positions: Vec<usize>) -> (m: HashMap<usize, usize>) {
        let mut source = RandomSource::from_mode(Backend::Fast, &Seeding::Unseeded);
        predict_core(self.len(), &positions, &mut source)
    }

    fn predictive_shuffle_from_seed(&mut self, positions: Vec<usize>, seed: Vec<u8>) -> (m: HashMap<
        usize,
        usize,
    >) {
        let mut source = RandomSource::from_mode(Backend::Fast, &Seeding::SeededWith(seed));
        predict_core(self.len(), &positions, &mut source)
    }

    fn crypto_predictive_shuffle(&mut self, positions: Vec<usize>) -> (m: HashMap<usize, usize>) {
        let mut source = RandomSource::from_mode(Backend::Secure, &Seeding::Unseeded);
        predict_core(self.len(), &positions, &mut source)
    }

    fn crypto_predictive_shuffle_from_seed(
        &mut self,
        positions: Vec<usize>,
        seed: Vec<u8>,
    ) -> (m: HashMap<usize, usize>) {
        let mut source = RandomSource::from_mode(Backend::Secure, &Seeding::SeededWith(seed));
        predict_core(self.len(), &positions, &mut source)
    }

    fn batch_predictive_shuffle(&mut self, batch: usize, positions: Vec<usize>) -> (m: HashMap<
        usize,
        usize,
    >) {
        let size = self.len();
        let range = size / batch;
        proof {
            assert(range >= 1) by (nonlinear_arith)
                requires
                    range == size / batch,
                    1 <= batch <= size,
            ;
        }
        let pool = fast_pool(range, &Seeding::Unseeded);
        batch_core_pool(size, &positions, &pool)
    }

    fn batch_predictive_shuffle_from_seed(
        &mut self,
        batch: usize,
        positions: Vec<usize>,
        seed: Vec<u8>,
    ) -> (m: HashMap<usize, usize>) {
        let size = self.len();
        let range = size / batch;
        proof {
            assert(range >= 1) by (nonlinear_arith)
                requires
                    range == size / batch,
                    1 <= batch <= size,
            ;
        }
        let pool = fast_pool(range, &Seeding::SeededWith(seed));
        batch_core_pool(size, &positions, &pool)
    }

    fn crypto_batch_predictive_shuffle(&mut self, batch: usize, positions: Vec<usize>) -> (m:
        HashMap<usize, usize>) {
        let size = self.len();
        let range = size / batch;
        proof {
            assert(1 <= range <= size) by (nonlinear_arith)
                requires
                    range == size / batch,
                    1 <= batch <= size,
            ;
        }
        let mut source = RandomSource::from_mode(Backend::Secure, &Seeding::Unseeded);
        batch_core_secure(size, &positions, range, &mut source)
    }

    fn crypto_batch_predictive_shuffle_from_seed(
        &mut self,
        batch: usize,
        positions: Vec<usize>,
        seed: Vec<u8>,
    ) -> (m: HashMap<usize, usize>) {
        let size = self.len();
        let range = size / batch;
        proof {
            assert(1 <= range <= size) by (nonlinear_arith)
                requires
                    range == size / batch,
                    1 <= batch <= size,
            ;
        }
        let mut source = RandomSource::from_mode(Backend::Secure, &Seeding::SeededWith(seed));
        batch_core_secure(size, &positions, range, &mut source)
    }
}

/// One Fisher–Yates pass over the drained elements, with the multiset and,
/// for a key-seeded source, the exact arrangement of the result related to
/// the input.
fn shuffle_taken<T>(v: Vec<T>, source: &mut RandomSource) -> (out: Vec<T>)
    requires
        old(source).history() == Seq::<usize>::empty(),
    ensures
        out@.to_multiset() == v@.to_multiset(),
        old(source).key_model() matches Some((b, k)) ==> {
            let ds = key_draws(b, k, v@.len());
            &&& valid_draws(v@.len(), ds)
            &&& out@ == fy_apply(v@, ds)
        },
{
    let ghost km = source.key_model();
    let ghost orig = v@;
    let out = crate::shuffle::shuffle_elements(v, source);
    proof {
        let ds = choose|ds: Seq<usize>|
            {
                &&& #[trigger] valid_draws(orig.len(), ds)
                &&& ds.len() == orig.len()
                &&& out@ == fy_apply(orig, ds)
                &&& (km matches Some((b, k)) ==> ds == key_draws(b, k, orig.len()))
            };
        lemma_fy_from_multiset(orig, ds, 0);
    }
    out
}

} // verus!
