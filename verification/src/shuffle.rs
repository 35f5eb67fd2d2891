//! The full shuffle: a verified Durstenfeld Fisher–Yates pass over a vector,
//! entry points for every backend and seeding, and the `fastrand`-native
//! shuffles the library also offers.

use vstd::prelude::*;

use crate::model::{
    fy_apply, ident_seq, is_permutation, lemma_fy_from_len, lemma_fy_from_permutation,
    lemma_fy_from_push, lemma_ident_is_permutation, swap_seq, valid_draws,
};
use crate::seed::{derive_key, key_of_seed};
use crate::source::{fast_shuffled, fy_bounds, key_draws, FastRng, RandomSource};
use crate::{Backend, Seeding};

verus! {

broadcast use vstd::seq_lib::group_to_multiset_ensures;

/// A vector holding `0, 1, ..., n-1`.
pub fn ident_vec(n: usize) -> (r: Vec<usize>)
    ensures
        r@ == ident_seq(n as nat),
{
    let mut r: Vec<usize> = Vec::new();
    let mut j: usize = 0;
    while j < n
        invariant
            j <= n,
            r@ =~= ident_seq(j as nat),
        decreases n - j,
    {
        r.push(j);
        proof {
            assert(r@ =~= ident_seq((j + 1) as nat));
        }
        j += 1;
    }
    proof {
        assert(r@ =~= ident_seq(n as nat));
    }
    r
}

/// One Fisher–Yates pass: for `i` from `n-1` down to `0`, draw `x <= i` and
/// settle the element standing at `x` as entry `i` of the result.  The draws
/// consumed are exactly one per position, the draw for position `i` bounded
/// by `i`, so a key-seeded run consumes `key_draws` and lands on `fy_apply`.
pub fn shuffle_elements<T>(v: Vec<T>, source: &mut RandomSource) -> (out: Vec<T>)
    requires
        old(source).history() == Seq::<usize>::empty(),
    ensures
        ({
            let n = v@.len() as nat;
            exists|ds: Seq<usize>|
                {
                    &&& #[trigger] valid_draws(n, ds)
                    &&& ds.len() == n
                    &&& out@ == fy_apply(v@, ds)
                    &&& (old(source).key_model() matches Some((b, k)) ==> ds == key_draws(
                        b,
                        k,
                        n,
                    ))
                }
        }),
{
    let n = v.len();
    let ghost orig = v@;
    let mut pool = v;
    let mut picked: Vec<T> = Vec::new();
    let ghost mut ds: Seq<usize> = Seq::empty();
    let mut i2: usize = n;
    proof {
        assert(fy_bounds(n as nat, 0) =~= Seq::<usize>::empty());
        assert(pool@ =~= fy_apply(orig, ds).take(n as int));
        assert(picked@ =~= fy_apply(orig, ds).skip(n as int).reverse());
    }
    while i2 > 0
        invariant
            i2 <= n,
            n == orig.len(),
            ds.len() == n - i2,
            valid_draws(n as nat, ds),
            source.history() == fy_bounds(n as nat, ds.len() as nat),
            source.key_model() == old(source).key_model(),
            old(source).key_model() matches Some((b, k)) ==> ds == key_draws(b, k, n as nat).take(
                ds.len() as int,
            ),
            pool@ == fy_apply(orig, ds).take(i2 as int),
            picked@ == fy_apply(orig, ds).skip(i2 as int).reverse(),
        decreases i2,
    {
        let ghost cur = fy_apply(orig, ds);
        proof {
            lemma_fy_from_len(orig, ds, 0);
        }
        let i = i2 - 1;
        let x = source.next_in_range(i);
        proof {
            assert(valid_draws(n as nat, ds.push(x)));
            lemma_fy_from_push(orig, ds, x, 0);
            assert(fy_bounds(n as nat, (ds.len() + 1) as nat) =~= fy_bounds(
                n as nat,
                ds.len() as nat,
            ).push(i));
            match old(source).key_model() {
                Some((b, k)) => {
                    let full = key_draws(b, k, n as nat);
                    assert(full[ds.len() as int] == x);
                    assert(full.take((ds.len() + 1) as int) =~= full.take(ds.len() as int).push(
                        x,
                    ));
                },
                None => {},
            }
        }
        let e = pool.swap_remove(x);
        picked.push(e);
        proof {
            let cur1 = fy_apply(orig, ds.push(x));
            assert(cur1 == swap_seq(cur, i as int, x as int));
            assert(e == cur[x as int]);
            assert(cur1[i as int] == cur[x as int]);
            assert forall|j: int| 0 <= j < n && j != i && j != x implies cur1[j] == cur[j] by {}
            assert(pool@ =~= cur1.take(i as int));
            assert(picked@ =~= cur1.skip(i as int).reverse());
            ds = ds.push(x);
        }
        i2 = i;
    }
    // Everything is settled; `picked` holds the result backwards.
    let ghost target = fy_apply(orig, ds);
    proof {
        lemma_fy_from_len(orig, ds, 0);
        assert(picked@ =~= target.reverse());
    }
    let mut out: Vec<T> = Vec::new();
    loop
        invariant
            target.len() == n,
            out@.len() <= n,
            out@ == target.take(out@.len() as int),
            picked@ == target.skip(out@.len() as int).reverse(),
        ensures
            out@ == target,
        decreases picked@.len(),
    {
        let ghost m = out@.len() as int;
        match picked.pop() {
            Some(e) => {
                proof {
                    assert(picked@.push(e) == target.skip(m).reverse());
                    assert(e == target.skip(m).reverse().last());
                    assert(e == target[m]);
                    assert(picked@ =~= target.skip(m + 1).reverse());
                }
                out.push(e);
                proof {
                    assert(out@ =~= target.take(m + 1));
                }
            },
            None => {
                proof {
                    assert(target.skip(m).reverse().len() == 0);
                    assert(out@ =~= target);
                }
                break ;
            },
        }
    }
    proof {
        match old(source).key_model() {
            Some((b, k)) => {
                assert(ds =~= key_draws(b, k, n as nat));
            },
            None => {},
        }
    }
    out
}

/// The canonical full shuffle: the permutation of `[0, n)` that one
/// Fisher–Yates pass under the chosen backend and seeding produces.  The
/// result always arranges each of the `n` positions exactly once; a seeded
/// run is pinned to the draw sequence its key determines.
pub fn full_shuffle(n: usize, backend: Backend, seeding: &Seeding) -> (r: Vec<usize>)
    ensures
        is_permutation(r@, n as nat),
        seeding matches Seeding::SeededWith(bytes) ==> {
            let ds = key_draws(backend, key_of_seed(bytes@), n as nat);
            &&& valid_draws(n as nat, ds)
            &&& r@ == fy_apply(ident_seq(n as nat), ds)
        },
{
    let v = ident_vec(n);
    let mut source = RandomSource::from_mode(backend, seeding);
    let ghost km = source.key_model();
    let out = shuffle_elements(v, &mut source);
    proof {
        let ds = choose|ds: Seq<usize>|
            {
                &&& #[trigger] valid_draws(n as nat, ds)
                &&& ds.len() == n as nat
                &&& out@ == fy_apply(ident_seq(n as nat), ds)
                &&& (km matches Some((b, k)) ==> ds == key_draws(b, k, n as nat))
            };
        lemma_ident_is_permutation(n as nat);
        lemma_fy_from_permutation(ident_seq(n as nat), ds, n as nat, 0);
        match seeding {
            Seeding::SeededWith(bytes) => {
                assert(km == Some((backend, key_of_seed(bytes@))));
                assert(ds == key_draws(backend, key_of_seed(bytes@), n as nat));
            },
            Seeding::Unseeded => {},
        }
    }
    out
}

/// A shuffled vector of the `size` positions, drawn from entropy with the
/// fast backend.
pub fn gen_modern_shuffle(size: usize) -> (r: Vec<usize>)
    ensures
        is_permutation(r@, size as nat),
{
    full_shuffle(size, Backend::Fast, &Seeding::Unseeded)
}

/// A shuffled vector of the `size` positions, drawn from entropy with the
/// secure backend.
pub fn gen_crypto_modern_shuffle(size: usize) -> (r: Vec<usize>)
    ensures
        is_permutation(r@, size as nat),
{
    full_shuffle(size, Backend::Secure, &Seeding::Unseeded)
}

/// The permutation the given seed determines under the fast backend.
pub fn gen_modern_shuffle_from_seed(size: usize, seed: Vec<u8>) -> (r: Vec<usize>)
    ensures
        is_permutation(r@, size as nat),
        r@ == fy_apply(ident_seq(size as nat), key_draws(Backend::Fast, key_of_seed(seed@), size as nat)),
        valid_draws(size as nat, key_draws(Backend::Fast, key_of_seed(seed@), size as nat)),
{
    full_shuffle(size, Backend::Fast, &Seeding::SeededWith(seed))
}

/// The permutation the given seed determines under the secure backend.
pub fn gen_crypto_modern_shuffle_from_seed(size: usize, seed: Vec<u8>) -> (r: Vec<usize>)
    ensures
        is_permutation(r@, size as nat),
        r@ == fy_apply(
            ident_seq(size as nat),
            key_draws(Backend::Secure, key_of_seed(seed@), size as nat),
        ),
        valid_draws(size as nat, key_draws(Backend::Secure, key_of_seed(seed@), size as nat)),
{
    full_shuffle(size, Backend::Secure, &Seeding::SeededWith(seed))
}

/// A vector of the `size` positions rearranged by `fastrand`'s own shuffle,
/// entropy-seeded: the contents are kept as a multiset.
pub fn gen_fastrand_shuffle(size: usize) -> (r: Vec<usize>)
    ensures
        r@.to_multiset() == ident_seq(size as nat).to_multiset(),
        r@.len() == size,
{
    let mut v = ident_vec(size);
    let rng = FastRng::from_entropy();
    rng.shuffle_vec(&mut v);
    proof {
        assert(v@.to_multiset().len() == v@.len());
        assert(ident_seq(size as nat).to_multiset().len() == ident_seq(size as nat).len());
    }
    v
}

/// A vector of the `size` positions rearranged by `fastrand`'s own shuffle
/// under the key the seed derives: the arrangement `fast_shuffled` names.
pub fn gen_fastrand_shuffle_from_seed(size: usize, seed: Vec<u8>) -> (r: Vec<usize>)
    ensures
        r@.to_multiset() == ident_seq(size as nat).to_multiset(),
        r@.len() == size,
        r@ == fast_shuffled(key_of_seed(seed@), ident_seq(size as nat)),
{
    let mut v = ident_vec(size);
    let rng = FastRng::from_key(derive_key(&seed));
    rng.shuffle_positions(&mut v);
    proof {
        assert(v@.to_multiset().len() == v@.len());
        assert(ident_seq(size as nat).to_multiset().len() == ident_seq(size as nat).len());
    }
    v
}

} // verus!
