//! Prediction of final positions: the marker-tracking run that issues the
//! same draws as the full shuffle but follows only the requested positions,
//! stopping as soon as all of them are settled, and the batched variant that
//! reuses a small pool of draws.

use vstd::prelude::*;

use crate::model::{
    init_state, lemma_occ_le_len, lemma_occ_update, lemma_occ_zero_all_none,
    lemma_pp_from_agree_prefix, lemma_pp_from_push, lemma_pp_from_stalls, lemma_pp_run_correct,
    occ_count, pp_from, pp_run, pp_step, valid_draws, PredictState,
};
use crate::seed::{derive_key, key_of_seed};
use crate::source::{backend_draw, fast_shuffled, fy_bounds, FastRng, RandomSource};
use crate::shuffle::ident_vec;
use crate::{Backend, Seeding, ShuffleError};
use std::collections::HashMap;
use vstd::pervasive::VecAdditionalExecFns;

verus! {

broadcast use vstd::std_specs::hash::group_hash_axioms, vstd::seq_lib::group_to_multiset_ensures;

/// The tracking run as the implementation performs it for a key-seeded
/// source: draws are taken lazily from the backend, and the run stops as
/// soon as nothing is tracked any more.
pub open spec fn pp_exec(
    st: PredictState,
    b: Backend,
    key: u64,
    hist: Seq<usize>,
    n: nat,
    k: int,
) -> PredictState
    decreases n - k,
{
    if k < 0 || k >= n || occ_count(st.slot) == 0 {
        st
    } else {
        let bound = (n - 1 - k) as usize;
        let x = backend_draw(b, key, hist, bound);
        pp_exec(pp_step(st, n - 1 - k, x as int), b, key, hist.push(bound), n, k + 1)
    }
}

/// The mapping a key-seeded tracking run returns: a function of the size,
/// the tracked set, the backend and the key alone.
pub open spec fn spec_predict(n: nat, peers: Set<usize>, b: Backend, key: u64) -> Map<
    usize,
    usize,
> {
    pp_exec(init_state(n, peers), b, key, Seq::empty(), n, 0).placed
}

/// The draw sequence a batched run over `n` positions takes from a pool:
/// draw `k`, settling position `i = n-1-k`, reads the pool at `i` modulo its
/// length and reduces it modulo `i+1`.
pub open spec fn batch_draws(pool: Seq<usize>, n: nat) -> Seq<usize>
    recommends
        pool.len() > 0,
        n <= usize::MAX,
{
    Seq::new(
        n,
        |k: int|
            {
                let i = n - 1 - k;
                ((pool[i % (pool.len() as int)] as int) % (i + 1)) as usize
            },
    )
}

pub proof fn lemma_batch_draws_valid(pool: Seq<usize>, n: nat)
    requires
        pool.len() > 0,
        n <= usize::MAX,
    ensures
        valid_draws(n, batch_draws(pool, n)),
        batch_draws(pool, n).len() == n,
{
    assert forall|k: int| 0 <= k < n implies (#[trigger] batch_draws(pool, n)[k] as int) <= n - 1
        - k by {
        let i = n - 1 - k;
        assert((pool[i % (pool.len() as int)] as int) % (i + 1) < i + 1) by (nonlinear_arith)
            requires
                i + 1 > 0,
        ;
    }
}

/// The mapping a fast-seeded batched run returns: the pool is the range
/// `[0, n/batch)` as the key shuffles it, and the run follows `batch_draws`.
pub open spec fn spec_batch_predict(n: nat, peers: Set<usize>, batch: nat, key: u64) -> Map<
    usize,
    usize,
> {
    pp_run(n, peers, batch_draws(fast_shuffled(key, crate::model::ident_seq(n / batch)), n))
}

/// Whether some requested position lies outside `[0, n)`.
pub fn has_out_of_range(n: usize, peers: &Vec<usize>) -> (bad: bool)
    ensures
        bad <==> exists|t: int| 0 <= t < peers@.len() && (#[trigger] peers@[t] as int) >= n as int,
{
    let mut t: usize = 0;
    while t < peers.len()
        invariant
            t <= peers@.len(),
            forall|u: int| 0 <= u < t ==> (#[trigger] peers@[u] as int) < n as int,
        decreases peers@.len() - t,
    {
        if peers[t] >= n {
            return true;
        }
        t += 1;
    }
    false
}

/// The marker array at the start of a run: each requested position occupies
/// its own slot, duplicates collapsing into one.
fn build_slots(n: usize, peers: &Vec<usize>) -> (r: (Vec<Option<usize>>, usize))
    requires
        forall|t: int| 0 <= t < peers@.len() ==> (#[trigger] peers@[t] as int) < n as int,
    ensures
        r.0@ == crate::model::init_slots(n as nat, peers@.to_set()),
        r.1 == occ_count(r.0@),
        r.0@.len() == n as nat,
{
    let mut slots: Vec<Option<usize>> = vec![None; n];
    let mut remaining: usize = 0;
    proof {
        assert(slots@ =~= crate::model::init_slots(n as nat, peers@.take(0).to_set()));
        assert(occ_count(slots@) == 0) by {
            lemma_occ_all_none(slots@);
        }
    }
    let mut t: usize = 0;
    while t < peers.len()
        invariant
            t <= peers@.len(),
            slots@.len() == n as nat,
            forall|u: int| 0 <= u < peers@.len() ==> (#[trigger] peers@[u] as int) < n as int,
            slots@ == crate::model::init_slots(n as nat, peers@.take(t as int).to_set()),
            remaining == occ_count(slots@),
        decreases peers@.len() - t,
    {
        let p = peers[t];
        let ghost pre = peers@.take(t as int).to_set();
        proof {
            assert(peers@.take(t as int + 1) =~= peers@.take(t as int).push(p));
            lemma_to_set_push(peers@.take(t as int), p);
        }
        if slots[p].is_none() {
            proof {
                lemma_occ_update(slots@, p as int, Some(p));
                lemma_occ_le_len(slots@.update(p as int, Some(p)));
                assert(!pre.contains(p));
                assert(crate::model::init_slots(n as nat, pre.insert(p)) =~= slots@.update(
                    p as int,
                    Some(p),
                ));
            }
            slots.set(p, Some(p));
            remaining += 1;
        } else {
            proof {
                assert(pre.contains(p));
                assert(crate::model::init_slots(n as nat, pre.insert(p)) =~= slots@);
            }
        }
        t += 1;
    }
    proof {
        assert(peers@.take(peers@.len() as int) =~= peers@);
    }
    (slots, remaining)
}

proof fn lemma_occ_all_none(slot: Seq<Option<usize>>)
    requires
        forall|j: int| 0 <= j < slot.len() ==> (#[trigger] slot[j]) is None,
    ensures
        occ_count(slot) == 0,
    decreases slot.len(),
{
    if slot.len() > 0 {
        lemma_occ_all_none(slot.drop_last());
    }
}

/// Pushing one element onto a sequence adds exactly it to the set of values.
proof fn lemma_to_set_push(s: Seq<usize>, v: usize)
    ensures
        s.push(v).to_set() == s.to_set().insert(v),
{
    assert forall|w: usize| #[trigger] s.push(v).to_set().contains(w) implies s.to_set().insert(
        v,
    ).contains(w) by {
        let j = choose|j: int| 0 <= j < s.push(v).len() && s.push(v)[j] == w;
        if j < s.len() {
            assert(s[j] == w);
        }
    }
    assert forall|w: usize| #[trigger] s.to_set().insert(v).contains(w) implies s.push(
        v,
    ).to_set().contains(w) by {
        if w == v {
            assert(s.push(v)[s.len() as int] == v);
        } else {
            let j = choose|j: int| 0 <= j < s.len() && s[j] == w;
            assert(s.push(v)[j] == w);
        }
    }
    assert(s.push(v).to_set() =~= s.to_set().insert(v));
}

/// The exact tracking run over a fresh source: the identical draws the full
/// shuffle would issue, one per position, stopping once every tracked
/// position is settled.  The mapping covers exactly the distinct requested
/// positions, its values are distinct positions below `n`, and for a
/// key-seeded source it is the function of size, set, backend and key that
/// `spec_predict` names.
pub fn predict_core(n: usize, peers: &Vec<usize>, source: &mut RandomSource) -> (m: HashMap<
    usize,
    usize,
>)
    requires
        forall|t: int| 0 <= t < peers@.len() ==> (#[trigger] peers@[t] as int) < n as int,
        old(source).history() == Seq::<usize>::empty(),
    ensures
        m@.dom() == peers@.to_set(),
        forall|p: usize| #[trigger] m@.contains_key(p) ==> (m@[p] as int) < n as int,
        forall|p1: usize, p2: usize|
            m@.contains_key(p1) && m@.contains_key(p2) && p1 != p2 ==> m@[p1] != m@[p2],
        old(source).key_model() matches Some((b, k)) ==> m@ == spec_predict(
            n as nat,
            peers@.to_set(),
            b,
            k,
        ),
{
    let ghost pset = peers@.to_set();
    let (mut slots, mut remaining) = build_slots(n, peers);
    let mut m: HashMap<usize, usize> = HashMap::new();
    let ghost mut ds: Seq<usize> = Seq::empty();
    let mut i2: usize = n;
    proof {
        assert(fy_bounds(n as nat, 0) =~= Seq::<usize>::empty());
        assert(PredictState { slot: slots@, placed: m@ } =~= init_state(n as nat, pset));
    }
    while i2 > 0
        invariant_except_break
            i2 <= n,
            slots@.len() == n as nat,
            remaining == occ_count(slots@),
            ds.len() == n - i2,
            valid_draws(n as nat, ds),
            source.history() == fy_bounds(n as nat, ds.len() as nat),
            source.key_model() == old(source).key_model(),
            (PredictState { slot: slots@, placed: m@ }) == pp_from(
                init_state(n as nat, pset),
                ds,
                n as nat,
                0,
            ),
            old(source).key_model() matches Some((b, k)) ==> pp_exec(
                init_state(n as nat, pset),
                b,
                k,
                Seq::empty(),
                n as nat,
                0,
            ) == pp_exec(
                (PredictState { slot: slots@, placed: m@ }),
                b,
                k,
                source.history(),
                n as nat,
                ds.len() as int,
            ),
        ensures
            i2 == 0 || occ_count(slots@) == 0,
            slots@.len() == n as nat,
            ds.len() == n - i2,
            valid_draws(n as nat, ds),
            source.key_model() == old(source).key_model(),
            (PredictState { slot: slots@, placed: m@ }) == pp_from(
                init_state(n as nat, pset),
                ds,
                n as nat,
                0,
            ),
            old(source).key_model() matches Some((b, k)) ==> pp_exec(
                init_state(n as nat, pset),
                b,
                k,
                Seq::empty(),
                n as nat,
                0,
            ) == pp_exec(
                (PredictState { slot: slots@, placed: m@ }),
                b,
                k,
                source.history(),
                n as nat,
                ds.len() as int,
            ),
        decreases i2,
    {
        let i = i2 - 1;
        let ghost st0 = PredictState { slot: slots@, placed: m@ };
        let ghost k0 = ds.len() as int;
        let ghost hist0 = source.history();
        let x = source.next_in_range(i);
        proof {
            lemma_pp_from_push(init_state(n as nat, pset), ds, x, n as nat, 0);
            assert(fy_bounds(n as nat, (k0 + 1) as nat) =~= fy_bounds(n as nat, k0 as nat).push(
                i,
            ));
        }
        let ghost st1 = pp_step(st0, i as int, x as int);
        let mut settled_all = false;
        match slots[x] {
            Some(o) => {
                proof {
                    lemma_occ_update(slots@, x as int, None);
                }
                m.insert(o, i);
                slots.set(x, None);
                remaining -= 1;
                if remaining == 0 {
                    settled_all = true;
                }
            },
            None => {},
        }
        if !settled_all {
            match slots[i] {
                Some(o2) => {
                    proof {
                        lemma_occ_update(slots@, x as int, Some(o2));
                        lemma_occ_update(slots@.update(x as int, Some(o2)), i as int, None);
                    }
                    slots.set(x, Some(o2));
                    slots.set(i, None);
                },
                None => {},
            }
        } else {
            proof {
                lemma_occ_zero_all_none(slots@);
            }
        }
        proof {
            assert(PredictState { slot: slots@, placed: m@ } =~= st1);
            match old(source).key_model() {
                Some((b, k)) => {
                    if occ_count(st0.slot) == 0 {
                        lemma_occ_zero_all_none(st0.slot);
                        assert(st1 =~= st0);
                        assert(pp_exec(st1, b, k, hist0.push(i), n as nat, k0 + 1) == st1);
                        assert(pp_exec(st0, b, k, hist0, n as nat, k0) == st0);
                    } else {
                        assert(x == backend_draw(b, k, hist0, i));
                        assert(pp_exec(st0, b, k, hist0, n as nat, k0) == pp_exec(
                            st1,
                            b,
                            k,
                            hist0.push(i),
                            n as nat,
                            k0 + 1,
                        ));
                    }
                },
                None => {},
            }
            ds = ds.push(x);
        }
        i2 = i;
        if settled_all {
            break ;
        }
    }
    proof {
        let stf = PredictState { slot: slots@, placed: m@ };
        let kf = ds.len() as int;
        let pad = Seq::new((n - ds.len()) as nat, |_j: int| 0usize);
        let dsc = ds + pad;
        assert(valid_draws(n as nat, dsc)) by {
            assert forall|k: int| 0 <= k < dsc.len() implies (#[trigger] dsc[k] as int) <= n - 1
                - k by {
                if k < ds.len() {
                    assert(dsc[k] == ds[k]);
                } else {
                    assert(dsc[k] == 0usize);
                }
            }
        }
        assert(dsc.len() == n);
        assert(forall|j: int| 0 <= j < ds.len() ==> #[trigger] dsc[j] == ds[j]);
        lemma_pp_from_agree_prefix(init_state(n as nat, pset), ds, dsc, n as nat, 0);
        if kf < n {
            lemma_pp_from_stalls(stf, dsc, n as nat, kf);
        }
        assert(pp_from(init_state(n as nat, pset), dsc, n as nat, 0) == stf);
        assert(m@ == pp_run(n as nat, pset, dsc));
        assert forall|p: usize| pset.contains(p) implies (p as int) < n as int by {
            let t = choose|t: int| 0 <= t < peers@.len() && peers@[t] == p;
        }
        lemma_pp_run_correct(n as nat, pset, dsc);
        match old(source).key_model() {
            Some((b, k)) => {
                assert(pp_exec(stf, b, k, source.history(), n as nat, kf) == stf);
                assert(m@ == spec_predict(n as nat, pset, b, k));
            },
            None => {},
        }
    }
    m
}

/// Final positions of the requested source positions under the permutation
/// the chosen backend and seeding produce, computed without materializing
/// it.  Rejected exactly when a position lies outside `[0, n)`; otherwise
/// the mapping covers exactly the distinct requested positions, its values
/// are pairwise distinct positions below `n`, and a seeded run returns the
/// mapping its derived key determines.
pub fn predict_positions(
    n: usize,
    peers: &Vec<usize>,
    backend: Backend,
    seeding: &Seeding,
) -> (r: Result<HashMap<usize, usize>, ShuffleError>)
    ensures
        r is Err <==> exists|t: int|
            0 <= t < peers@.len() && (#[trigger] peers@[t] as int) >= n as int,
        r is Err ==> r == Err::<HashMap<usize, usize>, ShuffleError>(ShuffleError::RangeError),
        r matches Ok(m) ==> {
            &&& m@.dom() == peers@.to_set()
            &&& forall|p: usize| #[trigger] m@.contains_key(p) ==> (m@[p] as int) < n as int
            &&& forall|p1: usize, p2: usize|
                m@.contains_key(p1) && m@.contains_key(p2) && p1 != p2 ==> m@[p1] != m@[p2]
            &&& (seeding matches Seeding::SeededWith(bytes) ==> m@ == spec_predict(
                n as nat,
                peers@.to_set(),
                backend,
                key_of_seed(bytes@),
            ))
        },
{
    if has_out_of_range(n, peers) {
        return Err(ShuffleError::RangeError);
    }
    let mut source = RandomSource::from_mode(backend, seeding);
    Ok(predict_core(n, peers, &mut source))
}

/// Final positions under an entropy-seeded fast run.
pub fn gen_predictive_shuffle(size: usize, positions: Vec<usize>) -> (m: HashMap<usize, usize>)
    requires
        forall|t: int| 0 <= t < positions@.len() ==> (#[trigger] positions@[t] as int) < size as int,
    ensures
        m@.dom() == positions@.to_set(),
        forall|p: usize| #[trigger] m@.contains_key(p) ==> (m@[p] as int) < size as int,
        forall|p1: usize, p2: usize|
            m@.contains_key(p1) && m@.contains_key(p2) && p1 != p2 ==> m@[p1] != m@[p2],
{
    let mut source = RandomSource::from_mode(Backend::Fast, &Seeding::Unseeded);
    predict_core(size, &positions, &mut source)
}

/// Final positions under the fast run the seed determines.
pub fn gen_predictive_shuffle_from_seed(size: usize, positions: Vec<usize>, seed: Vec<u8>) -> (m:
    HashMap<usize, usize>)
    requires
        forall|t: int| 0 <= t < positions@.len() ==> (#[trigger] positions@[t] as int) < size as int,
    ensures
        m@.dom() == positions@.to_set(),
        forall|p: usize| #[trigger] m@.contains_key(p) ==> (m@[p] as int) < size as int,
        forall|p1: usize, p2: usize|
            m@.contains_key(p1) && m@.contains_key(p2) && p1 != p2 ==> m@[p1] != m@[p2],
        m@ == spec_predict(size as nat, positions@.to_set(), Backend::Fast, key_of_seed(seed@)),
{
    let mut source = RandomSource::from_mode(Backend::Fast, &Seeding::SeededWith(seed));
    predict_core(size, &positions, &mut source)
}

/// Final positions under an entropy-seeded secure run.
pub fn gen_crypto_predictive_shuffle(size: usize, positions: Vec<usize>) -> (m: HashMap<
    usize,
    usize,
>)
    requires
        forall|t: int| 0 <= t < positions@.len() ==> (#[trigger] positions@[t] as int) < size as int,
    ensures
        m@.dom() == positions@.to_set(),
        forall|p: usize| #[trigger] m@.contains_key(p) ==> (m@[p] as int) < size as int,
        forall|p1: usize, p2: usize|
            m@.contains_key(p1) && m@.contains_key(p2) && p1 != p2 ==> m@[p1] != m@[p2],
{
    let mut source = RandomSource::from_mode(Backend::Secure, &Seeding::Unseeded);
    predict_core(size, &positions, &mut source)
}

/// Final positions under the secure run the seed determines.
pub fn gen_crypto_predictive_shuffle_from_seed(
    size: usize,
    positions: Vec<usize>,
    seed: Vec<u8>,
) -> (m: HashMap<usize, usize>)
    requires
        forall|t: int| 0 <= t < positions@.len() ==> (#[trigger] positions@[t] as int) < size as int,
    ensures
        m@.dom() == positions@.to_set(),
        forall|p: usize| #[trigger] m@.contains_key(p) ==> (m@[p] as int) < size as int,
        forall|p1: usize, p2: usize|
            m@.contains_key(p1) && m@.contains_key(p2) && p1 != p2 ==> m@[p1] != m@[p2],
        m@ == spec_predict(size as nat, positions@.to_set(), Backend::Secure, key_of_seed(seed@)),
{
    let mut source = RandomSource::from_mode(Backend::Secure, &Seeding::SeededWith(seed));
    predict_core(size, &positions, &mut source)
}

/// A batched tracking run driven entirely by a precomputed pool: draw `k`
/// reads the pool, so the whole run is the function `batch_draws` of the
/// pool.  The mapping covers exactly the distinct requested positions and
/// its values are pairwise distinct positions below `n`.
pub fn batch_core_pool(n: usize, peers: &Vec<usize>, pool: &Vec<usize>) -> (m: HashMap<
    usize,
    usize,
>)
    requires
        pool@.len() >= 1,
        forall|t: int| 0 <= t < peers@.len() ==> (#[trigger] peers@[t] as int) < n as int,
    ensures
        m@ == pp_run(n as nat, peers@.to_set(), batch_draws(pool@, n as nat)),
        m@.dom() == peers@.to_set(),
        forall|p: usize| #[trigger] m@.contains_key(p) ==> (m@[p] as int) < n as int,
        forall|p1: usize, p2: usize|
            m@.contains_key(p1) && m@.contains_key(p2) && p1 != p2 ==> m@[p1] != m@[p2],
{
    let ghost pset = peers@.to_set();
    let ghost full = batch_draws(pool@, n as nat);
    proof {
        lemma_batch_draws_valid(pool@, n as nat);
    }
    let (mut slots, mut remaining) = build_slots(n, peers);
    let mut m: HashMap<usize, usize> = HashMap::new();
    let ghost mut ds: Seq<usize> = Seq::empty();
    let mut i2: usize = n;
    proof {
        assert(ds =~= full.take(0));
        assert((PredictState { slot: slots@, placed: m@ }) =~= init_state(n as nat, pset));
    }
    while i2 > 0
        invariant_except_break
            i2 <= n,
            pool@.len() >= 1,
            slots@.len() == n as nat,
            remaining == occ_count(slots@),
            ds.len() == n - i2,
            full == batch_draws(pool@, n as nat),
            valid_draws(n as nat, full),
            full.len() == n,
            ds == full.take(ds.len() as int),
            (PredictState { slot: slots@, placed: m@ }) == pp_from(
                init_state(n as nat, pset),
                ds,
                n as nat,
                0,
            ),
        ensures
            i2 == 0 || occ_count(slots@) == 0,
            slots@.len() == n as nat,
            ds.len() == n - i2,
            ds == full.take(ds.len() as int),
            (PredictState { slot: slots@, placed: m@ }) == pp_from(
                init_state(n as nat, pset),
                ds,
                n as nat,
                0,
            ),
        decreases i2,
    {
        let i = i2 - 1;
        let ghost st0 = PredictState { slot: slots@, placed: m@ };
        let x = pool[i % pool.len()] % (i + 1);
        proof {
            assert(x == full[ds.len() as int]);
            assert(x <= i);
            assert(full.take(ds.len() as int + 1) =~= full.take(ds.len() as int).push(x));
            lemma_pp_from_push(init_state(n as nat, pset), ds, x, n as nat, 0);
        }
        let ghost st1 = pp_step(st0, i as int, x as int);
        let mut settled_all = false;
        match slots[x] {
            Some(o) => {
                proof {
                    lemma_occ_update(slots@, x as int, None);
                }
                m.insert(o, i);
                slots.set(x, None);
                remaining -= 1;
                if remaining == 0 {
                    settled_all = true;
                }
            },
            None => {},
        }
        if !settled_all {
            match slots[i] {
                Some(o2) => {
                    proof {
                        lemma_occ_update(slots@, x as int, Some(o2));
                        lemma_occ_update(slots@.update(x as int, Some(o2)), i as int, None);
                    }
                    slots.set(x, Some(o2));
                    slots.set(i, None);
                },
                None => {},
            }
        } else {
            proof {
                lemma_occ_zero_all_none(slots@);
            }
        }
        proof {
            assert((PredictState { slot: slots@, placed: m@ }) =~= st1);
            ds = ds.push(x);
        }
        i2 = i;
        if settled_all {
            break ;
        }
    }
    proof {
        let stf = PredictState { slot: slots@, placed: m@ };
        let kf = ds.len() as int;
        lemma_pp_from_agree_prefix(init_state(n as nat, pset), ds, full, n as nat, 0);
        if kf < n {
            lemma_pp_from_stalls(stf, full, n as nat, kf);
        }
        assert(pp_from(init_state(n as nat, pset), full, n as nat, 0) == stf);
        assert forall|p: usize| pset.contains(p) implies (p as int) < n as int by {
            let t = choose|t: int| 0 <= t < peers@.len() && peers@[t] == p;
        }
        lemma_pp_run_correct(n as nat, pset, full);
    }
    m
}

/// A batched tracking run for the secure backend: fresh draws for the first
/// `range` steps, reused modulo the pool thereafter.  The mapping covers
/// exactly the distinct requested positions and its values are pairwise
/// distinct positions below `n`.
pub fn batch_core_secure(n: usize, peers: &Vec<usize>, range: usize, source: &mut RandomSource) -> (m:
    HashMap<usize, usize>)
    requires
        1 <= range <= n,
        forall|t: int| 0 <= t < peers@.len() ==> (#[trigger] peers@[t] as int) < n as int,
    ensures
        m@.dom() == peers@.to_set(),
        forall|p: usize| #[trigger] m@.contains_key(p) ==> (m@[p] as int) < n as int,
        forall|p1: usize, p2: usize|
            m@.contains_key(p1) && m@.contains_key(p2) && p1 != p2 ==> m@[p1] != m@[p2],
{
    let ghost pset = peers@.to_set();
    let (mut slots, mut remaining) = build_slots(n, peers);
    let mut m: HashMap<usize, usize> = HashMap::new();
    let mut randoms: Vec<usize> = Vec::new();
    let ghost mut ds: Seq<usize> = Seq::empty();
    let mut i2: usize = n;
    proof {
        assert((PredictState { slot: slots@, placed: m@ }) =~= init_state(n as nat, pset));
    }
    while i2 > 0
        invariant_except_break
            i2 <= n,
            1 <= range <= n,
            slots@.len() == n as nat,
            remaining == occ_count(slots@),
            ds.len() == n - i2,
            valid_draws(n as nat, ds),
            randoms@.len() == (if n - i2 <= range {
                (n - i2) as int
            } else {
                range as int
            }),
            (PredictState { slot: slots@, placed: m@ }) == pp_from(
                init_state(n as nat, pset),
                ds,
                n as nat,
                0,
            ),
        ensures
            i2 == 0 || occ_count(slots@) == 0,
            slots@.len() == n as nat,
            ds.len() == n - i2,
            valid_draws(n as nat, ds),
            (PredictState { slot: slots@, placed: m@ }) == pp_from(
                init_state(n as nat, pset),
                ds,
                n as nat,
                0,
            ),
        decreases i2,
    {
        let i = i2 - 1;
        let ghost st0 = PredictState { slot: slots@, placed: m@ };
        let x: usize = if i >= n - range {
            let x = source.next_in_range(i);
            randoms.push(x);
            x
        } else {
            randoms[i % randoms.len()] % (i + 1)
        };
        proof {
            assert(x <= i);
            assert(valid_draws(n as nat, ds.push(x)));
            lemma_pp_from_push(init_state(n as nat, pset), ds, x, n as nat, 0);
        }
        let ghost st1 = pp_step(st0, i as int, x as int);
        let mut settled_all = false;
        match slots[x] {
            Some(o) => {
                proof {
                    lemma_occ_update(slots@, x as int, None);
                }
                m.insert(o, i);
                slots.set(x, None);
                remaining -= 1;
                if remaining == 0 {
                    settled_all = true;
                }
            },
            None => {},
        }
        if !settled_all {
            match slots[i] {
                Some(o2) => {
                    proof {
                        lemma_occ_update(slots@, x as int, Some(o2));
                        lemma_occ_update(slots@.update(x as int, Some(o2)), i as int, None);
                    }
                    slots.set(x, Some(o2));
                    slots.set(i, None);
                },
                None => {},
            }
        } else {
            proof {
                lemma_occ_zero_all_none(slots@);
            }
        }
        proof {
            assert((PredictState { slot: slots@, placed: m@ }) =~= st1);
            ds = ds.push(x);
        }
        i2 = i;
        if settled_all {
            break ;
        }
    }
    proof {
        let stf = PredictState { slot: slots@, placed: m@ };
        let kf = ds.len() as int;
        let pad = Seq::new((n - ds.len()) as nat, |_j: int| 0usize);
        let dsc = ds + pad;
        assert(valid_draws(n as nat, dsc)) by {
            assert forall|k: int| 0 <= k < dsc.len() implies (#[trigger] dsc[k] as int) <= n - 1
                - k by {
                if k < ds.len() {
                    assert(dsc[k] == ds[k]);
                } else {
                    assert(dsc[k] == 0usize);
                }
            }
        }
        assert(dsc.len() == n);
        assert(forall|j: int| 0 <= j < ds.len() ==> #[trigger] dsc[j] == ds[j]);
        lemma_pp_from_agree_prefix(init_state(n as nat, pset), ds, dsc, n as nat, 0);
        if kf < n {
            lemma_pp_from_stalls(stf, dsc, n as nat, kf);
        }
        assert(pp_from(init_state(n as nat, pset), dsc, n as nat, 0) == stf);
        assert(m@ == pp_run(n as nat, pset, dsc));
        assert forall|p: usize| pset.contains(p) implies (p as int) < n as int by {
            let t = choose|t: int| 0 <= t < peers@.len() && peers@[t] == p;
        }
        lemma_pp_run_correct(n as nat, pset, dsc);
    }
    m
}


/// The pool a fast-backed batched run reuses: the range `[0, range)` as
/// `fastrand`'s shuffle rearranges it, under the derived key when seeded.
pub(crate) fn fast_pool(range: usize, seeding: &Seeding) -> (pool: Vec<usize>)
    ensures
        pool@.len() == range as nat,
        seeding matches Seeding::SeededWith(bytes) ==> pool@ == fast_shuffled(
            key_of_seed(bytes@),
            crate::model::ident_seq(range as nat),
        ),
{
    let mut pool = ident_vec(range);
    match seeding {
        Seeding::Unseeded => {
            let rng = FastRng::from_entropy();
            rng.shuffle_positions(&mut pool);
        },
        Seeding::SeededWith(bytes) => {
            let rng = FastRng::from_key(derive_key(bytes));
            rng.shuffle_positions(&mut pool);
        },
    }
    proof {
        assert(pool@.to_multiset().len() == pool@.len());
        assert(crate::model::ident_seq(range as nat).to_multiset().len() == crate::model::ident_seq(
            range as nat,
        ).len());
    }
    pool
}

/// Final positions under the batched, draw-reducing run: a pool of
/// `n / batch` values stands in for most draws, so the result is not the
/// exact full-shuffle placement, but the mapping still covers exactly the
/// distinct requested positions with pairwise distinct values below `n`.  A
/// batch outside `[1, n]` is a parameter error; a position outside `[0, n)`
/// a range error.  A fast-backed seeded run returns the mapping its derived
/// key determines.
pub fn batched_predict_positions(
    n: usize,
    peers: &Vec<usize>,
    batch: usize,
    backend: Backend,
    seeding: &Seeding,
) -> (r: Result<HashMap<usize, usize>, ShuffleError>)
    ensures
        r is Err <==> (batch < 1 || batch > n || exists|t: int|
            0 <= t < peers@.len() && (#[trigger] peers@[t] as int) >= n as int),
        batch < 1 || batch > n ==> r == Err::<HashMap<usize, usize>, ShuffleError>(
            ShuffleError::ParameterError,
        ),
        1 <= batch <= n && (exists|t: int|
            0 <= t < peers@.len() && (#[trigger] peers@[t] as int) >= n as int) ==> r == Err::<
            HashMap<usize, usize>,
            ShuffleError,
        >(ShuffleError::RangeError),
        r matches Ok(m) ==> {
            &&& m@.dom() == peers@.to_set()
            &&& forall|p: usize| #[trigger] m@.contains_key(p) ==> (m@[p] as int) < n as int
            &&& forall|p1: usize, p2: usize|
                m@.contains_key(p1) && m@.contains_key(p2) && p1 != p2 ==> m@[p1] != m@[p2]
            &&& (seeding matches Seeding::SeededWith(bytes) ==> backend == Backend::Fast ==> m@
                == spec_batch_predict(n as nat, peers@.to_set(), batch as nat, key_of_seed(bytes@)))
        },
{
    if batch < 1 || batch > n {
        return Err(ShuffleError::ParameterError);
    }
    if has_out_of_range(n, peers) {
        return Err(ShuffleError::RangeError);
    }
    let range = n / batch;
    proof {
        assert(range >= 1) by (nonlinear_arith)
            requires
                range == n / batch,
                1 <= batch <= n,
        ;
        assert(range <= n) by (nonlinear_arith)
            requires
                range == n / batch,
                1 <= batch,
        ;
    }
    match backend {
        Backend::Fast => {
            let pool = fast_pool(range, seeding);
            Ok(batch_core_pool(n, peers, &pool))
        },
        Backend::Secure => {
            let mut source = RandomSource::from_mode(backend, seeding);
            Ok(batch_core_secure(n, peers, range, &mut source))
        },
    }
}

/// Final positions under an entropy-seeded fast batched run.
pub fn gen_batch_predictive_shuffle(size: usize, batch: usize, positions: Vec<usize>) -> (m:
    HashMap<usize, usize>)
    requires
        1 <= batch <= size,
        forall|t: int| 0 <= t < positions@.len() ==> (#[trigger] positions@[t] as int) < size as int,
    ensures
        m@.dom() == positions@.to_set(),
        forall|p: usize| #[trigger] m@.contains_key(p) ==> (m@[p] as int) < size as int,
        forall|p1: usize, p2: usize|
            m@.contains_key(p1) && m@.contains_key(p2) && p1 != p2 ==> m@[p1] != m@[p2],
{
    let range = size / batch;
    proof {
        assert(range >= 1) by (nonlinear_arith)
            requires
                range == size / batch,
                1 <= batch <= size,
        ;
    }
    let pool = fast_pool(range, &Seeding::Unseeded);
    batch_core_pool(size, &positions, &pool)
}

/// Final positions under the fast batched run the seed determines.
pub fn gen_batch_predictive_shuffle_from_seed(
    size: usize,
    batch: usize,
    positions: Vec<usize>,
    seed: Vec<u8>,
) -> (m: HashMap<usize, usize>)
    requires
        1 <= batch <= size,
        forall|t: int| 0 <= t < positions@.len() ==> (#[trigger] positions@[t] as int) < size as int,
    ensures
        m@.dom() == positions@.to_set(),
        forall|p: usize| #[trigger] m@.contains_key(p) ==> (m@[p] as int) < size as int,
        forall|p1: usize, p2: usize|
            m@.contains_key(p1) && m@.contains_key(p2) && p1 != p2 ==> m@[p1] != m@[p2],
        m@ == spec_batch_predict(size as nat, positions@.to_set(), batch as nat, key_of_seed(seed@)),
{
    let range = size / batch;
    proof {
        assert(range >= 1) by (nonlinear_arith)
            requires
                range == size / batch,
                1 <= batch <= size,
        ;
    }
    let pool = fast_pool(range, &Seeding::SeededWith(seed));
    batch_core_pool(size, &positions, &pool)
}

/// Final positions under an entropy-seeded secure batched run.
pub fn gen_crypto_batch_predictive_shuffle(size: usize, batch: usize, positions: Vec<usize>) -> (m:
    HashMap<usize, usize>)
    requires
        1 <= batch <= size,
        forall|t: int| 0 <= t < positions@.len() ==> (#[trigger] positions@[t] as int) < size as int,
    ensures
        m@.dom() == positions@.to_set(),
        forall|p: usize| #[trigger] m@.contains_key(p) ==> (m@[p] as int) < size as int,
        forall|p1: usize, p2: usize|
            m@.contains_key(p1) && m@.contains_key(p2) && p1 != p2 ==> m@[p1] != m@[p2],
{
    let range = size / batch;
    proof {
        assert(1 <= range <= size) by (nonlinear_arith)
            requires
                range == size / batch,
                1 <= batch <= size,
        ;
    }
    let mut source = RandomSource::from_mode(Backend::Secure, &Seeding::Unseeded);
    batch_core_secure(size, &positions, range, &mut source)
}

/// Final positions under a secure batched run seeded from the given bytes.
pub fn gen_crypto_batch_predictive_shuffle_from_seed(
    size: usize,
    batch: usize,
    positions: Vec<usize>,
    seed: Vec<u8>,
) -> (m: HashMap<usize, usize>)
    requires
        1 <= batch <= size,
        forall|t: int| 0 <= t < positions@.len() ==> (#[trigger] positions@[t] as int) < size as int,
    ensures
        m@.dom() == positions@.to_set(),
        forall|p: usize| #[trigger] m@.contains_key(p) ==> (m@[p] as int) < size as int,
        forall|p1: usize, p2: usize|
            m@.contains_key(p1) && m@.contains_key(p2) && p1 != p2 ==> m@[p1] != m@[p2],
{
    let range = size / batch;
    proof {
        assert(1 <= range <= size) by (nonlinear_arith)
            requires
                range == size / batch,
                1 <= batch <= size,
        ;
    }
    let mut source = RandomSource::from_mode(Backend::Secure, &Seeding::SeededWith(seed));
    batch_core_secure(size, &positions, range, &mut source)
}

} // verus!
