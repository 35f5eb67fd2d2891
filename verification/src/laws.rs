//! The properties the library warrants, stated over the models its public
//! contracts use: the full shuffle is a permutation; the tracking run agrees
//! with it position for position; batched runs are injective; key-seeded
//! runs are deterministic; a single position has nowhere to go.

use vstd::prelude::*;

use crate::model::{
    fy_apply, ident_seq, init_state, is_permutation, lemma_fy_from_permutation,
    lemma_ident_is_permutation, lemma_pp_from_stalls, lemma_pp_run_correct, occ_count, pp_from,
    pp_run, pp_step, valid_draws, PredictState,
};
use crate::predict::{batch_draws, lemma_batch_draws_valid, pp_exec, spec_predict};
use crate::seed::key_of_seed;
use crate::source::{backend_draw, fy_bounds, key_draws};
use crate::Backend;

verus! {

/// A whole run of in-range draws arranges the `n` positions into a
/// permutation: every position appears exactly once.
pub proof fn lemma_full_shuffle_is_permutation(n: nat, ds: Seq<usize>)
    requires
        n <= usize::MAX,
        ds.len() == n,
        valid_draws(n, ds),
    ensures
        is_permutation(fy_apply(ident_seq(n), ds), n),
{
    lemma_ident_is_permutation(n);
    lemma_fy_from_permutation(ident_seq(n), ds, n, 0);
}

/// The lazily drawn, early-stopping tracking run walks the same states as
/// the run over the whole key-determined draw sequence: once nothing is
/// tracked, the remaining steps change nothing.
pub proof fn lemma_pp_exec_matches_pp_from(st: PredictState, b: Backend, key: u64, n: nat, k: int)
    requires
        n <= usize::MAX,
        st.slot.len() == n,
        valid_draws(n, key_draws(b, key, n)),
        key_draws(b, key, n).len() == n,
        0 <= k <= n,
    ensures
        pp_exec(st, b, key, fy_bounds(n, k as nat), n, k) == pp_from(st, key_draws(b, key, n), n, k),
    decreases n - k,
{
    let ds = key_draws(b, key, n);
    if k >= n {
    } else if occ_count(st.slot) == 0 {
        lemma_pp_from_stalls(st, ds, n, k);
    } else {
        let bound = (n - 1 - k) as usize;
        assert(ds[k] == backend_draw(b, key, fy_bounds(n, k as nat), bound));
        assert(fy_bounds(n, (k + 1) as nat) =~= fy_bounds(n, k as nat).push(bound));
        let st1 = pp_step(st, n - 1 - k, ds[k] as int);
        assert(st1.slot.len() == n);
        lemma_pp_exec_matches_pp_from(st1, b, key, n, k + 1);
    }
}

/// Exact agreement: under a key-seeded backend whose draws stay in range,
/// the predicted mapping sends every tracked position to exactly the place
/// the full shuffle of the same key puts it, covers exactly the tracked set,
/// and is injective.
pub proof fn lemma_predict_matches_full_shuffle(n: nat, peers: Set<usize>, b: Backend, key: u64)
    requires
        n <= usize::MAX,
        valid_draws(n, key_draws(b, key, n)),
        forall|p: usize| peers.contains(p) ==> (p as int) < n,
    ensures
        ({
            let ds = key_draws(b, key, n);
            let perm = fy_apply(ident_seq(n), ds);
            let m = spec_predict(n, peers, b, key);
            &&& m == pp_run(n, peers, ds)
            &&& m.dom() == peers
            &&& forall|p: usize|
                peers.contains(p) ==> (#[trigger] m[p] as int) < n && perm[m[p] as int] == p
            &&& forall|j: int|
                0 <= j < n && peers.contains(#[trigger] perm[j]) ==> m.contains_key(perm[j])
                    && m[perm[j]] == j as usize
            &&& forall|p1: usize, p2: usize|
                peers.contains(p1) && peers.contains(p2) && p1 != p2 ==> #[trigger] m[p1]
                    != #[trigger] m[p2]
        }),
{
    let ds = key_draws(b, key, n);
    assert(fy_bounds(n, 0) =~= Seq::<usize>::empty());
    lemma_pp_exec_matches_pp_from(init_state(n, peers), b, key, n, 0);
    lemma_pp_run_correct(n, peers, ds);
}

/// Determinism of key-seeded prediction: the mapping is a function of the
/// size, the tracked set, the backend and the seed alone, so two runs with
/// identical inputs return the identical mapping.
pub proof fn lemma_seeded_predict_deterministic(
    n: nat,
    peers: Set<usize>,
    b: Backend,
    seed: Seq<u8>,
    m1: Map<usize, usize>,
    m2: Map<usize, usize>,
)
    requires
        m1 == spec_predict(n, peers, b, key_of_seed(seed)),
        m2 == spec_predict(n, peers, b, key_of_seed(seed)),
    ensures
        m1 == m2,
{
}

/// Completeness: a whole tracking run resolves every tracked position, so
/// the mapping's domain is exactly the tracked set and its size the number
/// of distinct tracked positions.
pub proof fn lemma_predict_completeness(n: nat, peers: Set<usize>, ds: Seq<usize>)
    requires
        n <= usize::MAX,
        ds.len() == n,
        valid_draws(n, ds),
        forall|p: usize| peers.contains(p) ==> (p as int) < n,
    ensures
        pp_run(n, peers, ds).dom() == peers,
        pp_run(n, peers, ds).len() == peers.len(),
{
    lemma_pp_run_correct(n, peers, ds);
}

/// Batched injectivity: whatever pool the draws are reused from, the
/// batched run's mapping covers exactly the tracked set with pairwise
/// distinct values below `n`.
pub proof fn lemma_batched_values_distinct(n: nat, peers: Set<usize>, pool: Seq<usize>)
    requires
        n <= usize::MAX,
        pool.len() > 0,
        forall|p: usize| peers.contains(p) ==> (p as int) < n,
    ensures
        ({
            let m = pp_run(n, peers, batch_draws(pool, n));
            &&& m.dom() == peers
            &&& forall|p: usize| peers.contains(p) ==> (#[trigger] m[p] as int) < n
            &&& forall|p1: usize, p2: usize|
                peers.contains(p1) && peers.contains(p2) && p1 != p2 ==> #[trigger] m[p1]
                    != #[trigger] m[p2]
        }),
{
    lemma_batch_draws_valid(pool, n);
    lemma_pp_run_correct(n, peers, batch_draws(pool, n));
}

/// A single position: any whole run over one position leaves it where it
/// is, and predicting it maps it to itself.
pub proof fn lemma_single_position(ds: Seq<usize>)
    requires
        ds.len() == 1,
        valid_draws(1, ds),
    ensures
        fy_apply(ident_seq(1), ds) == seq![0usize],
        pp_run(1, set![0usize], ds) == map![0usize => 0usize],
{
    assert(ds[0] == 0usize);
    lemma_full_shuffle_is_permutation(1, ds);
    let perm = fy_apply(ident_seq(1), ds);
    assert(perm =~= seq![0usize]);
    lemma_pp_run_correct(1, set![0usize], ds);
    let m = pp_run(1, set![0usize], ds);
    assert(set![0usize].contains(0usize));
    assert((m[0usize] as int) < 1 && perm[m[0usize] as int] == 0usize);
    assert(m =~= map![0usize => 0usize]);
}

} // verus!
