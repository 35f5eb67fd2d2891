//! Mathematical model of the shuffle and of the position-tracking run.
//!
//! A run over `n` positions consumes a sequence of draws: the draw at index
//! `k` settles position `n-1-k` and must not exceed it.  `fy_from` applies
//! such draws as in-place exchanges (the Durstenfeld form of Fisher–Yates);
//! `pp_from` applies the same draws to a marker state that follows only the
//! positions a caller asked about.  The agreement lemma at the end shows that
//! the two walks place every tracked position exactly where the full shuffle
//! puts it.

use vstd::prelude::*;

verus! {

broadcast use vstd::seq_lib::group_to_multiset_ensures;

/// The arrangement `0, 1, ..., n-1`: every position holding its own index.
pub open spec fn ident_seq(n: nat) -> Seq<usize> {
    Seq::new(n, |j: int| j as usize)
}

/// `a` with the entries at `i` and `x` exchanged.
pub open spec fn swap_seq<T>(a: Seq<T>, i: int, x: int) -> Seq<T>
    recommends
        0 <= i < a.len(),
        0 <= x < a.len(),
{
    a.update(i, a[x]).update(x, a[i])
}

/// Draw `k` settles position `n-1-k`, so it may not exceed that index.
pub open spec fn valid_draws(n: nat, ds: Seq<usize>) -> bool {
    &&& ds.len() <= n
    &&& forall|k: int| 0 <= k < ds.len() ==> (#[trigger] ds[k] as int) <= n - 1 - k
}

/// The arrangement after draws `ds[k..]` are applied to `a`: draw `k`
/// exchanges positions `a.len()-1-k` and `ds[k]`, fixing the former.
pub open spec fn fy_from<T>(a: Seq<T>, ds: Seq<usize>, k: int) -> Seq<T>
    decreases ds.len() - k,
{
    if k < 0 || k >= ds.len() {
        a
    } else {
        fy_from(swap_seq(a, a.len() - 1 - k, ds[k] as int), ds, k + 1)
    }
}

/// The arrangement after a whole run of `ds` over `a`.
pub open spec fn fy_apply<T>(a: Seq<T>, ds: Seq<usize>) -> Seq<T> {
    fy_from(a, ds, 0)
}

pub proof fn lemma_fy_from_len<T>(a: Seq<T>, ds: Seq<usize>, k: int)
    requires
        valid_draws(a.len() as nat, ds),
    ensures
        fy_from(a, ds, k).len() == a.len(),
    decreases ds.len() - k,
{
    if k < 0 || k >= ds.len() {
    } else {
        let a1 = swap_seq(a, a.len() - 1 - k, ds[k] as int);
        assert(a1.len() == a.len());
        lemma_fy_from_len(a1, ds, k + 1);
    }
}

/// Appending one draw to a run applies one more exchange at the end.
pub proof fn lemma_fy_from_push<T>(a: Seq<T>, ds: Seq<usize>, x: usize, k: int)
    requires
        0 <= k <= ds.len(),
        valid_draws(a.len() as nat, ds.push(x)),
    ensures
        fy_from(a, ds.push(x), k) == swap_seq(
            fy_from(a, ds, k),
            a.len() - 1 - ds.len(),
            x as int,
        ),
    decreases ds.len() - k,
{
    if k == ds.len() {
        assert(ds.push(x)[k] == x);
        assert(fy_from(swap_seq(a, a.len() - 1 - k, x as int), ds.push(x), k + 1) == swap_seq(
            a,
            a.len() - 1 - k,
            x as int,
        ));
    } else {
        assert(ds.push(x)[k] == ds[k]);
        let a1 = swap_seq(a, a.len() - 1 - k, ds[k] as int);
        assert(a1.len() == a.len());
        lemma_fy_from_push(a1, ds, x, k + 1);
    }
}

/// `s` arranges the values `0, ..., n-1`, each exactly once.
pub open spec fn is_permutation(s: Seq<usize>, n: nat) -> bool {
    &&& s.len() == n
    &&& forall|j: int| 0 <= j < s.len() ==> (#[trigger] s[j] as int) < n
    &&& forall|j1: int, j2: int| 0 <= j1 < j2 < s.len() ==> s[j1] != s[j2]
    &&& forall|v: usize| (v as int) < n ==> #[trigger] s.contains(v)
}

pub proof fn lemma_ident_is_permutation(n: nat)
    requires
        n <= usize::MAX,
    ensures
        is_permutation(ident_seq(n), n),
{
    assert forall|v: usize| (v as int) < n implies #[trigger] ident_seq(n).contains(v) by {
        assert(ident_seq(n)[v as int] == v);
    }
}

pub proof fn lemma_swap_preserves_permutation(s: Seq<usize>, n: nat, i: int, x: int)
    requires
        is_permutation(s, n),
        0 <= i < n,
        0 <= x < n,
    ensures
        is_permutation(swap_seq(s, i, x), n),
{
    let t = swap_seq(s, i, x);
    assert(t[i] == s[x] && t[x] == s[i]);
    assert forall|v: usize| (v as int) < n implies #[trigger] t.contains(v) by {
        assert(s.contains(v));
        let j = choose|j: int| 0 <= j < s.len() && s[j] == v;
        if j == i {
            assert(t[x] == v);
        } else if j == x {
            assert(t[i] == v);
        } else {
            assert(t[j] == v);
        }
    }
}

pub proof fn lemma_fy_from_permutation(a: Seq<usize>, ds: Seq<usize>, n: nat, k: int)
    requires
        is_permutation(a, n),
        valid_draws(n, ds),
        0 <= k <= ds.len(),
    ensures
        is_permutation(fy_from(a, ds, k), n),
    decreases ds.len() - k,
{
    if k < ds.len() {
        let i = a.len() - 1 - k;
        let x = ds[k] as int;
        lemma_swap_preserves_permutation(a, n, i, x);
        lemma_fy_from_permutation(swap_seq(a, i, x), ds, n, k + 1);
    }
}

/// The marker state of a position-tracking run: `slot[j]` holds the tracked
/// occupant currently at pool position `j`, and `placed` the final position
/// of every tracked occupant already settled.
#[verifier::ext_equal]
pub struct PredictState {
    pub slot: Seq<Option<usize>>,
    pub placed: Map<usize, usize>,
}

/// One step at position `i` with draw `x`: a tracked occupant at `x` settles
/// at `i`; otherwise a tracked occupant at `i` moves to `x`, mirroring the
/// exchange the full shuffle performs.
pub open spec fn pp_step(st: PredictState, i: int, x: int) -> PredictState {
    let recorded = match st.slot[x] {
        Some(o) => PredictState {
            slot: st.slot.update(x, None),
            placed: st.placed.insert(o, i as usize),
        },
        None => st,
    };
    match recorded.slot[i] {
        Some(o2) => PredictState {
            slot: recorded.slot.update(x, Some(o2)).update(i, None),
            placed: recorded.placed,
        },
        None => recorded,
    }
}

/// The marker state after draws `ds[k..]` are applied, draw `k` acting at
/// position `n-1-k`.
pub open spec fn pp_from(st: PredictState, ds: Seq<usize>, n: nat, k: int) -> PredictState
    decreases ds.len() - k,
{
    if k < 0 || k >= ds.len() {
        st
    } else {
        pp_from(pp_step(st, n - 1 - k, ds[k] as int), ds, n, k + 1)
    }
}

/// Tracked positions start out occupying their own slots.
pub open spec fn init_slots(n: nat, peers: Set<usize>) -> Seq<Option<usize>> {
    Seq::new(
        n,
        |j: int| if peers.contains(j as usize) {
            Some(j as usize)
        } else {
            None
        },
    )
}

pub open spec fn init_state(n: nat, peers: Set<usize>) -> PredictState {
    PredictState { slot: init_slots(n, peers), placed: Map::empty() }
}

/// The mapping a whole tracking run over `ds` produces.
pub open spec fn pp_run(n: nat, peers: Set<usize>, ds: Seq<usize>) -> Map<usize, usize> {
    pp_from(init_state(n, peers), ds, n, 0).placed
}

/// How many slots are occupied.
pub open spec fn occ_count(slot: Seq<Option<usize>>) -> nat
    decreases slot.len(),
{
    if slot.len() == 0 {
        0
    } else {
        occ_count(slot.drop_last()) + (if slot.last() is Some {
            1nat
        } else {
            0nat
        })
    }
}

pub proof fn lemma_occ_le_len(slot: Seq<Option<usize>>)
    ensures
        occ_count(slot) <= slot.len(),
    decreases slot.len(),
{
    if slot.len() > 0 {
        lemma_occ_le_len(slot.drop_last());
    }
}

pub proof fn lemma_occ_zero_all_none(slot: Seq<Option<usize>>)
    requires
        occ_count(slot) == 0,
    ensures
        forall|j: int| 0 <= j < slot.len() ==> (#[trigger] slot[j]) is None,
    decreases slot.len(),
{
    if slot.len() > 0 {
        lemma_occ_zero_all_none(slot.drop_last());
        assert forall|j: int| 0 <= j < slot.len() implies (#[trigger] slot[j]) is None by {
            if j < slot.len() - 1 {
                assert(slot.drop_last()[j] is None);
            }
        }
    }
}

pub proof fn lemma_occ_update(slot: Seq<Option<usize>>, j: int, v: Option<usize>)
    requires
        0 <= j < slot.len(),
    ensures
        occ_count(slot.update(j, v)) as int == occ_count(slot) as int + (if v is Some {
            1int
        } else {
            0int
        }) - (if slot[j] is Some {
            1int
        } else {
            0int
        }),
    decreases slot.len(),
{
    if j == slot.len() - 1 {
        assert(slot.update(j, v).drop_last() =~= slot.drop_last());
    } else {
        assert(slot.update(j, v).drop_last() =~= slot.drop_last().update(j, v));
        lemma_occ_update(slot.drop_last(), j, v);
    }
}

/// Once nothing is tracked any more, further steps change nothing.
pub proof fn lemma_pp_from_stalls(st: PredictState, ds: Seq<usize>, n: nat, k: int)
    requires
        st.slot.len() == n,
        occ_count(st.slot) == 0,
        valid_draws(n, ds),
        0 <= k,
    ensures
        pp_from(st, ds, n, k) == st,
    decreases ds.len() - k,
{
    if k < ds.len() {
        lemma_occ_zero_all_none(st.slot);
        let i = n - 1 - k;
        let x = ds[k] as int;
        assert(st.slot[x] is None);
        assert(st.slot[i] is None);
        assert(pp_step(st, i, x) == st);
        lemma_pp_from_stalls(st, ds, n, k + 1);
    }
}

/// Appending one draw to a tracking run applies one more step at the end.
pub proof fn lemma_pp_from_push(st: PredictState, ds: Seq<usize>, x: usize, n: nat, k: int)
    requires
        0 <= k <= ds.len(),
    ensures
        pp_from(st, ds.push(x), n, k) == pp_step(
            pp_from(st, ds, n, k),
            n - 1 - ds.len(),
            x as int,
        ),
    decreases ds.len() - k,
{
    if k == ds.len() {
        assert(ds.push(x)[k] == x);
        assert(pp_from(pp_step(st, n - 1 - k, x as int), ds.push(x), n, k + 1) == pp_step(
            st,
            n - 1 - k,
            x as int,
        ));
    } else {
        assert(ds.push(x)[k] == ds[k]);
        lemma_pp_from_push(pp_step(st, n - 1 - k, ds[k] as int), ds, x, n, k + 1);
    }
}

/// Two draw sequences that agree while the first lasts walk the state to the
/// same place; the longer one then continues from there.
pub proof fn lemma_pp_from_agree_prefix(
    st: PredictState,
    ds: Seq<usize>,
    dsc: Seq<usize>,
    n: nat,
    k: int,
)
    requires
        0 <= k <= ds.len(),
        ds.len() <= dsc.len(),
        forall|j: int| k <= j < ds.len() ==> ds[j] == dsc[j],
    ensures
        pp_from(st, dsc, n, k) == pp_from(pp_from(st, ds, n, k), dsc, n, ds.len() as int),
    decreases ds.len() - k,
{
    if k < ds.len() {
        lemma_pp_from_agree_prefix(pp_step(st, n - 1 - k, ds[k] as int), ds, dsc, n, k + 1);
    }
}

/// The agreement walk: while the run is under way, pool positions `0..=n-1-k`
/// of the arrangement carry exactly the tracked occupants in the marker
/// slots, and everything settled so far is recorded in `placed` at the
/// position the arrangement holds it.
pub proof fn lemma_fy_pp_agree(
    cur: Seq<usize>,
    st: PredictState,
    ds: Seq<usize>,
    n: nat,
    k: int,
    peers: Set<usize>,
)
    requires
        n <= usize::MAX,
        st.slot.len() == n,
        ds.len() == n,
        valid_draws(n, ds),
        0 <= k <= n,
        is_permutation(cur, n),
        forall|p: usize| peers.contains(p) ==> (p as int) < n,
        forall|j: int|
            0 <= j <= n - 1 - k ==> #[trigger] st.slot[j] == (if peers.contains(cur[j]) {
                Some(cur[j])
            } else {
                None::<usize>
            }),
        forall|j: int| n - 1 - k < j < n ==> (#[trigger] st.slot[j]) is None,
        forall|j: int|
            n - 1 - k < j < n && peers.contains(#[trigger] cur[j]) ==> st.placed.contains_key(
                cur[j],
            ) && st.placed[cur[j]] == j as usize,
        forall|p: usize| #[trigger]
            st.placed.contains_key(p) ==> peers.contains(p) && n - 1 - k < (st.placed[p] as int)
                && (st.placed[p] as int) < n && cur[st.placed[p] as int] == p,
    ensures
        ({
            let curf = fy_from(cur, ds, k);
            let stf = pp_from(st, ds, n, k);
            &&& forall|j: int|
                0 <= j < n && peers.contains(#[trigger] curf[j]) ==> stf.placed.contains_key(
                    curf[j],
                ) && stf.placed[curf[j]] == j as usize
            &&& forall|p: usize| #[trigger]
                stf.placed.contains_key(p) ==> peers.contains(p) && (stf.placed[p] as int) < n
                    && curf[stf.placed[p] as int] == p
        }),
    decreases n - k,
{
    lemma_fy_from_len(cur, ds, k);
    if k == n {
    } else {
        let i = n - 1 - k;
        let x = ds[k] as int;
        assert(0 <= x <= i);
        let cur1 = swap_seq(cur, i, x);
        let st1 = pp_step(st, i, x);
        lemma_swap_preserves_permutation(cur, n, i, x);
        assert(cur1[i] == cur[x] && cur1[x] == cur[i]);
        assert(st.slot[x] == (if peers.contains(cur[x]) {
            Some(cur[x])
        } else {
            None::<usize>
        }));
        if st.slot[x] is Some {
            assert(st1.placed == st.placed.insert(cur[x], i as usize));
        } else {
            assert(st1.placed == st.placed);
        }

        // The occupant settling at i, if tracked, is not recorded yet: it sits
        // in the pool, and everything recorded sits above i.
        assert forall|p: usize| #[trigger]
            st1.placed.contains_key(p) implies peers.contains(p) && n - 1 - (k + 1) < (
            st1.placed[p] as int) && (st1.placed[p] as int) < n && cur1[st1.placed[p] as int]
            == p by {
            if st.placed.contains_key(p) {
                assert(st.placed[p] as int > i);
                assert(cur1[st.placed[p] as int] == cur[st.placed[p] as int]);
                if peers.contains(cur[x]) && p == cur[x] {
                    // cur[x] sits at pool position x <= i; placed positions lie
                    // above i, and cur is injective, so this cannot happen.
                    assert(cur[st.placed[p] as int] == cur[x]);
                    assert(false);
                }
                assert(st1.placed[p] == st.placed[p]);
            } else {
                assert(peers.contains(cur[x]) && p == cur[x]);
                assert(st1.placed[p] == i as usize);
            }
        }

        assert forall|j: int|
            n - 1 - (k + 1) < j < n && peers.contains(#[trigger] cur1[j])
            implies st1.placed.contains_key(cur1[j]) && st1.placed[cur1[j]] == j as usize by {
            if j == i {
                assert(cur1[i] == cur[x]);
                assert(st.slot[x] == Some(cur[x]));
            } else {
                assert(cur1[j] == cur[j]);
                assert(st.placed.contains_key(cur[j]) && st.placed[cur[j]] == j as usize);
                if peers.contains(cur[x]) {
                    assert(cur[j] != cur[x]);
                }
            }
        }

        assert forall|j: int|
            0 <= j <= n - 1 - (k + 1) implies #[trigger] st1.slot[j] == (if peers.contains(
            cur1[j],
        ) {
            Some(cur1[j])
        } else {
            None::<usize>
        }) by {
            if j == x {
                // position x now holds what stood at i
                assert(cur1[x] == cur[i]);
            } else {
                assert(cur1[j] == cur[j]);
            }
        }

        assert forall|j: int| n - 1 - (k + 1) < j < n implies (#[trigger] st1.slot[j]) is None by {
            if j > i {
            } else {
                assert(j == i);
            }
        }

        lemma_fy_pp_agree(cur1, st1, ds, n, k + 1, peers);
        assert(fy_from(cur, ds, k) == fy_from(cur1, ds, k + 1));
        assert(pp_from(st, ds, n, k) == pp_from(st1, ds, n, k + 1));
    }
}

/// A whole tracking run records every tracked position, injectively, exactly
/// where the full shuffle of the same draws puts it.
pub proof fn lemma_pp_run_correct(n: nat, peers: Set<usize>, ds: Seq<usize>)
    requires
        n <= usize::MAX,
        ds.len() == n,
        valid_draws(n, ds),
        forall|p: usize| peers.contains(p) ==> (p as int) < n,
    ensures
        ({
            let perm = fy_apply(ident_seq(n), ds);
            let m = pp_run(n, peers, ds);
            &&& m.dom() == peers
            &&& forall|p: usize|
                peers.contains(p) ==> (#[trigger] m[p] as int) < n && perm[m[p] as int] == p
            &&& forall|j: int|
                0 <= j < n && peers.contains(#[trigger] perm[j]) ==> m.contains_key(perm[j])
                    && m[perm[j]] == j as usize
            &&& forall|p1: usize, p2: usize|
                peers.contains(p1) && peers.contains(p2) && p1 != p2 ==> #[trigger] m[p1]
                    != #[trigger] m[p2]
        }),
{
    let cur = ident_seq(n);
    let st = init_state(n, peers);
    lemma_ident_is_permutation(n);
    lemma_fy_pp_agree(cur, st, ds, n, 0, peers);
    let perm = fy_apply(ident_seq(n), ds);
    let m = pp_run(n, peers, ds);
    lemma_fy_from_permutation(cur, ds, n, 0);
    assert forall|p: usize| #[trigger] peers.contains(p) implies m.contains_key(p) && (m[p] as int)
        < n && perm[m[p] as int] == p by {
        assert(perm.contains(p));
        let j = choose|j: int| 0 <= j < perm.len() && perm[j] == p;
        assert(m.contains_key(perm[j]) && m[perm[j]] == j as usize);
    }
    assert forall|p: usize| #[trigger] m.dom().contains(p) implies peers.contains(p) by {
        assert(m.contains_key(p));
    }
    assert(m.dom() =~= peers);
    assert forall|p1: usize, p2: usize|
        peers.contains(p1) && peers.contains(p2) && p1 != p2 implies #[trigger] m[p1]
        != #[trigger] m[p2] by {
        assert(perm[m[p1] as int] == p1 && perm[m[p2] as int] == p2);
    }
}


/// A run only exchanges entries, so the contents are kept as a multiset.
pub proof fn lemma_fy_from_multiset<T>(a: Seq<T>, ds: Seq<usize>, k: int)
    requires
        valid_draws(a.len() as nat, ds),
        0 <= k,
    ensures
        fy_from(a, ds, k).to_multiset() == a.to_multiset(),
    decreases ds.len() - k,
{
    if k < ds.len() {
        let i = a.len() - 1 - k;
        let x = ds[k] as int;
        let a1 = swap_seq(a, i, x);
        assert(a.update(i, a[x]).to_multiset() == a.to_multiset().insert(a[x]).remove(a[i]));
        assert(a1.to_multiset() == a.update(i, a[x]).to_multiset().insert(a[i]).remove(
            a.update(i, a[x])[x],
        ));
        assert(a.update(i, a[x])[x] == a[x]);
        assert(a1.to_multiset() =~= a.to_multiset()) by {
            broadcast use vstd::multiset::group_multiset_axioms;

            assert(a.to_multiset().contains(a[i]));
            assert(a.to_multiset().insert(a[x]).remove(a[i]).insert(a[i]).remove(a[x])
                =~= a.to_multiset());
        }
        lemma_fy_from_multiset(a1, ds, k + 1);
    }
}

} // verus!
