//! How many spawns a pool takes before it is exhausted.
use vstd::prelude::*;
use vstd::set_lib::{lemma_int_range, lemma_len_subset, set_int_range};

use crate::runtime::{first_available, scan_available};
use crate::thread::ThreadState;

verus! {

/// The indices of the `Available` threads.
pub open spec fn available(states: Seq<ThreadState>) -> Set<int> {
    Set::new(|i: int| 0 <= i < states.len() && states[i] == ThreadState::Available)
}

/// The states after one call of `Runtime::spawn`: the lowest `Available`
/// thread becomes `Ready`, or nothing changes when there is none.
pub open spec fn spawned_once(states: Seq<ThreadState>) -> Seq<ThreadState> {
    match first_available(states) {
        Some(i) => states.update(i, ThreadState::Ready),
        None => states,
    }
}

/// The states after `t` spawns in a row, none of whose threads completes.
pub open spec fn spawned(states: Seq<ThreadState>, t: nat) -> Seq<ThreadState>
    decreases t,
{
    if t == 0 {
        states
    } else {
        spawned_once(spawned(states, (t - 1) as nat))
    }
}

/// The scan from `i` finds an `Available` index exactly when one lies at or
/// after `i`, and what it finds is one.
proof fn lemma_scan_available(states: Seq<ThreadState>, i: int)
    requires
        0 <= i,
    ensures
        scan_available(states, i) is None <==> forall|j: int|
            i <= j < states.len() ==> #[trigger] states[j] != ThreadState::Available,
        scan_available(states, i) matches Some(r) ==> i <= r < states.len() && states[r]
            == ThreadState::Available,
    decreases states.len() - i,
{
    if i < states.len() && states[i] != ThreadState::Available {
        lemma_scan_available(states, i + 1);
        assert forall|j: int| i <= j < states.len() && (forall|j: int|
            i + 1 <= j < states.len() ==> #[trigger] states[j] != ThreadState::Available) implies
            #[trigger] states[j] != ThreadState::Available by {
            if j > i {
            }
        }
    }
}

/// The set of `Available` indices is finite, and one spawn removes from it
/// exactly the index it takes, when there is one.
proof fn lemma_spawn_once(states: Seq<ThreadState>)
    ensures
        available(states).finite(),
        available(spawned_once(states)).finite(),
        first_available(states) is None <==> available(states).len() == 0,
        available(states).len() > 0 ==> available(spawned_once(states)).len() + 1 == available(
            states,
        ).len(),
{
    lemma_int_range(0, states.len() as int);
    lemma_len_subset(available(states), set_int_range(0, states.len() as int));
    lemma_scan_available(states, 0);
    let t = spawned_once(states);
    assert(t.len() == states.len());
    assert(available(t).subset_of(set_int_range(0, states.len() as int)));
    lemma_len_subset(available(t), set_int_range(0, states.len() as int));
    lemma_scan_available(states, 0);
    match first_available(states) {
        Some(i) => {
            assert(available(states).contains(i));
            assert(available(t) =~= available(states).remove(i));
        },
        None => {
            assert(available(states) =~= Set::empty());
        },
    }
    if available(states).len() == 0 {
        available(states).lemma_len0_is_empty();
        if let Some(i) = first_available(states) {
            assert(available(states).contains(i));
        }
    }
}

/// `t` spawns in a row, none of whose threads completes, leave `k - t` of
/// the `k` `Available` threads.
proof fn lemma_spawned_count(states: Seq<ThreadState>, k: nat, t: nat)
    requires
        available(states).len() == k,
        t <= k,
    ensures
        available(spawned(states, t)).len() == k - t,
    decreases t,
{
    if t > 0 {
        lemma_spawned_count(states, k, (t - 1) as nat);
        lemma_spawn_once(spawned(states, (t - 1) as nat));
    }
}

/// In a pool with `k` `Available` threads whose spawned threads never
/// complete, each of `k` spawns in a row finds a thread and the next one
/// is refused.
pub proof fn lemma_spawn_exhaustion(states: Seq<ThreadState>, k: nat)
    requires
        available(states).len() == k,
    ensures
        forall|t: nat| t < k ==> first_available(#[trigger] spawned(states, t)) is Some,
        first_available(spawned(states, k)) is None,
{
    assert forall|t: nat| t < k implies first_available(#[trigger] spawned(states, t)) is Some by {
        lemma_spawned_count(states, k, t);
        lemma_spawn_once(spawned(states, t));
    }
    lemma_spawned_count(states, k, k);
    lemma_spawn_once(spawned(states, k));
}

} // verus!
