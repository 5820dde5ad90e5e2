//! Round-robin fairness of repeated yields.
use vstd::prelude::*;

use crate::runtime::{
    after_switch, at, lemma_scan_ready, lemma_switch_keeps_one_running, next_ready, pool_ok,
    MAX_THREADS,
};
use crate::thread::ThreadState;

verus! {

/// The states and the current index after one call of `Runtime::t_yield`.
pub open spec fn yield_step(states: Seq<ThreadState>, cur: int) -> (Seq<ThreadState>, int) {
    match next_ready(states, cur) {
        Some(p) => (after_switch(states, cur, p), p),
        None => (states, cur),
    }
}

/// The states and the current index after `t` yields in a row, each
/// resumed thread yielding again at once.
pub open spec fn yields(states: Seq<ThreadState>, cur: int, t: nat) -> (Seq<ThreadState>, int)
    decreases t,
{
    if t == 0 {
        (states, cur)
    } else {
        let prev = yields(states, cur, (t - 1) as nat);
        yield_step(prev.0, prev.1)
    }
}

/// The thread that is current after each of the first `t` of those yields.
pub open spec fn resumed(states: Seq<ThreadState>, cur: int, t: nat) -> Seq<int>
    decreases t,
{
    if t == 0 {
        Seq::empty()
    } else {
        resumed(states, cur, (t - 1) as nat).push(yields(states, cur, t).1)
    }
}

/// How many places `j` lies after `c0` in pool order, wrapping past the end.
pub open spec fn ahead(c0: int, j: int) -> int {
    (j - c0) % (MAX_THREADS as int)
}

/// Index arithmetic of `ahead` in a pool of `MAX_THREADS`.
proof fn lemma_ahead(c0: int, c: int, j: int, k: int)
    requires
        0 <= c0 < MAX_THREADS,
        0 <= c < MAX_THREADS,
        0 <= j < MAX_THREADS,
    ensures
        0 <= ahead(c0, j) < MAX_THREADS,
        ahead(c0, j) == 0 <==> j == c0,
        ahead(c0, c) == ahead(c0, j) ==> c == j,
        0 <= k < MAX_THREADS - ahead(c0, c) ==> ahead(c0, (c + k) % (MAX_THREADS as int))
            == ahead(c0, c) + k,
        ahead(c0, c) < ahead(c0, j) ==> (c + (ahead(c0, j) - ahead(c0, c))) % (
        MAX_THREADS as int) == j,
        (c + (MAX_THREADS - ahead(c0, c))) % (MAX_THREADS as int) == c0,
        (c + 0) % (MAX_THREADS as int) == c,
{
}

/// What holds after `t` yields from `c0` that have not yet come back to
/// `c0`: the threads resumed so far lie ever further after `c0`, and they
/// are all the non-`Available` threads up to the current one.
spec fn on_track(states: Seq<ThreadState>, c0: int, t: nat) -> bool {
    let s = yields(states, c0, t).0;
    let c = yields(states, c0, t).1;
    let r = resumed(states, c0, t);
    &&& pool_ok(s, c)
    &&& s[c] == ThreadState::Running
    &&& forall|j: int|
        0 <= j < MAX_THREADS ==> (#[trigger] s[j] == ThreadState::Available) == (states[j]
            == ThreadState::Available)
    &&& forall|j: int|
        0 <= j < MAX_THREADS && j != c && states[j] != ThreadState::Available ==> #[trigger] s[j]
            == ThreadState::Ready
    &&& r.len() == t
    &&& t <= ahead(c0, c)
    &&& (t == 0 ==> c == c0)
    &&& (t > 0 ==> r[t - 1] == c)
    &&& forall|k: int| 0 <= k < t ==> 0 <= #[trigger] r[k] < MAX_THREADS && 0 < ahead(c0, r[k])
    &&& forall|k1: int, k2: int|
        0 <= k1 < k2 < t ==> ahead(c0, #[trigger] r[k1]) < ahead(c0, #[trigger] r[k2])
    &&& forall|j: int|
        0 <= j < MAX_THREADS && states[j] != ThreadState::Available && 0 < ahead(c0, j) <= ahead(
            c0,
            c,
        ) ==> #[trigger] r.contains(j)
}

/// The first `t` yields from `c0` resume no thread twice, end back at
/// `c0`, and resume every thread that was `Ready`.
pub open spec fn fair_round(states: Seq<ThreadState>, c0: int, t: nat) -> bool {
    let r = resumed(states, c0, t);
    &&& r.no_duplicates()
    &&& r[t - 1] == c0
    &&& forall|j: int| 0 <= j < states.len() && states[j] == ThreadState::Ready ==> #[trigger] r.contains(j)
}

proof fn lemma_round_from(states: Seq<ThreadState>, c0: int, t: nat)
    requires
        pool_ok(states, c0),
        states[c0] == ThreadState::Running,
        on_track(states, c0, t),
    ensures
        exists|n: nat| t < n <= MAX_THREADS && fair_round(states, c0, n),
    decreases MAX_THREADS - t,
{
    let s = yields(states, c0, t).0;
    let c = yields(states, c0, t).1;
    let r = resumed(states, c0, t);
    let a = ahead(c0, c);
    let t1 = (t + 1) as nat;
    lemma_ahead(c0, c, c0, 0);
    lemma_scan_ready(s, c, 0);
    assert(yields(states, c0, t1) == yield_step(s, c));
    assert(resumed(states, c0, t1) == r.push(yields(states, c0, t1).1));
    match next_ready(s, c) {
        None => {
            if t > 0 {
                lemma_ahead(c0, c, c0, 0);
                assert(at(s, c, MAX_THREADS - a) == s[c0]);
            }
            assert(resumed(states, c0, t1) =~= seq![c0]);
            assert forall|j: int| 0 <= j < states.len() && states[j] == ThreadState::Ready implies
                #[trigger] resumed(states, c0, t1).contains(j) by {
                lemma_ahead(c0, c, j, 0);
                assert(at(s, c, ahead(c0, j)) == s[j]);
            }
            assert(fair_round(states, c0, t1));
        },
        Some(p) => {
            let e = choose|e: int|
                0 <= e < s.len() && p == (c + e) % s.len() as int && #[trigger] at(s, c, e)
                    == ThreadState::Ready && forall|k: int|
                    0 <= k < e ==> #[trigger] at(s, c, k) != ThreadState::Ready;
            lemma_switch_keeps_one_running(s, c, p);
            assert(at(s, c, 0) == s[c]);
            assert(e >= 1);
            if t > 0 && e > MAX_THREADS - a {
                assert(at(s, c, MAX_THREADS - a) == s[c0]);
                assert(false);
            }
            let s1 = after_switch(s, c, p);
            let r1 = resumed(states, c0, t1);
            if e < MAX_THREADS - a {
                lemma_ahead(c0, c, c0, e);
                assert(ahead(c0, p) == a + e);
                assert forall|k1: int, k2: int| 0 <= k1 < k2 < t1 implies ahead(
                    c0,
                    #[trigger] r1[k1],
                ) < ahead(c0, #[trigger] r1[k2]) by {
                    if k2 == t {
                        if t > 0 {
                            assert(ahead(c0, r[k1]) <= ahead(c0, r[t - 1])) by {
                                if k1 < t - 1 {
                                    assert(ahead(c0, r[k1]) < ahead(c0, r[t - 1]));
                                }
                            }
                        }
                    } else {
                        assert(r1[k1] == r[k1] && r1[k2] == r[k2]);
                    }
                }
                assert forall|j: int|
                    0 <= j < MAX_THREADS && states[j] != ThreadState::Available && 0 < ahead(c0, j)
                        <= ahead(c0, p) implies #[trigger] r1.contains(j) by {
                    lemma_ahead(c0, c, j, 0);
                    lemma_ahead(c0, p, j, 0);
                    if ahead(c0, j) <= a {
                        assert(r.contains(j));
                        let k = choose|k: int| 0 <= k < r.len() && r[k] == j;
                        assert(r1[k] == j);
                    } else if ahead(c0, j) < a + e {
                        assert(at(s, c, ahead(c0, j) - a) == s[j]);
                        assert(false);
                    } else {
                        assert(r1[t as int] == j);
                    }
                }
                assert forall|j: int| 0 <= j < MAX_THREADS implies (#[trigger] s1[j]
                    == ThreadState::Available) == (states[j] == ThreadState::Available) by {
                    assert(s[j] == ThreadState::Available <==> states[j] == ThreadState::Available);
                }
                assert(on_track(states, c0, t1));
                lemma_round_from(states, c0, t1);
            } else {
                lemma_ahead(c0, c, c0, 0);
                assert(p == c0);
                assert(r1.no_duplicates()) by {
                    assert forall|k1: int, k2: int|
                        0 <= k1 < r1.len() && 0 <= k2 < r1.len() && k1 != k2 implies r1[k1]
                        != r1[k2] by {
                        if k1 < t && k2 < t {
                            assert(r1[k1] == r[k1] && r1[k2] == r[k2]);
                            if k1 < k2 {
                                assert(ahead(c0, r[k1]) < ahead(c0, r[k2]));
                            } else {
                                assert(ahead(c0, r[k2]) < ahead(c0, r[k1]));
                            }
                        } else if k1 < t {
                            assert(0 < ahead(c0, r[k1]));
                        } else {
                            assert(0 < ahead(c0, r[k2]));
                        }
                    }
                }
                assert forall|j: int| 0 <= j < states.len() && states[j] == ThreadState::Ready implies
                    #[trigger] r1.contains(j) by {
                    lemma_ahead(c0, c, j, 0);
                    if ahead(c0, j) <= a {
                        assert(r.contains(j));
                        let k = choose|k: int| 0 <= k < r.len() && r[k] == j;
                        assert(r1[k] == j);
                    } else {
                        assert(at(s, c, ahead(c0, j) - a) == s[j]);
                        assert(false);
                    }
                }
                assert(fair_round(states, c0, t1));
            }
        },
    }
}

/// Round-robin fairness: when the running thread yields again and again,
/// and so does each thread it hands control to, every thread that was
/// `Ready` is resumed exactly once before the yielding thread runs again,
/// and no thread is resumed twice before that.
pub proof fn lemma_round_robin(states: Seq<ThreadState>, cur: int)
    requires
        pool_ok(states, cur),
        states[cur] == ThreadState::Running,
    ensures
        exists|n: nat| 1 <= n <= MAX_THREADS && fair_round(states, cur, n),
{
    lemma_ahead(cur, cur, cur, 0);
    assert(on_track(states, cur, 0));
    lemma_round_from(states, cur, 0);
}

} // verus!
