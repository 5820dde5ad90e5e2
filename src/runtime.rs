//! The scheduler: a fixed pool of threads, round-robin over the ready ones.
use vstd::prelude::*;

use crate::thread::{primed, Thread, ThreadContext, ThreadState, DEFAULT_STACK_SIZE};

verus! {

/// Number of threads in a pool, the base thread included.
pub const MAX_THREADS: usize = 4;

/// A control transfer for the caller to perform: save the registers into
/// the context of thread `from`, then load those of thread `to`.
#[derive(PartialEq, Eq, Structural, Clone, Copy, Debug)]
pub struct Switch {
    pub from: usize,
    pub to: usize,
}

/// Why a thread could not be spawned.
#[derive(PartialEq, Eq, Structural, Clone, Copy, Debug)]
pub enum SpawnError {
    /// No thread of the pool is `Available`.
    Exhausted,
}

/// The state of the thread `k` places after `cur`, wrapping past the end.
pub open spec fn at(states: Seq<ThreadState>, cur: int, k: int) -> ThreadState {
    states[(cur + k) % states.len() as int]
}

/// The first index in `cur + d, cur + d + 1, ...` (circularly, up to one
/// full turn from `cur`) whose thread is `Ready`.
pub open spec fn scan_ready(states: Seq<ThreadState>, cur: int, d: int) -> Option<int>
    decreases states.len() - d,
{
    if d < 0 || d >= states.len() {
        None
    } else if at(states, cur, d) == ThreadState::Ready {
        Some((cur + d) % states.len() as int)
    } else {
        scan_ready(states, cur, d + 1)
    }
}

/// The thread that a yield from `cur` resumes: the first `Ready` one in
/// pool order starting at `cur` and wrapping past the end, if any.
pub open spec fn next_ready(states: Seq<ThreadState>, cur: int) -> Option<int> {
    scan_ready(states, cur, 0)
}

/// The states after switching from `from` to `to`: `from` stays
/// `Available` if it finished and becomes `Ready` otherwise; `to` runs.
pub open spec fn after_switch(states: Seq<ThreadState>, from: int, to: int) -> Seq<ThreadState> {
    let s = if states[from] == ThreadState::Available {
        states
    } else {
        states.update(from, ThreadState::Ready)
    };
    s.update(to, ThreadState::Running)
}

/// The first `Available` index at or after `i`.
pub open spec fn scan_available(states: Seq<ThreadState>, i: int) -> Option<int>
    decreases states.len() - i,
{
    if i < 0 || i >= states.len() {
        None
    } else if states[i] == ThreadState::Available {
        Some(i)
    } else {
        scan_available(states, i + 1)
    }
}

/// The lowest `Available` index, if any.
pub open spec fn first_available(states: Seq<ThreadState>) -> Option<int> {
    scan_available(states, 0)
}

/// Relies on `Vec::as_ptr`: the address of the buffer's first byte, read
/// as an integer. Nothing is assumed of its value.
#[verifier::external_body]
fn buffer_address(v: &Vec<u8>) -> (r: u64) {
    v.as_ptr() as usize as u64
}

/// A pool of `MAX_THREADS` threads with current index `cur`: no thread but
/// the current one runs, and the base thread (index 0) never becomes
/// `Available`.
pub open spec fn pool_ok(states: Seq<ThreadState>, cur: int) -> bool {
    &&& states.len() == MAX_THREADS
    &&& 0 <= cur < states.len()
    &&& forall|j: int| 0 <= j < states.len() && j != cur ==> #[trigger] states[j] != ThreadState::Running
    &&& states[0] != ThreadState::Available
}

/// Exactly one thread runs.
pub open spec fn one_running(states: Seq<ThreadState>) -> bool {
    exists|j: int|
        0 <= j < states.len() && #[trigger] states[j] == ThreadState::Running && forall|k: int|
            0 <= k < states.len() && k != j ==> #[trigger] states[k] != ThreadState::Running
}

/// The current thread of a sound pool is the only one that runs.
pub proof fn lemma_running_is_alone(states: Seq<ThreadState>, cur: int)
    requires
        pool_ok(states, cur),
        states[cur] == ThreadState::Running,
    ensures
        one_running(states),
{
}

/// After a switch chosen by the round-robin scan, the chosen thread is the
/// only one that runs, and the pool stays sound with it as current.
pub proof fn lemma_switch_keeps_one_running(states: Seq<ThreadState>, cur: int, p: int)
    requires
        pool_ok(states, cur),
        next_ready(states, cur) == Some(p),
    ensures
        0 <= p < states.len(),
        states[p] == ThreadState::Ready,
        pool_ok(after_switch(states, cur, p), p),
        after_switch(states, cur, p)[p] == ThreadState::Running,
        one_running(after_switch(states, cur, p)),
{
    lemma_scan_ready_finds(states, cur);
    let t = after_switch(states, cur, p);
    assert(t[p] == ThreadState::Running);
}

/// The scan from offset `d` returns the first `Ready` thread at offsets
/// `d, d + 1, ...` below the pool's size, or nothing when there is none.
pub proof fn lemma_scan_ready(states: Seq<ThreadState>, cur: int, d: int)
    requires
        states.len() > 0,
        0 <= d,
    ensures
        match scan_ready(states, cur, d) {
            Some(p) => exists|e: int|
                d <= e < states.len() && p == (cur + e) % states.len() as int && #[trigger] at(
                    states,
                    cur,
                    e,
                ) == ThreadState::Ready && forall|k: int|
                    d <= k < e ==> #[trigger] at(states, cur, k) != ThreadState::Ready,
            None => forall|k: int|
                d <= k < states.len() ==> #[trigger] at(states, cur, k) != ThreadState::Ready,
        },
    decreases states.len() - d,
{
    if d < states.len() && at(states, cur, d) != ThreadState::Ready {
        lemma_scan_ready(states, cur, d + 1);
    }
}

/// What the scan returns is `Ready` and lies in the pool.
pub proof fn lemma_scan_ready_finds(states: Seq<ThreadState>, cur: int)
    requires
        states.len() > 0,
    ensures
        next_ready(states, cur) matches Some(p) ==> 0 <= p < states.len() && states[p]
            == ThreadState::Ready,
{
    lemma_scan_ready(states, cur, 0);
}

/// A pool in which no thread but the running current one was ever primed
/// has no work: the first yield of the run loop finds nothing `Ready`, so
/// the loop stops at once.
pub proof fn lemma_idle_pool_stops(states: Seq<ThreadState>, cur: int)
    requires
        pool_ok(states, cur),
        states[cur] == ThreadState::Running,
        forall|j: int| 0 <= j < states.len() && j != cur ==> #[trigger] states[j] == ThreadState::Available,
    ensures
        next_ready(states, cur) == None::<int>,
{
    lemma_scan_ready_finds(states, cur);
}

/// A thread other than the base one that finishes becomes `Available`, and
/// control always goes on elsewhere: the base thread is `Ready` whenever it
/// is not current, so the scan finds work, and the thread resumed is the
/// only one that runs.
pub proof fn lemma_finish_frees_thread(states: Seq<ThreadState>, cur: int)
    requires
        pool_ok(states, cur),
        cur != 0,
    ensures
        ({
            let s = states.update(cur, ThreadState::Available);
            &&& pool_ok(s, cur)
            &&& next_ready(s, cur) matches Some(p) && p != cur && after_switch(s, cur, p)[cur]
                == ThreadState::Available && one_running(after_switch(s, cur, p))
        }),
{
    let s = states.update(cur, ThreadState::Available);
    assert(s[0] == ThreadState::Ready);
    lemma_scan_ready(s, cur, 0);
    assert((cur + (MAX_THREADS - cur)) % (MAX_THREADS as int) == 0);
    assert(at(s, cur, MAX_THREADS - cur) == ThreadState::Ready);
    lemma_switch_keeps_one_running(s, cur, next_ready(s, cur)->Some_0);
}

/// The scheduler: the threads and the index of the one that runs.
pub struct Runtime {
    threads: Vec<Thread>,
    current_thread: usize,
}

impl Runtime {
    /// The state of each thread, in pool order.
    pub closed spec fn states(&self) -> Seq<ThreadState> {
        self.threads@.map_values(|t: Thread| t.state)
    }

    /// The saved context of each thread.
    pub closed spec fn contexts(&self) -> Seq<ThreadContext> {
        self.threads@.map_values(|t: Thread| t.ctx)
    }

    /// The stack of each thread.
    pub closed spec fn stacks(&self) -> Seq<Seq<u8>> {
        self.threads@.map_values(|t: Thread| t.stack@)
    }

    /// Index of the current thread.
    pub closed spec fn cur(&self) -> int {
        self.current_thread as int
    }

    pub open spec fn wf(&self) -> bool {
        &&& pool_ok(self.states(), self.cur())
        &&& self.contexts().len() == self.states().len()
        &&& self.stacks().len() == self.states().len()
        &&& forall|i: int|
            0 <= i < self.stacks().len() ==> #[trigger] self.stacks()[i].len() == DEFAULT_STACK_SIZE
    }

    /// A pool whose base thread (index 0) runs, on the caller's own stack,
    /// and whose other threads are `Available`.
    pub fn new() -> (r: Self)
        ensures
            r.wf(),
            r.cur() == 0,
            r.states() == seq![
                ThreadState::Running,
                ThreadState::Available,
                ThreadState::Available,
                ThreadState::Available,
            ],
            forall|i: int| 0 <= i < MAX_THREADS ==> (#[trigger] r.contexts()[i]).is_zero(),
            forall|i: int|
                0 <= i < MAX_THREADS ==> #[trigger] r.stacks()[i] == Seq::new(
                    DEFAULT_STACK_SIZE as nat,
                    |k: int| 0u8,
                ),
    {
        let base_thread = Thread {
            stack: vec![0u8; DEFAULT_STACK_SIZE],
            ctx: ThreadContext::default(),
            state: ThreadState::Running,
        };
        let mut threads: Vec<Thread> = Vec::new();
        threads.push(base_thread);
        let mut i: usize = 1;
        while i < MAX_THREADS
            invariant
                1 <= i <= MAX_THREADS,
                threads@.len() == i,
                threads@[0].state == ThreadState::Running,
                forall|k: int| 1 <= k < i ==> (#[trigger] threads@[k]).state == ThreadState::Available,
                forall|k: int| 0 <= k < i ==> (#[trigger] threads@[k]).ctx.is_zero(),
                forall|k: int|
                    0 <= k < i ==> #[trigger] threads@[k].stack@ == Seq::new(
                        DEFAULT_STACK_SIZE as nat,
                        |k: int| 0u8,
                    ),
            decreases MAX_THREADS - i,
        {
            threads.push(Thread::new());
            i += 1;
        }
        let r = Runtime { threads, current_thread: 0 };
        assert(r.states() =~= seq![
            ThreadState::Running,
            ThreadState::Available,
            ThreadState::Available,
            ThreadState::Available,
        ]);
        r
    }

    /// Hands control to the next `Ready` thread in round-robin order,
    /// starting the scan at the current thread and wrapping past the end.
    ///
    /// Returns `None`, changing nothing, when no thread is `Ready`.
    /// Otherwise the current thread becomes `Ready` unless it finished
    /// (`Available`), the chosen one becomes `Running` and current, and the
    /// switch between their contexts is returned for the caller to perform.
    pub fn t_yield(&mut self) -> (r: Option<Switch>)
        requires
            old(self).wf(),
        ensures
            final(self).wf(),
            final(self).contexts() == old(self).contexts(),
            final(self).stacks() == old(self).stacks(),
            match next_ready(old(self).states(), old(self).cur()) {
                None => r == None::<Switch> && final(self).states() == old(self).states()
                    && final(self).cur() == old(self).cur(),
                Some(p) => r == Some(Switch { from: old(self).cur() as usize, to: p as usize })
                    && final(self).states() == after_switch(old(self).states(), old(self).cur(), p)
                    && final(self).cur() == p,
            },
            r is Some ==> one_running(final(self).states()),
    {
        let n = self.threads.len();
        let cur = self.current_thread;
        let mut pos = cur;
        let ghost states = self.states();
        let ghost mut d: int = 0;
        while self.threads[pos].state != ThreadState::Ready
            invariant
                self.wf(),
                self.states() == states,
                self.cur() == cur,
                n == states.len(),
                0 <= d < n,
                pos == (cur + d) % (MAX_THREADS as int),
                next_ready(states, cur as int) == scan_ready(states, cur as int, d),
            decreases n - d,
        {
            pos += 1;
            if pos == n {
                pos = 0;
            }
            proof {
                d = d + 1;
                assert(pos == (cur + d) % (MAX_THREADS as int));
                assert(pos == cur <==> d == n);
            }
            if pos == cur {
                assert(scan_ready(states, cur as int, d) == None::<int>);
                return None;
            }
        }
        if self.threads[cur].state != ThreadState::Available {
            self.threads[cur].state = ThreadState::Ready;
        }
        self.threads[pos].state = ThreadState::Running;
        self.current_thread = pos;
        proof {
            assert(self.states() =~= after_switch(states, cur as int, pos as int));
            lemma_switch_keeps_one_running(states, cur as int, pos as int);
            assert(self.contexts() =~= old(self).contexts());
            assert(self.stacks() =~= old(self).stacks());
        }
        Some(Switch { from: cur, to: pos })
    }

    /// Called when the current thread's entry function has returned: the
    /// thread becomes `Available` and control goes to the next `Ready`
    /// thread as in [`Runtime::t_yield`]. The base thread never finishes
    /// this way.
    pub fn t_return(&mut self) -> (r: Option<Switch>)
        requires
            old(self).wf(),
            old(self).cur() != 0,
        ensures
            final(self).wf(),
            final(self).contexts() == old(self).contexts(),
            final(self).stacks() == old(self).stacks(),
            ({
                let s = old(self).states().update(old(self).cur(), ThreadState::Available);
                match next_ready(s, old(self).cur()) {
                    None => r == None::<Switch> && final(self).states() == s
                        && final(self).cur() == old(self).cur(),
                    Some(p) => r == Some(Switch { from: old(self).cur() as usize, to: p as usize })
                        && final(self).states() == after_switch(s, old(self).cur(), p)
                        && final(self).cur() == p,
                }
            }),
            r is Some,
            one_running(final(self).states()),
    {
        let cur = self.current_thread;
        self.threads[cur].state = ThreadState::Available;
        proof {
            assert(self.states() =~= old(self).states().update(cur as int, ThreadState::Available));
            assert(self.contexts() =~= old(self).contexts());
            assert(self.stacks() =~= old(self).stacks());
            lemma_finish_frees_thread(old(self).states(), cur as int);
        }
        self.t_yield()
    }

    /// Assigns the entry function at address `entry` to the lowest
    /// `Available` thread and marks it `Ready`; `skip` is the address of the
    /// trampoline that `entry` returns into, which is to call
    /// [`Runtime::t_return`]. The thread's stack is primed at its own
    /// address; no other thread changes.
    ///
    /// Fails with `Exhausted`, changing nothing, when no thread is
    /// `Available`.
    pub fn spawn(&mut self, entry: u64, skip: u64) -> (r: Result<usize, SpawnError>)
        requires
            old(self).wf(),
        ensures
            final(self).wf(),
            final(self).cur() == old(self).cur(),
            match first_available(old(self).states()) {
                None => r == Err::<usize, SpawnError>(SpawnError::Exhausted)
                    && final(self).states() == old(self).states()
                    && final(self).contexts() == old(self).contexts()
                    && final(self).stacks() == old(self).stacks(),
                Some(i) => r == Ok::<usize, SpawnError>(i as usize)
                    && final(self).states() == old(self).states().update(i, ThreadState::Ready)
                    && (forall|j: int| 0 <= j < MAX_THREADS && j != i
                        ==> #[trigger] final(self).contexts()[j] == old(self).contexts()[j]
                        && final(self).stacks()[j] == old(self).stacks()[j])
                    && final(self).contexts()[i].rsp % 16 == 0
                    && exists|base: u64| primed(
                        old(self).stacks()[i],
                        final(self).stacks()[i],
                        old(self).contexts()[i],
                        final(self).contexts()[i],
                        base,
                        entry,
                        skip,
                    ),
            },
    {
        let n = self.threads.len();
        let mut i: usize = 0;
        while i < n
            invariant
                self == old(self),
                self.wf(),
                n == self.states().len(),
                0 <= i <= n,
                first_available(self.states()) == scan_available(self.states(), i as int),
            decreases n - i,
        {
            if self.threads[i].state == ThreadState::Available {
                let base = buffer_address(&self.threads[i].stack);
                assert(self.threads@[i as int].wf()) by {
                    assert(self.stacks()[i as int].len() == DEFAULT_STACK_SIZE);
                }
                self.threads[i].prepare(base, entry, skip);
                self.threads[i].state = ThreadState::Ready;
                proof {
                    assert(self.states() =~= old(self).states().update(i as int, ThreadState::Ready));
                    assert(self.contexts() =~= old(self).contexts().update(i as int, self.threads@[i as int].ctx));
                    assert(self.stacks() =~= old(self).stacks().update(i as int, self.threads@[i as int].stack@));
                    assert(primed(
                        old(self).stacks()[i as int],
                        self.stacks()[i as int],
                        old(self).contexts()[i as int],
                        self.contexts()[i as int],
                        base,
                        entry,
                        skip,
                    ));
                }
                return Ok(i);
            }
            i += 1;
        }
        Err(SpawnError::Exhausted)
    }

    /// Index of the current thread.
    pub fn current_thread(&self) -> (r: usize)
        ensures
            r == self.cur(),
    {
        self.current_thread
    }

    /// Number of threads in the pool.
    pub fn len(&self) -> (r: usize)
        requires
            self.wf(),
        ensures
            r == self.states().len(),
    {
        self.threads.len()
    }

    /// State of thread `i`.
    pub fn state(&self, i: usize) -> (r: ThreadState)
        requires
            self.wf(),
            i < self.states().len(),
        ensures
            r == self.states()[i as int],
    {
        self.threads[i].state
    }

    /// Saved context of thread `i`.
    pub fn context(&self, i: usize) -> (r: &ThreadContext)
        requires
            self.wf(),
            i < self.states().len(),
        ensures
            *r == self.contexts()[i as int],
    {
        &self.threads[i].ctx
    }

    /// The saved context of thread `i`, for the switch to write the
    /// registers into; nothing else of the pool can change through it.
    pub fn context_mut(&mut self, i: usize) -> (r: &mut ThreadContext)
        requires
            old(self).wf(),
            i < old(self).states().len(),
        ensures
            *r == old(self).contexts()[i as int],
            final(self).contexts() == old(self).contexts().update(i as int, *final(r)),
            final(self).states() == old(self).states(),
            final(self).stacks() == old(self).stacks(),
            final(self).cur() == old(self).cur(),
    {
        &mut self.threads[i].ctx
    }
}

} // verus!