use green_threads::runtime::{Runtime, SpawnError, Switch, MAX_THREADS};
use green_threads::thread::{Thread, ThreadContext, ThreadState, DEFAULT_STACK_SIZE};

const ENTRY: u64 = 0x1122_3344_5566_7788;
const SKIP: u64 = 0x99aa_bbcc_ddee_ff00;

fn running_count(rt: &Runtime) -> usize {
    let mut n = 0;
    for i in 0..rt.len() {
        if rt.state(i) == ThreadState::Running {
            n += 1;
        }
    }
    n
}

fn states(rt: &Runtime) -> Vec<ThreadState> {
    (0..rt.len()).map(|i| rt.state(i)).collect()
}

#[test]
fn new_pool_has_running_base_and_available_workers() {
    let rt = Runtime::new();
    assert_eq!(rt.len(), MAX_THREADS);
    assert_eq!(rt.current_thread(), 0);
    assert_eq!(
        states(&rt),
        vec![
            ThreadState::Running,
            ThreadState::Available,
            ThreadState::Available,
            ThreadState::Available
        ]
    );
    for i in 0..MAX_THREADS {
        assert_eq!(*rt.context(i), ThreadContext::default());
    }
}

#[test]
fn new_thread_is_available_and_zeroed() {
    let t = Thread::new();
    assert_eq!(t.state, ThreadState::Available);
    assert_eq!(t.stack.len(), DEFAULT_STACK_SIZE);
    assert!(t.stack.iter().all(|b| *b == 0));
    assert_eq!(t.ctx, ThreadContext::default());
    assert_eq!(t.ctx.rsp, 0);
    assert_eq!(t.ctx.rbp, 0);
}

#[test]
fn prepare_on_aligned_stack() {
    let mut t = Thread::new();
    let len = DEFAULT_STACK_SIZE as u64;
    t.prepare(0x1000, ENTRY, SKIP);
    let off = DEFAULT_STACK_SIZE - 16;
    assert_eq!(t.ctx.rsp, 0x1000 + len - 16);
    assert_eq!(t.stack[off..off + 8], ENTRY.to_le_bytes());
    assert_eq!(t.stack[off + 8..off + 16], SKIP.to_le_bytes());
    assert!(t.stack[..off].iter().all(|b| *b == 0));
    assert_eq!(t.state, ThreadState::Available);
    assert_eq!(t.ctx.r15, 0);
}

#[test]
fn prepare_on_unaligned_stack() {
    let mut t = Thread::new();
    let len = DEFAULT_STACK_SIZE as u64;
    t.prepare(0x1003, ENTRY, SKIP);
    let off = DEFAULT_STACK_SIZE - 19;
    assert_eq!(t.ctx.rsp, 0x1000 + len - 16);
    assert_eq!(t.ctx.rsp % 16, 0);
    assert_eq!(t.stack[off..off + 8], ENTRY.to_le_bytes());
    assert_eq!(t.stack[off + 8..off + 16], SKIP.to_le_bytes());
    assert!(t.stack[off + 16..].iter().all(|b| *b == 0));
}

#[test]
fn prepare_address_wraps() {
    let mut t = Thread::new();
    let len = DEFAULT_STACK_SIZE as u64;
    t.prepare(u64::MAX - 7, ENTRY, SKIP);
    let off = DEFAULT_STACK_SIZE - 24;
    assert_eq!(t.ctx.rsp, len - 32);
    assert_eq!(t.stack[off..off + 8], ENTRY.to_le_bytes());
    assert_eq!(t.stack[off + 8..off + 16], SKIP.to_le_bytes());
}

#[test]
fn spawn_primes_lowest_available_thread() {
    let mut rt = Runtime::new();
    assert_eq!(rt.spawn(ENTRY, SKIP), Ok(1));
    assert_eq!(rt.state(1), ThreadState::Ready);
    assert_eq!(rt.current_thread(), 0);
    let ctx = *rt.context(1);
    assert_ne!(ctx.rsp, 0);
    assert_eq!(ctx.rsp % 16, 0);
    assert_eq!(*rt.context(0), ThreadContext::default());
    assert_eq!(*rt.context(2), ThreadContext::default());
    assert_eq!(*rt.context(3), ThreadContext::default());
}

#[test]
fn spawn_beyond_capacity_is_refused() {
    let mut rt = Runtime::new();
    assert_eq!(rt.spawn(ENTRY, SKIP), Ok(1));
    assert_eq!(rt.spawn(ENTRY, SKIP), Ok(2));
    assert_eq!(rt.spawn(ENTRY, SKIP), Ok(3));
    let before = states(&rt);
    assert_eq!(rt.spawn(ENTRY, SKIP), Err(SpawnError::Exhausted));
    assert_eq!(states(&rt), before);
}

#[test]
fn idle_pool_stops_at_once() {
    let mut rt = Runtime::new();
    assert_eq!(rt.t_yield(), None);
    assert_eq!(rt.current_thread(), 0);
    assert_eq!(rt.state(0), ThreadState::Running);
    assert_eq!(running_count(&rt), 1);
}

#[test]
fn yields_go_round_robin() {
    let mut rt = Runtime::new();
    for _ in 0..3 {
        rt.spawn(ENTRY, SKIP).unwrap();
    }
    let mut visited = Vec::new();
    for _ in 0..MAX_THREADS {
        let sw = rt.t_yield().unwrap();
        assert_eq!(sw.from, *visited.last().unwrap_or(&0));
        visited.push(sw.to);
        assert_eq!(running_count(&rt), 1);
    }
    assert_eq!(visited, vec![1, 2, 3, 0]);
    assert_eq!(rt.t_yield(), Some(Switch { from: 0, to: 1 }));
}

#[test]
fn yield_skips_available_threads() {
    let mut rt = Runtime::new();
    rt.spawn(ENTRY, SKIP).unwrap();
    rt.spawn(ENTRY, SKIP).unwrap();
    assert_eq!(rt.t_yield(), Some(Switch { from: 0, to: 1 }));
    assert_eq!(rt.t_return(), Some(Switch { from: 1, to: 2 }));
    assert_eq!(rt.t_yield(), Some(Switch { from: 2, to: 0 }));
    assert_eq!(rt.t_yield(), Some(Switch { from: 0, to: 2 }));
    assert_eq!(rt.state(1), ThreadState::Available);
}

#[test]
fn exactly_one_thread_runs_throughout() {
    let mut rt = Runtime::new();
    assert_eq!(running_count(&rt), 1);
    rt.spawn(ENTRY, SKIP).unwrap();
    rt.spawn(ENTRY, SKIP).unwrap();
    assert_eq!(running_count(&rt), 1);
    rt.t_yield().unwrap();
    assert_eq!(running_count(&rt), 1);
    rt.t_return().unwrap();
    assert_eq!(running_count(&rt), 1);
    rt.t_yield().unwrap();
    assert_eq!(running_count(&rt), 1);
    assert_eq!(rt.state(rt.current_thread()), ThreadState::Running);
}

#[test]
fn finished_thread_becomes_available_once() {
    let mut rt = Runtime::new();
    let mut counter = 0;
    let id = rt.spawn(ENTRY, SKIP).unwrap();
    let primed = *rt.context(id);
    let sw = rt.t_yield().unwrap();
    assert_eq!(sw, Switch { from: 0, to: id });
    // the entry function runs: it bumps the counter and returns
    counter += 1;
    let back = rt.t_return().unwrap();
    assert_eq!(back, Switch { from: id, to: 0 });
    assert_eq!(counter, 1);
    assert_eq!(rt.state(id), ThreadState::Available);
    assert_eq!(rt.state(0), ThreadState::Running);
    assert_eq!(*rt.context(id), primed);
    for i in [0, 2, 3] {
        assert_eq!(*rt.context(i), ThreadContext::default());
    }
    assert_eq!(rt.t_yield(), None);
}

#[test]
fn two_workers_trace() {
    // A yields once then returns, B returns at once, C is never spawned.
    let mut rt = Runtime::new();
    let a = rt.spawn(ENTRY, SKIP).unwrap();
    let b = rt.spawn(ENTRY, SKIP).unwrap();
    assert_eq!((a, b), (1, 2));
    assert_eq!(rt.t_yield(), Some(Switch { from: 0, to: a }));
    assert_eq!(rt.t_yield(), Some(Switch { from: a, to: b }));
    assert_eq!(rt.t_return(), Some(Switch { from: b, to: 0 }));
    assert_eq!(rt.t_yield(), Some(Switch { from: 0, to: a }));
    assert_eq!(rt.t_return(), Some(Switch { from: a, to: 0 }));
    assert_eq!(rt.t_yield(), None);
    assert_eq!(
        states(&rt),
        vec![
            ThreadState::Running,
            ThreadState::Available,
            ThreadState::Available,
            ThreadState::Available
        ]
    );
}

#[test]
fn context_mut_writes_one_context() {
    let mut rt = Runtime::new();
    rt.context_mut(2).rbx = 42;
    assert_eq!(rt.context(2).rbx, 42);
    assert_eq!(*rt.context(1), ThreadContext::default());
}
