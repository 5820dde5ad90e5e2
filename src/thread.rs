//! Threads: a stack buffer, a saved register context and a lifecycle state.
use vstd::prelude::*;

verus! {

/// Size in bytes of the stack that each thread owns.
pub const DEFAULT_STACK_SIZE: usize = 1024 * 1024 * 2;

/// Lifecycle of a thread.
#[derive(PartialEq, Eq, Structural, Clone, Copy, Debug)]
pub enum ThreadState {
    /// No work assigned; free to be primed with an entry function.
    Available,
    /// Currently executing.
    Running,
    /// Suspended and eligible to be resumed.
    Ready,
}

/// The callee-saved registers of the x86-64 System V convention and the
/// stack pointer: all that is needed to resume a suspended flow of control.
#[derive(PartialEq, Eq, Structural, Clone, Copy, Debug)]
pub struct ThreadContext {
    pub rsp: u64,
    pub r15: u64,
    pub r14: u64,
    pub r13: u64,
    pub r12: u64,
    pub rbx: u64,
    pub rbp: u64,
}

impl ThreadContext {
    pub open spec fn is_zero(self) -> bool {
        &&& self.rsp == 0
        &&& self.r15 == 0
        &&& self.r14 == 0
        &&& self.r13 == 0
        &&& self.r12 == 0
        &&& self.rbx == 0
        &&& self.rbp == 0
    }
}

impl Default for ThreadContext {
    fn default() -> (r: Self)
        ensures
            r.is_zero(),
    {
        ThreadContext { rsp: 0, r15: 0, r14: 0, r13: 0, r12: 0, rbx: 0, rbp: 0 }
    }
}

/// A thread owns its stack; the buffer must never be resized, since the
/// saved stack pointer and the frames pushed on it point into it.
pub struct Thread {
    pub stack: Vec<u8>,
    pub ctx: ThreadContext,
    pub state: ThreadState,
}

/// The eight bytes of `x`, least significant first.
pub open spec fn le_bytes(x: u64) -> Seq<u8> {
    seq![
        x as u8,
        (x >> 8) as u8,
        (x >> 16) as u8,
        (x >> 24) as u8,
        (x >> 32) as u8,
        (x >> 40) as u8,
        (x >> 48) as u8,
        (x >> 56) as u8,
    ]
}

/// Offset, inside a stack of `len` bytes whose first byte lies at address
/// `base`, of the slot that the first switch into the thread returns
/// through. The slot's address is a multiple of 16, and the slot and the
/// one above it lie inside the buffer.
pub open spec fn entry_offset(base: u64, len: nat) -> int {
    len - (base + len) % 16 - 16
}

/// `base + off` as a 64-bit address.
pub open spec fn address(base: u64, off: int) -> int {
    (base + off) % 0x1_0000_0000_0000_0000
}

/// Stores `x` little-endian in the eight bytes of `stack` from `off` on,
/// leaving every other byte as it was.
fn write_word(stack: &mut Vec<u8>, off: usize, x: u64)
    requires
        off + 8 <= old(stack)@.len(),
    ensures
        final(stack)@.len() == old(stack)@.len(),
        final(stack)@.subrange(off as int, off + 8) == le_bytes(x),
        forall|i: int|
            0 <= i < old(stack)@.len() && !(off <= i < off + 8) ==> #[trigger] final(stack)@[i]
                == old(stack)@[i],
{
    let _len = stack.len();
    stack[off] = #[verifier::truncate] (x as u8);
    stack[off + 1] = #[verifier::truncate] ((x >> 8) as u8);
    stack[off + 2] = #[verifier::truncate] ((x >> 16) as u8);
    stack[off + 3] = #[verifier::truncate] ((x >> 24) as u8);
    stack[off + 4] = #[verifier::truncate] ((x >> 32) as u8);
    stack[off + 5] = #[verifier::truncate] ((x >> 40) as u8);
    stack[off + 6] = #[verifier::truncate] ((x >> 48) as u8);
    stack[off + 7] = #[verifier::truncate] ((x >> 56) as u8);
    assert(stack@.subrange(off as int, off + 8) =~= le_bytes(x));
}

/// `after` and `ctx_after` are `before` and `ctx_before` primed to start
/// `entry` and then land in `skip`, for a stack whose first byte lies at
/// address `base`: the two addresses stand in the slots at
/// [`entry_offset`], the stack pointer points at the first of them, and
/// nothing else differs.
pub open spec fn primed(
    before: Seq<u8>,
    after: Seq<u8>,
    ctx_before: ThreadContext,
    ctx_after: ThreadContext,
    base: u64,
    entry: u64,
    skip: u64,
) -> bool {
    let off = entry_offset(base, before.len());
    &&& 0 <= off
    &&& off + 16 <= before.len()
    &&& after.len() == before.len()
    &&& after.subrange(off, off + 8) == le_bytes(entry)
    &&& after.subrange(off + 8, off + 16) == le_bytes(skip)
    &&& forall|i: int|
        0 <= i < before.len() && !(off <= i < off + 16) ==> #[trigger] after[i] == before[i]
    &&& ctx_after == ThreadContext { rsp: address(base, off) as u64, ..ctx_before }
}

impl Thread {
    /// A stack is large enough to hold the bootstrap frame.
    pub open spec fn wf(&self) -> bool {
        self.stack@.len() == DEFAULT_STACK_SIZE
    }

    /// A fresh thread: a zeroed stack, a zeroed context, `Available`.
    pub fn new() -> (r: Self)
        ensures
            r.wf(),
            r.stack@ == Seq::new(DEFAULT_STACK_SIZE as nat, |i: int| 0u8),
            r.ctx.is_zero(),
            r.state == ThreadState::Available,
    {
        Thread { stack: vec![0u8; DEFAULT_STACK_SIZE], ctx: ThreadContext::default(), state: ThreadState::Available }
    }


    /// Primes the stack so that the first switch into this thread starts
    /// `entry`, and that `entry`, when it returns, lands in `skip`.
    ///
    /// `base` is the address of the stack's first byte. The entry address
    /// goes in the 16-byte aligned slot at [`entry_offset`], the trampoline
    /// address in the slot above it, and the saved stack pointer points at
    /// the entry slot: the `ret` that ends a switch pops `entry` and leaves
    /// the stack aligned as a call would, and the `ret` that ends `entry`
    /// pops `skip`. Nothing else changes.
    pub fn prepare(&mut self, base: u64, entry: u64, skip: u64)
        requires
            old(self).wf(),
            old(self).state == ThreadState::Available,
        ensures
            final(self).wf(),
            final(self).state == old(self).state,
            primed(old(self).stack@, final(self).stack@, old(self).ctx, final(self).ctx, base, entry, skip),
            final(self).ctx.rsp % 16 == 0,
    {
        let len = self.stack.len();
        let rem: usize = (((base % 16) as usize) + len % 16) % 16;
        let off: usize = len - rem - 16;
        proof {
            assert(rem == (base + len) % 16) by (nonlinear_arith)
                requires rem == ((base % 16) + len % 16) % 16;
        }
        write_word(&mut self.stack, off, entry);
        let ghost mid = self.stack@;
        write_word(&mut self.stack, off + 8, skip);
        assert(self.stack@.subrange(off as int, off + 8) =~= mid.subrange(off as int, off + 8));
        let rsp = base.wrapping_add(off as u64);
        proof {
            assert((base + off) % 16 == 0) by (nonlinear_arith)
                requires off == len - (base + len) % 16 - 16;
            assert(rsp as int == address(base, off as int));
            assert(rsp % 16 == 0) by (nonlinear_arith)
                requires rsp as int == (base + off) % 0x1_0000_0000_0000_0000, (base + off) % 16 == 0;
        }
        self.ctx.rsp = rsp;
    }
}

} // verus!
