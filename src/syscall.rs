use vstd::prelude::*;

use crate::context::ActiveContextHandle;
use crate::sched::{Scheduler, SCHED_CAPACITY};

verus! {

/// The highest address of the canonical lower half, where user pointers live.
pub const USER_ADDRESS_LIMIT: u64 = 0x0000_FFFF_FFFF_FFFF;

/// Ends the calling context.
pub const SYS_EXIT: usize = 0;

/// Prints bytes from the caller's memory: slot 1 holds the pointer, slot 2 the length.
pub const SYS_PRINT: usize = 1;

/// Hands the execution unit to the next ready context.
pub const SYS_YIELD: usize = 2;

/// The slot that receives the result code.
pub const RESULT_SLOT: usize = 7;

/// Why a system call failed; its code goes back to the caller in the result slot.
#[derive(Clone, Copy, Debug, PartialEq, Eq)]
pub enum SyscallError {
    /// A pointer outside the lower half, or not aligned for what it points to.
    InvalidPointer,
}

impl SyscallError {
    /// The result code of the error.
    pub fn code(&self) -> (r: usize)
        ensures
            r == 1,
    {
        match self {
            SyscallError::InvalidPointer => 1,
        }
    }
}

/// What the kernel does once the dispatcher has decided.
#[derive(Clone, Copy, Debug, PartialEq, Eq)]
pub enum SyscallAction {
    /// Tear the caller down.
    Exit,
    /// Send `len` bytes from `base` in the caller's memory to the console, then resume it.
    Print { base: usize, len: usize },
    /// Queue the caller and run the next ready context.
    Yield,
    /// Resume the caller.
    Resume,
}

/// `p` lies in the lower half and is aligned to `align`.
pub open spec fn pointer_ok(p: usize, align: usize) -> bool {
    (p as u64) <= USER_ADDRESS_LIMIT && p % align == 0
}

/// Checks a user pointer to something of alignment `align`, without reading through it.
pub fn user_pointer(p: usize, align: usize) -> (r: Result<(), SyscallError>)
    requires
        align > 0,
    ensures
        r is Ok <==> pointer_ok(p, align),
        r is Err ==> r == Err::<(), SyscallError>(SyscallError::InvalidPointer),
{
    if p as u64 > USER_ADDRESS_LIMIT || p % align != 0 {
        return Err(SyscallError::InvalidPointer);
    }
    Ok(())
}

/// Checks a user byte slice of `len` bytes at `base`.
pub fn user_slice(base: usize, len: usize) -> (r: Result<(), SyscallError>)
    ensures
        r is Ok <==> pointer_ok(base, 1),
        r is Err ==> r == Err::<(), SyscallError>(SyscallError::InvalidPointer),
{
    user_pointer(base, 1)
}

/// The action for system call `num` with the slots `params`, and the slots afterwards.
pub open spec fn syscall_outcome(num: usize, params: Seq<usize>) -> (SyscallAction, Seq<usize>) {
    if num == SYS_PRINT {
        if pointer_ok(params[1], 1) {
            (SyscallAction::Print { base: params[1], len: params[2] }, params.update(RESULT_SLOT as int, 0))
        } else {
            (SyscallAction::Resume, params.update(RESULT_SLOT as int, 1))
        }
    } else if num == SYS_YIELD {
        (SyscallAction::Yield, params)
    } else {
        (SyscallAction::Exit, params)
    }
}

/// Decides system call `num`: checks its arguments, writes the result code into slot 7, and
/// says what is left to do. Unknown numbers end the caller, as exit does.
pub fn dispatch(num: usize, params: &mut [usize; 8]) -> (r: SyscallAction)
    ensures
        (r, final(params)@) == syscall_outcome(num, old(params)@),
{
    if num == SYS_PRINT {
        let base = params[1];
        let len = params[2];
        match user_slice(base, len) {
            Ok(()) => {
                params[RESULT_SLOT] = 0;
                SyscallAction::Print { base, len }
            },
            Err(e) => {
                params[RESULT_SLOT] = e.code();
                SyscallAction::Resume
            },
        }
    } else if num == SYS_YIELD {
        SyscallAction::Yield
    } else {
        SyscallAction::Exit
    }
}

/// The scheduling decision of a yield: queues the caller `current` once and takes the oldest
/// ready id, which is the caller itself when no other context is ready. Where the queue is full
/// the caller cannot be queued, so it is not switched away from: it runs on and the queue stays
/// as it was.
pub fn syscall_yield(sched: &mut Scheduler, current: &ActiveContextHandle) -> (r: Option<usize>)
    requires
        old(sched).wf(),
    ensures
        final(sched).wf(),
        old(sched)@.len() < SCHED_CAPACITY ==> r == Some(old(sched)@.push(current.id())[0])
            && final(sched)@ == old(sched)@.push(current.id()).drop_first(),
        old(sched)@.len() >= SCHED_CAPACITY ==> r == Some(current.id()) && final(sched)@ == old(sched)@,
{
    let id = current.context_id();
    match sched.try_insert(id) {
        Ok(()) => sched.try_get(),
        Err(_) => Some(id),
    }
}

} // verus!
