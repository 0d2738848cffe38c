use vstd::prelude::*;

verus! {

/// What the kernel does once a system call has been decided, besides
/// handing `ret` back to the calling thread.
#[derive(Debug, Clone, Copy, PartialEq, Eq)]
pub enum KernelAction {
    /// Nothing more: the result goes straight back to the caller.
    Return,
    /// End the current task with the given exit code and run the next one.
    ExitCurrent(i32),
    /// Put the current task back in the ready queue and run the next one.
    SuspendCurrent,
    /// Arm a timer for the current task that expires at the given
    /// millisecond, block the task and run the next one.
    SleepUntil(usize),
    /// Take the mutex with this id (blocking or spinning as its kind says).
    MutexLock(usize),
    /// Release the mutex with this id.
    MutexUnlock(usize),
    /// Raise the semaphore with this id.
    SemaphoreUp(usize),
    /// Lower the semaphore with this id, waiting if it is exhausted.
    SemaphoreDown(usize),
    /// Wake one waiter of the condition variable with this id.
    CondvarSignal(usize),
    /// Wait on the condition variable (first id), releasing and retaking
    /// the mutex (second id).
    CondvarWait(usize, usize),
}

/// A decided system call: its return value and what the kernel does next.
#[derive(Debug, Clone, Copy, PartialEq, Eq)]
pub struct SyscallOutcome {
    pub ret: isize,
    pub action: KernelAction,
}

} // verus!
