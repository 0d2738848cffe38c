//! Deadlock detection and the system-call decision layer of a small
//! teaching kernel: the banker's safety check, the per-process tables of
//! mutexes, semaphores and condition variables, the memory and time system
//! calls, and the per-processor task bookkeeping.
pub mod banker;
pub mod mm;
pub mod outcome;
pub mod process;
pub mod sync;
pub mod processor;
