# rcore_os

The decision layer of a small RISC-V teaching kernel, verified with Verus.

- `banker`: the banker's safety check used for deadlock detection, proved to
  answer exactly whether some order lets every thread run to the end.
- `sync`: the per-process mutex, semaphore and condition-variable tables and
  the resource bookkeeping (available / allocation / need) that the
  synchronisation system calls keep, including the refusal of requests that
  would deadlock.
- `process`: the process system calls (exit, yield, time, task info, mmap,
  munmap, sbrk).
- `processor`: the per-processor record of the running task and one round of
  the stride scheduler.
- `mm`, `outcome`: Sv39 addresses and map permissions; what the kernel does
  after a system call has been decided.

The kernel around these functions (context switches, page tables, the wait
queues of the synchronisation objects) performs the returned actions and
passes in what it observed: the current thread, whether a mutex is taken, a
semaphore's count, the time.
