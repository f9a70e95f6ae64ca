# sync_bookkeeping

Verified bookkeeping for the synchronisation system calls of a small
teaching kernel: per-process mutex, semaphore and condition-variable slots,
the available / allocation / request tables of mutexes and semaphores, and
the banker's safety check that refuses a blocking acquire (`-0xDEAD`) when
deadlock detection is on and no safe order would remain.

- `src/table.rs`: one resource table, its mathematical view, the column-sum
  facts behind the "units in existence stay constant" invariant, and the
  table operations (create a resource, record a request, grant, release).
- `src/banker.rs`: the safety check, proved to answer exactly whether a safe
  order of the live threads exists.
- `src/state.rs`: the per-process state and its well-formedness.
- `src/syscall.rs`: the system calls. A blocking call is split where it
  waits: `sys_mutex_lock` / `sys_semaphore_down` decide, and
  `mutex_lock_acquired` / `semaphore_down_acquired` record the acquisition.
- `app/lib.rs`: kernel-side entry points that take the current thread, do the
  blocking on the kernel's own objects, and call the library in between.
