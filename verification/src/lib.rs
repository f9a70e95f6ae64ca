//! Resource bookkeeping and deadlock avoidance for the synchronisation
//! system calls of a small teaching kernel: mutexes, semaphores and
//! condition variables of one process, the banker's safety check that
//! guards every blocking acquire, and the deadlock-detection switch.
//!
//! The kernel objects themselves (spin and blocking mutexes, semaphores,
//! condition variables, timers, the scheduler) live outside this library;
//! each system call here takes the process's bookkeeping state, makes every
//! decision, updates the tables, and returns the value the system call
//! answers with.
pub mod table;
pub mod banker;
pub mod state;
pub mod syscall;

pub use banker::{
    check_safe, fitting_waiter_keeps_safe, idle_waiter_keeps_safe, is_safe,
    lone_thread_safe_iff_fits, no_waiting_is_safe, safe_mono_available, safe_under_renumbering,
};
pub use state::{MutexKind, SyncState, SyncView};
pub use syscall::{
    DEADLOCK, detection_off_never_refuses, fitting_acquire_not_refused, idle_acquire_not_refused,
    mutex_lock_acquired, refusal_mono_available, refusal_under_renumbering, semaphore_down_acquired, sys_condvar_create,
    sys_condvar_signal, sys_condvar_wait, sys_enable_deadlock_detect, sys_mutex_create,
    sys_mutex_lock, sys_mutex_unlock, sys_semaphore_create, sys_semaphore_down, sys_semaphore_up,
    sys_sleep,
};
pub use table::{
    ResourceTable, TableView, new_resource_is_free, release_undoes_acquire, set_request_keeps_wf,
};
