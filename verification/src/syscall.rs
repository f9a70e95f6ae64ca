//! The synchronisation system calls, as decisions over a process's
//! [`SyncState`].
//!
//! A system call that blocks is split at the point where it waits: the
//! first part (`sys_mutex_lock`, `sys_semaphore_down`) records the request,
//! runs the safety check when deadlock detection is on, and answers either
//! [`DEADLOCK`] (nothing changed) or `0`; after the kernel object has been
//! acquired, the second part (`mutex_lock_acquired`,
//! `semaphore_down_acquired`) turns the request into a holding.
use vstd::prelude::*;
use crate::banker::{
    check_safe, fitting_waiter_keeps_safe, same_but_waits_of, idle_waiter_keeps_safe, is_permutation, is_safe,
    others, renumber, renumber_table, safe_mono_available, safe_under_renumbering, work_after,
};
use crate::state::{MutexKind, SyncState, SyncView};
use crate::table::TableView;

verus! {

/// What a blocking acquire answers when granting it could deadlock.
pub const DEADLOCK: isize = -0xDEAD;

/// `id` is the lowest empty slot of `list`, or `list.len()` when every
/// slot is taken.
pub open spec fn first_free<T>(list: Seq<Option<T>>, id: int) -> bool {
    &&& 0 <= id <= list.len()
    &&& forall|k: int| 0 <= k < id ==> (#[trigger] list[k]).is_some()
    &&& id < list.len() ==> list[id].is_none()
}

/// `list` with `x` put in slot `id`, appended when `id` is past the end.
pub open spec fn place<T>(list: Seq<Option<T>>, id: int, x: T) -> Seq<Option<T>> {
    if id < list.len() {
        list.update(id, Some(x))
    } else {
        list.push(Some(x))
    }
}

/// `id` is the lowest unused slot of `list`, or `list.len()` when every
/// slot is in use.
pub open spec fn first_unused(list: Seq<bool>, id: int) -> bool {
    &&& 0 <= id <= list.len()
    &&& forall|k: int| 0 <= k < id ==> #[trigger] list[k]
    &&& id < list.len() ==> !list[id]
}

/// `list` with slot `id` in use, appended when `id` is past the end.
pub open spec fn occupy(list: Seq<bool>, id: int) -> Seq<bool> {
    if id < list.len() {
        list.update(id, true)
    } else {
        list.push(true)
    }
}

/// The kind of mutex that `sys_mutex_create` makes.
pub open spec fn kind_of(blocking: bool) -> MutexKind {
    if blocking {
        MutexKind::Blocking
    } else {
        MutexKind::Spin
    }
}

/// A blocking acquire of one unit of `id` by `tid` is refused: detection
/// is on, and once the request is recorded no safe order exists.
pub open spec fn refuses(t: TableView, tasks: Seq<bool>, detect: bool, tid: int, id: int) -> bool {
    detect && !is_safe(t.request_one(tid, id), tasks)
}

fn find_free<T>(list: &Vec<Option<T>>) -> (id: usize)
    ensures
        first_free(list@, id as int),
{
    let n = list.len();
    for i in 0..n
        invariant
            n == list.len(),
            forall|k: int| 0 <= k < i ==> (#[trigger] list@[k]).is_some(),
    {
        if list[i].is_none() {
            return i;
        }
    }
    n
}

fn find_unused(list: &Vec<bool>) -> (id: usize)
    ensures
        first_unused(list@, id as int),
{
    let n = list.len();
    for i in 0..n
        invariant
            n == list.len(),
            forall|k: int| 0 <= k < i ==> #[trigger] list@[k],
    {
        if !list[i] {
            return i;
        }
    }
    n
}

/// The sleep system call: the moment at which the sleeping thread is to be
/// woken, `ms` milliseconds after `now_ms`. The caller arms the timer,
/// blocks the thread, and answers `0`.
pub fn sys_sleep(now_ms: usize, ms: usize) -> (expire_ms: usize)
    requires
        now_ms + ms <= usize::MAX,
    ensures
        expire_ms == now_ms + ms,
{
    now_ms + ms
}

/// Creates a mutex (a blocking one when `blocking`, else a spinning one) in
/// the lowest empty mutex slot, or in a new slot when none is empty, and
/// answers its id. The new mutex has one free unit; no thread holds it or
/// waits for it.
pub fn sys_mutex_create(state: &mut SyncState, blocking: bool) -> (id: isize)
    requires
        old(state)@.wf(),
        old(state).mutex_list.len() < isize::MAX,
    ensures
        final(state)@.wf(),
        first_free(old(state)@.mutex_list, id as int),
        final(state)@ == (SyncView {
            mutex_list: place(old(state)@.mutex_list, id as int, kind_of(blocking)),
            mutexes: old(state)@.mutexes.add_resource(id as int, 1),
            ..old(state)@
        }),
{
    let kind = if blocking {
        MutexKind::Blocking
    } else {
        MutexKind::Spin
    };
    let ghost tasks = state.tasks@;
    let slot = find_free(&state.mutex_list);
    state.mutexes.add_resource(slot, 1, Ghost(tasks));
    if slot < state.mutex_list.len() {
        state.mutex_list.set(slot, Some(kind));
    } else {
        state.mutex_list.push(Some(kind));
    }
    slot as isize
}

/// The first part of the mutex lock system call, for thread `tid`.
///
/// Records that `tid` waits for the mutex. With deadlock detection on, runs
/// the safety check; if no safe order exists, withdraws the request and
/// answers [`DEADLOCK`], leaving the state as it was. Otherwise answers
/// `0`: the caller then acquires the mutex itself and reports it with
/// [`mutex_lock_acquired`].
pub fn sys_mutex_lock(state: &mut SyncState, tid: usize, mutex_id: usize) -> (r: isize)
    requires
        old(state)@.wf(),
        old(state)@.live(tid as int),
        mutex_id < old(state).mutex_list.len(),
        old(state)@.mutex_list[mutex_id as int].is_some(),
        old(state)@.mutexes.req(tid as int, mutex_id as int) < usize::MAX,
    ensures
        final(state)@.wf(),
        r == DEADLOCK || r == 0,
        r == DEADLOCK <==> refuses(
            old(state)@.mutexes,
            old(state)@.tasks,
            old(state)@.deadlock_detect,
            tid as int,
            mutex_id as int,
        ),
        r == DEADLOCK ==> final(state)@ == old(state)@,
        r == 0 ==> final(state)@ == old(state)@.with_mutexes(
            old(state)@.mutexes.request_one(tid as int, mutex_id as int),
        ),
        r == 0 && old(state)@.deadlock_detect ==> is_safe(final(state)@.mutexes, final(state)@.tasks),
        !old(state)@.deadlock_detect ==> r == 0,
        r == DEADLOCK ==> old(state)@.deadlock_detect && !is_safe(
            old(state)@.mutexes.request_one(tid as int, mutex_id as int),
            old(state)@.tasks,
        ),
        old(state)@.deadlock_detect && is_safe(
            old(state)@.mutexes.request_one(tid as int, mutex_id as int),
            old(state)@.tasks,
        ) ==> r == 0,
{
    let ghost tasks = state.tasks@;
    let waiting = state.mutexes.request[tid].as_ref().unwrap()[mutex_id];
    assert(waiting == old(state)@.mutexes.req(tid as int, mutex_id as int));
    state.mutexes.set_request(tid, mutex_id, waiting + 1, Ghost(tasks));
    if state.deadlock_detect {
        if !check_safe(&state.mutexes, &state.tasks) {
            state.mutexes.set_request(tid, mutex_id, waiting, Ghost(tasks));
            assert(state@.mutexes =~~= old(state)@.mutexes);
            assert(state@ =~~= old(state)@);
            return DEADLOCK;
        }
    }
    0
}

/// The second part of the mutex lock system call: thread `tid` now holds
/// the mutex it waited for. One unit moves from the free pool to `tid`.
pub fn mutex_lock_acquired(state: &mut SyncState, tid: usize, mutex_id: usize)
    requires
        old(state)@.wf(),
        old(state)@.live(tid as int),
        mutex_id < old(state).mutex_list.len(),
        old(state)@.mutexes.req(tid as int, mutex_id as int) > 0,
        old(state)@.mutexes.available[mutex_id as int] > 0,
    ensures
        final(state)@.wf(),
        final(state)@ == old(state)@.with_mutexes(
            old(state)@.mutexes.grant_one(tid as int, mutex_id as int),
        ),
        forall|j: int|
            0 <= j < old(state)@.mutexes.width() ==> #[trigger] final(state)@.mutexes.held(j)
                == old(state)@.mutexes.held(j),
{
    let ghost tasks = state.tasks@;
    state.mutexes.grant_one(tid, mutex_id, Ghost(tasks));
}

/// The mutex unlock system call: one unit of the mutex goes back from
/// thread `tid` to the free pool; answers `0`. The caller then releases
/// the mutex itself.
pub fn sys_mutex_unlock(state: &mut SyncState, tid: usize, mutex_id: usize) -> (r: isize)
    requires
        old(state)@.wf(),
        old(state)@.live(tid as int),
        mutex_id < old(state).mutex_list.len(),
        old(state)@.mutex_list[mutex_id as int].is_some(),
        old(state)@.mutexes.held_by(tid as int, mutex_id as int) > 0,
    ensures
        r == 0,
        final(state)@.wf(),
        final(state)@ == old(state)@.with_mutexes(
            old(state)@.mutexes.release_one(tid as int, mutex_id as int),
        ),
        forall|j: int|
            0 <= j < old(state)@.mutexes.width() ==> #[trigger] final(state)@.mutexes.held(j)
                == old(state)@.mutexes.held(j),
{
    let ghost tasks = state.tasks@;
    state.mutexes.release_one(tid, mutex_id, Ghost(tasks));
    0
}

/// Creates a semaphore with `res_count` units in the lowest empty
/// semaphore slot, or in a new slot when none is empty, and answers its id.
/// All its units are free; no thread holds or waits for one.
pub fn sys_semaphore_create(state: &mut SyncState, res_count: usize) -> (id: isize)
    requires
        old(state)@.wf(),
        old(state).semaphore_list.len() < isize::MAX,
    ensures
        final(state)@.wf(),
        first_free(old(state)@.semaphore_list, id as int),
        final(state)@ == (SyncView {
            semaphore_list: place(old(state)@.semaphore_list, id as int, res_count),
            semaphores: old(state)@.semaphores.add_resource(id as int, res_count),
            ..old(state)@
        }),
{
    let ghost tasks = state.tasks@;
    let slot = find_free(&state.semaphore_list);
    state.semaphores.add_resource(slot, res_count, Ghost(tasks));
    if slot < state.semaphore_list.len() {
        state.semaphore_list.set(slot, Some(res_count));
    } else {
        state.semaphore_list.push(Some(res_count));
    }
    slot as isize
}

/// The semaphore up system call: one unit of the semaphore goes back from
/// thread `tid` to the free pool; answers `0`. The caller then raises the
/// semaphore itself.
pub fn sys_semaphore_up(state: &mut SyncState, tid: usize, sem_id: usize) -> (r: isize)
    requires
        old(state)@.wf(),
        old(state)@.live(tid as int),
        sem_id < old(state).semaphore_list.len(),
        old(state)@.semaphore_list[sem_id as int].is_some(),
        old(state)@.semaphores.held_by(tid as int, sem_id as int) > 0,
    ensures
        r == 0,
        final(state)@.wf(),
        final(state)@ == old(state)@.with_semaphores(
            old(state)@.semaphores.release_one(tid as int, sem_id as int),
        ),
        forall|j: int|
            0 <= j < old(state)@.semaphores.width() ==> #[trigger] final(state)@.semaphores.held(j)
                == old(state)@.semaphores.held(j),
{
    let ghost tasks = state.tasks@;
    state.semaphores.release_one(tid, sem_id, Ghost(tasks));
    0
}

/// The first part of the semaphore down system call, for thread `tid`.
///
/// Records that `tid` waits for one unit. With deadlock detection on, runs
/// the safety check; if no safe order exists, withdraws the request and
/// answers [`DEADLOCK`], leaving the state as it was. Otherwise answers
/// `0`: the caller then takes the semaphore itself and reports it with
/// [`semaphore_down_acquired`].
pub fn sys_semaphore_down(state: &mut SyncState, tid: usize, sem_id: usize) -> (r: isize)
    requires
        old(state)@.wf(),
        old(state)@.live(tid as int),
        sem_id < old(state).semaphore_list.len(),
        old(state)@.semaphore_list[sem_id as int].is_some(),
        old(state)@.semaphores.req(tid as int, sem_id as int) < usize::MAX,
    ensures
        final(state)@.wf(),
        r == DEADLOCK || r == 0,
        r == DEADLOCK <==> refuses(
            old(state)@.semaphores,
            old(state)@.tasks,
            old(state)@.deadlock_detect,
            tid as int,
            sem_id as int,
        ),
        r == DEADLOCK ==> final(state)@ == old(state)@,
        r == 0 ==> final(state)@ == old(state)@.with_semaphores(
            old(state)@.semaphores.request_one(tid as int, sem_id as int),
        ),
        r == 0 && old(state)@.deadlock_detect ==> is_safe(final(state)@.semaphores, final(state)@.tasks),
        !old(state)@.deadlock_detect ==> r == 0,
        r == DEADLOCK ==> old(state)@.deadlock_detect && !is_safe(
            old(state)@.semaphores.request_one(tid as int, sem_id as int),
            old(state)@.tasks,
        ),
        old(state)@.deadlock_detect && is_safe(
            old(state)@.semaphores.request_one(tid as int, sem_id as int),
            old(state)@.tasks,
        ) ==> r == 0,
{
    let ghost tasks = state.tasks@;
    let waiting = state.semaphores.request[tid].as_ref().unwrap()[sem_id];
    assert(waiting == old(state)@.semaphores.req(tid as int, sem_id as int));
    state.semaphores.set_request(tid, sem_id, waiting + 1, Ghost(tasks));
    if state.deadlock_detect {
        if !check_safe(&state.semaphores, &state.tasks) {
            state.semaphores.set_request(tid, sem_id, waiting, Ghost(tasks));
            assert(state@.semaphores =~~= old(state)@.semaphores);
            assert(state@ =~~= old(state)@);
            return DEADLOCK;
        }
    }
    0
}

/// The second part of the semaphore down system call: thread `tid` now
/// holds the unit it waited for. One unit moves from the free pool to `tid`.
pub fn semaphore_down_acquired(state: &mut SyncState, tid: usize, sem_id: usize)
    requires
        old(state)@.wf(),
        old(state)@.live(tid as int),
        sem_id < old(state).semaphore_list.len(),
        old(state)@.semaphores.req(tid as int, sem_id as int) > 0,
        old(state)@.semaphores.available[sem_id as int] > 0,
    ensures
        final(state)@.wf(),
        final(state)@ == old(state)@.with_semaphores(
            old(state)@.semaphores.grant_one(tid as int, sem_id as int),
        ),
        forall|j: int|
            0 <= j < old(state)@.semaphores.width() ==> #[trigger] final(state)@.semaphores.held(j)
                == old(state)@.semaphores.held(j),
{
    let ghost tasks = state.tasks@;
    state.semaphores.grant_one(tid, sem_id, Ghost(tasks));
}

/// Creates a condition variable in the lowest unused slot, or in a new
/// slot when every slot is in use, and answers its id.
pub fn sys_condvar_create(state: &mut SyncState) -> (id: isize)
    requires
        old(state)@.wf(),
        old(state).condvar_list.len() < isize::MAX,
    ensures
        final(state)@.wf(),
        first_unused(old(state)@.condvar_list, id as int),
        final(state)@ == (SyncView {
            condvar_list: occupy(old(state)@.condvar_list, id as int),
            ..old(state)@
        }),
{
    let slot = find_unused(&state.condvar_list);
    if slot < state.condvar_list.len() {
        state.condvar_list.set(slot, true);
    } else {
        state.condvar_list.push(true);
    }
    slot as isize
}

/// The condition-variable signal system call on an existing condition
/// variable: no bookkeeping changes; answers `0`. The caller then signals
/// the condition variable itself.
pub fn sys_condvar_signal(state: &SyncState, condvar_id: usize) -> (r: isize)
    requires
        condvar_id < state.condvar_list.len(),
        state.condvar_list@[condvar_id as int],
    ensures
        r == 0,
{
    0
}

/// The condition-variable wait system call on an existing condition
/// variable and mutex: no bookkeeping changes; answers `0`. The caller then
/// waits on the condition variable with the mutex itself.
pub fn sys_condvar_wait(state: &SyncState, condvar_id: usize, mutex_id: usize) -> (r: isize)
    requires
        condvar_id < state.condvar_list.len(),
        state.condvar_list@[condvar_id as int],
        mutex_id < state.mutex_list.len(),
        state.mutex_list@[mutex_id as int].is_some(),
    ensures
        r == 0,
{
    0
}

/// Switches deadlock detection on (`enabled == 1`) or off (`enabled == 0`)
/// and answers `0`; any other value is refused with `-1` and changes
/// nothing.
pub fn sys_enable_deadlock_detect(state: &mut SyncState, enabled: usize) -> (r: isize)
    ensures
        r == if enabled <= 1 {
            0isize
        } else {
            -1isize
        },
        final(state)@ == (SyncView {
            deadlock_detect: if enabled == 1 {
                true
            } else if enabled == 0 {
                false
            } else {
                old(state)@.deadlock_detect
            },
            ..old(state)@
        }),
{
    if enabled == 1 {
        state.deadlock_detect = true;
        return 0;
    }
    if enabled == 0 {
        state.deadlock_detect = false;
        return 0;
    }
    -1
}

/// Whether a blocking acquire is refused does not depend on how thread
/// slots are numbered: with every thread and its rows moved from slot
/// `p[k]` to slot `k`, the thread now in slot `k` is refused exactly when it
/// was refused in slot `p[k]`.
pub proof fn refusal_under_renumbering(
    t: TableView,
    tasks: Seq<bool>,
    detect: bool,
    p: Seq<int>,
    k: int,
    id: int,
)
    requires
        is_permutation(p, tasks.len() as int),
        t.allocation.len() == tasks.len(),
        t.request.len() == tasks.len(),
        0 <= k < tasks.len(),
    ensures
        refuses(renumber_table(t, p), renumber(tasks, p), detect, k, id) == refuses(
            t,
            tasks,
            detect,
            p[k],
            id,
        ),
{
    let u = t.request_one(p[k], id);
    assert(renumber_table(t, p).request_one(k, id).request =~= renumber_table(u, p).request);
    assert(renumber_table(t, p).request_one(k, id) =~= renumber_table(u, p));
    safe_under_renumbering(u, tasks, p);
}

/// More free units never turn an accepted acquire into a refusal: if the
/// same thread's acquire is refused with at least as many free units of
/// every resource, and the same holdings and waits, it is refused with
/// fewer too.
pub proof fn refusal_mono_available(
    t1: TableView,
    t2: TableView,
    tasks: Seq<bool>,
    detect: bool,
    tid: int,
    id: int,
)
    requires
        t1.allocation == t2.allocation,
        t1.request == t2.request,
        t1.available.len() == t2.available.len(),
        forall|j: int| 0 <= j < t1.available.len() ==> #[trigger] t1.available[j] <= t2.available[j],
    ensures
        refuses(t2, tasks, detect, tid, id) ==> refuses(t1, tasks, detect, tid, id),
{
    safe_mono_available(t1.request_one(tid, id), t2.request_one(tid, id), tasks);
}

/// With deadlock detection off, a blocking acquire is never refused.
pub proof fn detection_off_never_refuses(t: TableView, tasks: Seq<bool>, tid: int, id: int)
    ensures
        !refuses(t, tasks, false, tid, id),
{
}

/// In a safe state, an acquire that the free units can cover at once,
/// together with everything else the thread waits for, is never refused:
/// however many units the thread already holds.
pub proof fn fitting_acquire_not_refused(t: TableView, tasks: Seq<bool>, detect: bool, tid: int, id: int)
    requires
        t.wf(tasks),
        is_safe(t, tasks),
        0 <= tid < tasks.len(),
        tasks[tid],
        0 <= id < t.width(),
        t.req(tid, id) < t.available[id],
        forall|j: int| 0 <= j < t.width() && j != id ==> #[trigger] t.req(tid, j) <= t.available[j],
    ensures
        !refuses(t, tasks, detect, tid, id),
{
    let u = t.request_one(tid, id);
    assert(t.request[tid].is_some());
    assert(same_but_waits_of(t, u, tid));
    assert forall|j: int| 0 <= j < u.available.len() implies #[trigger] u.req(tid, j) <= u.available[j] by {
        if j != id {
            assert(t.req(tid, j) <= t.available[j]);
        }
    }
    fitting_waiter_keeps_safe(t, u, tasks, tid);
}

/// In a safe state, an acquire by a thread that holds nothing is never
/// refused when what it then waits for is covered once every other live
/// thread has finished and given back what it holds.
pub proof fn idle_acquire_not_refused(t: TableView, tasks: Seq<bool>, detect: bool, tid: int, id: int)
    requires
        t.wf(tasks),
        is_safe(t, tasks),
        0 <= tid < tasks.len(),
        tasks[tid],
        0 <= id < t.width(),
        forall|j: int| 0 <= j < t.width() ==> #[trigger] t.held_by(tid, j) == 0,
        t.req(tid, id) < work_after(t, others(tasks, tid))[id],
        forall|j: int|
            0 <= j < t.width() && j != id ==> #[trigger] t.req(tid, j) <= work_after(
                t,
                others(tasks, tid),
            )[j],
    ensures
        !refuses(t, tasks, detect, tid, id),
{
    let u = t.request_one(tid, id);
    assert(t.request[tid].is_some());
    assert(same_but_waits_of(t, u, tid));
    assert forall|j: int| 0 <= j < u.available.len() implies #[trigger] u.req(tid, j) <= work_after(
        t,
        others(tasks, tid),
    )[j] by {
        if j != id {
            assert(t.req(tid, j) <= work_after(t, others(tasks, tid))[j]);
        }
    }
    idle_waiter_keeps_safe(t, u, tasks, tid);
}

} // verus!
