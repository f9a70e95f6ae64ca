use sync_bookkeeping::{
    check_safe, mutex_lock_acquired, semaphore_down_acquired, sys_condvar_create,
    sys_condvar_signal, sys_condvar_wait, sys_enable_deadlock_detect, sys_mutex_create,
    sys_mutex_lock, sys_mutex_unlock, sys_semaphore_create, sys_semaphore_down, sys_semaphore_up,
    sys_sleep, MutexKind, ResourceTable, SyncState, DEADLOCK,
};

fn process_with_threads(n: usize) -> SyncState {
    let mut s = SyncState::new();
    for i in 0..n {
        assert_eq!(s.add_task(), i);
    }
    s
}

fn entry(rows: &Vec<Option<Vec<usize>>>, i: usize, j: usize) -> usize {
    rows[i].as_ref().unwrap()[j]
}

#[test]
fn new_state_is_empty_and_detection_off() {
    let s = SyncState::new();
    assert!(s.tasks.is_empty());
    assert!(s.mutex_list.is_empty());
    assert!(s.semaphore_list.is_empty());
    assert!(s.condvar_list.is_empty());
    assert!(!s.deadlock_detect);
}

#[test]
fn add_task_gives_empty_rows_of_full_width() {
    let mut s = process_with_threads(1);
    sys_mutex_create(&mut s, true);
    sys_semaphore_create(&mut s, 3);
    assert_eq!(s.add_task(), 1);
    assert_eq!(s.tasks, vec![true, true]);
    assert_eq!(s.mutexes.allocation[1], Some(vec![0]));
    assert_eq!(s.mutexes.request[1], Some(vec![0]));
    assert_eq!(s.semaphores.allocation[1], Some(vec![0]));
    assert_eq!(s.semaphores.request[1], Some(vec![0]));
}

#[test]
fn sleep_wakes_after_the_given_delay() {
    assert_eq!(sys_sleep(1000, 250), 1250);
    assert_eq!(sys_sleep(0, 0), 0);
}

#[test]
fn mutex_create_appends_then_reuses_lowest_free_slot() {
    let mut s = process_with_threads(2);
    assert_eq!(sys_mutex_create(&mut s, false), 0);
    assert_eq!(sys_mutex_create(&mut s, true), 1);
    assert_eq!(sys_mutex_create(&mut s, true), 2);
    assert_eq!(
        s.mutex_list,
        vec![Some(MutexKind::Spin), Some(MutexKind::Blocking), Some(MutexKind::Blocking)]
    );
    assert_eq!(s.mutexes.available, vec![1, 1, 1]);
    // Free slots 0 and 1, dirtying their columns first.
    s.mutex_list[1] = None;
    s.mutex_list[0] = None;
    s.mutexes.allocation[1] = Some(vec![1, 0, 0]);
    s.mutexes.available[0] = 0;
    assert_eq!(sys_mutex_create(&mut s, false), 0);
    assert_eq!(s.mutex_list[0], Some(MutexKind::Spin));
    assert_eq!(s.mutexes.available[0], 1);
    assert_eq!(entry(&s.mutexes.allocation, 1, 0), 0);
    assert_eq!(entry(&s.mutexes.request, 0, 0), 0);
    assert_eq!(sys_mutex_create(&mut s, true), 1);
    assert_eq!(sys_mutex_create(&mut s, true), 3);
    assert_eq!(s.mutexes.available.len(), 4);
    assert_eq!(s.mutexes.allocation[0].as_ref().unwrap().len(), 4);
}

#[test]
fn create_skips_rows_of_slots_without_a_thread() {
    let mut s = process_with_threads(2);
    s.tasks[1] = false;
    s.mutexes.allocation[1] = None;
    s.mutexes.request[1] = None;
    assert_eq!(sys_mutex_create(&mut s, true), 0);
    assert_eq!(s.mutexes.allocation[1], None);
    assert_eq!(s.mutexes.allocation[0], Some(vec![0]));
}

#[test]
fn lock_and_unlock_move_one_unit() {
    let mut s = process_with_threads(2);
    let m = sys_mutex_create(&mut s, true) as usize;
    assert_eq!(sys_mutex_lock(&mut s, 1, m), 0);
    assert_eq!(entry(&s.mutexes.request, 1, m), 1);
    mutex_lock_acquired(&mut s, 1, m);
    assert_eq!(entry(&s.mutexes.request, 1, m), 0);
    assert_eq!(entry(&s.mutexes.allocation, 1, m), 1);
    assert_eq!(s.mutexes.available[m], 0);
    assert_eq!(sys_mutex_unlock(&mut s, 1, m), 0);
    assert_eq!(entry(&s.mutexes.allocation, 1, m), 0);
    assert_eq!(s.mutexes.available[m], 1);
}

#[test]
fn lock_then_unlock_restores_the_tables() {
    let mut s = process_with_threads(3);
    let a = sys_mutex_create(&mut s, true) as usize;
    let b = sys_mutex_create(&mut s, false) as usize;
    assert_eq!(sys_mutex_lock(&mut s, 0, a), 0);
    mutex_lock_acquired(&mut s, 0, a);
    let available = s.mutexes.available.clone();
    let allocation = s.mutexes.allocation.clone();
    let request = s.mutexes.request.clone();
    sys_enable_deadlock_detect(&mut s, 1);
    assert_eq!(sys_mutex_lock(&mut s, 2, b), 0);
    mutex_lock_acquired(&mut s, 2, b);
    assert_eq!(sys_mutex_unlock(&mut s, 2, b), 0);
    assert_eq!(s.mutexes.available, available);
    assert_eq!(s.mutexes.allocation, allocation);
    assert_eq!(s.mutexes.request, request);
}

#[test]
fn units_in_existence_stay_constant() {
    let mut s = process_with_threads(3);
    let sem = sys_semaphore_create(&mut s, 2) as usize;
    let total = |s: &SyncState| {
        s.semaphores.available[sem]
            + (0..3).map(|t| entry(&s.semaphores.allocation, t, sem)).sum::<usize>()
    };
    assert_eq!(total(&s), 2);
    assert_eq!(sys_semaphore_down(&mut s, 1, sem), 0);
    semaphore_down_acquired(&mut s, 1, sem);
    assert_eq!(total(&s), 2);
    assert_eq!(sys_semaphore_down(&mut s, 2, sem), 0);
    semaphore_down_acquired(&mut s, 2, sem);
    assert_eq!(total(&s), 2);
    assert_eq!(s.semaphores.available[sem], 0);
    assert_eq!(sys_semaphore_up(&mut s, 1, sem), 0);
    assert_eq!(total(&s), 2);
    assert_eq!(s.semaphores.available[sem], 1);
}

#[test]
fn single_thread_relocking_a_mutex_is_refused() {
    let mut s = process_with_threads(1);
    assert_eq!(sys_enable_deadlock_detect(&mut s, 1), 0);
    let m = sys_mutex_create(&mut s, true) as usize;
    assert_eq!(sys_mutex_lock(&mut s, 0, m), 0);
    mutex_lock_acquired(&mut s, 0, m);
    let available = s.mutexes.available.clone();
    let allocation = s.mutexes.allocation.clone();
    let request = s.mutexes.request.clone();
    assert_eq!(sys_mutex_lock(&mut s, 0, m), DEADLOCK);
    assert_eq!(DEADLOCK, -0xDEAD);
    assert_eq!(s.mutexes.available, available);
    assert_eq!(s.mutexes.allocation, allocation);
    assert_eq!(s.mutexes.request, request);
    assert_eq!(sys_mutex_unlock(&mut s, 0, m), 0);
    assert_eq!(sys_mutex_lock(&mut s, 0, m), 0);
}

#[test]
fn detection_off_never_refuses() {
    let mut s = process_with_threads(1);
    let m = sys_mutex_create(&mut s, false) as usize;
    assert_eq!(sys_mutex_lock(&mut s, 0, m), 0);
    mutex_lock_acquired(&mut s, 0, m);
    assert_eq!(sys_mutex_lock(&mut s, 0, m), 0);
    assert_eq!(entry(&s.mutexes.request, 0, m), 1);
}

#[test]
fn crossed_semaphores_are_refused_on_the_second_wait() {
    let mut s = process_with_threads(3);
    assert_eq!(sys_enable_deadlock_detect(&mut s, 1), 0);
    let a = sys_semaphore_create(&mut s, 1) as usize;
    let b = sys_semaphore_create(&mut s, 1) as usize;
    assert_eq!((a, b), (0, 1));
    assert_eq!(sys_semaphore_down(&mut s, 1, a), 0);
    semaphore_down_acquired(&mut s, 1, a);
    assert_eq!(sys_semaphore_down(&mut s, 2, b), 0);
    semaphore_down_acquired(&mut s, 2, b);
    // Thread 1 may wait for b: thread 2 can finish first and free it.
    assert_eq!(sys_semaphore_down(&mut s, 1, b), 0);
    assert_eq!(entry(&s.semaphores.request, 1, b), 1);
    // Thread 2 waiting for a would close the cycle.
    assert_eq!(sys_semaphore_down(&mut s, 2, a), DEADLOCK);
    assert_eq!(entry(&s.semaphores.request, 2, a), 0);
    assert_eq!(s.semaphores.available, vec![0, 0]);
}

#[test]
fn crossed_mutexes_are_refused_on_the_second_lock() {
    let mut s = process_with_threads(3);
    sys_enable_deadlock_detect(&mut s, 1);
    let a = sys_mutex_create(&mut s, true) as usize;
    let b = sys_mutex_create(&mut s, true) as usize;
    assert_eq!(sys_mutex_lock(&mut s, 1, a), 0);
    mutex_lock_acquired(&mut s, 1, a);
    assert_eq!(sys_mutex_lock(&mut s, 2, b), 0);
    mutex_lock_acquired(&mut s, 2, b);
    assert_eq!(sys_mutex_lock(&mut s, 1, b), 0);
    assert_eq!(sys_mutex_lock(&mut s, 2, a), DEADLOCK);
}

#[test]
fn exited_threads_are_not_waited_for() {
    let mut s = process_with_threads(2);
    sys_enable_deadlock_detect(&mut s, 1);
    let a = sys_mutex_create(&mut s, true) as usize;
    assert_eq!(sys_mutex_lock(&mut s, 1, a), 0);
    mutex_lock_acquired(&mut s, 1, a);
    // Thread 1 exits still holding the mutex; nobody can ever free it.
    s.tasks[1] = false;
    assert_eq!(sys_mutex_lock(&mut s, 0, a), DEADLOCK);
}

#[test]
fn semaphore_create_keeps_count_and_reuses_slots() {
    let mut s = process_with_threads(1);
    assert_eq!(sys_semaphore_create(&mut s, 3), 0);
    assert_eq!(sys_semaphore_create(&mut s, 0), 1);
    assert_eq!(s.semaphore_list, vec![Some(3), Some(0)]);
    assert_eq!(s.semaphores.available, vec![3, 0]);
    s.semaphore_list[0] = None;
    assert_eq!(sys_semaphore_create(&mut s, 5), 0);
    assert_eq!(s.semaphores.available, vec![5, 0]);
    assert_eq!(s.semaphore_list[0], Some(5));
}

#[test]
fn condvars_fill_lowest_unused_slot() {
    let mut s = process_with_threads(1);
    assert_eq!(sys_condvar_create(&mut s), 0);
    assert_eq!(sys_condvar_create(&mut s), 1);
    s.condvar_list[0] = false;
    assert_eq!(sys_condvar_create(&mut s), 0);
    assert_eq!(sys_condvar_create(&mut s), 2);
    assert_eq!(s.condvar_list, vec![true, true, true]);
    let m = sys_mutex_create(&mut s, true) as usize;
    assert_eq!(sys_condvar_signal(&s, 1), 0);
    assert_eq!(sys_condvar_wait(&s, 2, m), 0);
}

#[test]
fn enable_deadlock_detect_accepts_only_zero_and_one() {
    let mut s = SyncState::new();
    assert_eq!(sys_enable_deadlock_detect(&mut s, 1), 0);
    assert!(s.deadlock_detect);
    assert_eq!(sys_enable_deadlock_detect(&mut s, 2), -1);
    assert!(s.deadlock_detect);
    assert_eq!(sys_enable_deadlock_detect(&mut s, 0), 0);
    assert!(!s.deadlock_detect);
    assert_eq!(sys_enable_deadlock_detect(&mut s, usize::MAX), -1);
    assert!(!s.deadlock_detect);
}

fn table(available: Vec<usize>, allocation: Vec<Vec<usize>>, request: Vec<Vec<usize>>) -> ResourceTable {
    ResourceTable {
        available,
        allocation: allocation.into_iter().map(Some).collect(),
        request: request.into_iter().map(Some).collect(),
    }
}

#[test]
fn banker_textbook_state_is_safe() {
    // Five threads, three resources; remaining needs as requests.
    let t = table(
        vec![3, 3, 2],
        vec![vec![0, 1, 0], vec![2, 0, 0], vec![3, 0, 2], vec![2, 1, 1], vec![0, 0, 2]],
        vec![vec![7, 4, 3], vec![1, 2, 2], vec![6, 0, 0], vec![0, 1, 1], vec![4, 3, 1]],
    );
    assert!(check_safe(&t, &vec![true; 5]));
}

#[test]
fn banker_textbook_state_becomes_unsafe() {
    let t = table(
        vec![2, 3, 0],
        vec![vec![0, 3, 0], vec![3, 0, 2], vec![3, 0, 2], vec![2, 1, 1], vec![0, 0, 2]],
        vec![vec![7, 2, 3], vec![0, 2, 0], vec![6, 0, 0], vec![0, 1, 1], vec![4, 3, 1]],
    );
    assert!(check_safe(&t, &vec![true; 5]));
    let t = table(
        vec![2, 1, 0],
        vec![vec![0, 3, 0], vec![3, 0, 2], vec![3, 0, 2], vec![2, 1, 1], vec![0, 2, 2]],
        vec![vec![7, 2, 3], vec![0, 2, 0], vec![6, 0, 0], vec![0, 1, 1], vec![4, 1, 1]],
    );
    assert!(!check_safe(&t, &vec![true; 5]));
}

#[test]
fn banker_order_matters_only_through_what_is_freed() {
    // Thread 0 can only finish after thread 2 frees what it holds.
    let t = table(vec![0], vec![vec![0], vec![0], vec![4]], vec![vec![3], vec![4], vec![0]]);
    assert!(check_safe(&t, &vec![true; 3]));
    assert!(!check_safe(&t, &vec![true, true, false]));
    assert!(check_safe(&t, &vec![true, false, true]));
}

#[test]
fn nobody_waiting_is_safe() {
    let t = table(vec![0, 0], vec![vec![1, 0], vec![0, 1]], vec![vec![0, 0], vec![0, 0]]);
    assert!(check_safe(&t, &vec![true, true]));
    assert!(check_safe(&table(vec![], vec![], vec![]), &vec![]));
}

#[test]
fn lone_thread_is_safe_iff_its_wait_fits() {
    let t = table(vec![1, 0], vec![vec![0, 1], vec![0, 0]], vec![vec![1, 0], vec![9, 9]]);
    assert!(check_safe(&t, &vec![true, false]));
    let t = table(vec![1, 0], vec![vec![0, 1], vec![0, 0]], vec![vec![1, 1], vec![0, 0]]);
    assert!(!check_safe(&t, &vec![true, false]));
}

#[test]
fn renumbering_threads_keeps_the_verdict() {
    let alloc = vec![vec![0, 1, 0], vec![2, 0, 0], vec![3, 0, 2], vec![2, 1, 1], vec![0, 0, 2]];
    let req = vec![vec![7, 4, 3], vec![1, 2, 2], vec![6, 0, 0], vec![0, 1, 1], vec![4, 3, 1]];
    let perm = [3usize, 0, 4, 2, 1];
    for available in [vec![3, 3, 2], vec![1, 0, 0], vec![2, 1, 1]] {
        let tasks = vec![true, true, false, true, true];
        let t = table(available.clone(), alloc.clone(), req.clone());
        let t2 = table(
            available,
            perm.iter().map(|&i| alloc[i].clone()).collect(),
            perm.iter().map(|&i| req[i].clone()).collect(),
        );
        let tasks2: Vec<bool> = perm.iter().map(|&i| tasks[i]).collect();
        assert_eq!(check_safe(&t, &tasks), check_safe(&t2, &tasks2));
        assert_eq!(check_safe(&t, &vec![true; 5]), check_safe(&t2, &vec![true; 5]));
    }
}

#[test]
fn more_free_units_never_refuse_more() {
    let alloc = vec![vec![0, 1], vec![1, 0]];
    let req = vec![vec![1, 0], vec![0, 1]];
    let poor = table(vec![0, 0], alloc.clone(), req.clone());
    let rich = table(vec![1, 0], alloc, req);
    assert!(!check_safe(&poor, &vec![true, true]));
    assert!(check_safe(&rich, &vec![true, true]));
}
