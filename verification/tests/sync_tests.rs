use rcore_os::banker::deadlock_detect;
use rcore_os::outcome::{KernelAction, SyscallOutcome};
use rcore_os::sync::{
    sys_condvar_create, sys_condvar_signal, sys_condvar_wait, sys_enable_deadlock_detect,
    sys_mutex_create, sys_mutex_lock, sys_mutex_unlock, sys_semaphore_create, sys_semaphore_down,
    sys_semaphore_up, sys_sleep, DeadlockDetectEnable, MutexKind, SyncTables, DEADLOCK_ERROR,
};

fn empty_process(threads: usize) -> SyncTables {
    SyncTables {
        mutex_list: vec![],
        semaphore_list: vec![],
        condvar_list: vec![],
        available: vec![],
        allocation: vec![vec![]; threads],
        need: vec![vec![]; threads],
    }
}

fn detector(on: bool) -> DeadlockDetectEnable {
    let mut d = DeadlockDetectEnable::new();
    sys_enable_deadlock_detect(&mut d, if on { 1 } else { 0 });
    d
}

#[test]
fn deadlock_error_value() {
    assert_eq!(DEADLOCK_ERROR, -0xdead);
}

#[test]
fn detection_starts_off_and_switches() {
    let mut d = DeadlockDetectEnable::new();
    assert!(!d.enable);
    assert_eq!(sys_enable_deadlock_detect(&mut d, 1), 0);
    assert!(d.enable);
    assert_eq!(sys_enable_deadlock_detect(&mut d, 7), 0);
    assert!(d.enable);
    assert_eq!(sys_enable_deadlock_detect(&mut d, 0), 0);
    assert!(!d.enable);
    assert_eq!(sys_enable_deadlock_detect(&mut d, 2), 0);
    assert!(!d.enable);
}

#[test]
fn mutex_create_appends_columns() {
    let mut p = empty_process(2);
    assert_eq!(sys_mutex_create(&mut p, false), 0);
    assert_eq!(sys_mutex_create(&mut p, true), 1);
    assert_eq!(p.mutex_list, vec![Some(MutexKind::Spin), Some(MutexKind::Blocking)]);
    assert_eq!(p.available, vec![1, 1]);
    assert_eq!(p.allocation, vec![vec![0, 0], vec![0, 0]]);
    assert_eq!(p.need, vec![vec![0, 0], vec![0, 0]]);
}

#[test]
fn mutex_create_reuses_lowest_free_slot() {
    let mut p = empty_process(2);
    p.mutex_list = vec![Some(MutexKind::Spin), None, None];
    p.available = vec![1, 0, 5];
    p.allocation = vec![vec![0, 1, 1], vec![0, 2, 0]];
    p.need = vec![vec![1, 1, 0], vec![0, 3, 0]];
    assert_eq!(sys_mutex_create(&mut p, true), 1);
    assert_eq!(p.mutex_list, vec![Some(MutexKind::Spin), Some(MutexKind::Blocking), None]);
    assert_eq!(p.available, vec![1, 1, 5]);
    assert_eq!(p.allocation, vec![vec![0, 0, 1], vec![0, 0, 0]]);
    assert_eq!(p.need, vec![vec![1, 0, 0], vec![0, 0, 0]]);
}

#[test]
fn free_mutex_lock_and_unlock() {
    let mut p = empty_process(2);
    sys_mutex_create(&mut p, true);
    let d = detector(true);
    let out = sys_mutex_lock(&mut p, &d, 0, Some(1), false);
    assert_eq!(out, SyscallOutcome { ret: 0, action: KernelAction::MutexLock(0) });
    assert_eq!(p.available, vec![0]);
    assert_eq!(p.allocation, vec![vec![0], vec![1]]);
    let out = sys_mutex_unlock(&mut p, 0, Some(1));
    assert_eq!(out, SyscallOutcome { ret: 0, action: KernelAction::MutexUnlock(0) });
    assert_eq!(p.available, vec![1]);
    assert_eq!(p.allocation, vec![vec![0], vec![0]]);
    assert_eq!(p.need, vec![vec![0], vec![0]]);
}

#[test]
fn taken_mutex_records_need() {
    let mut p = empty_process(2);
    sys_mutex_create(&mut p, true);
    let d = detector(true);
    sys_mutex_lock(&mut p, &d, 0, Some(0), false);
    let out = sys_mutex_lock(&mut p, &d, 0, Some(1), true);
    assert_eq!(out, SyscallOutcome { ret: 0, action: KernelAction::MutexLock(0) });
    assert_eq!(p.need, vec![vec![0], vec![1]]);
    assert_eq!(p.allocation, vec![vec![1], vec![0]]);
}

#[test]
fn lock_without_current_thread_records_nothing() {
    let mut p = empty_process(1);
    sys_mutex_create(&mut p, false);
    let d = detector(true);
    let out = sys_mutex_lock(&mut p, &d, 0, None, false);
    assert_eq!(out, SyscallOutcome { ret: 0, action: KernelAction::MutexLock(0) });
    assert_eq!(p.available, vec![1]);
    assert_eq!(p.allocation, vec![vec![0]]);
    let out = sys_mutex_unlock(&mut p, 0, None);
    assert_eq!(out.ret, 0);
    assert_eq!(p.available, vec![1]);
}

fn crossed_locks(detection: bool) -> (SyncTables, SyscallOutcome) {
    let mut p = empty_process(2);
    sys_mutex_create(&mut p, true);
    sys_mutex_create(&mut p, true);
    let d = detector(detection);
    assert_eq!(sys_mutex_lock(&mut p, &d, 0, Some(0), false).ret, 0);
    assert_eq!(sys_mutex_lock(&mut p, &d, 1, Some(1), false).ret, 0);
    assert_eq!(sys_mutex_lock(&mut p, &d, 1, Some(0), true).ret, 0);
    let out = sys_mutex_lock(&mut p, &d, 0, Some(1), true);
    (p, out)
}

#[test]
fn crossed_lock_is_refused_and_undone() {
    let (p, out) = crossed_locks(true);
    assert_eq!(out, SyscallOutcome { ret: DEADLOCK_ERROR, action: KernelAction::Return });
    assert_eq!(p.available, vec![0, 0]);
    assert_eq!(p.allocation, vec![vec![1, 0], vec![0, 1]]);
    assert_eq!(p.need, vec![vec![0, 1], vec![0, 0]]);
}

#[test]
fn crossed_lock_is_granted_without_detection() {
    let (p, out) = crossed_locks(false);
    assert_eq!(out, SyscallOutcome { ret: 0, action: KernelAction::MutexLock(0) });
    assert_eq!(p.need, vec![vec![0, 1], vec![1, 0]]);
}

#[test]
fn semaphore_create_down_up() {
    let mut p = empty_process(1);
    assert_eq!(sys_semaphore_create(&mut p, 2), 0);
    assert_eq!(p.semaphore_list, vec![Some(2)]);
    assert_eq!(p.available, vec![2]);
    let d = detector(true);
    let out = sys_semaphore_down(&mut p, &d, 0, Some(0), 2);
    assert_eq!(out, SyscallOutcome { ret: 0, action: KernelAction::SemaphoreDown(0) });
    assert_eq!(p.available, vec![1]);
    assert_eq!(p.allocation, vec![vec![1]]);
    let out = sys_semaphore_up(&mut p, 0, Some(0));
    assert_eq!(out, SyscallOutcome { ret: 0, action: KernelAction::SemaphoreUp(0) });
    assert_eq!(p.available, vec![2]);
    assert_eq!(p.allocation, vec![vec![0]]);
}

#[test]
fn semaphore_down_consumes_outstanding_need() {
    let mut p = empty_process(1);
    sys_semaphore_create(&mut p, 1);
    p.need = vec![vec![2]];
    let d = detector(false);
    sys_semaphore_down(&mut p, &d, 0, Some(0), 1);
    assert_eq!(p.need, vec![vec![1]]);
    assert_eq!(p.allocation, vec![vec![1]]);
    assert_eq!(p.available, vec![0]);
}

#[test]
fn exhausted_semaphore_records_need() {
    let mut p = empty_process(1);
    sys_semaphore_create(&mut p, 0);
    let d = detector(false);
    let out = sys_semaphore_down(&mut p, &d, 0, Some(0), 0);
    assert_eq!(out.ret, 0);
    assert_eq!(p.need, vec![vec![1]]);
    assert_eq!(p.available, vec![0]);
}

#[test]
fn exhausted_semaphore_deadlock_is_refused() {
    // the only thread waits for a semaphore that nobody will raise
    let mut p = empty_process(1);
    sys_semaphore_create(&mut p, 0);
    let d = detector(true);
    let out = sys_semaphore_down(&mut p, &d, 0, Some(0), 0);
    assert_eq!(out, SyscallOutcome { ret: DEADLOCK_ERROR, action: KernelAction::Return });
    assert_eq!(p.need, vec![vec![0]]);
    assert_eq!(p.allocation, vec![vec![0]]);
    assert_eq!(p.available, vec![0]);
}

#[test]
fn semaphore_create_reuses_free_slot() {
    let mut p = empty_process(1);
    p.semaphore_list = vec![None, Some(3)];
    p.available = vec![7, 3];
    p.allocation = vec![vec![4, 0]];
    p.need = vec![vec![1, 0]];
    assert_eq!(sys_semaphore_create(&mut p, 5), 0);
    assert_eq!(p.semaphore_list, vec![Some(5), Some(3)]);
    assert_eq!(p.available, vec![5, 3]);
    assert_eq!(p.allocation, vec![vec![0, 0]]);
    assert_eq!(p.need, vec![vec![0, 0]]);
}

#[test]
fn mutex_and_semaphore_share_the_column_space() {
    let mut p = empty_process(1);
    assert_eq!(sys_mutex_create(&mut p, true), 0);
    assert_eq!(sys_semaphore_create(&mut p, 4), 0);
    assert_eq!(p.available, vec![1, 4]);
    assert_eq!(p.allocation, vec![vec![0, 0]]);
}

#[test]
fn condvars() {
    let mut p = empty_process(0);
    assert_eq!(sys_condvar_create(&mut p), 0);
    assert_eq!(sys_condvar_create(&mut p), 1);
    p.condvar_list[0] = false;
    assert_eq!(sys_condvar_create(&mut p), 0);
    assert_eq!(p.condvar_list, vec![true, true]);
    sys_mutex_create(&mut p, true);
    assert_eq!(
        sys_condvar_signal(&p, 1),
        SyscallOutcome { ret: 0, action: KernelAction::CondvarSignal(1) }
    );
    assert_eq!(
        sys_condvar_wait(&p, 1, 0),
        SyscallOutcome { ret: 0, action: KernelAction::CondvarWait(1, 0) }
    );
}

#[test]
fn sleep_arms_timer() {
    assert_eq!(
        sys_sleep(250, 1000),
        SyscallOutcome { ret: 0, action: KernelAction::SleepUntil(1250) }
    );
}

#[test]
fn granted_requests_leave_state_safe() {
    let mut p = empty_process(2);
    sys_mutex_create(&mut p, true);
    sys_mutex_create(&mut p, true);
    let d = detector(true);
    let steps: [(usize, usize, bool); 4] = [(0, 0, false), (1, 1, false), (1, 0, true), (0, 1, true)];
    for (m, t, taken) in steps {
        let out = sys_mutex_lock(&mut p, &d, m, Some(t), taken);
        if out.ret == 0 {
            assert!(!deadlock_detect(&p.available, &p.allocation, &p.need));
        } else {
            assert_eq!(out.ret, DEADLOCK_ERROR);
        }
    }
    // the last request, which would have closed the cycle, left no trace
    assert_eq!(p.need, vec![vec![0, 1], vec![0, 0]]);
}

#[test]
fn semaphore_up_needs_no_need_row() {
    let mut p = empty_process(1);
    sys_semaphore_create(&mut p, 1);
    p.need = vec![];
    p.allocation = vec![vec![1]];
    p.available = vec![0];
    let out = sys_semaphore_up(&mut p, 0, Some(0));
    assert_eq!(out, SyscallOutcome { ret: 0, action: KernelAction::SemaphoreUp(0) });
    assert_eq!(p.allocation, vec![vec![0]]);
    assert_eq!(p.available, vec![1]);
}

#[test]
fn creates_keep_the_shape() {
    let mut p = empty_process(3);
    sys_mutex_create(&mut p, false);
    sys_semaphore_create(&mut p, 2);
    p.mutex_list[0] = None;
    sys_mutex_create(&mut p, true);
    sys_semaphore_create(&mut p, 9);
    assert!(p.mutex_list.len() <= p.available.len());
    assert!(p.semaphore_list.len() <= p.available.len());
    assert_eq!(p.need.len(), p.allocation.len());
    assert!(p.allocation.iter().all(|r| r.len() == p.available.len()));
    assert!(p.need.iter().all(|r| r.len() == p.available.len()));
    assert_eq!(p.available, vec![1, 2, 9]);
}
