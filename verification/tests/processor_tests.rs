use rcore_os::mm::{MapPermission, VirtAddr};
use rcore_os::processor::{
    current_task, current_user_token, run_tasks, take_current_task, Processor, TaskRecord,
    TaskStatus, MAX_SYSCALL_NUM,
};

fn task(start_time: usize, priority: usize) -> TaskRecord {
    TaskRecord {
        task_status: TaskStatus::Ready,
        start_time,
        syscall_times: [0; MAX_SYSCALL_NUM],
        priority,
        stride: 10,
        user_token: 0x8000_0000_0008_0000,
    }
}

#[test]
fn new_processor_is_idle() {
    let p = Processor::new();
    assert!(p.current().is_none());
    assert_eq!(p.get_task_time(99), 0);
    assert!(p.get_syscall_times().iter().all(|&c| c == 0));
}

#[test]
fn run_tasks_prepares_new_task() {
    let mut p = Processor::new();
    assert!(run_tasks(&mut p, Some(task(0, 4)), 500, 1000));
    let cur = p.current().unwrap();
    assert_eq!(cur.task_status, TaskStatus::Running);
    assert_eq!(cur.start_time, 500);
    assert_eq!(cur.stride, 260);
    assert_eq!(p.get_task_time(750), 250);
}

#[test]
fn run_tasks_keeps_start_time() {
    let mut p = Processor::new();
    assert!(run_tasks(&mut p, Some(task(120, 3)), 500, 1000));
    let cur = current_task(&p).unwrap();
    assert_eq!(cur.start_time, 120);
    assert_eq!(cur.stride, 343);
}

#[test]
fn run_tasks_without_task() {
    let mut p = Processor::new();
    assert!(!run_tasks(&mut p, None, 500, 1000));
    assert!(p.current().is_none());
}

#[test]
fn take_current_leaves_processor_idle() {
    let mut p = Processor::new();
    run_tasks(&mut p, Some(task(1, 1)), 5, 8);
    let t = take_current_task(&mut p).unwrap();
    assert_eq!(t.stride, 18);
    assert!(p.current().is_none());
    assert!(p.take_current().is_none());
}

#[test]
fn syscall_counting() {
    let mut p = Processor::new();
    p.count_syscall_times(64);
    run_tasks(&mut p, Some(task(1, 1)), 5, 8);
    p.count_syscall_times(64);
    p.count_syscall_times(64);
    p.count_syscall_times(93);
    let times = p.get_syscall_times();
    assert_eq!(times[64], 2);
    assert_eq!(times[93], 1);
    assert_eq!(times[0], 0);
}

#[test]
fn priority_and_token() {
    let mut p = Processor::new();
    p.set_priority(7);
    assert!(p.current().is_none());
    run_tasks(&mut p, Some(task(1, 1)), 5, 8);
    p.set_priority(7);
    assert_eq!(p.current().unwrap().priority, 7);
    assert_eq!(current_user_token(&p), 0x8000_0000_0008_0000);
}

#[test]
fn space_management() {
    let mut p = Processor::new();
    let s = VirtAddr(0x1000);
    let e = VirtAddr(0x2000);
    let perm = MapPermission { bits: 0b1_0010 };
    assert!(!p.alloc_new_space(s, e, perm, |_, _| true, |_, _, _| ()));
    assert!(!p.dealloc_space(s, e, |_, _| true));
    run_tasks(&mut p, Some(task(1, 1)), 5, 8);
    let mut inserted = false;
    assert!(p.alloc_new_space(s, e, perm, |_, _| true, |_, _, _| inserted = true));
    assert!(inserted);
    let mut inserted_again = false;
    assert!(!p.alloc_new_space(s, e, perm, |_, _| false, |_, _, _| inserted_again = true));
    assert!(!inserted_again);
    assert!(p.dealloc_space(s, e, |_, _| true));
    assert!(!p.dealloc_space(s, e, |_, _| false));
}

#[test]
fn rounds_advance_stride_and_keep_start_time() {
    let mut p = Processor::new();
    let mut t = task(0, 5);
    let nows = [100usize, 200, 300, 400];
    for (k, &now) in nows.iter().enumerate() {
        assert!(run_tasks(&mut p, Some(t), now, 1000));
        t = take_current_task(&mut p).unwrap();
        assert_eq!(t.stride, 10 + (k + 1) * 200);
        assert_eq!(t.start_time, 100);
    }
}

#[test]
fn rounds_with_counting_in_between() {
    let mut p = Processor::new();
    let mut t = task(0, 4);
    for (k, now) in [7usize, 9, 11].iter().enumerate() {
        assert!(run_tasks(&mut p, Some(t), *now, 100));
        p.count_syscall_times(64);
        t = take_current_task(&mut p).unwrap();
        t.task_status = TaskStatus::Ready;
        assert_eq!(t.stride, 10 + (k + 1) * 25);
        assert_eq!(t.start_time, 7);
        assert_eq!(t.syscall_times[64] as usize, k + 1);
    }
}
