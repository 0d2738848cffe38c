use rcore_os::banker::deadlock_detect;

#[test]
fn no_resources_is_never_deadlocked() {
    let available: Vec<usize> = vec![];
    let allocation: Vec<Vec<usize>> = vec![];
    let need: Vec<Vec<usize>> = vec![];
    assert!(!deadlock_detect(&available, &allocation, &need));
}

#[test]
fn runnable_chain_is_safe() {
    // thread 0 needs nothing and gives back resource 1, then thread 1 can run
    let available = vec![1, 0];
    let allocation = vec![vec![0, 1], vec![0, 0]];
    let need = vec![vec![0, 0], vec![1, 1]];
    assert!(!deadlock_detect(&available, &allocation, &need));
}

#[test]
fn crossed_mutexes_deadlock() {
    // thread 0 holds mutex 0 and waits for mutex 1; thread 1 the other way round
    let available = vec![0, 0];
    let allocation = vec![vec![1, 0], vec![0, 1]];
    let need = vec![vec![0, 1], vec![1, 0]];
    assert!(deadlock_detect(&available, &allocation, &need));
}

#[test]
fn later_thread_unblocks_earlier_one_in_a_second_pass() {
    let available = vec![0, 0];
    let allocation = vec![vec![0, 0], vec![1, 0]];
    let need = vec![vec![1, 0], vec![0, 0]];
    assert!(!deadlock_detect(&available, &allocation, &need));
}

#[test]
fn one_stuck_thread_is_a_deadlock() {
    let available = vec![0, 0];
    let allocation = vec![vec![0, 0], vec![0, 0]];
    let need = vec![vec![0, 0], vec![0, 1]];
    assert!(deadlock_detect(&available, &allocation, &need));
}

#[test]
fn only_one_thread_per_resource_is_checked() {
    // one resource: only thread 0 is considered; thread 1's need is not read
    let available = vec![0];
    let allocation = vec![vec![0], vec![0]];
    let need = vec![vec![0], vec![5]];
    assert!(!deadlock_detect(&available, &allocation, &need));
}

#[test]
fn short_need_rows_compare_on_common_columns() {
    let available = vec![1, 0];
    let allocation = vec![vec![0, 0], vec![0, 0]];
    let need = vec![vec![1], vec![]];
    assert!(!deadlock_detect(&available, &allocation, &need));
}

#[test]
fn semaphore_counts_add_up() {
    // two units held by thread 0, which can run; then thread 1 needs both
    let available = vec![0, 3];
    let allocation = vec![vec![2, 0], vec![0, 0]];
    let need = vec![vec![0, 3], vec![2, 3]];
    assert!(!deadlock_detect(&available, &allocation, &need));
    let need_more = vec![vec![0, 3], vec![3, 0]];
    assert!(deadlock_detect(&available, &allocation, &need_more));
}

#[test]
fn renumbered_threads_give_the_same_answer() {
    let available = vec![0, 1, 0];
    let allocation = vec![vec![1, 0, 0], vec![0, 0, 1], vec![0, 0, 0]];
    let need = vec![vec![0, 0, 1], vec![0, 1, 0], vec![1, 0, 0]];
    let answer = deadlock_detect(&available, &allocation, &need);
    // renumber: new thread i is old thread p[i] with p = [2, 0, 1]
    let p = [2usize, 0, 1];
    let allocation2: Vec<Vec<usize>> = p.iter().map(|&i| allocation[i].clone()).collect();
    let need2: Vec<Vec<usize>> = p.iter().map(|&i| need[i].clone()).collect();
    assert_eq!(deadlock_detect(&available, &allocation2, &need2), answer);
    assert!(!answer);

    let stuck_need = vec![vec![0, 0, 1], vec![1, 0, 0], vec![0, 2, 0]];
    let stuck_need2: Vec<Vec<usize>> = p.iter().map(|&i| stuck_need[i].clone()).collect();
    assert!(deadlock_detect(&available, &allocation, &stuck_need));
    assert!(deadlock_detect(&available, &allocation2, &stuck_need2));
}
