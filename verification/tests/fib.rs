use forkjoin_tasks::fib::{
    fib, fib_checked, fib_join, fib_task, fib_task_no_threshold, run_fib, run_fib_no_threshold,
};
use forkjoin_tasks::spawnpool::{void_join, void_task};
use forkjoin_tasks::sum::{checked_sum, sum_values};
use forkjoin_tasks::task::TaskResult;

#[test]
fn fib_counts_from_one() {
    assert_eq!(1, fib(0));
    assert_eq!(1, fib(1));
    assert_eq!(2, fib(2));
    assert_eq!(89, fib(10));
    assert_eq!(10946, fib(20));
}

#[test]
fn fib_task_below_the_threshold_is_done() {
    match fib_task(10) {
        TaskResult::Done(v) => assert_eq!(89, v),
        TaskResult::Fork(..) => panic!("ten is below the threshold"),
    }
    match fib_task(20) {
        TaskResult::Done(v) => assert_eq!(10946, v),
        TaskResult::Fork(..) => panic!("twenty is the threshold"),
    }
}

#[test]
fn fib_task_above_the_threshold_forks() {
    match fib_task(21) {
        TaskResult::Fork(children, context) => {
            assert_eq!(vec![20, 19], children);
            assert_eq!(None, context);
        }
        TaskResult::Done(_) => panic!("twenty-one is above the threshold"),
    }
}

#[test]
fn fib_task_no_threshold_forks_from_two() {
    match fib_task_no_threshold(0) {
        TaskResult::Done(v) => assert_eq!(1, v),
        TaskResult::Fork(..) => panic!("zero is a leaf"),
    }
    match fib_task_no_threshold(1) {
        TaskResult::Done(v) => assert_eq!(1, v),
        TaskResult::Fork(..) => panic!("one is a leaf"),
    }
    match fib_task_no_threshold(2) {
        TaskResult::Fork(children, context) => {
            assert_eq!(vec![1, 0], children);
            assert_eq!(None, context);
        }
        TaskResult::Done(_) => panic!("two forks"),
    }
}

#[test]
fn fib_join_sums() {
    assert_eq!(0, fib_join(&[]));
    assert_eq!(89, fib_join(&[34, 55]));
    assert_eq!(6, fib_join(&[1, 2, 3]));
}

#[test]
fn void_task_is_done() {
    match void_task(0) {
        TaskResult::Done(()) => {}
        TaskResult::Fork(..) => panic!("the empty task never forks"),
    }
    void_join(&[]);
}

#[test]
fn checked_sum_reports_overflow() {
    assert_eq!(Some(0), checked_sum(&[]));
    assert_eq!(Some(10), checked_sum(&[1, 2, 3, 4]));
    assert_eq!(Some(usize::MAX), checked_sum(&[usize::MAX - 1, 1]));
    assert_eq!(None, checked_sum(&[usize::MAX, 1]));
    assert_eq!(None, checked_sum(&[1, usize::MAX, 0]));
    assert_eq!(10, sum_values(&[1, 2, 3, 4]));
}

#[test]
fn fib_checked_tells_what_fits() {
    assert_eq!(Some(1), fib_checked(0));
    assert_eq!(Some(1), fib_checked(1));
    assert_eq!(Some(2), fib_checked(2));
    assert_eq!(Some(89), fib_checked(10));
    assert_eq!(Some(fib(25)), fib_checked(25));
    if usize::BITS == 64 {
        assert_eq!(Some(12200160415121876738), fib_checked(92));
        assert_eq!(None, fib_checked(93));
    }
    assert_eq!(None, fib_checked(200));
    assert_eq!(None, fib_checked(usize::MAX));
}

#[test]
fn run_fib_equals_fib() {
    assert_eq!(89, run_fib(10));
    assert_eq!(121393, run_fib(25));
    assert_eq!(fib(27), run_fib(27));
    assert_eq!(1, run_fib_no_threshold(0));
    assert_eq!(89, run_fib_no_threshold(10));
    assert_eq!(fib(15), run_fib_no_threshold(15));
}
