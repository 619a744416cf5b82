use forkjoin_tasks::error::ForkJoinError;
use forkjoin_tasks::mergesort::{merge, mergesort_join, mergesort_seq, mergesort_task, run_mergesort};
use forkjoin_tasks::sortutils::{create_vec_rnd, verify_sorted};
use forkjoin_tasks::task::{SubView, TaskResult};

#[test]
fn test_mergesort_join() {
    let mut xs = vec![1, 3, 5, 2, 4, 6];
    let join_arg = vec![SubView { start: 0, len: 3 }, SubView { start: 3, len: 3 }];

    let result = mergesort_join(&mut xs[..], &join_arg[..]).unwrap();

    assert_eq!(vec![1, 2, 3, 4, 5, 6], xs);
    assert_eq!(0, result.start);
    assert_eq!(xs.len(), result.len);
}

#[test]
fn test_mergesort_seq() {
    let mut xs = [6, 4, 3, 5, 1, 2];
    mergesort_seq(&mut xs[..]);
    assert_eq!(vec![1, 2, 3, 4, 5, 6], xs);
}

#[test]
fn test_merge() {
    let mut xs1 = vec![1, 3, 5];
    let mut xs2 = vec![2, 4, 6];
    merge(&mut xs1[..], &mut xs2[..]);
    assert_eq!(vec![1, 2, 3], xs1);
    assert_eq!(vec![4, 5, 6], xs2);
}

#[test]
fn merge_keeps_length_and_elements() {
    let mut xs1 = vec![2, 2, 9];
    let mut xs2 = vec![1, 2, 3, 10];
    merge(&mut xs1[..], &mut xs2[..]);
    assert_eq!(vec![1, 2, 2], xs1);
    assert_eq!(vec![2, 3, 9, 10], xs2);
}

#[test]
fn merge_with_an_empty_side() {
    let mut xs1: Vec<usize> = vec![];
    let mut xs2 = vec![4, 7];
    merge(&mut xs1[..], &mut xs2[..]);
    assert_eq!(Vec::<usize>::new(), xs1);
    assert_eq!(vec![4, 7], xs2);
    let mut ys1 = vec![4, 7];
    let mut ys2: Vec<usize> = vec![];
    merge(&mut ys1[..], &mut ys2[..]);
    assert_eq!(vec![4, 7], ys1);
}

#[test]
fn mergesort_join_inside_a_larger_buffer() {
    let mut xs = vec![9, 1, 3, 5, 2, 4, 6, 0];
    let parts = vec![SubView { start: 1, len: 3 }, SubView { start: 4, len: 3 }];
    let whole = mergesort_join(&mut xs[..], &parts[..]).unwrap();
    assert_eq!(SubView { start: 1, len: 6 }, whole);
    assert_eq!(vec![9, 1, 2, 3, 4, 5, 6, 0], xs);
}

#[test]
fn mergesort_join_refuses_views_that_do_not_adjoin() {
    let mut xs = vec![1, 3, 5, 2, 4, 6];
    let gap = vec![SubView { start: 0, len: 2 }, SubView { start: 3, len: 3 }];
    assert_eq!(Err(ForkJoinError::TaskFailure), mergesort_join(&mut xs[..], &gap[..]));
    let swapped = vec![SubView { start: 3, len: 3 }, SubView { start: 0, len: 3 }];
    assert_eq!(Err(ForkJoinError::TaskFailure), mergesort_join(&mut xs[..], &swapped[..]));
    let one = vec![SubView { start: 0, len: 3 }];
    assert_eq!(Err(ForkJoinError::TaskFailure), mergesort_join(&mut xs[..], &one[..]));
    let beyond = vec![SubView { start: 0, len: 3 }, SubView { start: 3, len: 4 }];
    assert_eq!(Err(ForkJoinError::TaskFailure), mergesort_join(&mut xs[..], &beyond[..]));
    let huge = vec![SubView { start: 2, len: usize::MAX }, SubView { start: 1, len: 1 }];
    assert_eq!(Err(ForkJoinError::TaskFailure), mergesort_join(&mut xs[..], &huge[..]));
    assert_eq!(vec![1, 3, 5, 2, 4, 6], xs);
}

#[test]
fn mergesort_seq_boundaries() {
    let mut empty: Vec<usize> = vec![];
    mergesort_seq(&mut empty[..]);
    assert_eq!(Vec::<usize>::new(), empty);
    let mut one = vec![42];
    mergesort_seq(&mut one[..]);
    assert_eq!(vec![42], one);
}

#[test]
fn mergesort_seq_sorts_a_long_buffer() {
    let mut data: Vec<usize> = (0..5000).collect();
    create_vec_rnd(893475343, &mut data[..]);
    let mut expected = data.clone();
    expected.sort();
    mergesort_seq(&mut data[..]);
    assert_eq!(expected, data);
    assert_eq!(Ok(()), verify_sorted(&data[..]));
}

#[test]
fn mergesort_task_sorts_a_short_view() {
    let mut data = vec![7, 3, 2, 1, 9, 0];
    let view = SubView { start: 1, len: 3 };
    match mergesort_task(&mut data[..], view) {
        TaskResult::Done(out) => assert_eq!(view, out),
        TaskResult::Fork(..) => panic!("a short view must not fork"),
    }
    assert_eq!(vec![7, 1, 2, 3, 9, 0], data);
}

#[test]
fn mergesort_task_forks_a_long_view_into_halves() {
    let mut data: Vec<usize> = (0..2101).rev().collect();
    let before = data.clone();
    match mergesort_task(&mut data[..], SubView { start: 100, len: 2001 }) {
        TaskResult::Done(_) => panic!("a long view must fork"),
        TaskResult::Fork(children, context) => {
            assert_eq!(
                vec![SubView { start: 100, len: 1000 }, SubView { start: 1100, len: 1001 }],
                children
            );
            assert_eq!(None, context);
        }
    }
    assert_eq!(before, data);
}

#[test]
fn mergesort_task_threshold_is_inclusive() {
    let mut data: Vec<usize> = (0..1000).rev().collect();
    match mergesort_task(&mut data[..], SubView { start: 0, len: 1000 }) {
        TaskResult::Done(out) => assert_eq!(SubView { start: 0, len: 1000 }, out),
        TaskResult::Fork(..) => panic!("a view of the leaf length must not fork"),
    }
    assert_eq!((0..1000).collect::<Vec<usize>>(), data);
}

#[test]
fn run_mergesort_equals_the_sequential_sort() {
    let mut six = vec![6, 4, 3, 5, 1, 2];
    assert_eq!(SubView { start: 0, len: 6 }, run_mergesort(&mut six[..], SubView { start: 0, len: 6 }));
    assert_eq!(vec![1, 2, 3, 4, 5, 6], six);
    let mut data: Vec<usize> = (0..20000).collect();
    create_vec_rnd(893475343, &mut data[..]);
    let mut expected = data.clone();
    mergesort_seq(&mut expected[..]);
    let whole = SubView { start: 0, len: 20000 };
    assert_eq!(whole, run_mergesort(&mut data[..], whole));
    assert_eq!(expected, data);
    let mut part: Vec<usize> = (0..3000).rev().collect();
    let inner = SubView { start: 500, len: 2000 };
    assert_eq!(inner, run_mergesort(&mut part[..], inner));
    assert_eq!((500..2500).collect::<Vec<usize>>(), part[500..2500].to_vec());
    assert_eq!((2500..3000).rev().collect::<Vec<usize>>(), part[..500].to_vec());
}
