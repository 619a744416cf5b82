use forkjoin_tasks::quicksort::{
    partition, pick_pivot, quicksort_join, quicksort_seq, quicksort_task, run_quicksort,
};
use forkjoin_tasks::sortutils::{create_vec_rnd, verify_sorted};
use forkjoin_tasks::task::{SubView, TaskResult};

#[test]
fn quicksort_seq_sorts_five() {
    let mut xs = vec![5, 3, 1, 4, 2];
    quicksort_seq(&mut xs[..]);
    assert_eq!(vec![1, 2, 3, 4, 5], xs);
}

#[test]
fn quicksort_seq_boundaries() {
    let mut empty: Vec<usize> = vec![];
    quicksort_seq(&mut empty[..]);
    assert_eq!(Vec::<usize>::new(), empty);
    let mut one = vec![7];
    quicksort_seq(&mut one[..]);
    assert_eq!(vec![7], one);
    let mut same = vec![3, 3, 3, 3];
    quicksort_seq(&mut same[..]);
    assert_eq!(vec![3, 3, 3, 3], same);
}

#[test]
fn quicksort_seq_is_a_sorted_permutation() {
    let mut data: Vec<usize> = (0..3000).collect();
    create_vec_rnd(893475343, &mut data[..]);
    let mut expected = data.clone();
    expected.sort();
    quicksort_seq(&mut data[..]);
    assert_eq!(expected, data);
    assert_eq!(Ok(()), verify_sorted(&data[..]));
}

#[test]
fn pick_pivot_takes_the_median_of_three() {
    assert_eq!(0, pick_pivot(&[]));
    assert_eq!(0, pick_pivot(&[4]));
    assert_eq!(0, pick_pivot(&[4, 1]));
    assert_eq!(1, pick_pivot(&[1, 2, 3]));
    assert_eq!(0, pick_pivot(&[2, 1, 3]));
    assert_eq!(2, pick_pivot(&[1, 3, 2]));
    assert_eq!(4, pick_pivot(&[9, 0, 5, 0, 7]));
    assert_eq!(0, pick_pivot(&[5, 5, 5]));
    assert_eq!(0, pick_pivot(&[5, 1, 5]));
    assert_eq!(1, pick_pivot(&[1, 5, 5]));
}

#[test]
fn partition_splits_around_the_pivot() {
    let mut xs = vec![5, 3, 1, 4, 2];
    let p = partition(&mut xs[..]);
    assert_eq!(1, p);
    assert_eq!(2, xs[p]);
    for i in 0..p {
        assert!(xs[i] <= xs[p]);
    }
    for i in p + 1..xs.len() {
        assert!(xs[p] < xs[i]);
    }
    let mut sorted = xs.clone();
    sorted.sort();
    assert_eq!(vec![1, 2, 3, 4, 5], sorted);
}

#[test]
fn partition_of_one_element() {
    let mut xs = vec![8];
    assert_eq!(0, partition(&mut xs[..]));
    assert_eq!(vec![8], xs);
}

#[test]
fn partition_with_the_largest_as_pivot() {
    let mut xs = vec![2, 1];
    let p = partition(&mut xs[..]);
    assert_eq!(1, p);
    assert_eq!(vec![1, 2], xs);
}

#[test]
fn quicksort_task_sorts_a_short_view() {
    let mut data = vec![9, 5, 3, 1, 4, 2, 0];
    match quicksort_task(&mut data[..], SubView { start: 1, len: 5 }) {
        TaskResult::Done(()) => {}
        TaskResult::Fork(..) => panic!("a short view must not fork"),
    }
    assert_eq!(vec![9, 1, 2, 3, 4, 5, 0], data);
}

#[test]
fn quicksort_task_forks_a_long_view_around_the_pivot() {
    let mut data: Vec<usize> = (0..2003).collect();
    create_vec_rnd(893475343, &mut data[..]);
    data[0] = 77;
    data[2002] = 99;
    let before = data.clone();
    let view = SubView { start: 1, len: 2001 };
    let (children, context) = match quicksort_task(&mut data[..], view) {
        TaskResult::Done(()) => panic!("a long view must fork"),
        TaskResult::Fork(children, context) => (children, context),
    };
    assert_eq!(None, context);
    assert_eq!(2, children.len());
    let (low, high) = (children[0], children[1]);
    assert_eq!(1, low.start);
    assert_eq!(low.start + low.len + 1, high.start);
    assert_eq!(view.start + view.len, high.start + high.len);
    let pivot = data[low.start + low.len];
    for i in low.start..low.start + low.len {
        assert!(data[i] <= pivot);
    }
    for i in high.start..high.start + high.len {
        assert!(pivot < data[i]);
    }
    assert_eq!(77, data[0]);
    assert_eq!(99, data[2002]);
    let mut a = before[1..2002].to_vec();
    let mut b = data[1..2002].to_vec();
    a.sort();
    b.sort();
    assert_eq!(a, b);
}

#[test]
fn quicksort_join_has_nothing_to_do() {
    quicksort_join(&[(), ()]);
}

#[test]
fn partition_keeps_equal_elements_left_of_the_pivot() {
    let mut xs = vec![2, 2];
    assert_eq!(1, partition(&mut xs[..]));
    assert_eq!(vec![2, 2], xs);
    let mut ys = vec![3, 1, 3, 3, 9, 3];
    let p = partition(&mut ys[..]);
    assert_eq!(4, p);
    assert_eq!(3, ys[p]);
    assert_eq!(vec![9], ys[p + 1..].to_vec());
}

#[test]
fn run_quicksort_equals_the_sequential_sort() {
    let mut five = vec![5, 3, 1, 4, 2];
    run_quicksort(&mut five[..], SubView { start: 0, len: 5 });
    assert_eq!(vec![1, 2, 3, 4, 5], five);
    let mut data: Vec<usize> = (0..20000).collect();
    create_vec_rnd(893475343, &mut data[..]);
    let mut expected = data.clone();
    quicksort_seq(&mut expected[..]);
    run_quicksort(&mut data[..], SubView { start: 0, len: 20000 });
    assert_eq!(expected, data);
    let mut part: Vec<usize> = (0..3000).rev().collect();
    run_quicksort(&mut part[..], SubView { start: 500, len: 2000 });
    assert_eq!((2500..3000).rev().collect::<Vec<usize>>(), part[..500].to_vec());
    assert_eq!((500..2500).collect::<Vec<usize>>(), part[500..2500].to_vec());
    assert_eq!((0..500).rev().collect::<Vec<usize>>(), part[2500..].to_vec());
    let mut empty: Vec<usize> = vec![];
    run_quicksort(&mut empty[..], SubView { start: 0, len: 0 });
    assert_eq!(Vec::<usize>::new(), empty);
}
