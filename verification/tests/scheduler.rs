use std::cell::RefCell;

use forkjoin_tasks::error::ForkJoinError;
use forkjoin_tasks::fib::{fib, fib_join, fib_task, fib_task_no_threshold};
use forkjoin_tasks::job::Job;
use forkjoin_tasks::mergesort::{mergesort_join, mergesort_seq, mergesort_task};
use forkjoin_tasks::nqueens::{nqueens_join, nqueens_reduce, nqueens_task_reduce, nqueens_task_search, Board};
use forkjoin_tasks::pool::PoolConfig;
use forkjoin_tasks::quicksort::{quicksort_join, quicksort_seq, quicksort_task};
use forkjoin_tasks::scheduler::{Action, NodeState, Scheduler};
use forkjoin_tasks::sortutils::{create_vec_rnd, verify_sorted};
use forkjoin_tasks::spawnpool::{void_join, void_task};
use forkjoin_tasks::sumtree::{gen_unbalanced_tree, sum_tree_join, sum_tree_seq, sum_tree_task, Tree};
use forkjoin_tasks::task::{JoinStyle, SubView, TaskResult};

struct Run<Ret> {
    results: Vec<Ret>,
    end: ForkJoinError,
    leaves: usize,
    joins: usize,
}

/// Runs one job the way `workers` workers would: each takes a task off the
/// queue before any of them reports, and the one that took its task last
/// reports first.
fn run_job<Arg, Ret, S, J>(workers: usize, style: JoinStyle, root: Arg, split: S, join: J) -> Run<Ret>
where
    S: Fn(Arg) -> TaskResult<Arg, Ret>,
    J: Fn(Option<&Ret>, &[Ret]) -> Ret,
{
    let config = PoolConfig::with_threads(workers).unwrap();
    let mut scheduler = Scheduler::new(style, root);
    let mut job = Job::new(style);
    let mut leaves = 0;
    let mut joins = 0;
    loop {
        let mut running = Vec::new();
        for _ in 0..config.threads() {
            if let Some(task) = scheduler.next_task() {
                running.push(task);
            }
        }
        if running.is_empty() {
            break;
        }
        while let Some((id, arg)) = running.pop() {
            let result = split(arg);
            if let TaskResult::Done(_) = result {
                leaves += 1;
            }
            let mut action = scheduler.complete(id, result);
            loop {
                match action {
                    Action::Continue => break,
                    Action::Finished => {
                        job.finish();
                        break;
                    }
                    Action::Deliver { value, last } => {
                        job.deliver(value, last);
                        break;
                    }
                    Action::Join { node, context, outputs } => {
                        joins += 1;
                        let output = join(context.as_ref(), &outputs[..]);
                        action = scheduler.joined(node, output);
                    }
                }
            }
        }
    }
    assert_eq!(0, scheduler.live());
    let mut results = Vec::new();
    let end = loop {
        match job.recv() {
            Ok(Some(value)) => results.push(value),
            Ok(None) => panic!("the workers left the job open"),
            Err(e) => break e,
        }
    };
    Run { results, end, leaves, joins }
}

fn par_qsort(threads: usize, data: &mut Vec<usize>) {
    let len = data.len();
    let buf = RefCell::new(std::mem::take(data));
    let run = run_job(
        threads,
        JoinStyle::Reduce,
        SubView { start: 0, len },
        |view| quicksort_task(&mut buf.borrow_mut()[..], view),
        |_, outputs: &[()]| quicksort_join(outputs),
    );
    assert_eq!(vec![()], run.results);
    assert_eq!(ForkJoinError::AlreadyConsumed, run.end);
    *data = buf.into_inner();
}

fn par_mergesort(threads: usize, data: &mut Vec<usize>) {
    let len = data.len();
    let buf = RefCell::new(std::mem::take(data));
    let run = run_job(
        threads,
        JoinStyle::Reduce,
        SubView { start: 0, len },
        |view| mergesort_task(&mut buf.borrow_mut()[..], view),
        |_, outputs: &[SubView]| mergesort_join(&mut buf.borrow_mut()[..], outputs).unwrap(),
    );
    assert_eq!(vec![SubView { start: 0, len }], run.results);
    *data = buf.into_inner();
}

fn par_fib(threads: usize, n: usize) -> usize {
    let mut run = run_job(threads, JoinStyle::Reduce, n, fib_task, |_, values: &[usize]| fib_join(values));
    assert_eq!(1, run.results.len());
    run.results.pop().unwrap()
}

fn par_sumtree(threads: usize, tree: &Tree) -> usize {
    let mut run = run_job(threads, JoinStyle::Summa, tree, sum_tree_task, |value, values: &[usize]| {
        sum_tree_join(value.unwrap(), values)
    });
    assert_eq!(1, run.results.len());
    run.results.pop().unwrap()
}

fn binary_task(depth: usize) -> TaskResult<usize, usize> {
    if depth == 0 {
        TaskResult::Done(1)
    } else {
        TaskResult::Fork(vec![depth - 1, depth - 1], None)
    }
}

#[test]
fn quicksort_five_with_one_and_four_workers() {
    for threads in [1, 4] {
        let mut xs = vec![5, 3, 1, 4, 2];
        par_qsort(threads, &mut xs);
        assert_eq!(vec![1, 2, 3, 4, 5], xs);
    }
}

#[test]
fn sorts_equal_the_sequential_baseline() {
    for threads in [1, 2, 4] {
        let mut data: Vec<usize> = (0..20000).collect();
        create_vec_rnd(893475343, &mut data[..]);
        let mut expected = data.clone();
        quicksort_seq(&mut expected[..]);
        let mut quick = data.clone();
        par_qsort(threads, &mut quick);
        assert_eq!(expected, quick);
        assert_eq!(Ok(()), verify_sorted(&quick[..]));
        let mut merged = data.clone();
        par_mergesort(threads, &mut merged);
        assert_eq!(expected, merged);
        let mut baseline = data.clone();
        mergesort_seq(&mut baseline[..]);
        assert_eq!(baseline, merged);
    }
}

#[test]
fn sorts_of_empty_and_single_buffers() {
    for threads in [1, 2, 4] {
        let mut empty: Vec<usize> = vec![];
        par_qsort(threads, &mut empty);
        assert_eq!(Vec::<usize>::new(), empty);
        par_mergesort(threads, &mut empty);
        assert_eq!(Vec::<usize>::new(), empty);
        let mut one = vec![3];
        par_qsort(threads, &mut one);
        assert_eq!(vec![3], one);
        par_mergesort(threads, &mut one);
        assert_eq!(vec![3], one);
    }
}

#[test]
fn mergesort_join_of_two_sorted_views() {
    let mut xs = vec![1, 3, 5, 2, 4, 6];
    let whole = mergesort_join(&mut xs[..], &[SubView { start: 0, len: 3 }, SubView { start: 3, len: 3 }]);
    assert_eq!(Ok(SubView { start: 0, len: 6 }), whole);
    assert_eq!(vec![1, 2, 3, 4, 5, 6], xs);
}

#[test]
fn fib_ten_never_forks() {
    for threads in [1, 2, 4] {
        let run = run_job(threads, JoinStyle::Reduce, 10, fib_task, |_, values: &[usize]| fib_join(values));
        assert_eq!(vec![89], run.results);
        assert_eq!(fib(10), run.results[0]);
        assert_eq!(1, run.leaves);
        assert_eq!(0, run.joins);
    }
}

#[test]
fn fib_equals_the_sequential_baseline() {
    for threads in [1, 2, 4] {
        assert_eq!(121393, par_fib(threads, 25));
        assert_eq!(fib(23), par_fib(threads, 23));
        let run = run_job(threads, JoinStyle::Reduce, 12, fib_task_no_threshold, |_, values: &[usize]| {
            fib_join(values)
        });
        assert_eq!(vec![fib(12)], run.results);
        assert_eq!(233, run.leaves);
        assert_eq!(232, run.joins);
    }
}

#[test]
fn nqueens_reduce_counts() {
    for threads in [1, 2, 4] {
        let four = run_job(
            threads,
            JoinStyle::Reduce,
            (vec![], 4),
            nqueens_task_reduce,
            |_, values: &[Vec<Board>]| nqueens_join(values),
        );
        assert_eq!(vec![vec![vec![1, 3, 0, 2], vec![2, 0, 3, 1]]], four.results);
        let one = run_job(
            threads,
            JoinStyle::Reduce,
            (vec![], 1),
            nqueens_task_reduce,
            |_, values: &[Vec<Board>]| nqueens_join(values),
        );
        assert_eq!(vec![vec![vec![0]]], one.results);
        let zero = run_job(
            threads,
            JoinStyle::Reduce,
            (vec![], 0),
            nqueens_task_reduce,
            |_, values: &[Vec<Board>]| nqueens_join(values),
        );
        assert_eq!(vec![vec![Vec::<usize>::new()]], zero.results);
        let six = run_job(
            threads,
            JoinStyle::Reduce,
            (vec![], 6),
            nqueens_task_reduce,
            |_, values: &[Vec<Board>]| nqueens_join(values),
        );
        assert_eq!(vec![nqueens_reduce(&[], 6)], six.results);
    }
}

#[test]
fn nqueens_search_surfaces_every_solution() {
    for threads in [1, 2, 4] {
        let run = run_job(threads, JoinStyle::Search, (vec![], 6), nqueens_task_search, |_, _: &[Board]| {
            panic!("a search never joins")
        });
        let mut found = run.results;
        found.sort();
        let mut expected = nqueens_reduce(&[], 6);
        expected.sort();
        assert_eq!(expected, found);
        assert_eq!(ForkJoinError::Exhausted, run.end);
        assert_eq!(0, run.joins);
        let none = run_job(threads, JoinStyle::Search, (vec![], 3), nqueens_task_search, |_, _: &[Board]| {
            panic!("a search never joins")
        });
        assert_eq!(Vec::<Board>::new(), none.results);
        assert_eq!(ForkJoinError::Exhausted, none.end);
    }
}

#[test]
fn sumtree_of_a_three_level_tree() {
    let tree = gen_unbalanced_tree(2);
    for threads in [1, 2, 4] {
        assert_eq!(4003, par_sumtree(threads, &tree));
    }
    let deeper = gen_unbalanced_tree(9);
    for threads in [1, 2, 4] {
        assert_eq!(sum_tree_seq(&deeper), par_sumtree(threads, &deeper));
    }
    let single = gen_unbalanced_tree(0);
    assert_eq!(1000, par_sumtree(2, &single));
}

#[test]
fn binary_forks_have_power_of_two_leaves() {
    for threads in [1, 2, 4] {
        for depth in 0..8 {
            let run = run_job(threads, JoinStyle::Reduce, depth, binary_task, |_, values: &[usize]| {
                values.iter().sum()
            });
            assert_eq!(1usize << depth, run.leaves);
            assert_eq!((1usize << depth) - 1, run.joins);
            assert_eq!(vec![1usize << depth], run.results);
        }
    }
}

#[test]
fn same_input_gives_same_results() {
    let first = par_fib(4, 24);
    let second = par_fib(4, 24);
    assert_eq!(first, second);
    let mut a: Vec<usize> = (0..5000).collect();
    create_vec_rnd(17, &mut a[..]);
    let mut b = a.clone();
    par_qsort(4, &mut a);
    par_qsort(4, &mut b);
    assert_eq!(a, b);
}

#[test]
fn empty_job_delivers_unit() {
    let run = run_job(2, JoinStyle::Reduce, 0usize, void_task, |_, outputs: &[()]| void_join(outputs));
    assert_eq!(vec![()], run.results);
}

#[test]
fn pool_without_threads_is_refused() {
    assert_eq!(ForkJoinError::ConfigurationError, PoolConfig::with_threads(0).unwrap_err());
    assert_eq!(1, PoolConfig::with_threads(1).unwrap().threads());
    assert_eq!(4, PoolConfig::with_threads(4).unwrap().threads());
}

#[test]
fn join_sees_outputs_in_fork_order() {
    let mut s: Scheduler<&str, u32> = Scheduler::new(JoinStyle::Reduce, "root");
    assert_eq!(Some(NodeState::Queued), s.node_state(0));
    assert_eq!(None, s.node_state(1));
    assert_eq!(Some((0, "root")), s.next_task());
    assert_eq!(Some(NodeState::Running), s.node_state(0));
    assert_eq!(None, s.next_task());
    assert_eq!(Action::Continue, s.complete(0, TaskResult::Fork(vec!["a", "b", "c"], None)));
    assert_eq!(4, s.live());
    assert_eq!(Some((1, "a")), s.next_task());
    assert_eq!(Some((2, "b")), s.next_task());
    assert_eq!(Some((3, "c")), s.next_task());
    assert_eq!(None, s.next_task());
    assert_eq!(Action::Continue, s.complete(3, TaskResult::Done(30)));
    assert_eq!(Action::Continue, s.complete(1, TaskResult::Done(10)));
    assert_eq!(
        Action::Join { node: 0, context: None, outputs: vec![10, 20, 30] },
        s.complete(2, TaskResult::Done(20))
    );
    assert_eq!(1, s.live());
    assert_eq!(Some(NodeState::Joining), s.node_state(0));
    assert_eq!(Some(NodeState::Done), s.node_state(2));
    assert_eq!(Action::Deliver { value: 60, last: true }, s.joined(0, 60));
    assert_eq!(0, s.live());
    assert_eq!(Some(NodeState::Done), s.node_state(0));
}

#[test]
fn nested_forks_propagate_to_the_root() {
    let mut s: Scheduler<u8, u32> = Scheduler::new(JoinStyle::Summa, 0);
    let (root, _) = s.next_task().unwrap();
    assert_eq!(Action::Continue, s.complete(root, TaskResult::Fork(vec![1, 2], Some(100))));
    let (left, _) = s.next_task().unwrap();
    let (right, _) = s.next_task().unwrap();
    assert_eq!(Action::Continue, s.complete(right, TaskResult::Fork(vec![3], Some(7))));
    let (inner, arg) = s.next_task().unwrap();
    assert_eq!(3, arg);
    assert_eq!(
        Action::Join { node: right, context: Some(7), outputs: vec![5] },
        s.complete(inner, TaskResult::Done(5))
    );
    assert_eq!(Action::Continue, s.joined(right, 12));
    assert_eq!(
        Action::Join { node: root, context: Some(100), outputs: vec![1, 12] },
        s.complete(left, TaskResult::Done(1))
    );
    assert_eq!(Action::Deliver { value: 113, last: true }, s.joined(root, 113));
}

#[test]
fn fork_into_no_children() {
    let mut reduce: Scheduler<u8, u32> = Scheduler::new(JoinStyle::Reduce, 0);
    let (id, _) = reduce.next_task().unwrap();
    assert_eq!(
        Action::Join { node: id, context: None, outputs: vec![] },
        reduce.complete(id, TaskResult::Fork(vec![], None))
    );
    assert_eq!(Action::Deliver { value: 0, last: true }, reduce.joined(id, 0));
    let mut search: Scheduler<u8, u32> = Scheduler::new(JoinStyle::Search, 0);
    let (id, _) = search.next_task().unwrap();
    assert_eq!(Action::Finished, search.complete(id, TaskResult::Fork(vec![], None)));
}

#[test]
fn search_delivers_each_leaf() {
    let mut s: Scheduler<u8, u32> = Scheduler::new(JoinStyle::Search, 0);
    let (root, _) = s.next_task().unwrap();
    assert_eq!(Action::Continue, s.complete(root, TaskResult::Fork(vec![1, 2], None)));
    let (a, _) = s.next_task().unwrap();
    let (b, _) = s.next_task().unwrap();
    assert_eq!(Action::Deliver { value: 22, last: false }, s.complete(b, TaskResult::Done(22)));
    assert_eq!(Action::Deliver { value: 11, last: true }, s.complete(a, TaskResult::Done(11)));
}

#[test]
fn job_of_one_result() {
    let mut job: Job<u32> = Job::new(JoinStyle::Reduce);
    assert_eq!(Ok(None), job.recv());
    assert!(!job.is_closed());
    job.deliver(5, false);
    assert!(job.is_closed());
    assert_eq!(Ok(Some(5)), job.recv());
    assert_eq!(Err(ForkJoinError::AlreadyConsumed), job.recv());
    assert_eq!(Err(ForkJoinError::AlreadyConsumed), job.recv());
}

#[test]
fn job_of_a_search() {
    let mut job: Job<u32> = Job::new(JoinStyle::Search);
    assert_eq!(Ok(None), job.recv());
    job.deliver(1, false);
    job.deliver(2, false);
    assert_eq!(Ok(Some(1)), job.recv());
    assert_eq!(Ok(Some(2)), job.recv());
    assert_eq!(Ok(None), job.recv());
    job.deliver(3, true);
    assert_eq!(Ok(Some(3)), job.recv());
    assert_eq!(Err(ForkJoinError::Exhausted), job.recv());
    let mut none: Job<u32> = Job::new(JoinStyle::Search);
    none.finish();
    assert_eq!(Err(ForkJoinError::Exhausted), none.recv());
}

#[test]
fn job_whose_task_failed() {
    let mut job: Job<u32> = Job::new(JoinStyle::Summa);
    job.fail();
    assert_eq!(Err(ForkJoinError::TaskFailure), job.recv());
    assert_eq!(Err(ForkJoinError::TaskFailure), job.recv());
}
