use forkjoin_tasks::nqueens::{
    nqueens_join, nqueens_reduce, nqueens_task_reduce, nqueens_task_search, ok, run_nqueens_reduce,
    run_nqueens_search, Board, Solutions,
};
use forkjoin_tasks::task::TaskResult;

#[test]
fn ok_tells_attacks() {
    assert!(ok(&[]));
    assert!(ok(&[3]));
    assert!(ok(&[1, 3, 0, 2]));
    assert!(!ok(&[0, 0]));
    assert!(!ok(&[0, 1]));
    assert!(!ok(&[1, 0]));
    assert!(!ok(&[0, 2, 4, 1, 0]));
    assert!(!ok(&[0, 3, 1, 3]));
    assert!(!ok(&[3, 0, 1]));
    assert!(ok(&[usize::MAX, 0]));
    assert!(!ok(&[usize::MAX, usize::MAX - 1]));
}

#[test]
fn nqueens_reduce_four_has_two_solutions() {
    let found = nqueens_reduce(&[], 4);
    assert_eq!(vec![vec![1, 3, 0, 2], vec![2, 0, 3, 1]], found);
}

#[test]
fn nqueens_reduce_small_boards() {
    assert_eq!(vec![Vec::<usize>::new()], nqueens_reduce(&[], 0));
    assert_eq!(vec![vec![0]], nqueens_reduce(&[], 1));
    assert_eq!(Vec::<Vec<usize>>::new(), nqueens_reduce(&[], 2));
    assert_eq!(Vec::<Vec<usize>>::new(), nqueens_reduce(&[], 3));
    assert_eq!(10, nqueens_reduce(&[], 5).len());
    assert_eq!(4, nqueens_reduce(&[], 6).len());
    assert_eq!(92, nqueens_reduce(&[], 8).len());
}

#[test]
fn nqueens_reduce_from_a_partial_board() {
    assert_eq!(vec![vec![1, 3, 0, 2]], nqueens_reduce(&[1], 4));
    assert_eq!(Vec::<Vec<usize>>::new(), nqueens_reduce(&[0], 4));
    assert_eq!(vec![vec![2, 0, 3, 1]], nqueens_reduce(&[2, 0, 3, 1], 4));
}

#[test]
fn nqueens_join_concatenates_in_order() {
    let parts: Vec<Solutions> = vec![vec![vec![1, 3]], vec![], vec![vec![0], vec![2, 2]]];
    assert_eq!(vec![vec![1, 3], vec![0], vec![2, 2]], nqueens_join(&parts[..]));
    assert_eq!(Vec::<Board>::new(), nqueens_join(&[]));
}

#[test]
fn nqueens_tasks_fork_into_safe_extensions() {
    match nqueens_task_reduce((vec![1], 4)) {
        TaskResult::Fork(children, context) => {
            assert_eq!(vec![(vec![1, 3], 4)], children);
            assert_eq!(None, context);
        }
        TaskResult::Done(_) => panic!("a partial board must fork"),
    }
    match nqueens_task_search((vec![], 4)) {
        TaskResult::Fork(children, context) => {
            assert_eq!(vec![(vec![0], 4), (vec![1], 4), (vec![2], 4), (vec![3], 4)], children);
            assert_eq!(None, context);
        }
        TaskResult::Done(_) => panic!("a partial board must fork"),
    }
    match nqueens_task_search((vec![0, 2], 4)) {
        TaskResult::Fork(children, _) => assert!(children.is_empty()),
        TaskResult::Done(_) => panic!("a partial board must fork"),
    }
}

#[test]
fn nqueens_tasks_are_done_on_a_full_board() {
    match nqueens_task_reduce((vec![1, 3, 0, 2], 4)) {
        TaskResult::Done(found) => assert_eq!(vec![vec![1, 3, 0, 2]], found),
        TaskResult::Fork(..) => panic!("a full board must not fork"),
    }
    match nqueens_task_search((vec![1, 3, 0, 2], 4)) {
        TaskResult::Done(board) => assert_eq!(vec![1, 3, 0, 2], board),
        TaskResult::Fork(..) => panic!("a full board must not fork"),
    }
    match nqueens_task_reduce((vec![], 0)) {
        TaskResult::Done(found) => assert_eq!(vec![Vec::<usize>::new()], found),
        TaskResult::Fork(..) => panic!("the empty board of size zero is full"),
    }
}

#[test]
fn run_nqueens_equals_the_sequential_search() {
    assert_eq!(vec![vec![1, 3, 0, 2], vec![2, 0, 3, 1]], run_nqueens_reduce((vec![], 4)));
    assert_eq!(vec![vec![1, 3, 0, 2], vec![2, 0, 3, 1]], run_nqueens_search((vec![], 4)));
    assert_eq!(vec![vec![0]], run_nqueens_reduce((vec![], 1)));
    assert_eq!(vec![Vec::<usize>::new()], run_nqueens_search((vec![], 0)));
    assert_eq!(nqueens_reduce(&[], 7), run_nqueens_reduce((vec![], 7)));
    assert_eq!(nqueens_reduce(&[], 7), run_nqueens_search((vec![], 7)));
    assert_eq!(nqueens_reduce(&[2], 6), run_nqueens_reduce((vec![2], 6)));
}

#[test]
fn solutions_are_safe_and_distinct() {
    let found = nqueens_reduce(&[], 6);
    for (i, board) in found.iter().enumerate() {
        assert!(ok(&board[..]));
        assert_eq!(6, board.len());
        assert!(board.iter().all(|&column| column < 6));
        for other in found.iter().skip(i + 1) {
            assert_ne!(board, other);
        }
    }
}
