use forkjoin_tasks::sumtree::{
    gen_unbalanced_tree, run_sum_tree, sum_tree_checked, sum_tree_join, sum_tree_seq, sum_tree_task, Tree,
};
use forkjoin_tasks::task::TaskResult;

fn leaf(value: usize) -> Tree {
    Tree { value, children: vec![] }
}

#[test]
fn sum_tree_seq_of_a_known_tree() {
    let tree = Tree {
        value: 1,
        children: vec![
            leaf(2),
            Tree { value: 3, children: vec![leaf(4), leaf(5), leaf(6)] },
        ],
    };
    assert_eq!(21, sum_tree_seq(&tree));
}

#[test]
fn sum_tree_seq_of_a_single_node() {
    assert_eq!(17, sum_tree_seq(&leaf(17)));
    assert_eq!(1000, sum_tree_seq(&gen_unbalanced_tree(0)));
}

#[test]
fn gen_unbalanced_tree_shape() {
    let t = gen_unbalanced_tree(3);
    assert_eq!(1003, t.value);
    assert_eq!(3, t.children.len());
    assert_eq!(1000, t.children[0].value);
    assert!(t.children[0].children.is_empty());
    assert_eq!(1001, t.children[1].value);
    assert_eq!(1, t.children[1].children.len());
    assert_eq!(1002, t.children[2].value);
    assert_eq!(2, t.children[2].children.len());
    assert_eq!(1001, t.children[2].children[1].value);
}

#[test]
fn gen_unbalanced_tree_sums() {
    let expected = [1000, 2001, 4003, 8007, 16015, 32031];
    for (depth, sum) in expected.iter().enumerate() {
        assert_eq!(*sum, sum_tree_seq(&gen_unbalanced_tree(depth)));
    }
}

#[test]
fn clone_keeps_shape_and_values() {
    let t = gen_unbalanced_tree(4);
    let c = t.clone();
    assert_eq!(format!("{:?}", t), format!("{:?}", c));
    assert_eq!(sum_tree_seq(&t), sum_tree_seq(&c));
}

#[test]
fn sum_tree_task_forks_into_the_subtrees() {
    let t = gen_unbalanced_tree(2);
    match sum_tree_task(&t) {
        TaskResult::Fork(children, context) => {
            assert_eq!(Some(1002), context);
            assert_eq!(2, children.len());
            assert_eq!(1000, children[0].value);
            assert_eq!(1001, children[1].value);
        }
        TaskResult::Done(_) => panic!("a node with subtrees must fork"),
    }
    match sum_tree_task(&leaf(9)) {
        TaskResult::Done(v) => assert_eq!(9, v),
        TaskResult::Fork(..) => panic!("a node without subtrees must not fork"),
    }
}

#[test]
fn sum_tree_join_adds_the_context() {
    assert_eq!(1002 + 1000 + 2001, sum_tree_join(&1002, &[1000, 2001]));
    assert_eq!(5, sum_tree_join(&5, &[]));
}

#[test]
fn sum_tree_checked_tells_what_fits() {
    assert_eq!(Some(4003), sum_tree_checked(&gen_unbalanced_tree(2)));
    assert_eq!(Some(9), sum_tree_checked(&leaf(9)));
    let edge = Tree { value: 1, children: vec![leaf(usize::MAX - 1)] };
    assert_eq!(Some(usize::MAX), sum_tree_checked(&edge));
    let over = Tree { value: 1, children: vec![leaf(usize::MAX - 1), leaf(1)] };
    assert_eq!(None, sum_tree_checked(&over));
    let deep = Tree { value: 0, children: vec![leaf(0), Tree { value: usize::MAX, children: vec![leaf(1)] }] };
    assert_eq!(None, sum_tree_checked(&deep));
    let own = Tree { value: 2, children: vec![leaf(usize::MAX - 1)] };
    assert_eq!(None, sum_tree_checked(&own));
}

#[test]
fn run_sum_tree_equals_the_sequential_sum() {
    assert_eq!(4003, run_sum_tree(&gen_unbalanced_tree(2)));
    assert_eq!(1000, run_sum_tree(&gen_unbalanced_tree(0)));
    let t = gen_unbalanced_tree(8);
    assert_eq!(sum_tree_seq(&t), run_sum_tree(&t));
    assert_eq!(17, run_sum_tree(&leaf(17)));
}
