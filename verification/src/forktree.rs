use vstd::prelude::*;
use vstd::arithmetic::power2::{lemma_pow2_pos, lemma_pow2_unfold, pow2};
use crate::rules::{Rules, Split};

verus! {

/// The shape of a job: which tasks were leaves and which forked, into what.
pub enum ForkTree {
    /// A task whose split function returned its output.
    Leaf,
    /// A task that forked into these children, in fork order.
    Fork(Seq<ForkTree>),
}

/// The number of leaf tasks of `t`.
pub open spec fn leaf_count(t: ForkTree) -> nat
    decreases t,
{
    match t {
        ForkTree::Leaf => 1,
        ForkTree::Fork(children) => leaf_count_of(children, children.len()),
    }
}

/// The number of leaf tasks below the first `k` of `children`.
pub open spec fn leaf_count_of(children: Seq<ForkTree>, k: nat) -> nat
    decreases children, k,
{
    if k == 0 || k > children.len() {
        0
    } else {
        leaf_count_of(children, (k - 1) as nat) + leaf_count(children[k - 1])
    }
}

/// The number of joins that run for `t` under a discipline that joins: one for
/// every task that forked.
pub open spec fn join_count(t: ForkTree) -> nat
    decreases t,
{
    match t {
        ForkTree::Leaf => 0,
        ForkTree::Fork(children) => 1 + join_count_of(children, children.len()),
    }
}

/// The number of joins that run below the first `k` of `children`.
pub open spec fn join_count_of(children: Seq<ForkTree>, k: nat) -> nat
    decreases children, k,
{
    if k == 0 || k > children.len() {
        0
    } else {
        join_count_of(children, (k - 1) as nat) + join_count(children[k - 1])
    }
}

/// Whether every task of `t` forks into exactly two children down to depth
/// `depth`, where all tasks are leaves.
pub open spec fn forks_in_two(t: ForkTree, depth: nat) -> bool
    decreases depth,
{
    if depth == 0 {
        t is Leaf
    } else {
        &&& t matches ForkTree::Fork(children)
        &&& children.len() == 2
        &&& forks_in_two(children[0], (depth - 1) as nat)
        &&& forks_in_two(children[1], (depth - 1) as nat)
    }
}

/// A job whose tasks fork in two down to depth `depth` has `2^depth` leaves
/// and runs `2^depth - 1` joins, however its tasks are spread over workers.
pub proof fn lemma_binary_fork_counts(t: ForkTree, depth: nat)
    requires
        forks_in_two(t, depth),
    ensures
        leaf_count(t) == pow2(depth),
        join_count(t) == pow2(depth) - 1,
    decreases depth,
{
    lemma_pow2_pos(depth);
    if depth == 0 {
        lemma_pow2_unfold(1);
        assert(pow2(0) == 1) by {
            vstd::arithmetic::power2::lemma2_to64();
        }
    } else {
        let children = t->Fork_0;
        lemma_binary_fork_counts(children[0], (depth - 1) as nat);
        lemma_binary_fork_counts(children[1], (depth - 1) as nat);
        lemma_pow2_unfold(depth);
        assert(leaf_count_of(children, 1) == leaf_count_of(children, 0) + leaf_count(children[0]));
        assert(join_count_of(children, 1) == join_count_of(children, 0) + join_count(children[0]));
    }
}

/// The shape of the job on `arg`, followed for at most `depth` forks below one
/// another.
pub open spec fn task_tree<A, R>(rules: Rules<A, R>, arg: A, depth: nat) -> ForkTree
    decreases depth, 0nat,
{
    match (rules.split)(arg) {
        Split::Done(_) => ForkTree::Leaf,
        Split::Fork(args, _) => ForkTree::Fork(
            if depth > 0 {
                task_trees(rules, args, (depth - 1) as nat)
            } else {
                Seq::empty()
            },
        ),
    }
}

/// The shapes of the jobs on `args`, in the order of `args`.
pub open spec fn task_trees<A, R>(rules: Rules<A, R>, args: Seq<A>, depth: nat) -> Seq<ForkTree>
    decreases depth, 1nat,
{
    Seq::new(args.len(), |i: int| task_tree(rules, args[i], depth))
}

/// The rules of a job that forks in two down to a given depth: the input is
/// the number of forks still to come, every leaf hands back one, and the join
/// adds up.
pub open spec fn binary_rules() -> Rules<nat, nat> {
    Rules {
        split: |left: nat|
            if left == 0 {
                Split::Done(1nat)
            } else {
                Split::Fork(seq![(left - 1) as nat, (left - 1) as nat], None)
            },
        join: |context: Option<nat>, values: Seq<nat>| values.fold_left(0nat, |sum: nat, v: nat| sum + v),
    }
}

/// The job of `binary_rules` on `depth` forks in two down to depth `depth`, so
/// that it has `2^depth` leaves and runs `2^depth - 1` joins.
pub proof fn lemma_binary_job(depth: nat)
    ensures
        forks_in_two(task_tree(binary_rules(), depth, depth), depth),
        leaf_count(task_tree(binary_rules(), depth, depth)) == pow2(depth),
        join_count(task_tree(binary_rules(), depth, depth)) == pow2(depth) - 1,
    decreases depth,
{
    let rules = binary_rules();
    if depth > 0 {
        let below = (depth - 1) as nat;
        lemma_binary_job(below);
    }
    lemma_binary_fork_counts(task_tree(rules, depth, depth), depth);
}

} // verus!
