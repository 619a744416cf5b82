use vstd::prelude::*;
use crate::sum::{seq_sum, sum_values};
use crate::rules::{
    args_view, finishes, lemma_result_is_output, output, outputs_of, result, rets_view, split_view, Rules, Split,
    Views,
};
use crate::task::TaskResult;

verus! {

/// A tree of numbers: a value and any number of subtrees.
#[derive(Debug)]
pub struct Tree {
    pub value: usize,
    pub children: Vec<Tree>,
}

/// The sum of the values of all nodes of `t`.
pub open spec fn tree_sum(t: Tree) -> nat
    decreases t, 1nat,
{
    t.value as nat + children_sum(t, t.children@.len())
}

/// The sum of the values of all nodes of the first `k` subtrees of `t`.
pub open spec fn children_sum(t: Tree, k: nat) -> nat
    decreases t, 0nat, k,
{
    if k == 0 || k > t.children@.len() {
        0
    } else {
        children_sum(t, (k - 1) as nat) + tree_sum(t.children@[k - 1])
    }
}

/// Whether two trees have the same shape and the same value at every node.
pub open spec fn same_tree(a: Tree, b: Tree) -> bool
    decreases a,
{
    &&& a.value == b.value
    &&& a.children@.len() == b.children@.len()
    &&& forall|i: int| 0 <= i < a.children@.len() ==> same_tree(a.children@[i], b.children@[i])
}

/// Whether `t` is the unbalanced tree of depth `depth`: its value is
/// `depth + 1000`, and its subtrees are the unbalanced trees of the depths
/// `0` to `depth - 1`, in this order.
pub open spec fn is_unbalanced(t: Tree, depth: nat) -> bool
    decreases depth,
{
    &&& t.value == depth + 1000
    &&& t.children@.len() == depth
    &&& forall|i: int| 0 <= i < depth ==> is_unbalanced(t.children@[i], i as nat)
}

/// The sum of the unbalanced tree of depth `depth`.
pub open spec fn unbalanced_sum(depth: nat) -> nat
    decreases depth, 1nat,
{
    depth + 1000 + unbalanced_sum_below(depth)
}

/// The sum of the unbalanced trees of all depths below `depth`.
pub open spec fn unbalanced_sum_below(depth: nat) -> nat
    decreases depth, 0nat,
{
    if depth == 0 {
        0
    } else {
        unbalanced_sum_below((depth - 1) as nat) + unbalanced_sum((depth - 1) as nat)
    }
}

/// The first subtrees of a tree sum to no more than all of them.
proof fn lemma_children_sum_grows(t: Tree, k: nat, n: nat)
    requires
        k <= n <= t.children@.len(),
    ensures
        children_sum(t, k) <= children_sum(t, n),
    decreases n - k,
{
    if k < n {
        lemma_children_sum_grows(t, k, (n - 1) as nat);
    }
}

/// The sum of a tree is its own value joined with the sums of its subtrees:
/// where `sums` holds the sum of each subtree, in order, the tree sums to its
/// value plus the sum of `sums`. A tree without subtrees sums to its value.
pub proof fn lemma_tree_sum_joins(t: Tree, sums: Seq<usize>)
    requires
        sums.len() == t.children@.len(),
        forall|i: int| 0 <= i < sums.len() ==> sums[i] == tree_sum(t.children@[i]),
    ensures
        tree_sum(t) == t.value + seq_sum(sums),
        t.children@.len() == 0 ==> tree_sum(t) == t.value,
{
    lemma_children_sum_prefix(t, sums, sums.len());
    assert(sums.take(sums.len() as int) =~= sums);
}

proof fn lemma_children_sum_prefix(t: Tree, sums: Seq<usize>, k: nat)
    requires
        k <= sums.len() == t.children@.len(),
        forall|i: int| 0 <= i < sums.len() ==> sums[i] == tree_sum(t.children@[i]),
    ensures
        children_sum(t, k) == seq_sum(sums.take(k as int)),
    decreases k,
{
    if k > 0 {
        lemma_children_sum_prefix(t, sums, (k - 1) as nat);
        assert(sums.take(k as int).drop_last() =~= sums.take(k - 1));
    }
}

/// Two trees of the same shape and values have the same sum.
pub proof fn lemma_same_tree_sum(a: Tree, b: Tree)
    requires
        same_tree(a, b),
    ensures
        tree_sum(a) == tree_sum(b),
    decreases a,
{
    lemma_same_children_sum(a, b, a.children@.len());
}

proof fn lemma_same_children_sum(a: Tree, b: Tree, k: nat)
    requires
        same_tree(a, b),
        k <= a.children@.len(),
    ensures
        children_sum(a, k) == children_sum(b, k),
    decreases a, k,
{
    if k > 0 {
        lemma_same_children_sum(a, b, (k - 1) as nat);
        lemma_same_tree_sum(a.children@[k - 1], b.children@[k - 1]);
    }
}

/// The unbalanced tree of depth `depth` sums to `unbalanced_sum(depth)`.
pub proof fn lemma_unbalanced_sum(t: Tree, depth: nat)
    requires
        is_unbalanced(t, depth),
    ensures
        tree_sum(t) == unbalanced_sum(depth),
    decreases depth, 1nat,
{
    lemma_unbalanced_children_sum(t, depth, depth);
}

proof fn lemma_unbalanced_children_sum(t: Tree, depth: nat, k: nat)
    requires
        is_unbalanced(t, depth),
        k <= depth,
    ensures
        children_sum(t, k) == unbalanced_sum_below(k),
    decreases depth, 0nat, k,
{
    if k > 0 {
        lemma_unbalanced_children_sum(t, depth, (k - 1) as nat);
        lemma_unbalanced_sum(t.children@[k - 1], (k - 1) as nat);
    }
}

impl Clone for Tree {
    /// A copy of the tree: same shape, same values.
    fn clone(&self) -> (res: Tree)
        ensures
            same_tree(*self, res),
        decreases self,
    {
        let mut children: Vec<Tree> = Vec::new();
        let mut i: usize = 0;
        while i < self.children.len()
            invariant
                i <= self.children@.len(),
                children@.len() == i,
                forall|k: int| 0 <= k < i ==> same_tree(self.children@[k], children@[k]),
            decreases self.children@.len() - i,
        {
            let child: Tree = self.children[i].clone();
            children.push(child);
            i += 1;
        }
        Tree { value: self.value, children }
    }
}

/// Sums the values of all nodes of `t`, sequentially.
pub fn sum_tree_seq(t: &Tree) -> (sum: usize)
    requires
        tree_sum(*t) <= usize::MAX,
    ensures
        sum == tree_sum(*t),
    decreases t,
{
    let mut acc: usize = 0;
    let mut i: usize = 0;
    while i < t.children.len()
        invariant
            i <= t.children@.len(),
            acc == children_sum(*t, i as nat),
            tree_sum(*t) <= usize::MAX,
        decreases t.children@.len() - i,
    {
        proof {
            lemma_children_sum_grows(*t, (i + 1) as nat, t.children@.len());
        }
        let part: usize = sum_tree_seq(&t.children[i]);
        acc = acc + part;
        i += 1;
    }
    t.value + acc
}

/// Sums the values of all nodes of `t`, unless the sum is too large for the
/// machine.
pub fn sum_tree_checked(t: &Tree) -> (sum: Option<usize>)
    ensures
        sum is Some <==> tree_sum(*t) <= usize::MAX,
        sum matches Some(total) ==> total == tree_sum(*t),
    decreases t,
{
    let mut acc: usize = 0;
    let mut i: usize = 0;
    while i < t.children.len()
        invariant
            i <= t.children@.len(),
            acc == children_sum(*t, i as nat),
        decreases t.children@.len() - i,
    {
        proof {
            lemma_children_sum_grows(*t, (i + 1) as nat, t.children@.len());
        }
        let next = match sum_tree_checked(&t.children[i]) {
            Some(part) => acc.checked_add(part),
            None => None,
        };
        match next {
            Some(total) => {
                acc = total;
            },
            None => {
                return None;
            },
        }
        i += 1;
    }
    t.value.checked_add(acc)
}

/// The split function of tree summation: a node without subtrees is done with
/// its own value, any other node forks into its subtrees and hands its own
/// value on as the context of the join.
pub fn sum_tree_task(t: &Tree) -> (res: TaskResult<&Tree, usize>)
    ensures
        t.children@.len() == 0 ==> res == TaskResult::<&Tree, usize>::Done(t.value),
        t.children@.len() != 0 ==> (res matches TaskResult::Fork(children, context) && {
            &&& context == Some(t.value)
            &&& children@.len() == t.children@.len()
            &&& forall|i: int| 0 <= i < children@.len() ==> *children@[i] == t.children@[i]
        }),
        split_view(tree_views(), res) == tree_split(*t),
{
    if t.children.len() == 0 {
        TaskResult::Done(t.value)
    } else {
        let mut fork_args: Vec<&Tree> = Vec::new();
        let mut i: usize = 0;
        while i < t.children.len()
            invariant
                i <= t.children@.len(),
                fork_args@.len() == i,
                forall|k: int| 0 <= k < i ==> *fork_args@[k] == t.children@[k],
            decreases t.children@.len() - i,
        {
            fork_args.push(&t.children[i]);
            i += 1;
        }
        assert(args_view(tree_views(), fork_args@) =~= t.children@);
        TaskResult::Fork(fork_args, Some(t.value))
    }
}

/// The join function of tree summation: the node's own value, which the split
/// handed on as context, plus the sums of its subtrees.
pub fn sum_tree_join(value: &usize, values: &[usize]) -> (sum: usize)
    requires
        *value + seq_sum(values@) <= usize::MAX,
    ensures
        sum == *value + seq_sum(values@),
        sum == (tree_rules().join)(Some(*value), rets_view(tree_views(), values@)),
{
    assert(rets_view(tree_views(), values@) =~= values@);
    *value + sum_values(values)
}

/// Generate a very unbalanced tree: the node of depth `depth` has one subtree
/// of each smaller depth.
pub fn gen_unbalanced_tree(depth: usize) -> (t: Tree)
    requires
        depth + 1000 <= usize::MAX,
    ensures
        is_unbalanced(t, depth as nat),
    decreases depth,
{
    let mut children: Vec<Tree> = Vec::new();
    let mut i: usize = 0;
    while i < depth
        invariant
            i <= depth,
            depth + 1000 <= usize::MAX,
            children@.len() == i,
            forall|k: int| 0 <= k < i ==> is_unbalanced(children@[k], k as nat),
        decreases depth - i,
    {
        children.push(gen_unbalanced_tree(i));
        i += 1;
    }
    Tree { value: depth + 1000, children: children }
}

/// The inputs of the tasks are references to trees and stand for the trees;
/// the outputs are sums as they stand.
pub open spec fn tree_views<'a>() -> Views<&'a Tree, usize, Tree, usize> {
    Views { arg: |t: &Tree| *t, ret: |sum: usize| sum }
}

/// What `sum_tree_task` returns for `t`.
pub open spec fn tree_split(t: Tree) -> Split<Tree, usize> {
    if t.children@.len() == 0 {
        Split::Done(t.value)
    } else {
        Split::Fork(t.children@, Some(t.value))
    }
}

/// Tree summation as rules: `sum_tree_task` and `sum_tree_join`.
pub open spec fn tree_rules() -> Rules<Tree, usize> {
    Rules {
        split: |t: Tree| tree_split(t),
        join: |context: Option<usize>, values: Seq<usize>|
            match context {
                Some(value) => (value + seq_sum(values)) as usize,
                None => seq_sum(values) as usize,
            },
    }
}

/// The number of forks below one another in the job on `t`.
pub open spec fn tree_height(t: Tree) -> nat
    decreases t, 1nat,
{
    if t.children@.len() == 0 {
        0
    } else {
        1 + children_height(t, t.children@.len())
    }
}

/// The largest height among the first `k` subtrees of `t`.
pub open spec fn children_height(t: Tree, k: nat) -> nat
    decreases t, 0nat, k,
{
    if k == 0 || k > t.children@.len() {
        0
    } else {
        let rest = children_height(t, (k - 1) as nat);
        let last = tree_height(t.children@[k - 1]);
        if rest >= last {
            rest
        } else {
            last
        }
    }
}

proof fn lemma_children_height_bounds(t: Tree, k: nat, i: int)
    requires
        0 <= i < k <= t.children@.len(),
    ensures
        tree_height(t.children@[i]) <= children_height(t, k),
    decreases k,
{
    if i < k - 1 {
        lemma_children_height_bounds(t, (k - 1) as nat, i);
    }
}

proof fn lemma_children_sum_bounds(t: Tree, k: nat, i: int)
    requires
        0 <= i < k <= t.children@.len(),
    ensures
        tree_sum(t.children@[i]) <= children_sum(t, k),
    decreases k,
{
    if i < k - 1 {
        lemma_children_sum_bounds(t, (k - 1) as nat, i);
    }
}

/// The fork-join job on `t` gives the sum of `t`, as the sequential
/// `sum_tree_seq` does: it ends after `tree_height(t)` forks, and the joins of
/// the nodes' own values with the outputs of their subtrees add up to
/// `tree_sum(t)`.
pub proof fn lemma_tree_job(t: Tree, depth: nat)
    requires
        tree_sum(t) <= usize::MAX,
        depth >= tree_height(t),
    ensures
        finishes(tree_rules(), t, depth),
        output(tree_rules(), t, depth) == tree_sum(t),
    decreases t,
{
    let rules = tree_rules();
    if t.children@.len() == 0 {
        lemma_tree_sum_joins(t, Seq::empty());
    } else {
        let children = t.children@;
        let below = (depth - 1) as nat;
        let sums = outputs_of(rules, children, below);
        assert forall|i: int| 0 <= i < children.len() implies finishes(rules, #[trigger] children[i], below)
            && sums[i] == tree_sum(children[i]) by {
            lemma_children_height_bounds(t, children.len(), i);
            lemma_children_sum_bounds(t, children.len(), i);
            lemma_tree_job(children[i], below);
        }
        lemma_tree_sum_joins(t, sums);
    }
}

/// Runs the whole fork-join job on `t` on the calling thread: the split
/// function, then the jobs of the subtrees in fork order, then the join with
/// the node's own value as context. It gives what the sequential
/// `sum_tree_seq` gives, which is the result that a faithful scheduler delivers
/// for the job.
pub fn run_sum_tree(t: &Tree) -> (sum: usize)
    requires
        tree_sum(*t) <= usize::MAX,
    ensures
        sum == tree_sum(*t),
        sum == result(tree_rules(), *t),
    decreases t,
{
    proof {
        lemma_tree_job(*t, tree_height(*t));
        lemma_result_is_output(tree_rules(), *t, tree_height(*t));
    }
    match sum_tree_task(t) {
        TaskResult::Done(value) => {
            proof {
                lemma_tree_sum_joins(*t, Seq::empty());
            }
            value
        },
        TaskResult::Fork(children, context) => {
            let mut outputs: Vec<usize> = Vec::new();
            let mut i: usize = 0;
            while i < children.len()
                invariant
                    i <= children@.len(),
                    children@.len() == t.children@.len(),
                    forall|k: int| 0 <= k < children@.len() ==> *children@[k] == t.children@[k],
                    tree_sum(*t) <= usize::MAX,
                    outputs@.len() == i,
                    forall|k: int| 0 <= k < i ==> outputs@[k] == tree_sum(t.children@[k]),
                decreases children@.len() - i,
            {
                proof {
                    lemma_children_sum_bounds(*t, t.children@.len(), i as int);
                }
                let child: &Tree = children[i];
                outputs.push(run_sum_tree(child));
                i += 1;
            }
            proof {
                lemma_tree_sum_joins(*t, outputs@);
            }
            let value: usize = context.unwrap();
            sum_tree_join(&value, outputs.as_slice())
        },
    }
}

} // verus!
