use vstd::prelude::*;
use vstd::arithmetic::power2::{lemma2_to64, lemma_pow2_strictly_increases, pow2, lemma_pow2_unfold};
use crate::sum::{seq_sum, sum_values};
use crate::rules::{
    args_view, finishes, lemma_result_is_output, output, outputs_of, result, rets_view, split_view, Rules, Split,
    Views,
};
use crate::task::TaskResult;

verus! {

/// Up to this argument a Fibonacci task computes its number itself instead of
/// forking.
pub const FIB_LEAF: usize = 20;

/// The Fibonacci numbers, counted from `fib(0) = fib(1) = 1`.
pub open spec fn fib_spec(n: nat) -> nat
    decreases n,
{
    if n < 2 {
        1
    } else {
        fib_spec((n - 1) as nat) + fib_spec((n - 2) as nat)
    }
}

/// The Fibonacci numbers never decrease.
pub proof fn lemma_fib_grows(i: nat, j: nat)
    requires
        i <= j,
    ensures
        fib_spec(i) <= fib_spec(j),
    decreases j,
{
    if i < j {
        lemma_fib_grows(i, (j - 1) as nat);
    }
}

/// The `n`-th Fibonacci number is at most the `n`-th power of two.
pub proof fn lemma_fib_bound(n: nat)
    ensures
        fib_spec(n) <= pow2(n),
    decreases n,
{
    lemma2_to64();
    if n >= 2 {
        lemma_fib_bound((n - 1) as nat);
        lemma_fib_bound((n - 2) as nat);
        lemma_pow2_unfold(n);
        lemma_pow2_strictly_increases((n - 2) as nat, (n - 1) as nat);
    }
}

/// A Fibonacci number is the join of the two that a task forks into: where
/// `outputs` holds the numbers for `n - 1` and `n - 2`, their sum is the number
/// for `n`.
pub proof fn lemma_fib_joins(n: nat, outputs: Seq<usize>)
    requires
        n >= 2,
        outputs.len() == 2,
        outputs[0] == fib_spec((n - 1) as nat),
        outputs[1] == fib_spec((n - 2) as nat),
    ensures
        seq_sum(outputs) == fib_spec(n),
{
    assert(seq_sum(outputs.drop_last()) == outputs[0]) by {
        assert(seq_sum(outputs.drop_last().drop_last()) == 0);
    }
}

/// The `n`-th Fibonacci number, by plain recursion.
pub fn fib(n: usize) -> (r: usize)
    requires
        fib_spec(n as nat) <= usize::MAX,
    ensures
        r == fib_spec(n as nat),
    decreases n,
{
    if n < 2 {
        1
    } else {
        proof {
            lemma_fib_grows((n - 1) as nat, n as nat);
            lemma_fib_grows((n - 2) as nat, n as nat);
        }
        fib(n - 1) + fib(n - 2)
    }
}

/// The `n`-th Fibonacci number, unless it is too large for the machine.
pub fn fib_checked(n: usize) -> (r: Option<usize>)
    ensures
        r is Some <==> fib_spec(n as nat) <= usize::MAX,
        r matches Some(value) ==> value == fib_spec(n as nat),
{
    if n < 2 {
        return Some(1);
    }
    let mut before: usize = 1;
    let mut last: usize = 1;
    let mut i: usize = 1;
    while i < n
        invariant
            1 <= i <= n,
            before == fib_spec((i - 1) as nat),
            last == fib_spec(i as nat),
        decreases n - i,
    {
        match last.checked_add(before) {
            Some(next) => {
                before = last;
                last = next;
            },
            None => {
                proof {
                    lemma_fib_grows((i + 1) as nat, n as nat);
                }
                return None;
            },
        }
        i += 1;
    }
    Some(last)
}

/// The arguments that a Fibonacci task on `n` forks into: `n - 1`, then
/// `n - 2`.
pub open spec fn fib_children(n: usize) -> Seq<usize> {
    seq![(n - 1) as usize, (n - 2) as usize]
}

fn fork_args(n: usize) -> (children: Vec<usize>)
    requires
        n >= 2,
    ensures
        children@ == fib_children(n),
        args_view(fib_views(), children@) == fib_children(n),
{
    let mut children: Vec<usize> = Vec::new();
    children.push(n - 1);
    children.push(n - 2);
    children
}

/// The split function of Fibonacci with a threshold: up to `FIB_LEAF` the
/// number is computed on the spot, above it the task forks into `n - 1` and
/// `n - 2`.
pub fn fib_task(n: usize) -> (res: TaskResult<usize, usize>)
    ensures
        n <= FIB_LEAF ==> res == TaskResult::<usize, usize>::Done(fib_spec(n as nat) as usize)
            && fib_spec(n as nat) <= usize::MAX,
        n > FIB_LEAF ==> (res matches TaskResult::Fork(children, context) && context is None
            && children@ == fib_children(n)),
        split_view(fib_views(), res) == fib_split(n),
{
    if n <= FIB_LEAF {
        proof {
            lemma_fib_bound(n as nat);
            lemma2_to64();
            if n < 20 {
                lemma_pow2_strictly_increases(n as nat, 20);
            }
        }
        TaskResult::Done(fib(n))
    } else {
        TaskResult::Fork(fork_args(n), None)
    }
}

/// The split function of Fibonacci without a threshold: only `0` and `1` are
/// leaves, every other argument forks into `n - 1` and `n - 2`.
pub fn fib_task_no_threshold(n: usize) -> (res: TaskResult<usize, usize>)
    ensures
        n < 2 ==> res == TaskResult::<usize, usize>::Done(1),
        n >= 2 ==> (res matches TaskResult::Fork(children, context) && context is None
            && children@ == fib_children(n)),
        split_view(fib_views(), res) == fib_split_no_threshold(n),
{
    if n < 2 {
        TaskResult::Done(1)
    } else {
        TaskResult::Fork(fork_args(n), None)
    }
}

/// The join function of Fibonacci: the sum of the children's numbers.
pub fn fib_join(values: &[usize]) -> (sum: usize)
    requires
        seq_sum(values@) <= usize::MAX,
    ensures
        sum == seq_sum(values@),
        sum == (fib_rules().join)(None, rets_view(fib_views(), values@)),
{
    assert(rets_view(fib_views(), values@) =~= values@);
    sum_values(values)
}

/// The inputs and outputs of Fibonacci tasks are numbers as they stand.
pub open spec fn fib_views() -> Views<usize, usize, usize, usize> {
    Views { arg: |n: usize| n, ret: |value: usize| value }
}

/// What `fib_task` returns for `n`.
pub open spec fn fib_split(n: usize) -> Split<usize, usize> {
    if n <= FIB_LEAF {
        Split::Done(fib_spec(n as nat) as usize)
    } else {
        Split::Fork(fib_children(n), None)
    }
}

/// What `fib_task_no_threshold` returns for `n`.
pub open spec fn fib_split_no_threshold(n: usize) -> Split<usize, usize> {
    if n < 2 {
        Split::Done(1)
    } else {
        Split::Fork(fib_children(n), None)
    }
}

/// Fibonacci with a threshold, as rules: `fib_task` and `fib_join`.
pub open spec fn fib_rules() -> Rules<usize, usize> {
    Rules {
        split: |n: usize| fib_split(n),
        join: |context: Option<usize>, values: Seq<usize>| seq_sum(values) as usize,
    }
}

/// Fibonacci without a threshold, as rules: `fib_task_no_threshold` and
/// `fib_join`.
pub open spec fn fib_rules_no_threshold() -> Rules<usize, usize> {
    Rules {
        split: |n: usize| fib_split_no_threshold(n),
        join: |context: Option<usize>, values: Seq<usize>| seq_sum(values) as usize,
    }
}

/// The fork-join job on `n` gives the `n`-th Fibonacci number, as the
/// sequential `fib` does: it ends after at most `n` forks, and the joins of
/// the outputs of `fib_task` add up to `fib_spec(n)`.
pub proof fn lemma_fib_job(n: usize, depth: nat)
    requires
        fib_spec(n as nat) <= usize::MAX,
        depth >= n,
    ensures
        finishes(fib_rules(), n, depth),
        output(fib_rules(), n, depth) == fib_spec(n as nat),
    decreases n,
{
    let rules = fib_rules();
    if n > FIB_LEAF {
        let children = fib_children(n);
        let below = (depth - 1) as nat;
        lemma_fib_grows((n - 1) as nat, n as nat);
        lemma_fib_grows((n - 2) as nat, n as nat);
        lemma_fib_job((n - 2) as usize, below);
        lemma_fib_job((n - 1) as usize, below);
        lemma_fib_joins(n as nat, outputs_of(rules, children, below));
    }
}

/// The job without a threshold gives the same number.
pub proof fn lemma_fib_job_no_threshold(n: usize, depth: nat)
    requires
        fib_spec(n as nat) <= usize::MAX,
        depth >= n,
    ensures
        finishes(fib_rules_no_threshold(), n, depth),
        output(fib_rules_no_threshold(), n, depth) == fib_spec(n as nat),
    decreases n,
{
    let rules = fib_rules_no_threshold();
    if n >= 2 {
        let children = fib_children(n);
        let below = (depth - 1) as nat;
        lemma_fib_grows((n - 1) as nat, n as nat);
        lemma_fib_grows((n - 2) as nat, n as nat);
        lemma_fib_job_no_threshold((n - 2) as usize, below);
        lemma_fib_job_no_threshold((n - 1) as usize, below);
        lemma_fib_joins(n as nat, outputs_of(rules, children, below));
    }
}

/// Runs the whole fork-join job on `n` on the calling thread: the split
/// function, then the jobs of the children in fork order, then the join. It
/// gives what the sequential `fib` gives, which is the result that a faithful
/// scheduler delivers for the job.
pub fn run_fib(n: usize) -> (r: usize)
    requires
        fib_spec(n as nat) <= usize::MAX,
    ensures
        r == fib_spec(n as nat),
        r == result(fib_rules(), n),
    decreases n,
{
    proof {
        lemma_fib_job(n, n as nat);
        lemma_result_is_output(fib_rules(), n, n as nat);
    }
    match fib_task(n) {
        TaskResult::Done(value) => value,
        TaskResult::Fork(children, _) => {
            proof {
                lemma_fib_grows((n - 1) as nat, n as nat);
                lemma_fib_grows((n - 2) as nat, n as nat);
            }
            let mut outputs: Vec<usize> = Vec::new();
            outputs.push(run_fib(children[0]));
            outputs.push(run_fib(children[1]));
            proof {
                lemma_fib_joins(n as nat, outputs@);
            }
            fib_join(outputs.as_slice())
        },
    }
}

/// Runs the whole fork-join job without a threshold on `n` on the calling
/// thread. It gives what the sequential `fib` gives.
pub fn run_fib_no_threshold(n: usize) -> (r: usize)
    requires
        fib_spec(n as nat) <= usize::MAX,
    ensures
        r == fib_spec(n as nat),
        r == result(fib_rules_no_threshold(), n),
    decreases n,
{
    proof {
        lemma_fib_job_no_threshold(n, n as nat);
        lemma_result_is_output(fib_rules_no_threshold(), n, n as nat);
    }
    match fib_task_no_threshold(n) {
        TaskResult::Done(value) => value,
        TaskResult::Fork(children, _) => {
            proof {
                lemma_fib_grows((n - 1) as nat, n as nat);
                lemma_fib_grows((n - 2) as nat, n as nat);
            }
            let mut outputs: Vec<usize> = Vec::new();
            outputs.push(run_fib_no_threshold(children[0]));
            outputs.push(run_fib_no_threshold(children[1]));
            proof {
                lemma_fib_joins(n as nat, outputs@);
            }
            fib_join(outputs.as_slice())
        },
    }
}

} // verus!
