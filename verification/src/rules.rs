use vstd::prelude::*;
use crate::task::TaskResult;

verus! {

/// What a split function hands back, as a value of mathematics.
pub enum Split<A, R> {
    /// The task is a leaf with this output.
    Done(R),
    /// The task forks into these children, with this context for the join.
    Fork(Seq<A>, Option<R>),
}

/// An algorithm as mathematics: what its split function returns for an input,
/// and what its join returns for a context and the outputs of the children.
#[verifier::reject_recursive_types(A)]
#[verifier::reject_recursive_types(R)]
pub struct Rules<A, R> {
    pub split: spec_fn(A) -> Split<A, R>,
    pub join: spec_fn(Option<R>, Seq<R>) -> R,
}

/// Whether every task below the one on `arg` is a leaf after at most `depth`
/// forks.
pub open spec fn finishes<A, R>(rules: Rules<A, R>, arg: A, depth: nat) -> bool
    decreases depth,
{
    match (rules.split)(arg) {
        Split::Done(_) => true,
        Split::Fork(args, _) => depth > 0 && forall|i: int|
            0 <= i < args.len() ==> finishes(rules, #[trigger] args[i], (depth - 1) as nat),
    }
}

/// The output of the job on `arg` under a discipline that joins: the output of
/// a leaf is what its split function returned, the output of a fork is the
/// join of the outputs of its children, taken in fork order. `depth` bounds the
/// number of forks below one another.
pub open spec fn output<A, R>(rules: Rules<A, R>, arg: A, depth: nat) -> R
    decreases depth, 0nat,
{
    match (rules.split)(arg) {
        Split::Done(r) => r,
        Split::Fork(args, context) => (rules.join)(
            context,
            if depth > 0 {
                outputs_of(rules, args, (depth - 1) as nat)
            } else {
                Seq::empty()
            },
        ),
    }
}

/// The outputs of the jobs on `args`, in the order of `args`.
pub open spec fn outputs_of<A, R>(rules: Rules<A, R>, args: Seq<A>, depth: nat) -> Seq<R>
    decreases depth, 1nat,
{
    Seq::new(args.len(), |i: int| output(rules, args[i], depth))
}

/// The output of a job does not depend on how far it is followed, once that is
/// far enough for it to end.
pub proof fn lemma_output_stable<A, R>(rules: Rules<A, R>, arg: A, shallow: nat, deep: nat)
    requires
        finishes(rules, arg, shallow),
        shallow <= deep,
    ensures
        finishes(rules, arg, deep),
        output(rules, arg, deep) == output(rules, arg, shallow),
    decreases shallow,
{
    match (rules.split)(arg) {
        Split::Done(_) => {},
        Split::Fork(args, _) => {
            let s = (shallow - 1) as nat;
            let d = (deep - 1) as nat;
            assert forall|i: int| 0 <= i < args.len() implies finishes(rules, #[trigger] args[i], d)
                && outputs_of(rules, args, d)[i] == outputs_of(rules, args, s)[i] by {
                lemma_output_stable(rules, args[i], s, d);
            }
            assert(outputs_of(rules, args, d) =~= outputs_of(rules, args, s));
        },
    }
}

/// Whether the job on `arg` ends: below some depth all its tasks are leaves.
pub open spec fn ends<A, R>(rules: Rules<A, R>, arg: A) -> bool {
    exists|depth: nat| finishes(rules, arg, depth)
}

/// The output of the job on `arg`, where it ends.
pub open spec fn result<A, R>(rules: Rules<A, R>, arg: A) -> R {
    output(rules, arg, choose|depth: nat| finishes(rules, arg, depth))
}

/// The results of the jobs on `args`, in the order of `args`.
pub open spec fn results_of<A, R>(rules: Rules<A, R>, args: Seq<A>) -> Seq<R> {
    Seq::new(args.len(), |i: int| result(rules, args[i]))
}

/// The result of a job is its output at any depth at which it ends.
pub proof fn lemma_result_is_output<A, R>(rules: Rules<A, R>, arg: A, depth: nat)
    requires
        finishes(rules, arg, depth),
    ensures
        ends(rules, arg),
        result(rules, arg) == output(rules, arg, depth),
{
    let chosen = choose|d: nat| finishes(rules, arg, d);
    if chosen <= depth {
        lemma_output_stable(rules, arg, chosen, depth);
    } else {
        lemma_output_stable(rules, arg, depth, chosen);
    }
}

/// The result of a leaf is what its split function returned.
pub proof fn lemma_result_of_leaf<A, R>(rules: Rules<A, R>, arg: A)
    requires
        (rules.split)(arg) is Done,
    ensures
        ends(rules, arg),
        result(rules, arg) == (rules.split)(arg)->Done_0,
{
    lemma_result_is_output(rules, arg, 0);
}

/// The result of a fork is the join of the results of its children, in fork
/// order, and the jobs on the children end where the job on the fork ends.
pub proof fn lemma_result_of_fork<A, R>(rules: Rules<A, R>, arg: A)
    requires
        ends(rules, arg),
        (rules.split)(arg) is Fork,
    ensures
        forall|i: int|
            0 <= i < (rules.split)(arg)->Fork_0.len() ==> ends(rules, #[trigger] (rules.split)(arg)->Fork_0[i]),
        result(rules, arg) == (rules.join)(
            (rules.split)(arg)->Fork_1,
            results_of(rules, (rules.split)(arg)->Fork_0),
        ),
{
    let depth = choose|d: nat| finishes(rules, arg, d);
    let args = (rules.split)(arg)->Fork_0;
    let below = (depth - 1) as nat;
    assert forall|i: int| 0 <= i < args.len() implies ends(rules, #[trigger] args[i]) && outputs_of(
        rules,
        args,
        below,
    )[i] == results_of(rules, args)[i] by {
        lemma_result_is_output(rules, args[i], below);
    }
    assert(outputs_of(rules, args, below) =~= results_of(rules, args));
}

/// The outputs that a search on `arg` surfaces, by the position of the leaves
/// in the fork tree.
pub open spec fn surfaced<A, R>(rules: Rules<A, R>, arg: A, depth: nat) -> Seq<R>
    decreases depth, 0nat,
{
    match (rules.split)(arg) {
        Split::Done(r) => seq![r],
        Split::Fork(args, _) => if depth > 0 {
            surfaced_below(rules, args, (depth - 1) as nat, args.len())
        } else {
            Seq::empty()
        },
    }
}

/// The outputs that the searches on the first `k` of `args` surface.
pub open spec fn surfaced_below<A, R>(rules: Rules<A, R>, args: Seq<A>, depth: nat, k: nat) -> Seq<R>
    decreases depth, 1nat, k,
{
    if k == 0 || k > args.len() {
        Seq::empty()
    } else {
        surfaced_below(rules, args, depth, (k - 1) as nat) + surfaced(rules, args[k - 1], depth)
    }
}

proof fn lemma_surfaced_stable<A, R>(rules: Rules<A, R>, arg: A, shallow: nat, deep: nat)
    requires
        finishes(rules, arg, shallow),
        shallow <= deep,
    ensures
        surfaced(rules, arg, deep) == surfaced(rules, arg, shallow),
    decreases shallow, 0nat, 0nat,
{
    match (rules.split)(arg) {
        Split::Done(_) => {},
        Split::Fork(args, _) => {
            lemma_surfaced_below_stable(rules, args, (shallow - 1) as nat, (deep - 1) as nat, args.len());
        },
    }
}

proof fn lemma_surfaced_below_stable<A, R>(rules: Rules<A, R>, args: Seq<A>, shallow: nat, deep: nat, k: nat)
    requires
        forall|i: int| 0 <= i < args.len() ==> finishes(rules, #[trigger] args[i], shallow),
        shallow <= deep,
        k <= args.len(),
    ensures
        surfaced_below(rules, args, deep, k) == surfaced_below(rules, args, shallow, k),
    decreases shallow, 1nat, k,
{
    if k > 0 {
        lemma_surfaced_below_stable(rules, args, shallow, deep, (k - 1) as nat);
        lemma_surfaced_stable(rules, args[k - 1], shallow, deep);
    }
}

/// All that the search on `arg` surfaces, where it ends, by the position of
/// the leaves in the fork tree.
pub open spec fn harvest<A, R>(rules: Rules<A, R>, arg: A) -> Seq<R> {
    surfaced(rules, arg, choose|depth: nat| finishes(rules, arg, depth))
}

/// The harvests of the searches on the first `k` of `args`, one after the
/// other.
pub open spec fn harvest_below<A, R>(rules: Rules<A, R>, args: Seq<A>, k: nat) -> Seq<R>
    decreases k,
{
    if k == 0 || k > args.len() {
        Seq::empty()
    } else {
        harvest_below(rules, args, (k - 1) as nat) + harvest(rules, args[k - 1])
    }
}

/// The harvest of a search is what it surfaces at any depth at which it ends.
pub proof fn lemma_harvest_is_surfaced<A, R>(rules: Rules<A, R>, arg: A, depth: nat)
    requires
        finishes(rules, arg, depth),
    ensures
        harvest(rules, arg) == surfaced(rules, arg, depth),
{
    let chosen = choose|d: nat| finishes(rules, arg, d);
    if chosen <= depth {
        lemma_surfaced_stable(rules, arg, chosen, depth);
    } else {
        lemma_surfaced_stable(rules, arg, depth, chosen);
    }
}

/// The harvest of a leaf is its own output.
pub proof fn lemma_harvest_of_leaf<A, R>(rules: Rules<A, R>, arg: A)
    requires
        (rules.split)(arg) is Done,
    ensures
        harvest(rules, arg) == seq![(rules.split)(arg)->Done_0],
{
    lemma_harvest_is_surfaced(rules, arg, 0);
}

/// The harvest of a fork is the harvests of its children, in fork order.
pub proof fn lemma_harvest_of_fork<A, R>(rules: Rules<A, R>, arg: A)
    requires
        ends(rules, arg),
        (rules.split)(arg) is Fork,
    ensures
        harvest(rules, arg) == harvest_below(
            rules,
            (rules.split)(arg)->Fork_0,
            (rules.split)(arg)->Fork_0.len(),
        ),
{
    let depth = choose|d: nat| finishes(rules, arg, d);
    let args = (rules.split)(arg)->Fork_0;
    lemma_harvest_below_is_surfaced(rules, args, (depth - 1) as nat, args.len());
}

proof fn lemma_harvest_below_is_surfaced<A, R>(rules: Rules<A, R>, args: Seq<A>, depth: nat, k: nat)
    requires
        forall|i: int| 0 <= i < args.len() ==> finishes(rules, #[trigger] args[i], depth),
        k <= args.len(),
    ensures
        harvest_below(rules, args, k) == surfaced_below(rules, args, depth, k),
    decreases k,
{
    if k > 0 {
        lemma_harvest_below_is_surfaced(rules, args, depth, (k - 1) as nat);
        lemma_harvest_is_surfaced(rules, args[k - 1], depth);
    }
}

/// How the values that the workers hold are read as values of mathematics:
/// the inputs of tasks by `arg`, their outputs and contexts by `ret`.
#[verifier::reject_recursive_types(Arg)]
#[verifier::reject_recursive_types(Ret)]
#[verifier::reject_recursive_types(A)]
#[verifier::reject_recursive_types(R)]
pub struct Views<Arg, Ret, A, R> {
    pub arg: spec_fn(Arg) -> A,
    pub ret: spec_fn(Ret) -> R,
}

/// The outputs `outputs` as values of mathematics.
pub open spec fn rets_view<Arg, Ret, A, R>(views: Views<Arg, Ret, A, R>, outputs: Seq<Ret>) -> Seq<R> {
    Seq::new(outputs.len(), |i: int| (views.ret)(outputs[i]))
}

/// The inputs `args` as values of mathematics.
pub open spec fn args_view<Arg, Ret, A, R>(views: Views<Arg, Ret, A, R>, args: Seq<Arg>) -> Seq<A> {
    Seq::new(args.len(), |i: int| (views.arg)(args[i]))
}

/// The context `context` as a value of mathematics.
pub open spec fn context_view<Arg, Ret, A, R>(views: Views<Arg, Ret, A, R>, context: Option<Ret>) -> Option<R> {
    match context {
        Some(value) => Some((views.ret)(value)),
        None => None,
    }
}

/// What a split function handed back, as a value of mathematics.
pub open spec fn split_view<Arg, Ret, A, R>(views: Views<Arg, Ret, A, R>, res: TaskResult<Arg, Ret>) -> Split<A, R> {
    match res {
        TaskResult::Done(output) => Split::Done((views.ret)(output)),
        TaskResult::Fork(args, context) => Split::Fork(args_view(views, args@), context_view(views, context)),
    }
}

} // verus!
