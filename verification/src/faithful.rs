use vstd::prelude::*;
use vstd::multiset::Multiset;
use vstd::seq_lib::lemma_multiset_commutative;
use crate::rules::{
    args_view, context_view, ends, harvest, harvest_below, lemma_harvest_of_fork, lemma_harvest_of_leaf,
    lemma_result_of_fork, lemma_result_of_leaf, result, results_of, rets_view, split_view, Rules, Split, Views,
};
use crate::scheduler::{
    count_live, delivered_after, fork_step, forked_tasks, is_fresh, lemma_count_live_zero,
    lemma_count_none_filled, lemma_count_none_zero, node_wf, output_step, table_wf, unwrapped, Action, NodeState,
    Scheduler, TaskNode,
};
use crate::task::{JoinStyle, TaskResult};

verus! {

/// Whether task `i` of `nodes` holds what `rules` say of its input: the job
/// on its input ends, it is the child of its parent that its position says, and
/// every output that it has received is the result of the child at that
/// position.
pub open spec fn node_faithful<Arg, Ret, A, R>(
    rules: Rules<A, R>,
    views: Views<Arg, Ret, A, R>,
    nodes: Seq<TaskNode<Arg, Ret>>,
    i: int,
) -> bool {
    let n = nodes[i];
    let input = (views.arg)(n.input@);
    &&& ends(rules, input)
    &&& match n.parent {
        None => i == 0,
        Some(p) => {
            let forked = (rules.split)((views.arg)(nodes[p as int].input@));
            &&& p < i
            &&& forked is Fork
            &&& n.slot < forked->Fork_0.len()
            &&& input == forked->Fork_0[n.slot as int]
        },
    }
    &&& n.state == NodeState::Forked ==> {
        let forked = (rules.split)(input);
        &&& forked is Fork
        &&& n.outputs@.len() == forked->Fork_0.len()
        &&& context_view(views, n.context) == forked->Fork_1
        &&& forall|k: int|
            0 <= k < n.outputs@.len() && (#[trigger] n.outputs@[k]) is Some ==> (views.ret)(n.outputs@[k]->0)
                == result(rules, forked->Fork_0[k])
    }
}

/// Whether a table of tasks and a queue hold what `rules` say: every task is
/// faithful, and every queued task waits with its own input.
pub open spec fn table_faithful<Arg, Ret, A, R>(
    rules: Rules<A, R>,
    views: Views<Arg, Ret, A, R>,
    nodes: Seq<TaskNode<Arg, Ret>>,
    queue: Seq<(usize, Arg)>,
) -> bool {
    &&& forall|i: int| 0 <= i < nodes.len() ==> #[trigger] node_faithful(rules, views, nodes, i)
    &&& forall|k: int|
        0 <= k < queue.len() && (#[trigger] queue[k]).0 < nodes.len() ==> queue[k].1 == nodes[queue[k].0 as int].input@
}

/// Whether `action` asks for what `rules` say: a delivered value is the result
/// of the job, and a join is handed what makes its output the result of the
/// task that it is run for.
pub open spec fn truthful<Arg, Ret, A, R>(
    rules: Rules<A, R>,
    views: Views<Arg, Ret, A, R>,
    nodes: Seq<TaskNode<Arg, Ret>>,
    action: Action<Ret>,
) -> bool {
    match action {
        Action::Deliver { value, last } => (views.ret)(value) == result(rules, (views.arg)(nodes[0].input@)),
        Action::Join { node, context, outputs } => node < nodes.len() && (rules.join)(
            context_view(views, context),
            rets_view(views, outputs@),
        ) == result(rules, (views.arg)(nodes[node as int].input@)),
        _ => true,
    }
}

/// Passing on the result of a task keeps a faithful table faithful, and asks
/// for nothing but what the rules say.
pub proof fn lemma_output_step_faithful<Arg, Ret, A, R>(
    rules: Rules<A, R>,
    views: Views<Arg, Ret, A, R>,
    style: JoinStyle,
    before: Seq<TaskNode<Arg, Ret>>,
    after: Seq<TaskNode<Arg, Ret>>,
    queue: Seq<(usize, Arg)>,
    id: int,
    output: Ret,
    action: Action<Ret>,
)
    requires
        style != JoinStyle::Search,
        table_wf(style, before, queue, count_live(before)),
        table_faithful(rules, views, before, queue),
        0 <= id < before.len(),
        before[id].state == NodeState::Running || before[id].state == NodeState::Joining,
        (views.ret)(output) == result(rules, (views.arg)(before[id].input@)),
        output_step(style, before, after, id, output, action),
    ensures
        table_faithful(rules, views, after, queue),
        truthful(rules, views, after, action),
{
    assert(node_wf(before, id));
    assert(node_faithful(rules, views, before, id));
    match before[id].parent {
        None => {
            assert forall|i: int| 0 <= i < after.len() implies #[trigger] node_faithful(rules, views, after, i) by {
                assert(node_faithful(rules, views, before, i));
                if before[i].parent is Some {
                    let p = before[i].parent->0 as int;
                    assert(after[p].input@ == before[p].input@);
                }
            }
        },
        Some(parent) => {
            let p = parent as int;
            let slot = before[id].slot as int;
            let held = before[p].outputs@;
            let filled = held.update(slot, Some(output));
            let forked = (rules.split)((views.arg)(before[p].input@));
            let args = forked->Fork_0;
            assert(node_wf(before, p));
            assert(node_faithful(rules, views, before, p));
            lemma_count_none_filled(held, slot, output);
            if before[p].outstanding == 1 {
                lemma_count_none_zero(filled);
                lemma_result_of_fork(rules, (views.arg)(before[p].input@));
                assert(rets_view(views, unwrapped(filled)) =~= results_of(rules, args));
            }
            assert forall|i: int| 0 <= i < after.len() implies #[trigger] node_faithful(rules, views, after, i) by {
                assert(node_faithful(rules, views, before, i));
            }
        },
    }
}

/// Recording a fork keeps a faithful table faithful, and asks for nothing but
/// what the rules say.
pub proof fn lemma_fork_step_faithful<Arg, Ret, A, R>(
    rules: Rules<A, R>,
    views: Views<Arg, Ret, A, R>,
    style: JoinStyle,
    before: Seq<TaskNode<Arg, Ret>>,
    waiting: Seq<(usize, Arg)>,
    after: Seq<TaskNode<Arg, Ret>>,
    queue: Seq<(usize, Arg)>,
    id: int,
    args: Seq<Arg>,
    context: Option<Ret>,
    action: Action<Ret>,
)
    requires
        style != JoinStyle::Search,
        after.len() <= usize::MAX,
        table_wf(style, before, waiting, count_live(before)),
        table_faithful(rules, views, before, waiting),
        0 <= id < before.len(),
        before[id].state == NodeState::Running,
        (rules.split)((views.arg)(before[id].input@)) == Split::Fork(
            args_view(views, args),
            context_view(views, context),
        ),
        fork_step(style, before, waiting, after, queue, id, args, context, action),
    ensures
        table_faithful(rules, views, after, queue),
        truthful(rules, views, after, action),
{
    let base = before.len() as int;
    let children = args_view(views, args);
    assert(node_faithful(rules, views, before, id));
    lemma_result_of_fork(rules, (views.arg)(before[id].input@));
    if args.len() == 0 {
        assert(results_of(rules, children) =~= Seq::empty());
        assert(rets_view(views, action->Join_outputs@) =~= Seq::empty());
        assert forall|i: int| 0 <= i < after.len() implies #[trigger] node_faithful(rules, views, after, i) by {
            assert(node_faithful(rules, views, before, i));
        }
    } else {
        assert forall|i: int| 0 <= i < after.len() implies #[trigger] node_faithful(rules, views, after, i) by {
            if i < base {
                assert(node_faithful(rules, views, before, i));
            } else {
                let k = i - base;
                assert(is_fresh(after[base + k], args[k], Some(id as usize), k as usize));
                assert(children[k] == (views.arg)(args[k]));
            }
        }
    }
}

/// What the tasks among the first `k` of `nodes` that are not done have yet
/// to surface, in any order.
pub open spec fn pending<Arg, Ret, A, R>(
    rules: Rules<A, R>,
    views: Views<Arg, Ret, A, R>,
    nodes: Seq<TaskNode<Arg, Ret>>,
    k: nat,
) -> Multiset<R>
    decreases k,
{
    if k == 0 || k > nodes.len() {
        Multiset::empty()
    } else {
        let rest = pending(rules, views, nodes, (k - 1) as nat);
        if nodes[k - 1].state != NodeState::Done {
            rest.add(harvest(rules, (views.arg)(nodes[k - 1].input@)).to_multiset())
        } else {
            rest
        }
    }
}

/// Whether a table of tasks, a queue and the values delivered hold what
/// `rules` say of a search that ends: what was delivered and what the tasks
/// have yet to surface is, taken together, the harvest of the root.
pub open spec fn table_harvesting<Arg, Ret, A, R>(
    rules: Rules<A, R>,
    views: Views<Arg, Ret, A, R>,
    nodes: Seq<TaskNode<Arg, Ret>>,
    queue: Seq<(usize, Arg)>,
    delivered: Seq<Ret>,
) -> bool {
    &&& forall|i: int| 0 <= i < nodes.len() ==> ends(rules, (views.arg)((#[trigger] nodes[i]).input@))
    &&& forall|k: int|
        0 <= k < queue.len() && (#[trigger] queue[k]).0 < nodes.len() ==> queue[k].1 == nodes[queue[k].0 as int].input@
    &&& rets_view(views, delivered).to_multiset().add(pending(rules, views, nodes, nodes.len())) == harvest(
        rules,
        (views.arg)(nodes[0].input@),
    ).to_multiset()
}

/// Tasks with the same inputs, of which the same are done, have the same yet
/// to surface.
pub proof fn lemma_pending_same<Arg, Ret, A, R>(
    rules: Rules<A, R>,
    views: Views<Arg, Ret, A, R>,
    before: Seq<TaskNode<Arg, Ret>>,
    after: Seq<TaskNode<Arg, Ret>>,
    k: nat,
)
    requires
        k <= before.len() <= after.len(),
        forall|i: int|
            0 <= i < k ==> (#[trigger] after[i]).input@ == before[i].input@ && (after[i].state == NodeState::Done)
                == (before[i].state == NodeState::Done),
    ensures
        pending(rules, views, after, k) == pending(rules, views, before, k),
    decreases k,
{
    if k > 0 {
        lemma_pending_same(rules, views, before, after, (k - 1) as nat);
    }
}

/// A task that gets done takes what it had yet to surface out of what is yet
/// to surface.
pub proof fn lemma_pending_done<Arg, Ret, A, R>(
    rules: Rules<A, R>,
    views: Views<Arg, Ret, A, R>,
    before: Seq<TaskNode<Arg, Ret>>,
    after: Seq<TaskNode<Arg, Ret>>,
    id: int,
    k: nat,
)
    requires
        k <= before.len() <= after.len(),
        0 <= id < before.len(),
        before[id].state != NodeState::Done,
        after[id].state == NodeState::Done,
        forall|i: int| 0 <= i < k ==> (#[trigger] after[i]).input@ == before[i].input@,
        forall|i: int|
            0 <= i < k && i != id ==> ((#[trigger] after[i]).state == NodeState::Done) == (before[i].state
                == NodeState::Done),
    ensures
        pending(rules, views, before, k) == if id < k {
            pending(rules, views, after, k).add(harvest(rules, (views.arg)(before[id].input@)).to_multiset())
        } else {
            pending(rules, views, after, k)
        },
    decreases k,
{
    broadcast use {
        vstd::multiset::group_multiset_properties,
        vstd::multiset::group_multiset_axioms,
    };
    if k > 0 {
        lemma_pending_done(rules, views, before, after, id, (k - 1) as nat);
    }
}

/// Where no task is live, nothing is yet to surface.
pub proof fn lemma_pending_of_done<Arg, Ret, A, R>(
    rules: Rules<A, R>,
    views: Views<Arg, Ret, A, R>,
    nodes: Seq<TaskNode<Arg, Ret>>,
    k: nat,
)
    requires
        k <= nodes.len(),
        count_live(nodes) == 0,
    ensures
        pending(rules, views, nodes, k) == Multiset::<R>::empty(),
    decreases k,
{
    lemma_count_live_zero(nodes);
    if k > 0 {
        lemma_pending_of_done(rules, views, nodes, (k - 1) as nat);
    }
}

proof fn lemma_pending_of_children<Arg, Ret, A, R>(
    rules: Rules<A, R>,
    views: Views<Arg, Ret, A, R>,
    nodes: Seq<TaskNode<Arg, Ret>>,
    base: nat,
    args: Seq<Arg>,
    j: nat,
)
    requires
        j <= args.len(),
        nodes.len() == base + args.len(),
        forall|k: int| 0 <= k < args.len() ==> is_fresh(#[trigger] nodes[base + k], args[k], None, k as usize),
    ensures
        pending(rules, views, nodes, base + j) == pending(rules, views, nodes, base).add(
            harvest_below(rules, args_view(views, args), j).to_multiset(),
        ),
    decreases j,
{
    broadcast use {
        vstd::multiset::group_multiset_properties,
        vstd::multiset::group_multiset_axioms,
    };
    let children = args_view(views, args);
    if j > 0 {
        lemma_pending_of_children(rules, views, nodes, base, args, (j - 1) as nat);
        let earlier = harvest_below(rules, children, (j - 1) as nat);
        let last = harvest(rules, children[j - 1]);
        lemma_multiset_commutative(earlier, last);
        let start = pending(rules, views, nodes, base);
        assert(start.add(earlier.to_multiset()).add(last.to_multiset()) =~= start.add(
            earlier.to_multiset().add(last.to_multiset()),
        ));
    } else {
        Seq::<R>::empty().to_multiset_ensures();
    }
}

/// Surfacing the output of a leaf keeps the account of a search: what the leaf
/// had yet to surface is now delivered.
pub proof fn lemma_output_step_harvesting<Arg, Ret, A, R>(
    rules: Rules<A, R>,
    views: Views<Arg, Ret, A, R>,
    before: Seq<TaskNode<Arg, Ret>>,
    after: Seq<TaskNode<Arg, Ret>>,
    queue: Seq<(usize, Arg)>,
    delivered: Seq<Ret>,
    id: int,
    output: Ret,
    action: Action<Ret>,
)
    requires
        before.len() >= 1,
        table_harvesting(rules, views, before, queue, delivered),
        0 <= id < before.len(),
        before[id].state == NodeState::Running,
        (rules.split)((views.arg)(before[id].input@)) == Split::<A, R>::Done((views.ret)(output)),
        output_step(JoinStyle::Search, before, after, id, output, action),
    ensures
        table_harvesting(rules, views, after, queue, delivered_after(delivered, action)),
{
    broadcast use {
        vstd::multiset::group_multiset_properties,
        vstd::multiset::group_multiset_axioms,
    };
    let len = before.len();
    let mine = harvest(rules, (views.arg)(before[id].input@));
    let value = (views.ret)(output);
    let log = rets_view(views, delivered);
    lemma_harvest_of_leaf(rules, (views.arg)(before[id].input@));
    lemma_pending_done(rules, views, before, after, id, len);
    assert(rets_view(views, delivered.push(output)) =~= log.push(value));
    log.to_multiset_ensures();
    Seq::<R>::empty().to_multiset_ensures();
    let rest = pending(rules, views, after, len);
    assert(log.push(value).to_multiset().add(rest) =~= log.to_multiset().add(rest.add(mine.to_multiset())));
}

/// Recording a fork keeps the account of a search: what the fork had yet to
/// surface, its children have yet to surface.
pub proof fn lemma_fork_step_harvesting<Arg, Ret, A, R>(
    rules: Rules<A, R>,
    views: Views<Arg, Ret, A, R>,
    before: Seq<TaskNode<Arg, Ret>>,
    waiting: Seq<(usize, Arg)>,
    after: Seq<TaskNode<Arg, Ret>>,
    queue: Seq<(usize, Arg)>,
    delivered: Seq<Ret>,
    id: int,
    args: Seq<Arg>,
    context: Option<Ret>,
    action: Action<Ret>,
)
    requires
        after.len() <= usize::MAX,
        table_wf(JoinStyle::Search, before, waiting, count_live(before)),
        table_harvesting(rules, views, before, waiting, delivered),
        0 <= id < before.len(),
        before[id].state == NodeState::Running,
        (rules.split)((views.arg)(before[id].input@)) == Split::Fork(
            args_view(views, args),
            context_view(views, context),
        ),
        fork_step(JoinStyle::Search, before, waiting, after, queue, id, args, context, action),
    ensures
        table_harvesting(rules, views, after, queue, delivered_after(delivered, action)),
{
    broadcast use {
        vstd::multiset::group_multiset_properties,
        vstd::multiset::group_multiset_axioms,
    };
    let base = before.len();
    let forking = (views.arg)(before[id].input@);
    let children = args_view(views, args);
    lemma_result_of_fork(rules, forking);
    lemma_harvest_of_fork(rules, forking);
    assert forall|i: int| 0 <= i < after.len() implies ends(rules, (views.arg)((#[trigger] after[i]).input@)) by {
        if i >= base {
            let k = i - base;
            assert(is_fresh(after[base + k], args[k], None, k as usize));
            assert(children[k] == (views.arg)(args[k]));
        }
    }
    lemma_pending_done(rules, views, before, after, id, base);
    lemma_pending_of_children(rules, views, after, base, args, args.len());
}

/// The outputs that a waiting task holds after its children have reported in
/// the order `order`, where child `i` reports `values[i]`.
pub open spec fn reported<R>(slots: Seq<Option<R>>, order: Seq<int>, values: Seq<R>) -> Seq<Option<R>>
    decreases order.len(),
{
    if order.len() == 0 {
        slots
    } else {
        let held = reported(slots, order.drop_last(), values);
        let i = order.last();
        if 0 <= i < held.len() && i < values.len() {
            held.update(i, Some(values[i]))
        } else {
            held
        }
    }
}

proof fn lemma_reported_holds<R>(slots: Seq<Option<R>>, order: Seq<int>, values: Seq<R>, i: int)
    requires
        slots.len() == values.len(),
        0 <= i < values.len(),
    ensures
        reported(slots, order, values).len() == slots.len(),
        order.contains(i) ==> reported(slots, order, values)[i] == Some(values[i]),
        !order.contains(i) ==> reported(slots, order, values)[i] == slots[i],
    decreases order.len(),
{
    if order.len() > 0 {
        let rest = order.drop_last();
        lemma_reported_holds(slots, rest, values, i);
        if order.last() != i && order.contains(i) {
            let k = choose|k: int| 0 <= k < order.len() && order[k] == i;
            assert(rest[k] == i);
        }
    }
}

/// The join sees the outputs in fork order, whatever the order in which the
/// children finish: once every child has reported, the outputs held are the
/// children's outputs by the children's position.
pub proof fn lemma_outputs_in_fork_order<R>(order: Seq<int>, values: Seq<R>)
    requires
        forall|i: int| 0 <= i < values.len() ==> order.contains(i),
    ensures
        unwrapped(reported(Seq::new(values.len(), |i: int| None::<R>), order, values)) == values,
{
    let slots = Seq::new(values.len(), |i: int| None::<R>);
    let held = reported(slots, order, values);
    if values.len() == 0 {
        lemma_reported_len(slots, order, values);
    }
    assert forall|i: int| 0 <= i < values.len() implies held.len() == values.len() && held[i] == Some(values[i])
    by {
        lemma_reported_holds(slots, order, values, i);
    }
    lemma_reported_len(slots, order, values);
}

proof fn lemma_reported_len<R>(slots: Seq<Option<R>>, order: Seq<int>, values: Seq<R>)
    ensures
        reported(slots, order, values).len() == slots.len(),
    decreases order.len(),
{
    if order.len() > 0 {
        lemma_reported_len(slots, order.drop_last(), values);
    }
}

impl<Arg, Ret> Scheduler<Arg, Ret> {
    /// Whether the job joins, and all that the scheduler holds and has
    /// delivered is what `rules` say of the inputs of the tasks, read through
    /// `views`.
    pub open spec fn faithful<A, R>(&self, rules: Rules<A, R>, views: Views<Arg, Ret, A, R>) -> bool {
        &&& self.style() != JoinStyle::Search
        &&& table_faithful(rules, views, self.nodes(), self.queue())
        &&& forall|k: int|
            0 <= k < self.delivered().len() ==> (views.ret)(#[trigger] self.delivered()[k]) == result(
                rules,
                (views.arg)(self.nodes()[0].input@),
            )
    }

    /// Whether the job is a search that ends, and what it has delivered and
    /// what its tasks have yet to surface is, taken together, what `rules` let
    /// the search on the root surface.
    pub open spec fn harvesting<A, R>(&self, rules: Rules<A, R>, views: Views<Arg, Ret, A, R>) -> bool {
        self.style() == JoinStyle::Search && table_harvesting(
            rules,
            views,
            self.nodes(),
            self.queue(),
            self.delivered(),
        )
    }

    /// A scheduler starts faithful to any rules under which the job on its
    /// root ends.
    pub proof fn lemma_start_is_faithful<A, R>(
        &self,
        style: JoinStyle,
        root: Arg,
        rules: Rules<A, R>,
        views: Views<Arg, Ret, A, R>,
    )
        requires
            self.starts(style, root),
            style != JoinStyle::Search,
            ends(rules, (views.arg)(root)),
        ensures
            self.faithful(rules, views),
    {
    }

    /// Taking a task keeps a faithful scheduler faithful, and the task comes
    /// with the input that the scheduler holds for it.
    pub proof fn lemma_take_keeps_faithful<A, R>(
        &self,
        next: Self,
        task: Option<(usize, Arg)>,
        rules: Rules<A, R>,
        views: Views<Arg, Ret, A, R>,
    )
        requires
            self.wf(),
            self.faithful(rules, views),
            self.takes(next, task),
        ensures
            next.faithful(rules, views),
            task matches Some(taken) ==> taken.0 < next.nodes().len() && next.nodes()[taken.0 as int].state
                == NodeState::Running && taken.1 == next.nodes()[taken.0 as int].input@,
    {
        let before = self.nodes();
        let after = next.nodes();
        let waiting = self.queue();
        if waiting.len() > 0 {
            assert forall|i: int| 0 <= i < after.len() implies #[trigger] node_faithful(rules, views, after, i) by {
                assert(node_faithful(rules, views, before, i));
            }
        }
    }

    /// Where the workers report what the split function of the rules returns,
    /// a faithful scheduler stays faithful, and what it asks for is truthful:
    /// a value that it delivers is the result of the job, and a join that it
    /// asks for gives the result of the task that forked.
    pub proof fn lemma_complete_keeps_faithful<A, R>(
        &self,
        next: Self,
        id: usize,
        report: TaskResult<Arg, Ret>,
        action: Action<Ret>,
        rules: Rules<A, R>,
        views: Views<Arg, Ret, A, R>,
    )
        requires
            self.wf(),
            id < self.nodes().len(),
            self.nodes()[id as int].state == NodeState::Running,
            self.faithful(rules, views),
            split_view(views, report) == (rules.split)((views.arg)(self.nodes()[id as int].input@)),
            self.completes(next, id, report, action),
        ensures
            next.faithful(rules, views),
            truthful(rules, views, next.nodes(), action),
    {
        match report {
            TaskResult::Done(output) => {
                lemma_result_of_leaf(rules, (views.arg)(self.nodes()[id as int].input@));
                lemma_output_step_faithful(
                    rules,
                    views,
                    self.style(),
                    self.nodes(),
                    next.nodes(),
                    next.queue(),
                    id as int,
                    output,
                    action,
                );
            },
            TaskResult::Fork(args, context) => {
                lemma_fork_step_faithful(
                    rules,
                    views,
                    self.style(),
                    self.nodes(),
                    self.queue(),
                    next.nodes(),
                    next.queue(),
                    id as int,
                    args@,
                    context,
                    action,
                );
            },
        }
    }

    /// Where the workers report what the join of the rules returns, a faithful
    /// scheduler stays faithful, and what it asks for next is truthful.
    pub proof fn lemma_join_keeps_faithful<A, R>(
        &self,
        next: Self,
        id: usize,
        output: Ret,
        action: Action<Ret>,
        rules: Rules<A, R>,
        views: Views<Arg, Ret, A, R>,
    )
        requires
            self.wf(),
            id < self.nodes().len(),
            self.nodes()[id as int].state == NodeState::Joining,
            self.faithful(rules, views),
            (views.ret)(output) == result(rules, (views.arg)(self.nodes()[id as int].input@)),
            self.joins(next, id, output, action),
        ensures
            next.faithful(rules, views),
            truthful(rules, views, next.nodes(), action),
    {
        lemma_output_step_faithful(
            rules,
            views,
            self.style(),
            self.nodes(),
            next.nodes(),
            next.queue(),
            id as int,
            output,
            action,
        );
    }

    /// A job that joins delivers once, when its root is done, and where the
    /// scheduler is faithful, what it delivers is the result of the job.
    pub proof fn lemma_job_delivers_result<A, R>(&self, rules: Rules<A, R>, views: Views<Arg, Ret, A, R>)
        requires
            self.wf(),
            self.faithful(rules, views),
        ensures
            self.delivered().len() == if self.nodes()[0].state == NodeState::Done {
                1nat
            } else {
                0nat
            },
            self.nodes()[0].state == NodeState::Done ==> (views.ret)(self.delivered()[0]) == result(
                rules,
                (views.arg)(self.nodes()[0].input@),
            ),
    {
    }

    /// Two jobs on the same input deliver the same result, whatever the
    /// order in which their tasks were taken and finished: where both
    /// schedulers are faithful to the rules and both roots are done, each has
    /// delivered once, and the two values stand for the same result.
    pub proof fn lemma_jobs_agree<A, R>(&self, other: Self, rules: Rules<A, R>, views: Views<Arg, Ret, A, R>)
        requires
            self.wf(),
            other.wf(),
            self.faithful(rules, views),
            other.faithful(rules, views),
            (views.arg)(self.nodes()[0].input@) == (views.arg)(other.nodes()[0].input@),
            self.nodes()[0].state == NodeState::Done,
            other.nodes()[0].state == NodeState::Done,
        ensures
            self.delivered().len() == 1,
            other.delivered().len() == 1,
            (views.ret)(self.delivered()[0]) == (views.ret)(other.delivered()[0]),
    {
        self.lemma_job_delivers_result(rules, views);
        other.lemma_job_delivers_result(rules, views);
    }

    /// A search starts with all of its harvest yet to surface, under any rules
    /// under which the search on its root ends.
    pub proof fn lemma_start_is_harvesting<A, R>(
        &self,
        root: Arg,
        rules: Rules<A, R>,
        views: Views<Arg, Ret, A, R>,
    )
        requires
            self.starts(JoinStyle::Search, root),
            ends(rules, (views.arg)(root)),
        ensures
            self.harvesting(rules, views),
    {
        broadcast use {
            vstd::multiset::group_multiset_properties,
            vstd::multiset::group_multiset_axioms,
        };
        let nodes = self.nodes();
        let log = rets_view(views, self.delivered());
        log.to_multiset_ensures();
        assert(pending(rules, views, nodes, 0) =~= vstd::multiset::Multiset::<R>::empty());
        assert(log.to_multiset().add(pending(rules, views, nodes, 1)) =~= harvest(
            rules,
            (views.arg)(root),
        ).to_multiset());
    }

    /// Taking a task keeps the account of a search, and the task comes with
    /// the input that the scheduler holds for it.
    pub proof fn lemma_take_keeps_harvesting<A, R>(
        &self,
        next: Self,
        task: Option<(usize, Arg)>,
        rules: Rules<A, R>,
        views: Views<Arg, Ret, A, R>,
    )
        requires
            self.wf(),
            self.harvesting(rules, views),
            self.takes(next, task),
        ensures
            next.harvesting(rules, views),
            task matches Some(taken) ==> taken.0 < next.nodes().len() && next.nodes()[taken.0 as int].state
                == NodeState::Running && taken.1 == next.nodes()[taken.0 as int].input@,
    {
        let before = self.nodes();
        let after = next.nodes();
        let waiting = self.queue();
        if waiting.len() > 0 {
            lemma_pending_same(rules, views, before, after, before.len());
        }
    }

    /// Where the workers report what the split function of the rules returns,
    /// the account of a search is kept: nothing that the rules let the search
    /// surface is lost, and nothing is delivered twice.
    pub proof fn lemma_complete_keeps_harvesting<A, R>(
        &self,
        next: Self,
        id: usize,
        report: TaskResult<Arg, Ret>,
        action: Action<Ret>,
        rules: Rules<A, R>,
        views: Views<Arg, Ret, A, R>,
    )
        requires
            self.wf(),
            id < self.nodes().len(),
            self.nodes()[id as int].state == NodeState::Running,
            self.harvesting(rules, views),
            split_view(views, report) == (rules.split)((views.arg)(self.nodes()[id as int].input@)),
            self.completes(next, id, report, action),
        ensures
            next.harvesting(rules, views),
    {
        match report {
            TaskResult::Done(output) => {
                lemma_output_step_harvesting(
                    rules,
                    views,
                    self.nodes(),
                    next.nodes(),
                    next.queue(),
                    self.delivered(),
                    id as int,
                    output,
                    action,
                );
            },
            TaskResult::Fork(args, context) => {
                lemma_fork_step_harvesting(
                    rules,
                    views,
                    self.nodes(),
                    self.queue(),
                    next.nodes(),
                    next.queue(),
                    self.delivered(),
                    id as int,
                    args@,
                    context,
                    action,
                );
            },
        }
    }

    /// Whatever a search has delivered, the rules let the search on the root
    /// surface.
    pub proof fn lemma_search_is_sound<A, R>(&self, rules: Rules<A, R>, views: Views<Arg, Ret, A, R>, k: int)
        requires
            self.wf(),
            self.harvesting(rules, views),
            0 <= k < self.delivered().len(),
        ensures
            harvest(rules, (views.arg)(self.nodes()[0].input@)).contains((views.ret)(self.delivered()[k])),
    {
        broadcast use {
            vstd::multiset::group_multiset_properties,
            vstd::multiset::group_multiset_axioms,
        };
        let log = rets_view(views, self.delivered());
        let all = harvest(rules, (views.arg)(self.nodes()[0].input@));
        let value = (views.ret)(self.delivered()[k]);
        log.to_multiset_ensures();
        all.to_multiset_ensures();
        assert(log[k] == value);
        assert(all.to_multiset().count(value) > 0);
    }

    /// Once no task of a search is live, the values delivered are exactly what
    /// the rules let the search on the root surface, each as often as there,
    /// in whatever order the workers took and finished the tasks.
    pub proof fn lemma_search_is_complete<A, R>(&self, rules: Rules<A, R>, views: Views<Arg, Ret, A, R>)
        requires
            self.wf(),
            self.harvesting(rules, views),
            count_live(self.nodes()) == 0,
        ensures
            rets_view(views, self.delivered()).to_multiset() == harvest(
                rules,
                (views.arg)(self.nodes()[0].input@),
            ).to_multiset(),
    {
        broadcast use {
            vstd::multiset::group_multiset_properties,
            vstd::multiset::group_multiset_axioms,
        };
        let nodes = self.nodes();
        lemma_pending_of_done(rules, views, nodes, nodes.len());
    }
}

} // verus!
