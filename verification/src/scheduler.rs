use vstd::prelude::*;
use crate::task::{JoinStyle, TaskResult};

verus! {

/// Where a task stands.
#[derive(Debug, Clone, Copy, PartialEq, Eq, Structural)]
pub enum NodeState {
    /// Waiting in the queue for a worker.
    Queued,
    /// Handed to a worker that is running the split function on it.
    Running,
    /// Forked, and waiting for the outputs of its children.
    Forked,
    /// All children have reported, and a worker is running the join.
    Joining,
    /// The output has been passed on.
    Done,
}

/// The scheduling record of one task.
pub struct TaskNode<Arg, Ret> {
    /// The input of the task, kept for the proofs only.
    pub input: Ghost<Arg>,
    /// The task that forked this one, where its output goes into a join.
    pub parent: Option<usize>,
    /// The position of the task among the children of its parent.
    pub slot: usize,
    pub state: NodeState,
    /// How many children have not reported yet.
    pub outstanding: usize,
    /// The outputs received from the children, by the children's position.
    pub outputs: Vec<Option<Ret>>,
    /// The context captured when the task forked.
    pub context: Option<Ret>,
}

/// What the worker that reported an event has to do next.
#[derive(Debug, PartialEq, Eq)]
pub enum Action<Ret> {
    /// Nothing: go on with the queue.
    Continue,
    /// Run the join of task `node` on `outputs`, which are in fork order, and on
    /// `context`, then report its output with `joined`.
    Join { node: usize, context: Option<Ret>, outputs: Vec<Ret> },
    /// Hand `value` to the job's receiver. With `last` set no result follows.
    Deliver { value: Ret, last: bool },
    /// Tell the job's receiver that no result follows.
    Finished,
}

/// The number of positions of `s` that hold nothing.
pub open spec fn count_none<R>(s: Seq<Option<R>>) -> nat
    decreases s.len(),
{
    if s.len() == 0 {
        0
    } else {
        count_none(s.drop_last()) + if s.last() is None {
            1nat
        } else {
            0nat
        }
    }
}

/// The number of tasks among `nodes` that are not done.
pub open spec fn count_live<A, R>(nodes: Seq<TaskNode<A, R>>) -> nat
    decreases nodes.len(),
{
    if nodes.len() == 0 {
        0
    } else {
        count_live(nodes.drop_last()) + if nodes.last().state != NodeState::Done {
            1nat
        } else {
            0nat
        }
    }
}

/// The values of a sequence of which every position holds one.
pub open spec fn unwrapped<R>(s: Seq<Option<R>>) -> Seq<R> {
    Seq::new(s.len(), |i: int| s[i]->0)
}

/// Whether `n` is the record of a task on `input` that was just created as
/// child number `slot` of `parent`.
pub open spec fn is_fresh<A, R>(n: TaskNode<A, R>, input: A, parent: Option<usize>, slot: usize) -> bool {
    &&& n.input@ == input
    &&& n.parent == parent
    &&& n.slot == slot
    &&& n.state == NodeState::Queued
    &&& n.outstanding == 0
    &&& n.outputs@.len() == 0
    &&& n.context is None
}

/// Whether `after` is `before` with another state and nothing else changed.
pub open spec fn moved_to<A, R>(before: TaskNode<A, R>, after: TaskNode<A, R>, state: NodeState) -> bool {
    &&& after.input@ == before.input@
    &&& after.parent == before.parent
    &&& after.slot == before.slot
    &&& after.state == state
    &&& after.outstanding == before.outstanding
    &&& after.outputs@ == before.outputs@
    &&& after.context == before.context
}

/// Whether `after` is `before` turned into a task that waits for `n` children,
/// with `context` captured.
pub open spec fn forked_from<A, R>(before: TaskNode<A, R>, after: TaskNode<A, R>, n: nat, context: Option<R>) -> bool {
    &&& after.input@ == before.input@
    &&& after.parent == before.parent
    &&& after.slot == before.slot
    &&& after.state == NodeState::Forked
    &&& after.outstanding == n
    &&& after.outputs@ == Seq::new(n, |i: int| None::<R>)
    &&& after.context == context
}

/// Whether `after` is the waiting task `before` with `output` received at
/// position `slot`. Once the last child has reported, the task is joining and
/// has handed its outputs and context out.
pub open spec fn received<A, R>(before: TaskNode<A, R>, after: TaskNode<A, R>, slot: int, output: R) -> bool {
    &&& after.input@ == before.input@
    &&& after.parent == before.parent
    &&& after.slot == before.slot
    &&& if before.outstanding == 1 {
        &&& after.state == NodeState::Joining
        &&& after.outstanding == 0
        &&& after.outputs@.len() == 0
        &&& after.context is None
    } else {
        &&& after.state == NodeState::Forked
        &&& after.outstanding == before.outstanding - 1
        &&& after.outputs@ == before.outputs@.update(slot, Some(output))
        &&& after.context == before.context
    }
}

/// Whether all tasks but `id` and `other` are the same in `before` and `after`.
pub open spec fn same_but<A, R>(before: Seq<TaskNode<A, R>>, after: Seq<TaskNode<A, R>>, id: int, other: int) -> bool {
    &&& after.len() == before.len()
    &&& forall|i: int| 0 <= i < before.len() && i != id && i != other ==> after[i] == before[i]
}

/// The tasks that a fork of `parent` into `args` adds to the queue, when the
/// first child gets the identity `base`.
pub open spec fn forked_tasks<Arg>(base: int, args: Seq<Arg>) -> Seq<(usize, Arg)> {
    Seq::new(args.len(), |k: int| ((base + k) as usize, args[k]))
}

/// How the table of tasks `after` and the `action` follow from `before` when
/// task `id` produces `output`, by its split function or by its join.
///
/// Under `Search` the output is delivered at once, and it is the last one when
/// no task is left. Otherwise the output of the root is the job's one result,
/// and the output of any other task is stored at the task's position among its
/// parent's children; the child that reports last gets the join of the parent
/// to run, on all outputs in fork order.
pub open spec fn output_step<A, R>(
    style: JoinStyle,
    before: Seq<TaskNode<A, R>>,
    after: Seq<TaskNode<A, R>>,
    id: int,
    output: R,
    action: Action<R>,
) -> bool {
    &&& moved_to(before[id], after[id], NodeState::Done)
    &&& if style == JoinStyle::Search {
        &&& same_but(before, after, id, id)
        &&& action matches Action::Deliver { value, last }
        &&& value == output
        &&& last == (count_live(after) == 0)
    } else {
        match before[id].parent {
            None => {
                &&& same_but(before, after, id, id)
                &&& action matches Action::Deliver { value, last }
                &&& value == output
                &&& last
            },
            Some(p) => {
                &&& same_but(before, after, id, p as int)
                &&& received(before[p as int], after[p as int], before[id].slot as int, output)
                &&& if before[p as int].outstanding == 1 {
                    &&& action matches Action::Join { node, context, outputs }
                    &&& node == p
                    &&& context == before[p as int].context
                    &&& outputs@ == unwrapped(
                        before[p as int].outputs@.update(before[id].slot as int, Some(output)),
                    )
                } else {
                    action is Continue
                }
            },
        }
    }
}

/// Storing an output in an empty position leaves one position less empty.
pub proof fn lemma_count_none_filled<R>(s: Seq<Option<R>>, i: int, v: R)
    requires
        0 <= i < s.len(),
        s[i] is None,
    ensures
        count_none(s.update(i, Some(v))) == count_none(s) - 1,
    decreases s.len(),
{
    let t = s.update(i, Some(v));
    if i == s.len() - 1 {
        assert(t.drop_last() =~= s.drop_last());
    } else {
        lemma_count_none_filled(s.drop_last(), i, v);
        assert(t.drop_last() =~= s.drop_last().update(i, Some(v)));
    }
}

/// Where no position is empty, every position holds an output.
pub proof fn lemma_count_none_zero<R>(s: Seq<Option<R>>)
    requires
        count_none(s) == 0,
    ensures
        forall|i: int| 0 <= i < s.len() ==> s[i] is Some,
    decreases s.len(),
{
    if s.len() > 0 {
        lemma_count_none_zero(s.drop_last());
        assert forall|i: int| 0 <= i < s.len() implies s[i] is Some by {
            if i < s.len() - 1 {
                assert(s.drop_last()[i] == s[i]);
            }
        }
    }
}

/// Of `n` positions of which none holds an output, `n` are empty.
pub proof fn lemma_count_none_fresh<R>(n: nat)
    ensures
        count_none(Seq::new(n, |i: int| None::<R>)) == n,
    decreases n,
{
    if n > 0 {
        lemma_count_none_fresh::<R>((n - 1) as nat);
        assert(Seq::new(n, |i: int| None::<R>).drop_last() =~= Seq::new((n - 1) as nat, |i: int| None::<R>));
    }
}

proof fn lemma_count_live_bound<A, R>(nodes: Seq<TaskNode<A, R>>)
    ensures
        count_live(nodes) <= nodes.len(),
    decreases nodes.len(),
{
    if nodes.len() > 0 {
        lemma_count_live_bound(nodes.drop_last());
    }
}

proof fn lemma_count_live_update<A, R>(nodes: Seq<TaskNode<A, R>>, i: int, n: TaskNode<A, R>)
    requires
        0 <= i < nodes.len(),
    ensures
        count_live(nodes.update(i, n)) == count_live(nodes) - (if nodes[i].state != NodeState::Done {
            1int
        } else {
            0int
        }) + (if n.state != NodeState::Done {
            1int
        } else {
            0int
        }),
    decreases nodes.len(),
{
    let t = nodes.update(i, n);
    if i == nodes.len() - 1 {
        assert(t.drop_last() =~= nodes.drop_last());
    } else {
        lemma_count_live_update(nodes.drop_last(), i, n);
        assert(t.drop_last() =~= nodes.drop_last().update(i, n));
    }
}

proof fn lemma_count_live_push<A, R>(nodes: Seq<TaskNode<A, R>>, n: TaskNode<A, R>)
    ensures
        count_live(nodes.push(n)) == count_live(nodes) + (if n.state != NodeState::Done {
            1nat
        } else {
            0nat
        }),
{
    assert(nodes.push(n).drop_last() =~= nodes);
}

/// Where no task is live, every task is done.
pub proof fn lemma_count_live_zero<A, R>(nodes: Seq<TaskNode<A, R>>)
    requires
        count_live(nodes) == 0,
    ensures
        forall|i: int| 0 <= i < nodes.len() ==> nodes[i].state == NodeState::Done,
    decreases nodes.len(),
{
    if nodes.len() > 0 {
        lemma_count_live_zero(nodes.drop_last());
        assert forall|i: int| 0 <= i < nodes.len() implies nodes[i].state == NodeState::Done by {
            if i < nodes.len() - 1 {
                assert(nodes.drop_last()[i] == nodes[i]);
            }
        }
    }
}

/// Whether task `i` of `nodes` is consistent with its parent: while it is not
/// done its parent waits for it, and its position there is still empty.
pub open spec fn node_wf<A, R>(nodes: Seq<TaskNode<A, R>>, i: int) -> bool {
    let n = nodes[i];
    &&& n.state == NodeState::Forked ==> n.outstanding == count_none(n.outputs@)
    &&& (n.state != NodeState::Done && n.parent is Some) ==> {
        let p = n.parent->0 as int;
        &&& p < i
        &&& nodes[p].state == NodeState::Forked
        &&& n.slot < nodes[p].outputs@.len()
        &&& nodes[p].outputs@[n.slot as int] is None
    }
}

/// Whether the tasks `i` and `j` are children of one parent that both have yet
/// to report.
pub open spec fn pending_siblings<A, R>(nodes: Seq<TaskNode<A, R>>, i: int, j: int) -> bool {
    &&& nodes[i].parent is Some
    &&& nodes[i].parent == nodes[j].parent
    &&& nodes[i].state != NodeState::Done
    &&& nodes[j].state != NodeState::Done
}

/// Whether a table of tasks, a queue and a count of live tasks fit together.
pub open spec fn table_wf<Arg, Ret>(
    style: JoinStyle,
    nodes: Seq<TaskNode<Arg, Ret>>,
    queue: Seq<(usize, Arg)>,
    live: nat,
) -> bool {
    &&& nodes.len() >= 1
    &&& live == count_live(nodes)
    &&& forall|k: int|
        0 <= k < queue.len() ==> (#[trigger] queue[k]).0 < nodes.len() && nodes[queue[k].0 as int].state
            == NodeState::Queued
    &&& forall|j: int, k: int| 0 <= j < k < queue.len() ==> (#[trigger] queue[j]).0 != (#[trigger] queue[k]).0
    &&& forall|i: int| 0 <= i < nodes.len() ==> #[trigger] node_wf(nodes, i)
    &&& forall|i: int, j: int|
        0 <= i < j < nodes.len() && #[trigger] pending_siblings(nodes, i, j) ==> nodes[i].slot != nodes[j].slot
    &&& style == JoinStyle::Search ==> forall|i: int| 0 <= i < nodes.len() ==> (#[trigger] nodes[i]).parent is None
}

/// How the table of tasks `after`, the queue `queue` and the `action` follow
/// from `before` and `waiting` when the split function of task `id` forks into
/// `args`, with `context` for the join.
///
/// The children get the identities after the last one in use, in the order of
/// `args`, and join the queue in that order. Under `Search` the forking task is
/// done at once, and the job is finished when it leaves no task behind. Under
/// the other disciplines a fork into no children is joined at once, on no
/// outputs; any other fork waits for all its children.
pub open spec fn fork_step<Arg, Ret>(
    style: JoinStyle,
    before: Seq<TaskNode<Arg, Ret>>,
    waiting: Seq<(usize, Arg)>,
    after: Seq<TaskNode<Arg, Ret>>,
    queue: Seq<(usize, Arg)>,
    id: int,
    args: Seq<Arg>,
    context: Option<Ret>,
    action: Action<Ret>,
) -> bool {
    let n = args.len();
    let base = before.len();
    if style != JoinStyle::Search && n == 0 {
        &&& same_but(before, after, id, id)
        &&& moved_to(before[id], after[id], NodeState::Joining)
        &&& queue == waiting
        &&& action matches Action::Join { node, context: handed, outputs }
        &&& node == id
        &&& handed == context
        &&& outputs@.len() == 0
    } else {
        &&& after.len() == base + n
        &&& forall|i: int| 0 <= i < base && i != id ==> after[i] == before[i]
        &&& forall|k: int|
            0 <= k < n ==> is_fresh(
                #[trigger] after[base + k],
                args[k],
                if style == JoinStyle::Search {
                    None
                } else {
                    Some(id as usize)
                },
                k as usize,
            )
        &&& queue == waiting + forked_tasks(base as int, args)
        &&& if style == JoinStyle::Search {
            &&& moved_to(before[id], after[id], NodeState::Done)
            &&& if count_live(after) == 0 {
                action is Finished
            } else {
                action is Continue
            }
        } else {
            &&& forked_from(before[id], after[id], n, context)
            &&& action is Continue
        }
    }
}

/// Whether the values delivered so far fit the table of a job that joins: the
/// root is the one task without a parent, and its output is delivered once,
/// when it is done.
pub open spec fn log_wf<Arg, Ret>(style: JoinStyle, nodes: Seq<TaskNode<Arg, Ret>>, delivered: Seq<Ret>) -> bool {
    style != JoinStyle::Search ==> {
        &&& forall|i: int| 0 <= i < nodes.len() ==> ((#[trigger] nodes[i]).parent is None <==> i == 0)
        &&& delivered.len() == if nodes[0].state == NodeState::Done {
            1nat
        } else {
            0nat
        }
    }
}

/// The values delivered after `action`, where `delivered` were delivered
/// before it.
pub open spec fn delivered_after<Ret>(delivered: Seq<Ret>, action: Action<Ret>) -> Seq<Ret> {
    match action {
        Action::Deliver { value, last } => delivered.push(value),
        _ => delivered,
    }
}

/// The bookkeeping of one job: the table of its tasks and the queue of those
/// that wait for a worker.
///
/// The scheduler runs no split or join function itself. A worker takes a task
/// with `next_task`, runs the split function and reports what came back with
/// `complete`; where the answer is `Action::Join` it runs the join and reports
/// with `joined`. Each report says what to do next.
///
/// What is reported is up to the workers. Where they report what the split and
/// join functions of some `Rules` return, a job that joins delivers the result
/// that the rules give for its input, and a search delivers exactly what the
/// rules let it surface, in whatever order the workers take and finish the
/// tasks: see `faithful`, `harvesting` and the laws about them.
pub struct Scheduler<Arg, Ret> {
    style: JoinStyle,
    nodes: Vec<TaskNode<Arg, Ret>>,
    queue: Vec<(usize, Arg)>,
    live: usize,
    delivered: Ghost<Seq<Ret>>,
}

impl<Arg, Ret> Scheduler<Arg, Ret> {
    /// The join discipline of the job.
    pub closed spec fn style(&self) -> JoinStyle {
        self.style
    }

    /// The table of tasks, by identity.
    pub closed spec fn nodes(&self) -> Seq<TaskNode<Arg, Ret>> {
        self.nodes@
    }

    /// The tasks that wait for a worker, each with its identity and input, the
    /// one that waits longest first.
    pub closed spec fn queue(&self) -> Seq<(usize, Arg)> {
        self.queue@
    }

    /// The values that the scheduler has asked to deliver so far, in the order
    /// of the actions.
    pub closed spec fn delivered(&self) -> Seq<Ret> {
        self.delivered@
    }

    /// The count of the tasks that are not done, as the scheduler keeps it.
    pub closed spec fn live_count(&self) -> nat {
        self.live as nat
    }

    /// Whether the table, the queue, the count of live tasks and the values
    /// delivered fit together.
    pub open spec fn wf(&self) -> bool {
        &&& table_wf(self.style(), self.nodes(), self.queue(), self.live_count())
        &&& log_wf(self.style(), self.nodes(), self.delivered())
    }

    /// Whether `self` is as `new(style, root)` makes a scheduler.
    pub open spec fn starts(&self, style: JoinStyle, root: Arg) -> bool {
        &&& self.wf()
        &&& self.style() == style
        &&& self.nodes().len() == 1
        &&& is_fresh(self.nodes()[0], root, None, 0)
        &&& self.queue() == seq![(0usize, root)]
        &&& self.delivered().len() == 0
    }

    /// Whether `next` is what `next_task` makes of `self` when it returns
    /// `task`: the task that waited longest has left the queue and is running.
    pub open spec fn takes(&self, next: Self, task: Option<(usize, Arg)>) -> bool {
        &&& next.wf()
        &&& next.style() == self.style()
        &&& next.delivered() == self.delivered()
        &&& self.queue().len() == 0 ==> task is None && next.nodes() == self.nodes() && next.queue()
            == self.queue()
        &&& self.queue().len() > 0 ==> {
            let id = self.queue()[0].0 as int;
            &&& task == Some(self.queue()[0])
            &&& next.queue() == self.queue().drop_first()
            &&& same_but(self.nodes(), next.nodes(), id, id)
            &&& self.nodes()[id].state == NodeState::Queued
            &&& moved_to(self.nodes()[id], next.nodes()[id], NodeState::Running)
        }
    }

    /// Whether `next` and `action` are what `complete(id, report)` makes of
    /// `self`.
    pub open spec fn completes(&self, next: Self, id: usize, report: TaskResult<Arg, Ret>, action: Action<Ret>) -> bool {
        &&& next.wf()
        &&& next.style() == self.style()
        &&& next.delivered() == delivered_after(self.delivered(), action)
        &&& next.nodes().len() <= usize::MAX
        &&& match report {
            TaskResult::Done(output) => {
                &&& next.queue() == self.queue()
                &&& output_step(self.style(), self.nodes(), next.nodes(), id as int, output, action)
            },
            TaskResult::Fork(args, context) => fork_step(
                self.style(),
                self.nodes(),
                self.queue(),
                next.nodes(),
                next.queue(),
                id as int,
                args@,
                context,
                action,
            ),
        }
    }

    /// Whether `next` and `action` are what `joined(id, output)` makes of
    /// `self`.
    pub open spec fn joins(&self, next: Self, id: usize, output: Ret, action: Action<Ret>) -> bool {
        &&& next.wf()
        &&& next.style() == self.style()
        &&& next.delivered() == delivered_after(self.delivered(), action)
        &&& next.queue() == self.queue()
        &&& output_step(self.style(), self.nodes(), next.nodes(), id as int, output, action)
    }

    /// Starts the bookkeeping of a job with the root task on `root`.
    pub fn new(style: JoinStyle, root: Arg) -> (s: Self)
        ensures
            s.starts(style, root),
    {
        let mut nodes: Vec<TaskNode<Arg, Ret>> = Vec::new();
        nodes.push(
            TaskNode {
                input: Ghost(root),
                parent: None,
                slot: 0,
                state: NodeState::Queued,
                outstanding: 0,
                outputs: Vec::new(),
                context: None,
            },
        );
        let mut queue: Vec<(usize, Arg)> = Vec::new();
        queue.push((0, root));
        proof {
            assert(count_live(nodes@.drop_last()) == 0);
        }
        Scheduler { style, nodes, queue, live: 1, delivered: Ghost(Seq::empty()) }
    }

    /// The state of task `id`, if there is such a task.
    pub fn node_state(&self, id: usize) -> (state: Option<NodeState>)
        ensures
            id < self.nodes().len() ==> state == Some(self.nodes()[id as int].state),
            id >= self.nodes().len() ==> state is None,
    {
        if id < self.nodes.len() {
            Some(self.nodes[id].state)
        } else {
            None
        }
    }

    /// The number of tasks that are not done.
    pub fn live(&self) -> (n: usize)
        requires
            self.wf(),
        ensures
            n == count_live(self.nodes()),
    {
        self.live
    }

    /// Takes the task that waits longest off the queue, for a worker to run the
    /// split function on its input.
    pub fn next_task(&mut self) -> (task: Option<(usize, Arg)>)
        requires
            old(self).wf(),
        ensures
            old(self).takes(*final(self), task),
    {
        if self.queue.len() == 0 {
            return None;
        }
        let ghost before = self.nodes@;
        let task = self.queue.remove(0);
        let id: usize = task.0;
        let node = &mut self.nodes[id];
        node.state = NodeState::Running;
        proof {
            let after = self.nodes@;
            lemma_count_live_update(before, id as int, after[id as int]);
            assert forall|i: int| 0 <= i < after.len() implies #[trigger] node_wf(after, i) by {
                assert(node_wf(before, i));
            }
            assert forall|i: int, j: int|
                0 <= i < j < after.len() && #[trigger] pending_siblings(after, i, j) implies after[i].slot
                != after[j].slot by {
                assert(pending_siblings(before, i, j));
            }
            assert(self.style == JoinStyle::Search ==> forall|i: int|
                0 <= i < after.len() ==> (#[trigger] after[i]).parent is None);
        }
        Some(task)
    }

    /// Records that task `id` has produced `output` and passes it on.
    fn pass_on(&mut self, id: usize, output: Ret) -> (action: Action<Ret>)
        requires
            old(self).wf(),
            id < old(self).nodes().len(),
            old(self).nodes()[id as int].state == NodeState::Running || old(self).nodes()[id as int].state
                == NodeState::Joining,
        ensures
            final(self).wf(),
            final(self).style() == old(self).style(),
            final(self).queue() == old(self).queue(),
            final(self).delivered() == delivered_after(old(self).delivered(), action),
            output_step(old(self).style(), old(self).nodes(), final(self).nodes(), id as int, output, action),
    {
        let ghost before = self.nodes@;
        let ghost waiting = self.queue@;
        let search: bool = match self.style {
            JoinStyle::Search => true,
            _ => false,
        };
        proof {
            lemma_count_live_bound(before);
            assert(node_wf(before, id as int));
        }
        let node = &mut self.nodes[id];
        node.state = NodeState::Done;
        let parent: Option<usize> = node.parent;
        let slot: usize = node.slot;
        let ghost mid = self.nodes@;
        proof {
            lemma_count_live_update(before, id as int, mid[id as int]);
        }
        self.live = self.live - 1;
        if search || parent.is_none() {
            let last: bool = if search {
                self.live == 0
            } else {
                true
            };
            proof {
                self.lemma_done_keeps_wf(before, id as int);
                self.delivered@ = self.delivered@.push(output);
            }
            return Action::Deliver { value: output, last };
        }
        let p: usize = parent.unwrap();
        let ghost held = before[p as int].outputs@;
        let ghost filled = held.update(slot as int, Some(output));
        proof {
            assert(node_wf(before, p as int));
            lemma_count_none_filled(held, slot as int, output);
        }
        let pnode = &mut self.nodes[p];
        pnode.outputs[slot] = Some(output);
        pnode.outstanding = pnode.outstanding - 1;
        let action = if pnode.outstanding == 0 {
            pnode.state = NodeState::Joining;
            let context = pnode.context.take();
            let mut taken: Vec<Option<Ret>> = Vec::new();
            core::mem::swap(&mut pnode.outputs, &mut taken);
            proof {
                lemma_count_none_zero(filled);
            }
            let outputs = unwrap_all(taken);
            Action::Join { node: p, context, outputs }
        } else {
            Action::Continue
        };
        proof {
            let after = self.nodes@;
            lemma_count_live_update(mid, p as int, after[p as int]);
            if before[p as int].outstanding == 1 {
                lemma_count_none_zero(filled);
            }
            assert forall|i: int| 0 <= i < after.len() implies #[trigger] node_wf(after, i) by {
                assert(node_wf(before, i));
                if i != id && i != p {
                    if before[i].state != NodeState::Done && before[i].parent is Some {
                        let q = before[i].parent->0 as int;
                        if q == p {
                            if i < id {
                                assert(pending_siblings(before, i, id as int));
                            } else {
                                assert(pending_siblings(before, id as int, i));
                            }
                            assert(filled[before[i].slot as int] is None);
                        }
                    }
                }
            }
            assert forall|i: int, j: int|
                0 <= i < j < after.len() && #[trigger] pending_siblings(after, i, j) implies after[i].slot
                != after[j].slot by {
                assert(pending_siblings(before, i, j));
            }
        }
        action
    }

    /// Marking a task done that has no join to report to keeps the table
    /// consistent.
    proof fn lemma_done_keeps_wf(&self, before: Seq<TaskNode<Arg, Ret>>, id: int)
        requires
            0 <= id < before.len(),
            before[id].state == NodeState::Running || before[id].state == NodeState::Joining,
            self.nodes@.len() == before.len(),
            forall|i: int| 0 <= i < before.len() && i != id ==> self.nodes@[i] == before[i],
            self.nodes@[id].parent == before[id].parent,
            self.nodes@[id].state == NodeState::Done,
            table_wf(self.style, before, self.queue@, count_live(before)),
            self.live == count_live(self.nodes@),
        ensures
            table_wf(self.style, self.nodes@, self.queue@, self.live as nat),
    {
        let after = self.nodes@;
        let queue = self.queue@;
        assert forall|i: int| 0 <= i < after.len() implies #[trigger] node_wf(after, i) by {
            assert(node_wf(before, i));
        }
        assert forall|i: int, j: int|
            0 <= i < j < after.len() && #[trigger] pending_siblings(after, i, j) implies after[i].slot
            != after[j].slot by {
            assert(pending_siblings(before, i, j));
        }
        if self.style == JoinStyle::Search {
            assert forall|i: int| 0 <= i < after.len() implies (#[trigger] after[i]).parent is None by {
                assert(before[i].parent is None);
            }
        }
    }

    /// Records that task `id` forks into `args`.
    fn fork(&mut self, id: usize, args: Vec<Arg>, context: Option<Ret>) -> (action: Action<Ret>)
        requires
            old(self).wf(),
            id < old(self).nodes().len(),
            old(self).nodes()[id as int].state == NodeState::Running,
        ensures
            final(self).wf(),
            final(self).style() == old(self).style(),
            final(self).delivered() == delivered_after(old(self).delivered(), action),
            fork_step(
                old(self).style(),
                old(self).nodes(),
                old(self).queue(),
                final(self).nodes(),
                final(self).queue(),
                id as int,
                args@,
                context,
                action,
            ),
    {
        let ghost before = self.nodes@;
        let ghost waiting = self.queue@;
        let ghost inputs = args@;
        let search: bool = match self.style {
            JoinStyle::Search => true,
            _ => false,
        };
        let n: usize = args.len();
        let base: usize = self.nodes.len();
        proof {
            lemma_count_live_bound(before);
        }
        if !search && n == 0 {
            let node = &mut self.nodes[id];
            node.state = NodeState::Joining;
            proof {
                let after = self.nodes@;
                lemma_count_live_update(before, id as int, after[id as int]);
                self.lemma_state_change_keeps_wf(before, id as int);
            }
            return Action::Join { node: id, context, outputs: Vec::new() };
        }
        let link: Option<usize> = if search {
            None
        } else {
            Some(id)
        };
        if search {
            let node = &mut self.nodes[id];
            node.state = NodeState::Done;
            proof {
                let after = self.nodes@;
                lemma_count_live_update(before, id as int, after[id as int]);
            }
            self.live = self.live - 1;
            proof {
                self.lemma_state_change_keeps_wf(before, id as int);
            }
        } else {
            let slots: Vec<Option<Ret>> = empty_slots(n);
            let node = &mut self.nodes[id];
            node.state = NodeState::Forked;
            node.outstanding = n;
            node.outputs = slots;
            node.context = context;
            proof {
                let after = self.nodes@;
                lemma_count_live_update(before, id as int, after[id as int]);
                lemma_count_none_fresh::<Ret>(n as nat);
                self.lemma_state_change_keeps_wf(before, id as int);
            }
        }
        let ghost mid = self.nodes@;
        proof {
            assert forall|i: int| 0 <= i < base && mid[i].parent == Some(id) implies mid[i].state
                == NodeState::Done by {
                assert(node_wf(before, i));
            }
        }
        for arg in it: args
            invariant
                it.seq() == inputs,
                inputs.len() == n,
                id < base,
                base == mid.len(),
                self.style == old(self).style,
                self.delivered@ == old(self).delivered@,
                search == (self.style == JoinStyle::Search),
                link == (if search {
                    None
                } else {
                    Some(id)
                }),
                table_wf(self.style, self.nodes@, self.queue@, self.live as nat),
                self.nodes@.len() == base + it.index(),
                forall|i: int| 0 <= i < base ==> self.nodes@[i] == mid[i],
                forall|k: int|
                    0 <= k < it.index() ==> is_fresh(#[trigger] self.nodes@[base + k], inputs[k], link, k as usize),
                self.queue@ == waiting + forked_tasks(base as int, inputs).take(it.index() as int),
                forall|i: int| 0 <= i < base && mid[i].parent == Some(id) ==> mid[i].state == NodeState::Done,
                !search ==> mid[id as int].state == NodeState::Forked && mid[id as int].outputs@ == Seq::new(
                    n as nat,
                    |i: int| None::<Ret>,
                ),
        {
            let ghost k = it.index() as int;
            let ghost nodes_before = self.nodes@;
            let child: usize = self.nodes.len();
            self.nodes.push(
                TaskNode {
                    input: Ghost(arg),
                    parent: link,
                    slot: child - base,
                    state: NodeState::Queued,
                    outstanding: 0,
                    outputs: Vec::new(),
                    context: None,
                },
            );
            self.queue.push((child, arg));
            let total: usize = self.nodes.len();
            proof {
                lemma_count_live_push(nodes_before, self.nodes@[child as int]);
                lemma_count_live_bound(self.nodes@);
            }
            self.live = self.live + 1;
            proof {
                let nodes = self.nodes@;
                let queue = self.queue@;
                assert(forked_tasks(base as int, inputs).take(k + 1) =~= forked_tasks(base as int, inputs).take(
                    k,
                ).push((child, arg)));
                assert forall|i: int| 0 <= i < nodes.len() implies #[trigger] node_wf(nodes, i) by {
                    if i < child {
                        assert(node_wf(nodes_before, i));
                    }
                }
                assert forall|i: int, j: int|
                    0 <= i < j < nodes.len() && #[trigger] pending_siblings(nodes, i, j) implies nodes[i].slot
                    != nodes[j].slot by {
                    if j < child {
                        assert(pending_siblings(nodes_before, i, j));
                    } else {
                        if i < base {
                            assert(nodes[i] == mid[i]);
                        } else {
                            assert(is_fresh(nodes[base + (i - base)], inputs[i - base], link, (i - base) as usize));
                        }
                    }
                }
            }
        }
        proof {
            let after = self.nodes@;
            assert(forked_tasks(base as int, inputs).take(n as int) =~= forked_tasks(base as int, inputs));
            assert forall|i: int| 0 <= i < base && i != id implies after[i] == before[i] by {
                assert(after[i] == mid[i]);
            }
            if !search {
                assert forall|i: int| 0 <= i < after.len() implies ((#[trigger] after[i]).parent is None <==> i
                    == 0) by {
                    if i >= base {
                        assert(is_fresh(after[base + (i - base)], inputs[i - base], link, (i - base) as usize));
                    }
                }
            }
        }
        if search && self.live == 0 {
            Action::Finished
        } else {
            Action::Continue
        }
    }

    /// Changing the state of a running task, and nothing that another task
    /// depends on, keeps the table consistent.
    proof fn lemma_state_change_keeps_wf(&self, before: Seq<TaskNode<Arg, Ret>>, id: int)
        requires
            0 <= id < before.len(),
            before[id].state == NodeState::Running,
            self.nodes@.len() == before.len(),
            forall|i: int| 0 <= i < before.len() && i != id ==> self.nodes@[i] == before[i],
            self.nodes@[id].parent == before[id].parent,
            self.nodes@[id].slot == before[id].slot,
            self.nodes@[id].state != NodeState::Queued,
            self.nodes@[id].state == NodeState::Forked ==> self.nodes@[id].outstanding == count_none(
                self.nodes@[id].outputs@,
            ),
            table_wf(self.style, before, self.queue@, count_live(before)),
            self.live == count_live(self.nodes@),
        ensures
            table_wf(self.style, self.nodes@, self.queue@, self.live as nat),
    {
        let after = self.nodes@;
        let queue = self.queue@;
        assert forall|i: int| 0 <= i < after.len() implies #[trigger] node_wf(after, i) by {
            assert(node_wf(before, i));
        }
        assert forall|i: int, j: int|
            0 <= i < j < after.len() && #[trigger] pending_siblings(after, i, j) implies after[i].slot
            != after[j].slot by {
            assert(pending_siblings(before, i, j));
        }
        if self.style == JoinStyle::Search {
            assert forall|i: int| 0 <= i < after.len() implies (#[trigger] after[i]).parent is None by {
                assert(before[i].parent is None);
            }
        }
    }

    /// Reports what the split function returned for task `id`.
    ///
    /// An output is passed on as `output_step` says; a fork creates the
    /// children and queues them as `fork_step` says.
    pub fn complete(&mut self, id: usize, report: TaskResult<Arg, Ret>) -> (action: Action<Ret>)
        requires
            old(self).wf(),
            id < old(self).nodes().len(),
            old(self).nodes()[id as int].state == NodeState::Running,
        ensures
            old(self).completes(*final(self), id, report, action),
    {
        let action = match report {
            TaskResult::Done(output) => self.pass_on(id, output),
            TaskResult::Fork(args, context) => self.fork(id, args, context),
        };
        let total: usize = self.nodes.len();
        action
    }

    /// Reports the output of the join of task `id`. It is passed on as if the
    /// task's own split function had produced it.
    pub fn joined(&mut self, id: usize, output: Ret) -> (action: Action<Ret>)
        requires
            old(self).wf(),
            id < old(self).nodes().len(),
            old(self).nodes()[id as int].state == NodeState::Joining,
        ensures
            old(self).joins(*final(self), id, output, action),
    {
        self.pass_on(id, output)
    }

}

/// Takes the outputs out of positions that all hold one.
fn unwrap_all<R>(v: Vec<Option<R>>) -> (res: Vec<R>)
    requires
        forall|i: int| 0 <= i < v@.len() ==> v@[i] is Some,
    ensures
        res@ == unwrapped(v@),
{
    let mut res: Vec<R> = Vec::new();
    let ghost all = v@;
    for x in it: v
        invariant
            res@.len() == it.index(),
            it.seq() == all,
            forall|i: int| 0 <= i < all.len() ==> all[i] is Some,
            forall|i: int| 0 <= i < it.index() ==> res@[i] == all[i]->0,
    {
        res.push(x.unwrap());
    }
    res
}

/// `n` positions that hold nothing.
fn empty_slots<R>(n: usize) -> (res: Vec<Option<R>>)
    ensures
        res@ == Seq::new(n as nat, |i: int| None::<R>),
{
    let mut res: Vec<Option<R>> = Vec::new();
    let mut k: usize = 0;
    while k < n
        invariant
            k <= n,
            res@.len() == k,
            forall|i: int| 0 <= i < k ==> res@[i] is None,
        decreases n - k,
    {
        res.push(None);
        k += 1;
    }
    res
}

} // verus!
