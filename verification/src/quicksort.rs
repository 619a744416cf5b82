use vstd::prelude::*;
use vstd::seq_lib::*;
use crate::sortutils::{is_permutation, is_sorted};
use crate::task::{TaskResult, SubView};

verus! {

/// Below this many elements a sort task sorts its view itself instead of
/// forking.
pub const SORT_LEAF_LEN: usize = 1000;

/// The middle one of three values.
pub open spec fn median3(a: usize, b: usize, c: usize) -> usize {
    if a <= b {
        if b <= c {
            b
        } else if a <= c {
            c
        } else {
            a
        }
    } else {
        if a <= c {
            a
        } else if b <= c {
            c
        } else {
            b
        }
    }
}

/// The index that `pick_pivot` chooses in `s`: of the first, the middle and the
/// last index, the first one that holds the median of the three values.
pub open spec fn pivot_index(s: Seq<usize>) -> int {
    if s.len() < 3 {
        0
    } else {
        let mid = (s.len() / 2) as int;
        let m = median3(s[0], s[mid], s.last());
        if s[0] == m {
            0
        } else if s[mid] == m {
            mid
        } else {
            s.len() - 1
        }
    }
}

/// Whether `s` is split around index `p`: nothing before `p` is greater than
/// `s[p]`, and everything after it is greater.
pub open spec fn partitioned_at(s: Seq<usize>, p: int) -> bool {
    &&& 0 <= p < s.len()
    &&& forall|i: int| 0 <= i < p ==> s[i] <= s[p]
    &&& forall|i: int| p < i < s.len() ==> s[p] < s[i]
}

fn median_of(a: usize, b: usize, c: usize) -> (m: usize)
    ensures
        m == median3(a, b, c),
{
    if a <= b {
        if b <= c {
            b
        } else if a <= c {
            c
        } else {
            a
        }
    } else {
        if a <= c {
            a
        } else if b <= c {
            c
        } else {
            b
        }
    }
}

/// Picks the pivot by median of three.
pub fn pick_pivot(d: &[usize]) -> (p: usize)
    ensures
        p == pivot_index(d@),
        d@.len() > 0 ==> p < d@.len(),
{
    let len: usize = d.len();
    if len < 3 {
        0
    } else {
        let mid: usize = len / 2;
        let m: usize = median_of(d[0], d[mid], d[len - 1]);
        if d[0] == m {
            0
        } else if d[mid] == m {
            mid
        } else {
            len - 1
        }
    }
}

fn swap_at(d: &mut [usize], i: usize, j: usize)
    requires
        i < old(d)@.len(),
        j < old(d)@.len(),
    ensures
        final(d)@ == old(d)@.update(i as int, old(d)@[j as int]).update(j as int, old(d)@[i as int]),
        is_permutation(final(d)@, old(d)@),
{
    let t: usize = d[i];
    d[i] = d[j];
    d[j] = t;
    proof {
        lemma_swap_permutes(old(d)@, i as int, j as int);
    }
}

proof fn lemma_swap_permutes(s: Seq<usize>, i: int, j: int)
    requires
        0 <= i < s.len(),
        0 <= j < s.len(),
    ensures
        s.update(i, s[j]).update(j, s[i]).to_multiset() == s.to_multiset(),
{
    broadcast use {
        vstd::multiset::group_multiset_properties,
        vstd::multiset::group_multiset_axioms,
    };
    let s1 = s.update(i, s[j]);
    to_multiset_update(s, i, s[j]);
    to_multiset_update(s1, j, s[i]);
    s.to_multiset_ensures();
}

/// Splits `d` around a pivot and returns the pivot's final index.
///
/// The pivot is the value that `pick_pivot` chooses. The elements are
/// rearranged in place: everything left of the returned index is at most the
/// pivot, everything right of it is greater than the pivot.
pub fn partition(d: &mut [usize]) -> (p: usize)
    requires
        old(d)@.len() > 0,
    ensures
        final(d)@.len() == old(d)@.len(),
        is_permutation(final(d)@, old(d)@),
        partitioned_at(final(d)@, p as int),
        final(d)@[p as int] == old(d)@[pivot_index(old(d)@)],
{
    let last: usize = d.len() - 1;
    let pi: usize = pick_pivot(d);
    let pv: usize = d[pi];
    swap_at(d, pi, last);
    let mut store: usize = 0;
    let mut i: usize = 0;
    while i < last
        invariant
            d@.len() == old(d)@.len(),
            last == d@.len() - 1,
            store <= i <= last,
            d@[last as int] == pv,
            is_permutation(d@, old(d)@),
            forall|k: int| 0 <= k < store ==> d@[k] <= pv,
            forall|k: int| store <= k < i ==> d@[k] > pv,
        decreases last - i,
    {
        if d[i] <= pv {
            swap_at(d, i, store);
            store += 1;
        }
        i += 1;
    }
    if d[store] > pv {
        swap_at(d, store, last);
        store
    } else {
        last
    }
}

/// If the parts left and right of a pivot are each sorted in place, the whole
/// is sorted.
///
/// `before` is split around index `p`; `low` and `high` are sorted
/// rearrangements of what stood before and after `p`.
pub proof fn lemma_sorted_around_pivot(before: Seq<usize>, p: int, low: Seq<usize>, high: Seq<usize>)
    requires
        partitioned_at(before, p),
        is_sorted(low),
        is_sorted(high),
        is_permutation(low, before.subrange(0, p)),
        is_permutation(high, before.subrange(p + 1, before.len() as int)),
    ensures
        is_sorted(low + seq![before[p]] + high),
        is_permutation(low + seq![before[p]] + high, before),
        (low + seq![before[p]] + high).len() == before.len(),
{
    broadcast use {
        vstd::multiset::group_multiset_properties,
        vstd::multiset::group_multiset_axioms,
    };
    let old_low = before.subrange(0, p);
    let old_high = before.subrange(p + 1, before.len() as int);
    let mid = seq![before[p]];
    let after = low + mid + high;
    low.to_multiset_ensures();
    high.to_multiset_ensures();
    old_low.to_multiset_ensures();
    old_high.to_multiset_ensures();
    assert forall|i: int| 0 <= i < low.len() implies low[i] <= before[p] by {
        assert(low.to_multiset().count(low[i]) > 0);
    }
    assert forall|i: int| 0 <= i < high.len() implies before[p] <= high[i] by {
        assert(high.to_multiset().count(high[i]) > 0);
    }
    assert forall|i: int, j: int| 0 <= i <= j < after.len() implies after[i] <= after[j] by {
        if i < p {
            assert(after[i] == low[i]);
        } else if i > p {
            assert(after[i] == high[i - p - 1]);
        }
        if j < p {
            assert(after[j] == low[j]);
        } else if j > p {
            assert(after[j] == high[j - p - 1]);
        }
    }
    lemma_multiset_commutative(low + mid, high);
    lemma_multiset_commutative(low, mid);
    lemma_multiset_commutative(old_low + mid, old_high);
    lemma_multiset_commutative(old_low, mid);
    assert(before =~= old_low + mid + old_high);
}

/// Sorts `d` in place.
pub fn quicksort_seq(d: &mut [usize])
    ensures
        final(d)@.len() == old(d)@.len(),
        is_sorted(final(d)@),
        is_permutation(final(d)@, old(d)@),
    decreases old(d)@.len(),
{
    if d.len() > 1 {
        let pivot: usize = partition(d);
        let ghost parted = d@;
        let (low, tmp) = d.split_at_mut(pivot);
        let (mid, high) = tmp.split_at_mut(1);
        quicksort_seq(low);
        quicksort_seq(high);
        proof {
            assert(parted.subrange(pivot as int, parted.len() as int).subrange(1, parted.len() - pivot)
                =~= parted.subrange(pivot + 1, parted.len() as int));
            lemma_sorted_around_pivot(parted, pivot as int, low@, high@);
            assert(low@ + (mid@ + high@) =~= low@ + seq![parted[pivot as int]] + high@);
        }
    }
}

/// The two child views that a quicksort task forks into when the pivot of
/// `view` ends up `p` places after the view's start: what lies before the pivot
/// and what lies after it.
pub open spec fn pivot_children(view: SubView, p: int) -> Seq<SubView> {
    seq![
        SubView { start: view.start, len: p as usize },
        SubView { start: (view.start + p + 1) as usize, len: (view.len - p - 1) as usize },
    ]
}

/// Whether `after` differs from `before` only inside `view`, and there only in
/// the order of the elements.
pub open spec fn rearranged_within(before: Seq<usize>, after: Seq<usize>, view: SubView) -> bool {
    &&& after.len() == before.len()
    &&& forall|i: int| 0 <= i < view.start ==> after[i] == before[i]
    &&& forall|i: int| view.end() <= i < before.len() ==> after[i] == before[i]
    &&& is_permutation(view.of(after), view.of(before))
}

/// Whether `quicksort_task` on `view` can turn the buffer `before` into `after`
/// and hand back `res`.
///
/// Only the order of the elements of `view` changes. A short view is sorted
/// and the task is done. A longer one is split around the pivot that
/// `pick_pivot` chooses, and the task forks, without a context, into the part
/// before the pivot and the part after it.
pub open spec fn quicksort_splits(
    before: Seq<usize>,
    after: Seq<usize>,
    view: SubView,
    res: TaskResult<SubView, ()>,
) -> bool {
    &&& rearranged_within(before, after, view)
    &&& view.len <= SORT_LEAF_LEN ==> res is Done && is_sorted(view.of(after))
    &&& view.len > SORT_LEAF_LEN ==> (res matches TaskResult::Fork(children, context) && {
        let p = children@[0].len as int;
        &&& context is None
        &&& partitioned_at(view.of(after), p)
        &&& children@ == pivot_children(view, p)
        &&& view.of(after)[p] == view.of(before)[pivot_index(view.of(before))]
    })
}

/// The split function of parallel quicksort, on the part `view` of `buf`.
///
/// A view of at most `SORT_LEAF_LEN` elements is sorted on the spot. A longer
/// one is split around a pivot, and the task forks into the part before the
/// pivot, which holds nothing greater than it, and the part after the pivot,
/// which holds only what is greater. Nothing outside `view` is touched.
pub fn quicksort_task(buf: &mut [usize], view: SubView) -> (res: TaskResult<SubView, ()>)
    requires
        view.fits(old(buf)@.len()),
    ensures
        quicksort_splits(old(buf)@, final(buf)@, view, res),
{
    let ghost before = buf@;
    let total: usize = buf.len();
    let (left, rest) = buf.split_at_mut(view.start);
    let (part, right) = rest.split_at_mut(view.len);
    let ghost l = left@;
    let ghost r = right@;
    proof {
        assert(part@ =~= view.of(before));
    }
    let res = if view.len <= SORT_LEAF_LEN {
        quicksort_seq(part);
        TaskResult::Done(())
    } else {
        let pivot: usize = partition(part);
        let low = SubView { start: view.start, len: pivot };
        let high = SubView { start: view.start + pivot + 1, len: view.len - pivot - 1 };
        let mut children: Vec<SubView> = Vec::new();
        children.push(low);
        children.push(high);
        proof {
            assert(children@ =~= pivot_children(view, pivot as int));
        }
        TaskResult::Fork(children, None)
    };
    proof {
        let after = l + (part@ + r);
        assert(view.of(after) =~= part@);
        assert(after.len() == before.len());
        assert forall|i: int| 0 <= i < view.start implies after[i] == before[i] by {
            assert(after[i] == l[i]);
        }
        assert forall|i: int| view.end() <= i < before.len() implies after[i] == before[i] by {
            assert(after[i] == r[i - view.end()]);
        }
    }
    res
}

/// The join function of parallel quicksort. The children have sorted their
/// views in place, so there is nothing left to combine.
pub fn quicksort_join(_outputs: &[()]) {
}

/// What the children of a forked quicksort task leave behind is a sorted view.
///
/// `forked` is the buffer as the task left it, split around the pivot at place
/// `p` of `view`; `done` is the buffer after both children have sorted their
/// own views and nothing else has changed. Then `view` is sorted in `done` and
/// holds what it held in `forked`, so the join has nothing to do.
pub proof fn lemma_quicksort_children_sort_view(forked: Seq<usize>, done: Seq<usize>, view: SubView, p: int)
    requires
        view.fits(forked.len()),
        forked.len() <= usize::MAX,
        done.len() == forked.len(),
        partitioned_at(view.of(forked), p),
        is_sorted(pivot_children(view, p)[0].of(done)),
        is_sorted(pivot_children(view, p)[1].of(done)),
        is_permutation(pivot_children(view, p)[0].of(done), pivot_children(view, p)[0].of(forked)),
        is_permutation(pivot_children(view, p)[1].of(done), pivot_children(view, p)[1].of(forked)),
        done[view.start + p] == forked[view.start + p],
    ensures
        is_sorted(view.of(done)),
        is_permutation(view.of(done), view.of(forked)),
{
    let low = pivot_children(view, p)[0];
    let high = pivot_children(view, p)[1];
    let before = view.of(forked);
    assert(low.of(forked) =~= before.subrange(0, p));
    assert(high.of(forked) =~= before.subrange(p + 1, before.len() as int));
    lemma_sorted_around_pivot(before, p, low.of(done), high.of(done));
    low.of(done).to_multiset_ensures();
    high.of(done).to_multiset_ensures();
    low.of(forked).to_multiset_ensures();
    high.of(forked).to_multiset_ensures();
    assert(view.of(done) =~= low.of(done) + seq![before[p]] + high.of(done));
}

/// A rearrangement of at most one element changes nothing: an empty buffer
/// sorts to an empty one, and a single element stays where it is.
pub proof fn lemma_short_permutation(before: Seq<usize>, after: Seq<usize>)
    requires
        before.len() <= 1,
        after.len() == before.len(),
        is_permutation(after, before),
    ensures
        after == before,
{
    if before.len() == 1 {
        before.to_multiset_ensures();
        after.to_multiset_ensures();
        assert(after.to_multiset().count(after[0]) > 0);
    }
}

/// The children of a quicksort task lie inside the task's view, apart from
/// each other and from the pivot between them.
pub proof fn lemma_pivot_children_apart(view: SubView, p: int)
    requires
        0 <= p < view.len,
        view.end() <= usize::MAX,
    ensures
        pivot_children(view, p)[0].within(view),
        pivot_children(view, p)[1].within(view),
        pivot_children(view, p)[0].disjoint(pivot_children(view, p)[1]),
        pivot_children(view, p)[0].end() == view.start + p,
        pivot_children(view, p)[1].start == view.start + p + 1,
        pivot_children(view, p)[0].len + pivot_children(view, p)[1].len + 1 == view.len,
{
}

/// Whether the task on `view` can turn `before` into `forked`, split at place
/// `p`, before its children go on to `between` and further.
pub open spec fn quicksort_forks(
    before: Seq<usize>,
    forked: Seq<usize>,
    between: Seq<usize>,
    view: SubView,
    p: int,
) -> bool {
    &&& rearranged_within(before, forked, view)
    &&& partitioned_at(view.of(forked), p)
    &&& between.len() == forked.len()
}

/// Whether a quicksort job on `view` can turn the buffer `before` into
/// `after`, with at most `depth` forks below one another.
///
/// A task on a short view leaves what `quicksort_task` leaves of a leaf. A task
/// on a longer view leaves some buffer `forked` that is split around a pivot,
/// and its children work on from there. The children touch views that lie
/// apart, so the order in which they run does not show in the buffer; here the
/// lower one comes first and leaves `between`.
pub open spec fn quicksort_job(before: Seq<usize>, after: Seq<usize>, view: SubView, depth: nat) -> bool
    decreases depth,
{
    if view.len <= SORT_LEAF_LEN {
        rearranged_within(before, after, view) && is_sorted(view.of(after))
    } else {
        depth > 0 && exists|forked: Seq<usize>, between: Seq<usize>, p: int|
            {
                &&& #[trigger] quicksort_forks(before, forked, between, view, p)
                &&& quicksort_job(forked, between, pivot_children(view, p)[0], (depth - 1) as nat)
                &&& quicksort_job(between, after, pivot_children(view, p)[1], (depth - 1) as nat)
            }
    }
}

/// A job that ends after some forks is a job for every larger bound on the
/// forks.
pub proof fn lemma_quicksort_job_deeper(
    before: Seq<usize>,
    after: Seq<usize>,
    view: SubView,
    shallow: nat,
    deep: nat,
)
    requires
        quicksort_job(before, after, view, shallow),
        shallow <= deep,
    ensures
        quicksort_job(before, after, view, deep),
    decreases shallow,
{
    if view.len > SORT_LEAF_LEN {
        let s = (shallow - 1) as nat;
        let d = (deep - 1) as nat;
        let (forked, between, p) = choose|forked: Seq<usize>, between: Seq<usize>, p: int|
            {
                &&& #[trigger] quicksort_forks(before, forked, between, view, p)
                &&& quicksort_job(forked, between, pivot_children(view, p)[0], s)
                &&& quicksort_job(between, after, pivot_children(view, p)[1], s)
            };
        lemma_quicksort_job_deeper(forked, between, pivot_children(view, p)[0], s, d);
        lemma_quicksort_job_deeper(between, after, pivot_children(view, p)[1], s, d);
        assert(quicksort_forks(before, forked, between, view, p));
    }
}

/// A task that `quicksort_task` finishes is a whole job.
pub proof fn lemma_quicksort_leaf_is_job(
    before: Seq<usize>,
    after: Seq<usize>,
    view: SubView,
    res: TaskResult<SubView, ()>,
    depth: nat,
)
    requires
        quicksort_splits(before, after, view, res),
        res is Done,
    ensures
        quicksort_job(before, after, view, depth),
{
}

/// A fork of `quicksort_task` and the jobs of its two children make a job:
/// where the task turns `before` into `forked` and forks, the job on its first
/// child turns `forked` into `between`, and the job on its second child turns
/// `between` into `after`, the whole is a job on `view` that is one fork
/// deeper. The join has nothing to add.
pub proof fn lemma_quicksort_fork_is_job(
    before: Seq<usize>,
    forked: Seq<usize>,
    between: Seq<usize>,
    after: Seq<usize>,
    view: SubView,
    res: TaskResult<SubView, ()>,
    depth: nat,
)
    requires
        view.fits(before.len()),
        before.len() <= usize::MAX,
        quicksort_splits(before, forked, view, res),
        res matches TaskResult::Fork(children, context) && quicksort_job(
            forked,
            between,
            children@[0],
            depth,
        ) && quicksort_job(between, after, children@[1], depth),
    ensures
        quicksort_job(before, after, view, depth + 1),
{
    let children = res->Fork_0@;
    let p = children[0].len as int;
    lemma_pivot_children_apart(view, p);
    lemma_quicksort_job_sorts(forked, between, children[0], depth);
    assert(quicksort_forks(before, forked, between, view, p));
}

/// A quicksort job sorts its view and touches nothing else: whatever the fork
/// tree, the view ends up in non-decreasing order with the elements it had, as
/// the sequential `quicksort_seq` leaves it.
pub proof fn lemma_quicksort_job_sorts(before: Seq<usize>, after: Seq<usize>, view: SubView, depth: nat)
    requires
        view.fits(before.len()),
        before.len() <= usize::MAX,
        quicksort_job(before, after, view, depth),
    ensures
        rearranged_within(before, after, view),
        is_sorted(view.of(after)),
    decreases depth,
{
    if view.len > SORT_LEAF_LEN {
        let below = (depth - 1) as nat;
        let (forked, between, p) = choose|forked: Seq<usize>, between: Seq<usize>, p: int|
            {
                &&& #[trigger] quicksort_forks(before, forked, between, view, p)
                &&& quicksort_job(forked, between, pivot_children(view, p)[0], below)
                &&& quicksort_job(between, after, pivot_children(view, p)[1], below)
            };
        let low = pivot_children(view, p)[0];
        let high = pivot_children(view, p)[1];
        lemma_pivot_children_apart(view, p);
        lemma_quicksort_job_sorts(forked, between, low, below);
        lemma_quicksort_job_sorts(between, after, high, below);
        assert(low.of(after) =~= low.of(between));
        assert(high.of(between) =~= high.of(forked));
        lemma_quicksort_children_sort_view(forked, after, view, p);
    }
}

/// Runs the whole fork-join job on the part `view` of `buf` on the calling
/// thread: the split function, then the jobs of the two children in fork
/// order, then the join. It leaves what the sequential `quicksort_seq` leaves
/// of the view, and touches nothing else. What it does is a `quicksort_job`.
pub fn run_quicksort(buf: &mut [usize], view: SubView)
    requires
        view.fits(old(buf)@.len()),
    ensures
        rearranged_within(old(buf)@, final(buf)@, view),
        is_sorted(view.of(final(buf)@)),
        quicksort_job(old(buf)@, final(buf)@, view, view.len as nat),
    decreases view.len,
{
    let total: usize = buf.len();
    let ghost before = buf@;
    let res = quicksort_task(buf, view);
    let ghost split = res;
    match res {
        TaskResult::Done(_) => {
            proof {
                lemma_quicksort_leaf_is_job(before, buf@, view, split, view.len as nat);
            }
        },
        TaskResult::Fork(children, _) => {
            let ghost forked = buf@;
            let ghost p = children@[0].len as int;
            proof {
                lemma_pivot_children_apart(view, p);
            }
            let low: SubView = children[0];
            let high: SubView = children[1];
            run_quicksort(buf, low);
            let ghost between = buf@;
            run_quicksort(buf, high);
            let mut outputs: Vec<()> = Vec::new();
            outputs.push(());
            outputs.push(());
            quicksort_join(outputs.as_slice());
            proof {
                let after = buf@;
                assert(low.of(after) =~= low.of(between));
                assert(high.of(between) =~= high.of(forked));
                lemma_quicksort_children_sort_view(forked, after, view, p);
                assert forall|i: int| 0 <= i < view.start implies after[i] == before[i] by {
                    assert(between[i] == forked[i]);
                }
                assert forall|i: int| view.end() <= i < before.len() implies after[i] == before[i] by {
                    assert(between[i] == forked[i]);
                }
                let below = (view.len - 1) as nat;
                lemma_quicksort_job_deeper(forked, between, low, low.len as nat, below);
                lemma_quicksort_job_deeper(between, after, high, high.len as nat, below);
                lemma_quicksort_fork_is_job(before, forked, between, after, view, split, below);
            }
        },
    }
}

} // verus!
