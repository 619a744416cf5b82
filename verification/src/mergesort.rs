use vstd::prelude::*;
use vstd::seq_lib::*;
use crate::error::ForkJoinError;
use crate::quicksort::{quicksort_seq, rearranged_within, SORT_LEAF_LEN};
use crate::sortutils::{is_permutation, is_sorted};
use crate::task::{SubView, TaskResult};

verus! {

/// The merge of `a` and `b`: at each step the smaller of the two heads comes
/// next, and the head of `a` where they are equal.
pub open spec fn merged(a: Seq<usize>, b: Seq<usize>) -> Seq<usize>
    decreases a.len() + b.len(),
{
    if a.len() == 0 {
        b
    } else if b.len() == 0 {
        a
    } else if a[0] <= b[0] {
        seq![a[0]] + merged(a.drop_first(), b)
    } else {
        seq![b[0]] + merged(a, b.drop_first())
    }
}

/// A merge is as long as its two inputs together and holds exactly their
/// elements.
pub proof fn lemma_merged_permutes(a: Seq<usize>, b: Seq<usize>)
    ensures
        merged(a, b).len() == a.len() + b.len(),
        is_permutation(merged(a, b), a + b),
    decreases a.len() + b.len(),
{
    broadcast use {
        vstd::multiset::group_multiset_properties,
        vstd::multiset::group_multiset_axioms,
    };
    if a.len() == 0 {
    } else if b.len() == 0 {
        assert(a + b =~= a);
    } else if a[0] <= b[0] {
        let rest = merged(a.drop_first(), b);
        lemma_merged_permutes(a.drop_first(), b);
        lemma_multiset_commutative(seq![a[0]], rest);
        lemma_multiset_commutative(seq![a[0]], a.drop_first() + b);
        assert(a + b =~= seq![a[0]] + (a.drop_first() + b));
        assert(merged(a, b).to_multiset() =~= (a + b).to_multiset());
    } else {
        let rest = merged(a, b.drop_first());
        lemma_merged_permutes(a, b.drop_first());
        lemma_multiset_commutative(seq![b[0]], rest);
        lemma_multiset_commutative(seq![b[0]], a + b.drop_first());
        lemma_multiset_commutative(a, b.drop_first());
        lemma_multiset_commutative(a, b);
        lemma_multiset_commutative(seq![b[0]], b.drop_first());
        assert(b =~= seq![b[0]] + b.drop_first());
        assert(merged(a, b).to_multiset() =~= (a + b).to_multiset());
    }
}

/// Every element of a merge of two sorted inputs is at least the smaller of
/// their heads.
proof fn lemma_merged_head(a: Seq<usize>, b: Seq<usize>, bound: usize)
    requires
        forall|i: int| 0 <= i < a.len() ==> bound <= a[i],
        forall|i: int| 0 <= i < b.len() ==> bound <= b[i],
    ensures
        forall|i: int| 0 <= i < merged(a, b).len() ==> bound <= merged(a, b)[i],
    decreases a.len() + b.len(),
{
    let m = merged(a, b);
    if a.len() == 0 {
    } else if b.len() == 0 {
    } else if a[0] <= b[0] {
        let rest = merged(a.drop_first(), b);
        lemma_merged_head(a.drop_first(), b, bound);
        assert forall|i: int| 0 <= i < m.len() implies bound <= m[i] by {
            if i > 0 {
                assert(m[i] == rest[i - 1]);
            }
        }
    } else {
        let rest = merged(a, b.drop_first());
        assert forall|i: int| 0 <= i < b.drop_first().len() implies bound <= b.drop_first()[i] by {
            assert(b.drop_first()[i] == b[i + 1]);
        }
        lemma_merged_head(a, b.drop_first(), bound);
        assert forall|i: int| 0 <= i < m.len() implies bound <= m[i] by {
            if i > 0 {
                assert(m[i] == rest[i - 1]);
            }
        }
    }
}

/// The merge of two sorted inputs is sorted.
pub proof fn lemma_merged_sorted(a: Seq<usize>, b: Seq<usize>)
    requires
        is_sorted(a),
        is_sorted(b),
    ensures
        is_sorted(merged(a, b)),
    decreases a.len() + b.len(),
{
    if a.len() == 0 {
    } else if b.len() == 0 {
    } else if a[0] <= b[0] {
        let rest = merged(a.drop_first(), b);
        lemma_merged_sorted(a.drop_first(), b);
        lemma_merged_head(a.drop_first(), b, a[0]);
        let m = merged(a, b);
        assert forall|i: int, j: int| 0 <= i <= j < m.len() implies m[i] <= m[j] by {
            if j > 0 {
                assert(m[j] == rest[j - 1]);
            }
        }
    } else {
        let rest = merged(a, b.drop_first());
        lemma_merged_sorted(a, b.drop_first());
        lemma_merged_head(a, b.drop_first(), b[0]);
        let m = merged(a, b);
        assert forall|i: int, j: int| 0 <= i <= j < m.len() implies m[i] <= m[j] by {
            if i > 0 {
                assert(m[i] == rest[i - 1]);
            }
            if j > 0 {
                assert(m[j] == rest[j - 1]);
            }
        }
    }
}

/// Merges `xs1` and `xs2` and writes the result back over the two of them: its
/// first part over `xs1`, the rest over `xs2`.
pub fn merge(xs1: &mut [usize], xs2: &mut [usize])
    ensures
        final(xs1)@.len() == old(xs1)@.len(),
        final(xs2)@.len() == old(xs2)@.len(),
        final(xs1)@ + final(xs2)@ == merged(old(xs1)@, old(xs2)@),
        is_permutation(final(xs1)@ + final(xs2)@, old(xs1)@ + old(xs2)@),
        is_sorted(old(xs1)@) && is_sorted(old(xs2)@) ==> is_sorted(final(xs1)@ + final(xs2)@),
{
    let l1: usize = xs1.len();
    let l2: usize = xs2.len();
    let ghost a = xs1@;
    let ghost b = xs2@;
    let mut il: usize = 0;
    let mut ir: usize = 0;
    let mut buf: Vec<usize> = Vec::new();
    proof {
        assert(a.skip(0) =~= a);
        assert(b.skip(0) =~= b);
    }
    while il < l1 || ir < l2
        invariant
            xs1@ == a,
            xs2@ == b,
            l1 == a.len(),
            l2 == b.len(),
            il <= l1,
            ir <= l2,
            buf@.len() == il + ir,
            buf@ + merged(a.skip(il as int), b.skip(ir as int)) == merged(a, b),
        decreases (l1 - il) + (l2 - ir),
    {
        let ghost ra = a.skip(il as int);
        let ghost rb = b.skip(ir as int);
        if il < l1 && (ir >= l2 || xs1[il] <= xs2[ir]) {
            proof {
                assert(ra.drop_first() =~= a.skip(il + 1));
                if ir >= l2 {
                    assert(rb.len() == 0);
                    assert(merged(ra.drop_first(), rb) == ra.drop_first());
                    assert(ra =~= seq![ra[0]] + ra.drop_first());
                }
                assert(buf@.push(a[il as int]) + merged(a.skip(il + 1), rb) =~= buf@ + merged(ra, rb));
            }
            buf.push(xs1[il]);
            il = il + 1;
        } else {
            proof {
                assert(rb.drop_first() =~= b.skip(ir + 1));
                if il >= l1 {
                    assert(ra.len() == 0);
                    assert(merged(ra, rb) == rb);
                    assert(merged(ra, rb.drop_first()) == rb.drop_first());
                    assert(rb =~= seq![rb[0]] + rb.drop_first());
                }
                assert(merged(ra, rb) =~= seq![b[ir as int]] + merged(ra, b.skip(ir + 1)));
            }
            buf.push(xs2[ir]);
            ir = ir + 1;
        }
    }
    proof {
        assert(merged(a.skip(l1 as int), b.skip(l2 as int)) =~= Seq::empty());
        assert(buf@ =~= merged(a, b));
    }
    let total: usize = buf.len();
    let mut k: usize = 0;
    while k < l1
        invariant
            k <= l1,
            xs1@.len() == l1,
            buf@.len() == l1 + l2,
            forall|i: int| 0 <= i < k ==> xs1@[i] == buf@[i],
        decreases l1 - k,
    {
        xs1[k] = buf[k];
        k = k + 1;
    }
    let mut k: usize = 0;
    while k < l2
        invariant
            k <= l2,
            xs2@.len() == l2,
            buf@.len() == l1 + l2,
            total == l1 + l2,
            forall|i: int| 0 <= i < k ==> xs2@[i] == buf@[l1 + i],
        decreases l2 - k,
    {
        xs2[k] = buf[l1 + k];
        k = k + 1;
    }
    proof {
        assert(xs1@ + xs2@ =~= buf@);
        lemma_merged_permutes(a, b);
        if is_sorted(a) && is_sorted(b) {
            lemma_merged_sorted(a, b);
        }
    }
}

/// Sorts `d` in place by merging its sorted halves.
pub fn mergesort_seq(d: &mut [usize])
    ensures
        final(d)@.len() == old(d)@.len(),
        is_sorted(final(d)@),
        is_permutation(final(d)@, old(d)@),
    decreases old(d)@.len(),
{
    let len: usize = d.len();
    if len < SORT_LEAF_LEN {
        quicksort_seq(d);
    } else {
        let mid: usize = len / 2;
        let ghost before = d@;
        let (low, high) = d.split_at_mut(mid);
        mergesort_seq(low);
        mergesort_seq(high);
        let ghost sl = low@;
        let ghost sh = high@;
        merge(low, high);
        proof {
            broadcast use {
                vstd::multiset::group_multiset_properties,
                vstd::multiset::group_multiset_axioms,
            };
            lemma_merged_sorted(sl, sh);
            lemma_merged_permutes(sl, sh);
            lemma_multiset_commutative(sl, sh);
            lemma_multiset_commutative(before.subrange(0, mid as int), before.subrange(mid as int, len as int));
            assert(before =~= before.subrange(0, mid as int) + before.subrange(mid as int, len as int));
        }
    }
}

/// The two halves that a mergesort task forks `view` into.
pub open spec fn halves(view: SubView) -> Seq<SubView> {
    seq![
        SubView { start: view.start, len: view.len / 2 },
        SubView { start: (view.start + view.len / 2) as usize, len: (view.len - view.len / 2) as usize },
    ]
}

/// The view that covers two adjoining views.
pub open spec fn joined(low: SubView, high: SubView) -> SubView {
    SubView { start: low.start, len: (low.len + high.len) as usize }
}

/// Whether `mergesort_join` can merge the views in `xs` inside a buffer of `n`
/// elements: there are two of them, the second starts where the first ends, and
/// both lie inside the buffer.
pub open spec fn joinable(xs: Seq<SubView>, n: nat) -> bool {
    &&& xs.len() == 2
    &&& xs[0].adjoins(xs[1])
    &&& xs[1].fits(n)
}

/// Whether `mergesort_task` on `view` can turn the buffer `before` into `after`
/// and hand back `res`.
///
/// A short view is sorted, nothing else changes, and the task is done with the
/// view as its output. A longer one forks, without a context, into its two
/// halves, and the buffer stays as it is.
pub open spec fn mergesort_splits(
    before: Seq<usize>,
    after: Seq<usize>,
    view: SubView,
    res: TaskResult<SubView, SubView>,
) -> bool {
    &&& rearranged_within(before, after, view)
    &&& view.len <= SORT_LEAF_LEN ==> res == TaskResult::<SubView, SubView>::Done(view) && is_sorted(
        view.of(after),
    )
    &&& view.len > SORT_LEAF_LEN ==> (res matches TaskResult::Fork(children, context) && {
        &&& context is None
        &&& children@ == halves(view)
        &&& after == before
    })
}

/// Whether `mergesort_join` on the views `xs` can turn the buffer `before` into
/// `after` and hand back `res`.
///
/// The join succeeds exactly where `xs` is joinable. Then the view that covers
/// both holds the merge of the two, which is a rearrangement of what it held
/// and is sorted where the two were, and nothing else changes. Where the join
/// fails the buffer stays as it is.
pub open spec fn mergesort_merges(
    before: Seq<usize>,
    after: Seq<usize>,
    xs: Seq<SubView>,
    res: Result<SubView, ForkJoinError>,
) -> bool {
    &&& after.len() == before.len()
    &&& res is Ok <==> joinable(xs, before.len())
    &&& res is Err ==> res == Err::<SubView, ForkJoinError>(ForkJoinError::TaskFailure) && after == before
    &&& res matches Ok(whole) ==> {
        &&& whole == joined(xs[0], xs[1])
        &&& whole.of(after) == merged(xs[0].of(before), xs[1].of(before))
        &&& is_permutation(whole.of(after), whole.of(before))
        &&& is_sorted(xs[0].of(before)) && is_sorted(xs[1].of(before)) ==> is_sorted(whole.of(after))
        &&& forall|i: int| 0 <= i < whole.start ==> after[i] == before[i]
        &&& forall|i: int| whole.end() <= i < before.len() ==> after[i] == before[i]
    }
}

/// The split function of parallel mergesort, on the part `view` of `buf`.
///
/// A view of at most `SORT_LEAF_LEN` elements is sorted on the spot and handed
/// back as the task's output. A longer one forks into its two halves and leaves
/// the buffer as it is. Nothing outside `view` is touched.
pub fn mergesort_task(buf: &mut [usize], view: SubView) -> (res: TaskResult<SubView, SubView>)
    requires
        view.fits(old(buf)@.len()),
    ensures
        mergesort_splits(old(buf)@, final(buf)@, view, res),
{
    let total: usize = buf.len();
    if view.len <= SORT_LEAF_LEN {
        let ghost before = buf@;
        let (left, rest) = buf.split_at_mut(view.start);
        let (part, right) = rest.split_at_mut(view.len);
        let ghost l = left@;
        let ghost r = right@;
        proof {
            assert(part@ =~= view.of(before));
        }
        quicksort_seq(part);
        proof {
            let after = l + (part@ + r);
            assert(view.of(after) =~= part@);
            assert(forall|i: int| 0 <= i < view.start ==> after[i] == before[i]);
            assert(forall|i: int| view.end() <= i < before.len() ==> after[i] == before[i]);
        }
        TaskResult::Done(view)
    } else {
        let half: usize = view.len / 2;
        let low = SubView { start: view.start, len: half };
        let high = SubView { start: view.start + half, len: view.len - half };
        let mut children: Vec<SubView> = Vec::new();
        children.push(low);
        children.push(high);
        proof {
            assert(children@ =~= halves(view));
        }
        TaskResult::Fork(children, None)
    }
}

/// The join function of parallel mergesort.
///
/// `xs` holds the outputs of the two children: the views that they sorted. The
/// join checks that the second view starts where the first one ends, merges the
/// two in place, and hands back the view that covers both. Where the check
/// fails the buffer is left as it is and the join fails.
pub fn mergesort_join(buf: &mut [usize], xs: &[SubView]) -> (res: Result<SubView, ForkJoinError>)
    ensures
        mergesort_merges(old(buf)@, final(buf)@, xs@, res),
{
    if xs.len() != 2 {
        return Err(ForkJoinError::TaskFailure);
    }
    let low: SubView = xs[0];
    let high: SubView = xs[1];
    let total: usize = buf.len();
    if low.start > total || low.len > total - low.start {
        return Err(ForkJoinError::TaskFailure);
    }
    let low_end: usize = low.start + low.len;
    if low_end != high.start || high.len > total - high.start {
        return Err(ForkJoinError::TaskFailure);
    }
    let ghost before = buf@;
    let (left, rest) = buf.split_at_mut(low.start);
    let (first, rest2) = rest.split_at_mut(low.len);
    let (second, right) = rest2.split_at_mut(high.len);
    let ghost l = left@;
    let ghost r = right@;
    proof {
        assert(first@ =~= low.of(before));
        assert(second@ =~= high.of(before));
    }
    merge(first, second);
    let whole = SubView { start: low.start, len: low.len + high.len };
    proof {
        let after = l + (first@ + (second@ + r));
        assert(whole.of(after) =~= first@ + second@);
        assert(whole.of(before) =~= low.of(before) + high.of(before));
        assert forall|i: int| 0 <= i < whole.start implies after[i] == before[i] by {
            assert(after[i] == l[i]);
        }
        assert forall|i: int| whole.end() <= i < before.len() implies after[i] == before[i] by {
            assert(after[i] == r[i - whole.end()]);
        }
    }
    Ok(whole)
}

/// The halves of a mergesort task lie inside the task's view, apart from each
/// other, and the second starts where the first ends, so that the join accepts
/// them and hands the task's own view back.
pub proof fn lemma_halves_apart(view: SubView, n: nat)
    requires
        view.fits(n),
        n <= usize::MAX,
    ensures
        halves(view)[0].within(view),
        halves(view)[1].within(view),
        halves(view)[0].disjoint(halves(view)[1]),
        joinable(halves(view), n),
        joined(halves(view)[0], halves(view)[1]) == view,
{
}

/// What the join of a forked mergesort task leaves behind is a sorted view.
///
/// `forked` is the buffer as the task left it and `sorted` the buffer after
/// both children have sorted their halves. Then the merge that the join writes
/// over `view` is sorted and holds what `view` held in `forked`.
pub proof fn lemma_mergesort_join_sorts_view(forked: Seq<usize>, sorted: Seq<usize>, view: SubView)
    requires
        view.fits(forked.len()),
        forked.len() <= usize::MAX,
        sorted.len() == forked.len(),
        is_sorted(halves(view)[0].of(sorted)),
        is_sorted(halves(view)[1].of(sorted)),
        is_permutation(halves(view)[0].of(sorted), halves(view)[0].of(forked)),
        is_permutation(halves(view)[1].of(sorted), halves(view)[1].of(forked)),
    ensures
        is_sorted(merged(halves(view)[0].of(sorted), halves(view)[1].of(sorted))),
        is_permutation(merged(halves(view)[0].of(sorted), halves(view)[1].of(sorted)), view.of(forked)),
        merged(halves(view)[0].of(sorted), halves(view)[1].of(sorted)).len() == view.len,
{
    let low = halves(view)[0];
    let high = halves(view)[1];
    lemma_merged_sorted(low.of(sorted), high.of(sorted));
    lemma_merged_permutes(low.of(sorted), high.of(sorted));
    lemma_multiset_commutative(low.of(sorted), high.of(sorted));
    lemma_multiset_commutative(low.of(forked), high.of(forked));
    assert(view.of(forked) =~= low.of(forked) + high.of(forked));
}

/// Whether the join of the task on `view` turns `sorted`, in which the
/// children have sorted the two halves, into `after`: the halves are merged
/// over the view and nothing else changes.
pub open spec fn mergesort_joins(between: Seq<usize>, sorted: Seq<usize>, after: Seq<usize>, view: SubView) -> bool {
    &&& between.len() == sorted.len()
    &&& after.len() == sorted.len()
    &&& view.of(after) == merged(halves(view)[0].of(sorted), halves(view)[1].of(sorted))
    &&& forall|i: int| 0 <= i < view.start && i < sorted.len() ==> after[i] == sorted[i]
    &&& forall|i: int| view.end() <= i < sorted.len() ==> after[i] == sorted[i]
}

/// Whether a mergesort job on `view` can turn the buffer `before` into
/// `after`, with at most `depth` forks below one another.
///
/// A task on a short view leaves what `mergesort_task` leaves of a leaf. A task
/// on a longer view leaves the buffer to its children, which sort the two
/// halves, and the join merges the halves over the view. The children touch
/// views that lie apart, so the order in which they run does not show in the
/// buffer; here the lower one comes first and leaves `between`.
pub open spec fn mergesort_job(before: Seq<usize>, after: Seq<usize>, view: SubView, depth: nat) -> bool
    decreases depth,
{
    if view.len <= SORT_LEAF_LEN {
        rearranged_within(before, after, view) && is_sorted(view.of(after))
    } else {
        depth > 0 && exists|between: Seq<usize>, sorted: Seq<usize>|
            {
                &&& #[trigger] mergesort_joins(between, sorted, after, view)
                &&& mergesort_job(before, between, halves(view)[0], (depth - 1) as nat)
                &&& mergesort_job(between, sorted, halves(view)[1], (depth - 1) as nat)
            }
    }
}

/// A job that ends after some forks is a job for every larger bound on the
/// forks.
pub proof fn lemma_mergesort_job_deeper(
    before: Seq<usize>,
    after: Seq<usize>,
    view: SubView,
    shallow: nat,
    deep: nat,
)
    requires
        mergesort_job(before, after, view, shallow),
        shallow <= deep,
    ensures
        mergesort_job(before, after, view, deep),
    decreases shallow,
{
    if view.len > SORT_LEAF_LEN {
        let s = (shallow - 1) as nat;
        let d = (deep - 1) as nat;
        let (between, sorted) = choose|between: Seq<usize>, sorted: Seq<usize>|
            {
                &&& #[trigger] mergesort_joins(between, sorted, after, view)
                &&& mergesort_job(before, between, halves(view)[0], s)
                &&& mergesort_job(between, sorted, halves(view)[1], s)
            };
        lemma_mergesort_job_deeper(before, between, halves(view)[0], s, d);
        lemma_mergesort_job_deeper(between, sorted, halves(view)[1], s, d);
        assert(mergesort_joins(between, sorted, after, view));
    }
}

/// A task that `mergesort_task` finishes is a whole job, and its output is its
/// view.
pub proof fn lemma_mergesort_leaf_is_job(
    before: Seq<usize>,
    after: Seq<usize>,
    view: SubView,
    res: TaskResult<SubView, SubView>,
    depth: nat,
)
    requires
        mergesort_splits(before, after, view, res),
        res is Done,
    ensures
        mergesort_job(before, after, view, depth),
        res == TaskResult::<SubView, SubView>::Done(view),
{
}

/// A fork of `mergesort_task`, the jobs of its two children and the join make
/// a job: where the task on `view` forks, the job on its first child turns the
/// buffer into `between`, the job on its second child turns `between` into
/// `sorted`, and `mergesort_join` on the children's views, which are their
/// outputs, turns `sorted` into `after`, the join succeeds with `view` as its
/// output and the whole is a job on `view` that is one fork deeper.
pub proof fn lemma_mergesort_fork_is_job(
    before: Seq<usize>,
    forked: Seq<usize>,
    between: Seq<usize>,
    sorted: Seq<usize>,
    after: Seq<usize>,
    view: SubView,
    res: TaskResult<SubView, SubView>,
    joined_to: Result<SubView, ForkJoinError>,
    depth: nat,
)
    requires
        view.fits(before.len()),
        before.len() <= usize::MAX,
        mergesort_splits(before, forked, view, res),
        res matches TaskResult::Fork(children, context) && mergesort_job(
            forked,
            between,
            children@[0],
            depth,
        ) && mergesort_job(between, sorted, children@[1], depth) && mergesort_merges(
            sorted,
            after,
            children@,
            joined_to,
        ),
    ensures
        joined_to == Ok::<SubView, ForkJoinError>(view),
        mergesort_job(before, after, view, depth + 1),
{
    lemma_halves_apart(view, before.len());
    lemma_mergesort_job_sorts(forked, between, halves(view)[0], depth);
    lemma_mergesort_job_sorts(between, sorted, halves(view)[1], depth);
    assert(joinable(halves(view), sorted.len()));
    assert(mergesort_joins(between, sorted, after, view));
}

/// A mergesort job sorts its view and touches nothing else: whatever the fork
/// tree, the view ends up in non-decreasing order with the elements it had, as
/// the sequential `mergesort_seq` leaves it.
pub proof fn lemma_mergesort_job_sorts(before: Seq<usize>, after: Seq<usize>, view: SubView, depth: nat)
    requires
        view.fits(before.len()),
        before.len() <= usize::MAX,
        mergesort_job(before, after, view, depth),
    ensures
        rearranged_within(before, after, view),
        is_sorted(view.of(after)),
    decreases depth,
{
    if view.len > SORT_LEAF_LEN {
        let below = (depth - 1) as nat;
        let (between, sorted) = choose|between: Seq<usize>, sorted: Seq<usize>|
            {
                &&& #[trigger] mergesort_joins(between, sorted, after, view)
                &&& mergesort_job(before, between, halves(view)[0], below)
                &&& mergesort_job(between, sorted, halves(view)[1], below)
            };
        let low = halves(view)[0];
        let high = halves(view)[1];
        lemma_halves_apart(view, before.len());
        lemma_mergesort_job_sorts(before, between, low, below);
        lemma_mergesort_job_sorts(between, sorted, high, below);
        assert(low.of(sorted) =~= low.of(between));
        assert(high.of(between) =~= high.of(before));
        lemma_mergesort_join_sorts_view(before, sorted, view);
    }
}

/// Runs the whole fork-join job on the part `view` of `buf` on the calling
/// thread: the split function, then the jobs of the two halves in fork order,
/// then the join on their outputs. It leaves what the sequential
/// `mergesort_seq` leaves of the view, touches nothing else, and hands the view
/// back as the job's output. What it does is a `mergesort_job`.
pub fn run_mergesort(buf: &mut [usize], view: SubView) -> (output: SubView)
    requires
        view.fits(old(buf)@.len()),
    ensures
        output == view,
        rearranged_within(old(buf)@, final(buf)@, view),
        is_sorted(view.of(final(buf)@)),
        mergesort_job(old(buf)@, final(buf)@, view, view.len as nat),
    decreases view.len,
{
    let total: usize = buf.len();
    let ghost before = buf@;
    let res = mergesort_task(buf, view);
    let ghost split = res;
    match res {
        TaskResult::Done(done) => {
            proof {
                lemma_mergesort_leaf_is_job(before, buf@, view, split, view.len as nat);
            }
            done
        },
        TaskResult::Fork(children, _) => {
            proof {
                lemma_halves_apart(view, before.len());
            }
            let low: SubView = run_mergesort(buf, children[0]);
            let ghost between = buf@;
            let high: SubView = run_mergesort(buf, children[1]);
            let ghost sorted = buf@;
            let mut outputs: Vec<SubView> = Vec::new();
            outputs.push(low);
            outputs.push(high);
            proof {
                assert(outputs@ =~= halves(view));
                assert(halves(view)[0].of(sorted) =~= halves(view)[0].of(between));
                assert(halves(view)[1].of(between) =~= halves(view)[1].of(before));
                lemma_mergesort_join_sorts_view(before, sorted, view);
            }
            let merged_to = mergesort_join(buf, outputs.as_slice());
            proof {
                let after = buf@;
                let below = (view.len - 1) as nat;
                lemma_mergesort_job_deeper(before, between, halves(view)[0], halves(view)[0].len as nat, below);
                lemma_mergesort_job_deeper(between, sorted, halves(view)[1], halves(view)[1].len as nat, below);
                lemma_mergesort_fork_is_job(before, before, between, sorted, after, view, split, merged_to, below);
                assert forall|i: int| 0 <= i < view.start implies after[i] == before[i] by {
                    assert(between[i] == before[i]);
                    assert(sorted[i] == between[i]);
                }
                assert forall|i: int| view.end() <= i < before.len() implies after[i] == before[i] by {
                    assert(between[i] == before[i]);
                    assert(sorted[i] == between[i]);
                }
            }
            match merged_to {
                Ok(whole) => whole,
                Err(_) => vstd::pervasive::unreached(),
            }
        },
    }
}

} // verus!
