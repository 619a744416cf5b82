use vstd::prelude::*;

verus! {

/// The sum of a sequence of numbers.
pub open spec fn seq_sum(s: Seq<usize>) -> nat
    decreases s.len(),
{
    if s.len() == 0 {
        0
    } else {
        seq_sum(s.drop_last()) + s.last() as nat
    }
}

/// The sum of a sequence is at least the sum of each of its prefixes.
pub proof fn lemma_seq_sum_grows(s: Seq<usize>, k: int)
    requires
        0 <= k <= s.len(),
    ensures
        seq_sum(s.take(k)) <= seq_sum(s),
    decreases s.len() - k,
{
    if k < s.len() {
        lemma_seq_sum_grows(s, k + 1);
        assert(s.take(k + 1).drop_last() =~= s.take(k));
    } else {
        assert(s.take(k) =~= s);
    }
}

/// Adds up `values`.
pub fn sum_values(values: &[usize]) -> (sum: usize)
    requires
        seq_sum(values@) <= usize::MAX,
    ensures
        sum == seq_sum(values@),
{
    let mut acc: usize = 0;
    let mut i: usize = 0;
    while i < values.len()
        invariant
            i <= values@.len(),
            acc == seq_sum(values@.take(i as int)),
            seq_sum(values@) <= usize::MAX,
        decreases values@.len() - i,
    {
        proof {
            lemma_seq_sum_grows(values@, i + 1);
            assert(values@.take(i + 1).drop_last() =~= values@.take(i as int));
        }
        acc = acc + values[i];
        i += 1;
    }
    assert(values@.take(values@.len() as int) =~= values@);
    acc
}

/// Adds up `values`, unless the sum is too large for the machine.
pub fn checked_sum(values: &[usize]) -> (sum: Option<usize>)
    ensures
        sum is Some <==> seq_sum(values@) <= usize::MAX,
        sum matches Some(total) ==> total == seq_sum(values@),
{
    let mut acc: usize = 0;
    let mut i: usize = 0;
    while i < values.len()
        invariant
            i <= values@.len(),
            acc == seq_sum(values@.take(i as int)),
        decreases values@.len() - i,
    {
        proof {
            lemma_seq_sum_grows(values@, i + 1);
            assert(values@.take(i + 1).drop_last() =~= values@.take(i as int));
        }
        match acc.checked_add(values[i]) {
            Some(next) => {
                acc = next;
            },
            None => {
                return None;
            },
        }
        i += 1;
    }
    assert(values@.take(values@.len() as int) =~= values@);
    Some(acc)
}

} // verus!
