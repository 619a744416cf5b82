use vstd::prelude::*;
use crate::error::ForkJoinError;

verus! {

/// Whether `s` is in non-decreasing order.
pub open spec fn is_sorted(s: Seq<usize>) -> bool {
    forall|i: int, j: int| 0 <= i <= j < s.len() ==> s[i] <= s[j]
}

/// Whether `a` and `b` hold the same elements, each as often as the other.
pub open spec fn is_permutation(a: Seq<usize>, b: Seq<usize>) -> bool {
    a.to_multiset() == b.to_multiset()
}

/// The number that the generator writes at index `i` of a buffer of `n`
/// elements when its state is `x`.
pub open spec fn rnd_num(x: usize, n: usize, i: nat) -> usize {
    (((i * n) as usize) ^ x) % n
}

/// The generator's state before it writes index `i`, started from `seed`.
pub open spec fn rnd_state(seed: usize, n: usize, i: nat) -> usize
    decreases i,
{
    if i == 0 {
        seed
    } else {
        let p = (i - 1) as nat;
        let x = rnd_state(seed, n, p);
        x ^ ((p * rnd_num(x, n, p)) as usize)
    }
}

/// The whole sequence that the generator produces for `seed` and length `n`.
pub open spec fn rnd_seq(seed: usize, n: usize) -> Seq<usize> {
    Seq::new(n as nat, |i: int| rnd_num(rnd_state(seed, n, i as nat), n, i as nat))
}

/// Checks that `data` is in non-decreasing order.
pub fn verify_sorted(data: &[usize]) -> (r: Result<(), ForkJoinError>)
    ensures
        r is Ok <==> is_sorted(data@),
        r is Err ==> r == Err::<(), ForkJoinError>(ForkJoinError::VerificationFailure),
{
    let n: usize = data.len();
    if n > 0 {
        let mut last: usize = data[0];
        let mut i: usize = 0;
        while i < n
            invariant
                n == data@.len(),
                i <= n,
                i > 0 ==> last == data@[i - 1],
                i == 0 ==> last == data@[0],
                forall|a: int, b: int| 0 <= a <= b < i ==> data@[a] <= data@[b],
            decreases n - i,
        {
            let d: usize = data[i];
            if !(last <= d) {
                return Err(ForkJoinError::VerificationFailure);
            }
            last = d;
            i += 1;
        }
    }
    Ok(())
}

/// Fills `d` with the reproducible pseudo-random sequence for the seed `x`.
/// Every number written is below the length of `d`. The largest product that
/// the generator forms, `(len - 1) * len`, has to fit in `usize`.
pub fn create_vec_rnd(x: usize, d: &mut [usize])
    requires
        old(d)@.len() == 0 || (old(d)@.len() - 1) * old(d)@.len() <= usize::MAX,
    ensures
        final(d)@ == rnd_seq(x, old(d)@.len() as usize),
        forall|i: int| 0 <= i < final(d)@.len() ==> final(d)@[i] < old(d)@.len(),
{
    let mut x: usize = x;
    let ghost seed = x;
    let mut i: usize = 0;
    let n: usize = d.len();
    while i < n
        invariant
            n == d@.len(),
            n == 0 || (n - 1) * n <= usize::MAX,
            i <= n,
            x == rnd_state(seed, n, i as nat),
            forall|k: int| 0 <= k < i ==> d@[k] == rnd_num(rnd_state(seed, n, k as nat), n, k as nat),
            forall|k: int| 0 <= k < i ==> d@[k] < n,
        decreases n - i,
    {
        assert(i * n <= (n - 1) * n) by (nonlinear_arith)
            requires
                i <= n - 1,
        ;
        let num: usize = (i * n ^ x) % n;
        d[i] = num;
        assert(i * num <= (n - 1) * n) by (nonlinear_arith)
            requires
                i <= n - 1,
                num <= n,
        ;
        x ^= i * num;
        i += 1;
    }
}

} // verus!
