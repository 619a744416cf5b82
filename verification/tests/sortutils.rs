use forkjoin_tasks::error::ForkJoinError;
use forkjoin_tasks::sortutils::{create_vec_rnd, verify_sorted};

#[test]
fn verify_sorted_accepts_sorted_data() {
    assert_eq!(Ok(()), verify_sorted(&[]));
    assert_eq!(Ok(()), verify_sorted(&[3]));
    assert_eq!(Ok(()), verify_sorted(&[1, 1, 2, 5, 5, 9]));
}

#[test]
fn verify_sorted_reports_unsorted_data() {
    assert_eq!(Err(ForkJoinError::VerificationFailure), verify_sorted(&[2, 1]));
    assert_eq!(Err(ForkJoinError::VerificationFailure), verify_sorted(&[1, 2, 3, 2, 4]));
    assert_eq!(Err(ForkJoinError::VerificationFailure), verify_sorted(&[0, 1, 2, 3, 0]));
}

#[test]
fn create_vec_rnd_exact_values() {
    let mut d = vec![0; 4];
    create_vec_rnd(5, &mut d[..]);
    assert_eq!(vec![1, 1, 0, 0], d);
    let mut e = vec![9; 10];
    create_vec_rnd(893475343, &mut e[..]);
    assert_eq!(vec![3, 3, 2, 0, 0, 6, 0, 8, 4, 2], e);
    let mut f = vec![0; 5];
    create_vec_rnd(893475343, &mut f[..]);
    assert_eq!(vec![3, 3, 4, 4, 1], f);
}

#[test]
fn create_vec_rnd_boundaries() {
    let mut empty: Vec<usize> = vec![];
    create_vec_rnd(7, &mut empty[..]);
    assert_eq!(Vec::<usize>::new(), empty);
    let mut one = vec![5];
    create_vec_rnd(7, &mut one[..]);
    assert_eq!(vec![0], one);
}

#[test]
fn create_vec_rnd_is_reproducible_and_below_the_length() {
    let mut a = vec![0; 1000];
    let mut b = vec![1; 1000];
    create_vec_rnd(893475343, &mut a[..]);
    create_vec_rnd(893475343, &mut b[..]);
    assert_eq!(a, b);
    assert!(a.iter().all(|&x| x < 1000));
}

#[test]
fn error_messages_differ() {
    let all = [
        ForkJoinError::ConfigurationError,
        ForkJoinError::AlreadyConsumed,
        ForkJoinError::Exhausted,
        ForkJoinError::TaskFailure,
        ForkJoinError::VerificationFailure,
    ];
    for (i, a) in all.iter().enumerate() {
        for (j, b) in all.iter().enumerate() {
            assert_eq!(i == j, a.message() == b.message());
        }
    }
    assert_eq!("the job has finished, no results left to read", ForkJoinError::Exhausted.message());
}
