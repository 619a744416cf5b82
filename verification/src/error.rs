use vstd::prelude::*;

verus! {

/// What can go wrong around a fork-join job.
#[derive(Debug, Clone, Copy, PartialEq, Eq, Structural)]
pub enum ForkJoinError {
    /// A pool was asked for with zero worker threads.
    ConfigurationError,
    /// A second result was asked of a job that delivers exactly one.
    AlreadyConsumed,
    /// A result was asked of a search job that has surfaced all of its results.
    Exhausted,
    /// A split or join function failed while the job was running.
    TaskFailure,
    /// A result does not satisfy what its caller checks of it.
    VerificationFailure,
}

impl ForkJoinError {
    /// A short description of the error.
    pub fn message(&self) -> (s: &'static str)
        ensures
            s@ == Self::message_of(*self),
    {
        match self {
            ForkJoinError::ConfigurationError => "a pool needs at least one worker thread",
            ForkJoinError::AlreadyConsumed => "the result of this job was already consumed",
            ForkJoinError::Exhausted => "the job has finished, no results left to read",
            ForkJoinError::TaskFailure => "a split or join function failed",
            ForkJoinError::VerificationFailure => "the result failed its check",
        }
    }

    /// The text that `message` returns for each error.
    pub open spec fn message_of(e: ForkJoinError) -> Seq<char> {
        match e {
            ForkJoinError::ConfigurationError => "a pool needs at least one worker thread"@,
            ForkJoinError::AlreadyConsumed => "the result of this job was already consumed"@,
            ForkJoinError::Exhausted => "the job has finished, no results left to read"@,
            ForkJoinError::TaskFailure => "a split or join function failed"@,
            ForkJoinError::VerificationFailure => "the result failed its check"@,
        }
    }
}

} // verus!
