use vstd::prelude::*;
use crate::error::ForkJoinError;

verus! {

/// The size of a pool of worker threads: at least one.
#[derive(Debug, Clone, Copy)]
pub struct PoolConfig {
    threads: usize,
}

impl PoolConfig {
    #[verifier::type_invariant]
    spec fn at_least_one(self) -> bool {
        self.threads >= 1
    }

    /// The number of worker threads.
    pub closed spec fn count(self) -> nat {
        self.threads as nat
    }

    /// The configuration of a pool of `threads` workers. A pool without workers
    /// is refused.
    pub fn with_threads(threads: usize) -> (r: Result<PoolConfig, ForkJoinError>)
        ensures
            threads == 0 ==> r == Err::<PoolConfig, ForkJoinError>(ForkJoinError::ConfigurationError),
            threads >= 1 ==> (r matches Ok(config) && config.count() == threads),
    {
        if threads == 0 {
            Err(ForkJoinError::ConfigurationError)
        } else {
            Ok(PoolConfig { threads })
        }
    }

    /// The number of worker threads.
    pub fn threads(&self) -> (n: usize)
        ensures
            n == self.count(),
            n >= 1,
    {
        proof {
            use_type_invariant(self);
        }
        self.threads
    }
}

} // verus!
