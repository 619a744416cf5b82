//! Divide-and-conquer algorithms phrased as fork-join tasks, together with the
//! bookkeeping that a fork-join scheduler needs to run them.
//!
//! Every algorithm comes in three parts: a sequential baseline, a split
//! function that either finishes a task or forks it into child tasks, and a
//! join function that combines the children's outputs. The contracts relate the
//! three, so that running the split and join functions over the whole task tree
//! is known to give what the sequential baseline gives.
//!
//! - `task`: what a split function hands back, the join disciplines and the
//!   views into a shared buffer.
//! - `rules`: an algorithm as mathematics, and the result of a job under it.
//! - `scheduler`: the table of tasks of one job, as a state machine from
//!   reports to actions. It runs nothing itself and uses no thread.
//! - `faithful`: what a scheduler holds and asks for when the workers report
//!   what the rules say; the order of the reports does not matter.
//! - `job`: the receiving side of a job. `pool`: the size of a pool.
//! - `forktree`: the shape of a job, and the count of its leaves and joins.
//! - `quicksort`, `mergesort`, `nqueens`, `sumtree`, `fib`, `spawnpool`: the
//!   algorithms, each with a `run_` function that runs a whole job on the
//!   calling thread. `sortutils`, `sum`: what they share.

pub mod error;
pub mod sortutils;
pub mod task;
pub mod rules;
pub mod quicksort;
pub mod mergesort;
pub mod nqueens;
pub mod sum;
pub mod sumtree;
pub mod fib;
pub mod spawnpool;
pub mod scheduler;
pub mod faithful;
pub mod job;
pub mod pool;
pub mod forktree;
