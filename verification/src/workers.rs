//! The size of the worker pools.

use vstd::prelude::*;

verus! {

/// The least number of threads that a worker pool gets.
pub const MAX_NUM_THREADS: usize = 4;

/// The number of threads of a worker pool on a machine with `cpus`
/// processors: one for each, and at least `MAX_NUM_THREADS`.
pub open spec fn spec_pool_size(cpus: usize) -> usize {
    if cpus >= MAX_NUM_THREADS {
        cpus
    } else {
        MAX_NUM_THREADS
    }
}

/// The number of threads of a worker pool on a machine with `cpus`
/// processors.
#[verifier::when_used_as_spec(spec_pool_size)]
pub fn pool_size(cpus: usize) -> (threads: usize)
    ensures
        threads == spec_pool_size(cpus),
{
    if cpus >= MAX_NUM_THREADS {
        cpus
    } else {
        MAX_NUM_THREADS
    }
}

/// Calls `num_cpus::get`, which counts the logical processors that this
/// process may use. The count differs from machine to machine; the crate's
/// documentation promises that it is at least 1, and no more is claimed.
#[verifier::external_body]
fn available_cpus() -> (cpus: usize)
    ensures
        cpus >= 1,
{
    num_cpus::get()
}

/// The number of threads of a worker pool on this machine.
pub fn num_threads() -> (threads: usize)
    ensures
        threads >= MAX_NUM_THREADS,
        exists|cpus: usize| cpus >= 1 && threads == spec_pool_size(cpus),
{
    let cpus = available_cpus();
    pool_size(cpus)
}

} // verus!
