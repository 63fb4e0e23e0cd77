//! How many files are encoded at a time: the worker count, and the start of
//! the process-wide worker pool of that size.

use crate::error::CodecError;
use vstd::prelude::*;

verus! {

/// The worker count for `file_count` files on a machine that runs
/// `hardware_concurrency` threads at a time: one when encoding is
/// sequential, else the smaller of the two numbers, and never zero.
pub open spec fn worker_count(
    parallel_enabled: bool,
    file_count: nat,
    hardware_concurrency: nat,
) -> nat {
    let bound = if file_count <= hardware_concurrency {
        file_count
    } else {
        hardware_concurrency
    };
    if !parallel_enabled || bound == 0 {
        1
    } else {
        bound
    }
}

/// The number of workers to run.
pub fn choose_worker_count(
    parallel_enabled: bool,
    file_count: usize,
    hardware_concurrency: usize,
) -> (workers: usize)
    ensures
        workers == worker_count(parallel_enabled, file_count as nat, hardware_concurrency as nat),
        workers >= 1,
{
    if !parallel_enabled {
        return 1;
    }
    let bound: usize = if file_count <= hardware_concurrency {
        file_count
    } else {
        hardware_concurrency
    };
    if bound == 0 {
        1
    } else {
        bound
    }
}

/// The error with which rayon reports that a pool could not be built.
#[verifier::external_type_specification]
#[verifier::external_body]
pub struct ExThreadPoolBuildError(rayon::ThreadPoolBuildError);

/// `ThreadPoolBuilder::build_global` of rayon, on a builder that asks for
/// `threads` threads. Whether it succeeds depends on the process: the
/// global pool can be set up only once, and its threads have to start.
/// Nothing is claimed of the result.
#[verifier::external_body]
fn build_global_pool(threads: usize) -> (built: Result<(), rayon::ThreadPoolBuildError>)
    requires
        threads >= 1,
{
    rayon::ThreadPoolBuilder::new().num_threads(threads).build_global()
}

/// What the set-up of a pool of `threads` workers comes to, given what the
/// pool builder answered: the worker count where the pool stands, else
/// [`CodecError::WorkerPool`].
pub fn pool_outcome(threads: usize, built: Result<(), rayon::ThreadPoolBuildError>) -> (r: Result<
    usize,
    CodecError,
>)
    ensures
        built is Ok ==> r == Ok::<usize, CodecError>(threads),
        built is Err ==> r == Err::<usize, CodecError>(CodecError::WorkerPool),
{
    match built {
        Ok(()) => Ok(threads),
        Err(_) => Err(CodecError::WorkerPool),
    }
}

/// Sets up the process-wide worker pool for `file_count` files and returns
/// its size. `hardware_concurrency` is what the machine reported, or
/// nothing where the query failed; that failure counts only when encoding is
/// parallel, and then no pool is started.
pub fn configure_thread_pool(
    multithreaded: bool,
    file_count: usize,
    hardware_concurrency: Option<usize>,
) -> (r: Result<usize, CodecError>)
    ensures
        multithreaded && hardware_concurrency is None ==> r == Err::<usize, CodecError>(
            CodecError::Configuration,
        ),
        !(multithreaded && hardware_concurrency is None) ==> r == Ok::<usize, CodecError>(
            worker_count(
                multithreaded,
                file_count as nat,
                hardware_concurrency.unwrap_or(1) as nat,
            ) as usize,
        ) || r == Err::<usize, CodecError>(CodecError::WorkerPool),
{
    let hardware: usize = match hardware_concurrency {
        Some(n) => n,
        None => {
            if multithreaded {
                return Err(CodecError::Configuration);
            }
            1
        },
    };
    let threads: usize = choose_worker_count(multithreaded, file_count, hardware);
    pool_outcome(threads, build_global_pool(threads))
}

} // verus!
