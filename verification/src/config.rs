//! The defaults of the cache: how far to look ahead, how much to keep, and
//! how many workers to load with.

use vstd::prelude::*;

verus! {

/// How many files beyond the cursor are loaded ahead, by default.
pub const DEFAULT_LOOKAHEAD: usize = 5;

/// The default target of the cache of uploaded bitmaps, in bytes.
pub const DEFAULT_BMP_CACHE_SIZE: usize = 512 * 1024 * 1024;

/// The default target of the cache of decoded images, in bytes.
pub const DEFAULT_IMAGE_CACHE_SIZE: usize = 1024 * 1024 * 1024;

/// The number of workers for a machine with `cpus` processors: half of
/// them, but at least one, and no more than there are files to look ahead
/// to.
pub open spec fn workers_for(cpus: nat, lookahead: nat) -> nat {
    let half = cpus / 2;
    if half == 0 {
        1
    } else if half >= lookahead {
        lookahead
    } else {
        half
    }
}

/// Returns the number of workers for a machine with `cpus` processors.
pub fn worker_threads(cpus: usize, lookahead: usize) -> (workers: usize)
    ensures
        workers == workers_for(cpus as nat, lookahead as nat),
{
    let half = cpus / 2;
    if half == 0 {
        1
    } else if half >= lookahead {
        lookahead
    } else {
        half
    }
}

/// Asks `num_cpus::get` for the number of processors at hand. The number
/// depends on the machine and on the moment, so nothing is promised of it.
#[verifier::external_body]
fn available_cpus() -> (cpus: usize) {
    num_cpus::get()
}

/// Returns the number of workers for this machine and the default
/// lookahead. Whatever the number of processors is, there is at least one
/// worker, and there are no more than the lookahead.
pub fn default_worker_threads() -> (workers: usize)
    ensures
        exists|cpus: nat| workers == workers_for(cpus, DEFAULT_LOOKAHEAD as nat),
        1 <= workers <= DEFAULT_LOOKAHEAD,
{
    let cpus = available_cpus();
    worker_threads(cpus, DEFAULT_LOOKAHEAD)
}

} // verus!
