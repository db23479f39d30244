//! Sizing of the shared worker pool.
use vstd::prelude::*;

verus! {

/// Threads for the shared pool: half the available cores, at least one, and two when
/// the core count is unknown, so parallel scans leave room for the rest of the app.
pub fn pool_thread_count(available: Option<usize>) -> (r: usize)
    ensures
        r == (match available {
            Some(n) => if n / 2 >= 1 {
                n / 2
            } else {
                1
            },
            None => 2,
        }),
        r >= 1,
{
    match available {
        Some(n) => {
            if n / 2 >= 1 {
                n / 2
            } else {
                1
            }
        },
        None => 2,
    }
}

} // verus!
