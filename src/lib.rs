use vstd::prelude::*;

pub mod analyze;
pub mod builder;
pub mod graph;
pub mod patterns;
pub mod redirect;
pub mod roots;
pub mod scan;
pub mod text;
pub mod tsv;
pub mod visited;
pub mod walks;

verus! {

/// Number of worker threads used when no count is given: one less than the
/// number of physical cores, and at least one.
pub fn default_worker_count(physical_cores: usize) -> (r: usize)
    ensures
        r == if physical_cores > 1 { physical_cores - 1 } else { 1 },
{
    if physical_cores > 1 {
        physical_cores - 1
    } else {
        1
    }
}

} // verus!
