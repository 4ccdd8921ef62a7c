//! Version shared by the project-local metadata stores.
use vstd::prelude::*;

verus! {

/// Schema version written into every metadata store.
pub fn store_version() -> (r: u32)
    ensures
        r == 1,
{
    1
}

} // verus!
