//! Finds files with identical content under a directory tree by grouping
//! them on a content fingerprint, and ranks the groups by size.
use vstd::prelude::*;

pub mod aggregate;
pub mod fingerprint;
pub mod laws;
pub mod scan;

verus! {

} // verus!
