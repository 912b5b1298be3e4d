//! The names of the files that describe an index.

use vstd::prelude::*;

verus! {

/// The file that describes the segments of the index.
pub const META_FILE_NAME: &'static str = "meta.json";

/// The file that lists the files that the index manages.
pub const MANAGED_FILE_NAME: &'static str = ".managed.json";

} // verus!
