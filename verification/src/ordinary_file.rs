//! A file of a music directory that is no music file.

use vstd::prelude::*;

verus! {

/// A file without a music extension: it has no tags and can only be removed.
pub struct OrdinaryFile {
    /// Where the file is.
    pub path: String,
}

impl OrdinaryFile {
    /// The ordinary file at `path`.
    pub fn new(path: String) -> (res: OrdinaryFile)
        ensures
            res.path == path,
    {
        OrdinaryFile { path }
    }
}

} // verus!
