//! Facts about files that the shell reads from file metadata.

use vstd::prelude::*;

verus! {

/// File system helpers.
pub struct FSUtils {}

impl FSUtils {
    /// The helpers.
    pub fn new() -> FSUtils {
        FSUtils {}
    }

    /// Whether a file is executable, from its permission bits (`None` when its
    /// metadata could not be read): some execute bit is set.
    pub fn is_file_executable(&self, mode: Option<u32>) -> (r: Option<bool>)
        ensures
            match mode {
                Some(m) => r == Some(m & 0o111 != 0),
                None => r is None,
            },
    {
        match mode {
            Some(m) => Some(m & 0o111 != 0),
            None => None,
        }
    }
}

} // verus!
