//! The errors that stop the pagination of one file.

use vstd::prelude::*;

verus! {

/// What went wrong while resolving or configuring a paginated file.
#[derive(Debug, PartialEq, Eq, Structural, Clone, Copy)]
pub enum PageErrorCode {
    /// A page's output path escapes the output directory.
    ParentDir,
    /// The per-page count is not a positive integer.
    InvalidPerPage,
    /// No relative link exists between two pages' directories.
    NoRelativePath,
}

/// An error that stops pagination of one file.
#[derive(Debug)]
pub struct PageError {
    pub relative_path: String,
    pub message: String,
    pub code: PageErrorCode,
}

impl PageError {
    /// The human-readable form: `Error on page <path>: <message>`.
    pub fn describe(&self) -> (r: String)
        ensures
            r@ == "Error on page "@ + self.relative_path@ + ": "@ + self.message@,
    {
        let mut r = String::from_str("Error on page ");
        r.append(self.relative_path.as_str());
        r.append(": ");
        r.append(self.message.as_str());
        r
    }
}

} // verus!
