//! The plain request payloads shared by several operations.

use vstd::prelude::*;

verus! {

/// A request naming only the repository it concerns.
pub struct ReqOptions {
    pub repo_path: String,
}

} // verus!
