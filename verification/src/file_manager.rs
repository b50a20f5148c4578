//! The lightweight file record the reporting side works with.

use vstd::prelude::*;

verus! {

/// A file as the output and deletion layers see it: its path, its size
/// when one was read, and its digest rendered as text once computed.
#[derive(Debug, Clone)]
pub struct File {
    pub path: String,
    pub size: Option<u64>,
    pub hash: Option<String>,
}

} // verus!
