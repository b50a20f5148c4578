//! The record a scanned regular file is carried through the pipeline as.

use vstd::prelude::*;

verus! {

/// Processing state of a scanned file: every file starts `Unprocessed` and
/// is switched to `SwProcessed` exactly once, when the digest stage picks
/// it out of its size bucket.
#[derive(Debug, Clone, Copy, PartialEq, Eq, Structural)]
pub enum FileState {
    Unprocessed,
    SwProcessed,
}

/// One scanned regular file: its path, byte length and modification time
/// as the walker observed them, plus the processing flag.  Only the flag
/// is ever mutated.
#[derive(Debug, Clone)]
pub struct FileInfo {
    pub path: String,
    pub size: u64,
    pub modified: i64,
    pub state: FileState,
}

/// Abstract value of a `FileInfo`.
pub ghost struct FileRec {
    pub path: Seq<char>,
    pub size: u64,
    pub modified: i64,
    pub state: FileState,
}

impl View for FileInfo {
    type V = FileRec;

    open spec fn view(&self) -> FileRec {
        FileRec { path: self.path@, size: self.size, modified: self.modified, state: self.state }
    }
}

impl FileInfo {
    /// A freshly scanned file: the walker hands in what `stat` reported.
    pub fn new(path: String, size: u64, modified: i64) -> (r: Self)
        ensures
            r@ == (FileRec { path: path@, size, modified, state: FileState::Unprocessed }),
    {
        Self { path, size, modified, state: FileState::Unprocessed }
    }

    /// A field-for-field copy whose abstract value is the same.
    pub fn duplicate(&self) -> (r: Self)
        ensures
            r@ == self@,
    {
        Self {
            path: self.path.clone(),
            size: self.size,
            modified: self.modified,
            state: self.state,
        }
    }

    /// Marks the file as taken by the digest stage.
    pub fn sw_processed(&mut self)
        ensures
            final(self)@ == (FileRec { state: FileState::SwProcessed, ..old(self)@ }),
    {
        self.state = FileState::SwProcessed;
    }

    pub fn is_sw_processed(&self) -> (r: bool)
        ensures
            r == (self.state == FileState::SwProcessed),
    {
        self.state == FileState::SwProcessed
    }
}

} // verus!
