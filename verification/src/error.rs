//! Error values shared by the codec and the batch engine.

use vstd::prelude::*;

verus! {

/// Failure to decode the persisted metadata store: the top-level value is
/// not a sequence, a required field is absent or of the wrong kind for some
/// element, a path field is empty, a key repeats, or the text is not such
/// a document at all. The whole load
/// fails; there is no partial recovery, since a corrupt store cannot be
/// trusted.
#[derive(Clone, Copy, PartialEq, Eq, Structural, Debug)]
pub enum MetadataError {
    InvalidMetadata,
}

/// Mathematical view of an I/O failure report.
pub struct IoErrorView {
    pub path: Seq<char>,
    pub code: int,
}

/// A filesystem failure as the surrounding program reports it: the path that
/// triggered it and the raw OS error code.
#[derive(Clone, Debug, PartialEq)]
pub struct IoErrorInfo {
    pub path: String,
    pub code: i32,
}

impl View for IoErrorInfo {
    type V = IoErrorView;

    open spec fn view(&self) -> IoErrorView {
        IoErrorView { path: self.path@, code: self.code as int }
    }
}

impl IoErrorInfo {
    /// Builds an I/O failure report for `path` with OS error code `code`.
    pub fn new(path: String, code: i32) -> (r: IoErrorInfo)
        ensures
            r@.path == path@,
            r@.code == code as int,
    {
        IoErrorInfo { path, code }
    }

    /// An exact copy of this report.
    pub fn duplicate(&self) -> (r: IoErrorInfo)
        ensures
            r@ == self@,
    {
        IoErrorInfo { path: self.path.clone(), code: self.code }
    }
}

} // verus!
