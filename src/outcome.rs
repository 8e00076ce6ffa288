use vstd::prelude::*;

verus! {

/// Why a fact about a process could not be read.
#[derive(Clone, Copy, Debug, PartialEq, Eq, Structural)]
pub enum Failure {
    /// The process does not exist (or no longer does).
    NotFound,
    /// The process exists but the fact could not be read (permissions, a
    /// race with the process exiting, a malformed record).
    Unreadable,
    /// The threads of a process, or their children, could not be listed.
    Enumeration,
}

/// A working directory, as the bytes of its path, or why it could not be read.
pub type Outcome = Result<Vec<u8>, Failure>;

} // verus!
