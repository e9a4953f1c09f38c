//! Errors of reading and of what was read.
use vstd::prelude::*;

verus! {

/// What kind of failure a read or a file came to.
#[derive(Clone, Copy, Debug, PartialEq, Eq, Structural)]
pub enum FaultKind {
    /// The data is not what its format says.
    InvalidData,
    /// What was asked for is not there to be asked for.
    InvalidInput,
    /// The file ended before the data did.
    UnexpectedEof,
    /// Anything else the system answered.
    Other,
}

/// A failed read, or data that could not be made sense of.
#[derive(Debug)]
pub struct Fault {
    pub kind: FaultKind,
    pub message: String,
}

impl Fault {
    /// Whether this is a fault of kind `kind` that says `message`.
    pub open spec fn says(self, kind: FaultKind, message: Seq<char>) -> bool {
        self.kind == kind && self.message@ == message
    }
}

} // verus!
