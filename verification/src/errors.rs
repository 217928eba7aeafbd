//! The harness error taxonomy: a transient "no leader found" answer and the
//! fatal wall-clock budget violation.

use vstd::prelude::*;

verus! {

/// Every failure a harness operation can report.
#[derive(Clone, Copy, Debug, PartialEq, Eq, Structural)]
pub enum Error {
    /// No live server slot currently reports itself leader; transient and
    /// expected during elections.
    NoLeader,
    /// The wall-clock budget measured from construction of the cluster
    /// configuration has been exceeded; fatal to the test run.
    TestBudgetExceeded,
}

impl Error {
    /// A short stable description, usable by unverified callers for display.
    pub fn describe(&self) -> (r: &'static str)
        ensures
            self is NoLeader ==> r@ == "no leader found"@,
            self is TestBudgetExceeded ==> r@ == "test budget exceeded"@,
    {
        match self {
            Error::NoLeader => "no leader found",
            Error::TestBudgetExceeded => "test budget exceeded",
        }
    }
}

} // verus!
