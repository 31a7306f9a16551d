use vstd::prelude::*;

verus! {

/// Why a run aborts.
///
/// `Transport` is a network or protocol failure while fetching a page,
/// `Decode` a page payload that cannot be parsed into records,
/// `ContractViolation` a page that breaks the page source's contract (out of
/// ascending order or outside the requested window), and `Io` a failure while
/// persisting a flushed batch. Any of them ends the run immediately.
#[derive(Clone, Copy, PartialEq, Eq, Structural, Debug)]
pub enum RunError {
    Transport,
    Decode,
    ContractViolation,
    Io,
}

} // verus!
