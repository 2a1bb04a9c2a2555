use vstd::prelude::*;

verus! {

/// The two ways in which a write can be refused. Either way the structure
/// written to is left exactly as it was.
#[derive(Debug, Clone, Copy, PartialEq, Eq, Structural)]
pub enum ContextError {
    /// The write's context is not strictly after the latest context already
    /// recorded in the history it addresses.
    NonMonotonicContext,
    /// The value is live under some key, and the write's policy forbids
    /// taking it over.
    ValueAlreadyOwned,
}

} // verus!
