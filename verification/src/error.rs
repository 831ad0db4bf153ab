//! The error taxonomy of the store.

use vstd::prelude::*;

verus! {

/// Everything that can go wrong while building or querying the store.
///
/// `Configuration`: no valid layout exists for the given memory and thread
/// constraints. `Io`: a file operation failed; fatal for the running phase.
/// `Serialization`: malformed or truncated record bytes. `NotFound`: a query
/// matched no region; lookups report it as an empty result instead.
#[derive(Clone, Copy, Debug, PartialEq, Eq, Structural)]
pub enum VaultError {
    Configuration,
    Io,
    Serialization,
    NotFound,
}

} // verus!
