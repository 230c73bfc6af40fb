//! The error taxonomy of the library: kinds, not carriers. I/O details stay
//! with the caller that performed the I/O.

use vstd::prelude::*;

verus! {

/// What went wrong with an operation of the sync core.
#[derive(PartialEq, Eq, Structural, Debug, Clone, Copy)]
pub enum SyncError {
    /// Disk or socket failure, reported by the caller that did the I/O.
    Io,
    /// A malformed frame or JSON body.
    Decode,
    /// A path outside the workspace sandbox.
    Permission,
    /// A reconcile tie; no action is taken.
    Conflict,
    /// A message that the protocol does not allow at this point.
    BadRequest,
    /// A send to a peer that has no connection.
    UnknownPeer,
    /// A send that failed on the wire.
    WriteFailed,
}

} // verus!
