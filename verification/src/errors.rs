//! The error taxonomy of the substrate.

use vstd::prelude::*;

verus! {

/// Everything that can go wrong in the substrate. Routing failures are
/// fatal to the individual message; handshake and decrypt failures are
/// fatal to the whole channel; a worker fault stops only that worker.
#[derive(Clone, Copy, PartialEq, Eq, Structural, Debug)]
pub enum NodeError {
    /// No worker and no registered scope matches the onward-route head.
    RoutingError,
    /// The address is already bound to a worker.
    RegistrationConflict,
    /// Key agreement failed on an invalid peer key.
    KeyAgreementError,
    /// A handshake proof-of-possession failed verification.
    InvalidProof,
    /// An established channel's decrypt failed authentication.
    AuthenticationFailure,
    /// A replayed or reordered nonce arrived on an established channel.
    SequenceViolation,
    /// An application handler failed; isolated to that worker.
    WorkerFault,
}

} // verus!
