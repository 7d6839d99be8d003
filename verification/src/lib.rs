//! A verified model of a secure, multi-hop messaging substrate.
//!
//! Addressable workers exchange routed envelopes; a router forwards each
//! envelope along its onward route while accumulating a return route, and
//! secure channels — established by a mutually authenticated handshake —
//! are themselves addressable hops, so channels nest inside other channels'
//! routes, layering encryption that is peeled in mirrored order.
//!
//! The cryptographic primitives are symbolic stand-ins with exact algebraic
//! contracts; the concrete key agreement, AEAD and signature constructions
//! are outside this library's scope.

pub mod channel;
pub mod codec;
pub mod errors;
pub mod node;
pub mod routing;
pub mod vault;
pub mod wire;
