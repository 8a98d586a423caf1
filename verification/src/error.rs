//! The error taxonomy of the codec and the RPC layer.
//!
//! Decoding failures are values, never panics: a malformed or hostile
//! input turns into one of these variants.  Local misuse of a builder is a
//! precondition violation instead and is ruled out by contracts.

use vstd::prelude::*;

verus! {

/// Why a decode or an RPC interaction failed.
#[derive(Clone, Copy, Debug, PartialEq, Eq, Structural)]
pub enum Error {
    /// A pointer cell or a list header did not have the expected shape.
    SchemaMismatch,
    /// A discriminant held a value the schema does not know.
    NotInSchema(u16),
    /// A declared size would exceed the caller-supplied traversal budget.
    TraversalLimitExceeded,
    /// The stream ended inside a frame.
    TruncatedStream,
    /// The stream ended before any byte of a frame arrived.
    EmptyStream,
    /// A pointer target would fall outside every segment.
    PointerOutOfBounds,
    /// The remote peer reported a failure for a call.
    RpcException(u32),
    /// The connection was torn down with calls still outstanding.
    ConnectionClosed,
}

impl Error {
    /// A short human-readable name for the variant.
    pub fn describe(&self) -> (s: &'static str) {
        match self {
            Error::SchemaMismatch => "schema mismatch",
            Error::NotInSchema(_) => "discriminant not in schema",
            Error::TraversalLimitExceeded => "traversal limit exceeded",
            Error::TruncatedStream => "truncated stream",
            Error::EmptyStream => "empty stream",
            Error::PointerOutOfBounds => "pointer out of bounds",
            Error::RpcException(_) => "remote exception",
            Error::ConnectionClosed => "connection closed",
        }
    }
}

} // verus!
