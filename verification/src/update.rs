//! The typed update record and the error taxonomy of the pipeline.

use vstd::prelude::*;

verus! {

/// Which platform event an update carries.  The payload itself is owned by
/// the platform; the pipeline only routes on the variant and the source chat.
#[derive(Clone, Copy, Debug, PartialEq, Eq, Structural)]
pub enum UpdateKind {
    Message,
    EditedMessage,
    CallbackQuery,
}

/// One inbound event delivered by the messaging platform.
///
/// `update_id` is the platform's monotonically increasing identifier,
/// `chat_id` identifies the source chat, and `kind` the payload variant.
#[derive(Clone, Copy, Debug, PartialEq, Eq, Structural)]
pub struct Update {
    pub update_id: u64,
    pub chat_id: i64,
    pub kind: UpdateKind,
}

/// Why a raw request body was rejected by the codec.  Both variants are
/// recoverable: the request is answered with a client error and dropped.
#[derive(Clone, Copy, Debug, PartialEq, Eq, Structural)]
pub enum DecodeError {
    /// The body is not a well-formed update envelope.
    Malformed,
    /// The envelope is well-formed but names a payload variant the
    /// pipeline does not route.
    UnsupportedVariant,
}

/// A failure reported by the user-supplied handler for one update.  It is
/// recorded and never terminates the dispatch loop.
#[derive(Clone, Copy, Debug, PartialEq, Eq, Structural)]
pub struct HandlerError {
    pub code: u64,
}

} // verus!
