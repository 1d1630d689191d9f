//! The failures a connection can report.
use vstd::prelude::*;

verus! {

/// What the remote side reported when a method failed.
#[derive(Debug, Clone, PartialEq, Eq)]
pub struct ErrorObject {
    pub code: i64,
    pub message: String,
}

/// An [`ErrorObject`] as the proofs see it.
pub struct ErrorObjectView {
    pub code: i64,
    pub message: Seq<char>,
}

impl View for ErrorObject {
    type V = ErrorObjectView;

    open spec fn view(&self) -> ErrorObjectView {
        ErrorObjectView { code: self.code, message: self.message@ }
    }
}

/// How an operation of the connection failed.
#[derive(Debug, Clone, PartialEq, Eq)]
pub enum RpcError {
    /// The incoming bytes of a frame are not UTF-8; fatal to the connection.
    Framing,
    /// Connecting or moving bytes failed; fatal to the connection.
    Transport(String),
    /// The remote method reported a failure; only its caller sees it.
    Application(ErrorObject),
    /// The connection is gone; every outstanding operation sees it once.
    Closed,
    /// Every request identifier has been handed out.
    IdsExhausted,
    /// No subscription with that identifier is registered.
    UnknownSubscription,
}

} // verus!
