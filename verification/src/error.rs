//! Shared error types.

use vstd::prelude::*;

verus! {

/// Top-level error type for adapter operations.
///
/// Adapters translate their internal errors (HTTP, XML, OAuth) into one of
/// these variants so the caller can handle them uniformly.
#[derive(Debug, Clone, PartialEq, Eq)]
pub enum Error {
    Authentication(String),
    Forbidden(String),
    NotFound(String),
    Conflict(String),
    Network(String),
    Protocol(String),
    InvalidInput(String),
    Unsupported(String),
    Internal(String),
}

impl Error {
    pub fn authentication(msg: &str) -> (r: Error)
        ensures
            r matches Error::Authentication(text) && text@ == msg@,
    {
        Error::Authentication(msg.to_owned())
    }

    pub fn network(msg: &str) -> (r: Error)
        ensures
            r matches Error::Network(text) && text@ == msg@,
    {
        Error::Network(msg.to_owned())
    }

    pub fn protocol(msg: &str) -> (r: Error)
        ensures
            r matches Error::Protocol(text) && text@ == msg@,
    {
        Error::Protocol(msg.to_owned())
    }

    pub fn invalid_input(msg: &str) -> (r: Error)
        ensures
            r matches Error::InvalidInput(text) && text@ == msg@,
    {
        Error::InvalidInput(msg.to_owned())
    }

    pub fn unsupported(msg: &str) -> (r: Error)
        ensures
            r matches Error::Unsupported(text) && text@ == msg@,
    {
        Error::Unsupported(msg.to_owned())
    }

    pub fn internal(msg: &str) -> (r: Error)
        ensures
            r matches Error::Internal(text) && text@ == msg@,
    {
        Error::Internal(msg.to_owned())
    }

    /// What the message of an error says.
    pub open spec fn said(self) -> Seq<char> {
        match self {
            Error::Authentication(text) => "authentication failed: "@ + text@,
            Error::Forbidden(text) => "access denied: "@ + text@,
            Error::NotFound(text) => "resource not found: "@ + text@,
            Error::Conflict(text) => "conflict (ETag / precondition failed): "@ + text@,
            Error::Network(text) => "network error: "@ + text@,
            Error::Protocol(text) => "protocol error: "@ + text@,
            Error::InvalidInput(text) => "invalid input: "@ + text@,
            Error::Unsupported(text) => "operation not supported by adapter: "@ + text@,
            Error::Internal(text) => "internal error: "@ + text@,
        }
    }

    /// The message of the error: what went wrong, then the detail.
    pub fn message(&self) -> (r: String)
        ensures
            r@ == self.said(),
    {
        let (kind, text) = match self {
            Error::Authentication(text) => ("authentication failed: ", text),
            Error::Forbidden(text) => ("access denied: ", text),
            Error::NotFound(text) => ("resource not found: ", text),
            Error::Conflict(text) => ("conflict (ETag / precondition failed): ", text),
            Error::Network(text) => ("network error: ", text),
            Error::Protocol(text) => ("protocol error: ", text),
            Error::InvalidInput(text) => ("invalid input: ", text),
            Error::Unsupported(text) => ("operation not supported by adapter: ", text),
            Error::Internal(text) => ("internal error: ", text),
        };
        let mut out = kind.to_owned();
        out.append(text.as_str());
        out
    }
}

} // verus!
