//! The failure kinds of the protocol layer.

use vstd::prelude::*;

verus! {

/// Everything that can go wrong while serving one connection. Parse
/// failures come from the request parser; `DispatchFailure` from routing;
/// `IoFailure` stands for a socket fault reported by the caller.
#[derive(Clone, Copy, Debug, PartialEq, Eq, Structural)]
pub enum HttpError {
    MalformedRequestLine,
    InvalidMethod,
    InvalidContentLength,
    TruncatedBody,
    DispatchFailure,
    IoFailure,
}

impl HttpError {
    /// The text used as the body of a 500 response for this error.
    pub open spec fn spec_message(self) -> Seq<char> {
        match self {
            HttpError::MalformedRequestLine => "malformed request line"@,
            HttpError::InvalidMethod => "invalid method"@,
            HttpError::InvalidContentLength => "invalid content length"@,
            HttpError::TruncatedBody => "content length exceeds buffer length"@,
            HttpError::DispatchFailure => "failed to dispatch request"@,
            HttpError::IoFailure => "connection i/o failed"@,
        }
    }

    /// A human-readable description of the error.
    pub fn message(&self) -> (r: String)
        ensures
            r@ == self.spec_message(),
    {
        match self {
            HttpError::MalformedRequestLine => String::from_str("malformed request line"),
            HttpError::InvalidMethod => String::from_str("invalid method"),
            HttpError::InvalidContentLength => String::from_str("invalid content length"),
            HttpError::TruncatedBody => String::from_str("content length exceeds buffer length"),
            HttpError::DispatchFailure => String::from_str("failed to dispatch request"),
            HttpError::IoFailure => String::from_str("connection i/o failed"),
        }
    }
}

} // verus!
