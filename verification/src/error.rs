//! The closed taxonomy of failures a call can surface.

use vstd::prelude::*;

verus! {

/// One failure kind, each carrying a best-effort human-readable message.
///
/// Every failure is surfaced as one of these; nothing at this layer
/// panics or retries. `Communication` is the passthrough for
/// network-level failures reported by the transport underneath.
#[derive(Clone, Debug, PartialEq)]
pub enum Error {
    /// The database rejected the statement or the line-protocol payload.
    SyntaxError(String),
    /// The credentials were missing or wrong.
    InvalidCredentials(String),
    /// The addressed database does not exist.
    DataBaseDoesNotExist(String),
    /// The addressed retention policy does not exist.
    RetentionPolicyDoesNotExist(String),
    /// A network-level failure reported by the transport.
    Communication(String),
    /// Any status outside the known table.
    Unknown(String),
}

impl Error {
    /// The message carried by the error, whatever its kind.
    pub open spec fn spec_message(self) -> Seq<char> {
        match self {
            Error::SyntaxError(m) => m@,
            Error::InvalidCredentials(m) => m@,
            Error::DataBaseDoesNotExist(m) => m@,
            Error::RetentionPolicyDoesNotExist(m) => m@,
            Error::Communication(m) => m@,
            Error::Unknown(m) => m@,
        }
    }

    /// The message carried by the error.
    pub fn message(&self) -> (r: &String)
        ensures
            r@ == self.spec_message(),
    {
        match self {
            Error::SyntaxError(m) => m,
            Error::InvalidCredentials(m) => m,
            Error::DataBaseDoesNotExist(m) => m,
            Error::RetentionPolicyDoesNotExist(m) => m,
            Error::Communication(m) => m,
            Error::Unknown(m) => m,
        }
    }
}

} // verus!
