//! Errors of a command exchange.
use vstd::prelude::*;

verus! {

/// The ways a command exchange can fail, as seen by the caller of a client.
#[derive(Clone, Copy, Debug, PartialEq, Eq, Structural)]
pub enum Error {
    /// Reading from the serial link failed.
    Read,
    /// Writing to the serial link failed.
    Write,
    /// The device did not answer in time.
    Timeout,
    /// The answer could not be understood as a response.
    InvalidResponse,
    /// The command was aborted.
    Aborted,
    /// The command's parser rejected the response.
    Parse,
    /// The device answered with a plain `ERROR`.
    Error,
    /// The device answered with `+CME ERROR: <code>`.
    CmeError(u16),
    /// The device answered with `+CMS ERROR: <code>`.
    CmsError(u16),
    /// The device reported a broken connection.
    ConnectionError(u8),
    /// The device answered with an error that a custom digester recognised.
    Custom,
}

/// An error as the digester reports it, still borrowing the bytes of a custom
/// error response from the receive buffer.
#[derive(Clone, Copy, Debug, PartialEq, Eq)]
pub enum InternalError<'a> {
    Read,
    Write,
    Timeout,
    InvalidResponse,
    Aborted,
    Parse,
    Error,
    CmeError(u16),
    CmsError(u16),
    ConnectionError(u8),
    Custom(&'a [u8]),
}

/// The caller-facing error that an internal error becomes: every variant
/// keeps its name and code, and a custom error drops its bytes.
pub open spec fn public_error(e: InternalError<'_>) -> Error {
    match e {
        InternalError::Read => Error::Read,
        InternalError::Write => Error::Write,
        InternalError::Timeout => Error::Timeout,
        InternalError::InvalidResponse => Error::InvalidResponse,
        InternalError::Aborted => Error::Aborted,
        InternalError::Parse => Error::Parse,
        InternalError::Error => Error::Error,
        InternalError::CmeError(c) => Error::CmeError(c),
        InternalError::CmsError(c) => Error::CmsError(c),
        InternalError::ConnectionError(c) => Error::ConnectionError(c),
        InternalError::Custom(_) => Error::Custom,
    }
}

impl<'a> From<InternalError<'a>> for Error {
    fn from(e: InternalError<'a>) -> (r: Error) {
        match e {
            InternalError::Read => Error::Read,
            InternalError::Write => Error::Write,
            InternalError::Timeout => Error::Timeout,
            InternalError::InvalidResponse => Error::InvalidResponse,
            InternalError::Aborted => Error::Aborted,
            InternalError::Parse => Error::Parse,
            InternalError::Error => Error::Error,
            InternalError::CmeError(c) => Error::CmeError(c),
            InternalError::CmsError(c) => Error::CmsError(c),
            InternalError::ConnectionError(c) => Error::ConnectionError(c),
            InternalError::Custom(_) => Error::Custom,
        }
    }
}

impl<'a> vstd::std_specs::convert::FromSpecImpl<InternalError<'a>> for Error {
    open spec fn obeys_from_spec() -> bool {
        true
    }

    open spec fn from_spec(e: InternalError<'a>) -> Error {
        public_error(e)
    }
}

/// Converting an internal error keeps its kind and its code; only a custom
/// error's bytes are dropped.
pub proof fn lemma_public_error_keeps_kind(c16: u16, c8: u8, bytes: &[u8])
    ensures
        public_error(InternalError::Read) == Error::Read,
        public_error(InternalError::Write) == Error::Write,
        public_error(InternalError::Timeout) == Error::Timeout,
        public_error(InternalError::InvalidResponse) == Error::InvalidResponse,
        public_error(InternalError::Aborted) == Error::Aborted,
        public_error(InternalError::Parse) == Error::Parse,
        public_error(InternalError::Error) == Error::Error,
        public_error(InternalError::CmeError(c16)) == Error::CmeError(c16),
        public_error(InternalError::CmsError(c16)) == Error::CmsError(c16),
        public_error(InternalError::ConnectionError(c8)) == Error::ConnectionError(c8),
        public_error(InternalError::Custom(bytes)) == Error::Custom,
{
}

} // verus!
