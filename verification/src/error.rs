//! What can go wrong while an archive is read or written.

use vstd::prelude::*;

verus! {

/// The class of a failure that a byte source, a sink or a codec reported.
#[derive(Clone, Copy, Debug, PartialEq, Eq, Structural)]
pub enum IoKind {
    /// The data handed in is not what the format allows.
    InvalidData,
    /// The caller passed an argument the operation cannot take.
    InvalidInput,
    /// The source ended before a complete item could be read.
    UnexpectedEof,
    /// Any other failure.
    Other,
}

/// The error type of `std::io`, which codecs of other crates report.
#[verifier::external_type_specification]
#[verifier::external_body]
pub struct ExIoError(std::io::Error);

/// `std::io::Error::kind`, as the class that this library tells apart.
#[verifier::external_body]
pub(crate) fn io_kind(error: &std::io::Error) -> IoKind {
    match error.kind() {
        std::io::ErrorKind::InvalidData => IoKind::InvalidData,
        std::io::ErrorKind::InvalidInput => IoKind::InvalidInput,
        std::io::ErrorKind::UnexpectedEof => IoKind::UnexpectedEof,
        _ => IoKind::Other,
    }
}

/// Everything that can go wrong while an archive is read or written.
#[derive(Clone, Debug, PartialEq, Eq)]
pub enum Error {
    /// The bytes do not start as a 7z archive does.
    BadSignature,
    /// The CRC of a region is not the one declared for it.
    ChecksumMismatch,
    /// The archive uses a structure that is not supported; the text says which.
    UnsupportedFeature(&'static str),
    /// The method id of a coder is not in the method table.
    UnsupportedCompressionMethod(Vec<u8>),
    /// An AES coder was met and the password is empty.
    PasswordRequired,
    /// Setting up a decoder would need more memory than the caller allows.
    MaxMemLimited { max_kb: usize, actaul_kb: usize },
    /// The metadata is malformed; the text says how.
    Other(&'static str),
    /// A failure of the given class, with a text that says where.
    Io(IoKind, &'static str),
}

impl Error {
    /// An [`Error::Other`] carrying `message`.
    pub fn other(message: &'static str) -> (e: Error)
        ensures
            e == Error::Other(message),
    {
        Error::Other(message)
    }

    /// The error that stands for a failure reported by a codec of another crate;
    /// `message` says where it came up.
    pub fn from_io(error: &std::io::Error, message: &'static str) -> (e: Error)
        ensures
            e matches Error::Io(_, text) && text == message,
    {
        Error::Io(io_kind(error), message)
    }

    /// The text that describes this error to a person.
    pub fn message(&self) -> (text: &'static str)
        ensures
            text == self.spec_message(),
    {
        match self {
            Error::BadSignature => "bad signature",
            Error::ChecksumMismatch => "checksum mismatch",
            Error::UnsupportedFeature(message) => message,
            Error::UnsupportedCompressionMethod(_) => "unsupported compression method",
            Error::PasswordRequired => "password required",
            Error::MaxMemLimited { .. } => "memory limit exceeded",
            Error::Other(message) => message,
            Error::Io(_, message) => message,
        }
    }

    /// What [`Error::message`] returns.
    pub open spec fn spec_message(&self) -> &'static str {
        match self {
            Error::BadSignature => "bad signature",
            Error::ChecksumMismatch => "checksum mismatch",
            Error::UnsupportedFeature(message) => *message,
            Error::UnsupportedCompressionMethod(_) => "unsupported compression method",
            Error::PasswordRequired => "password required",
            Error::MaxMemLimited { .. } => "memory limit exceeded",
            Error::Other(message) => *message,
            Error::Io(_, message) => *message,
        }
    }
}

} // verus!
