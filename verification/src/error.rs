//! The error type of the library.
//!
//! An [`Error`] is a boxed [`ErrorKind`], so results stay pointer-sized on the
//! hot paths. Every failure carries only plain values: an I/O fault from the
//! byte source or sink is recorded as an [`IoError`] (its category and text),
//! which the application layer converts to and from `std::io::Error`.
use vstd::prelude::*;

use crate::durability::SyncMode;

verus! {

/// The category of an I/O fault, mirroring the standard categories (any
/// other category is `Other`).
#[derive(Debug, Clone, Copy, PartialEq, Eq, Structural)]
pub enum IoErrorKind {
    NotFound,
    PermissionDenied,
    ConnectionRefused,
    ConnectionReset,
    ConnectionAborted,
    NotConnected,
    AddrInUse,
    AddrNotAvailable,
    AlreadyExists,
    TimedOut,
    Unsupported,
    OutOfMemory,
    Interrupted,
    UnexpectedEof,
    WriteZero,
    InvalidData,
    InvalidInput,
    WouldBlock,
    BrokenPipe,
    Other,
}

/// An I/O fault reported by a byte source or sink.
#[derive(Debug, Clone)]
pub struct IoError {
    pub kind: IoErrorKind,
    pub message: String,
}

impl IoError {
    /// An I/O fault of the given category and description.
    pub fn new(kind: IoErrorKind, message: &str) -> (r: IoError)
        ensures
            r.kind == kind,
            r.message@ == message@,
    {
        IoError { kind, message: message.to_owned() }
    }
}

/// The failure categories. Obtained from [`Error::kind`].
#[derive(Debug)]
pub enum ErrorKind {
    /// An I/O fault of the underlying source or sink.
    Io(IoError),
    /// The checksum stored in a frame does not match the one computed over its payload.
    ChecksumMismatch { expected: u64, calculated: u64 },
    /// A malformed frame (oversized length, configured limit exceeded, ...).
    InvalidFrame {
        message: String,
        declared_len: Option<usize>,
        buffer_len: Option<usize>,
        limit: Option<usize>,
    },
    /// A FlatBuffers verifier rejected a payload.
    Flatbuffers { reason: String },
    /// A configured validator rejected a payload.
    ValidationFailed { validator: &'static str, reason: String },
    /// The stream ended inside a frame.
    UnexpectedEof,
    /// A poisoned writer or reader rejected the operation.
    Poisoned,
    /// A frame was accepted by the sink, but its durability checkpoint failed.
    DurabilityFailed {
        mode: SyncMode,
        attempted_watermark: u64,
        previous_watermark: Option<u64>,
        frame_start: Option<u64>,
        wire_len: Option<u64>,
        source: IoError,
    },
}

/// The library's error: a boxed [`ErrorKind`].
#[derive(Debug)]
pub struct Error(pub Box<ErrorKind>);

impl Error {
    /// The kind of failure this error represents (specification view).
    pub open spec fn spec_kind(&self) -> ErrorKind {
        *self.0
    }

    /// Whether this error is an I/O fault.
    pub open spec fn is_io(&self) -> bool {
        self.spec_kind() is Io
    }

    /// Whether this error reports the end of input inside a frame.
    pub open spec fn is_unexpected_eof(&self) -> bool {
        self.spec_kind() is UnexpectedEof
    }

    /// Whether this error reports a malformed frame.
    pub open spec fn is_invalid_frame(&self) -> bool {
        self.spec_kind() is InvalidFrame
    }

    /// Whether this error reports a malformed frame with this declared length
    /// and limit, and no buffer length.
    pub open spec fn is_invalid_frame_with(&self, declared: Option<usize>, limit: Option<usize>) -> bool {
        self.spec_kind() matches ErrorKind::InvalidFrame { declared_len, buffer_len, limit: l, .. }
            && declared_len == declared && buffer_len is None && l == limit
    }

    /// Whether this error is a validator's rejection.
    pub open spec fn is_validation_failure(&self) -> bool {
        self.spec_kind() is ValidationFailed
    }

    /// Whether this error is the rejection of a poisoned writer or reader.
    pub open spec fn is_poisoned(&self) -> bool {
        self.spec_kind() is Poisoned
    }

    /// Whether this error reports a checksum mismatch with these values.
    pub open spec fn is_checksum_mismatch(&self, expected: u64, calculated: u64) -> bool {
        self.spec_kind() == (ErrorKind::ChecksumMismatch { expected, calculated })
    }

    /// Returns the kind of failure this error represents.
    pub fn kind(&self) -> (r: &ErrorKind)
        ensures
            *r == self.spec_kind(),
    {
        &self.0
    }

    /// Consumes the error, returning its kind.
    pub fn into_kind(self) -> (r: ErrorKind)
        ensures
            r == self.spec_kind(),
    {
        *self.0
    }

    /// Wraps an error kind.
    pub fn from_kind(kind: ErrorKind) -> (r: Error)
        ensures
            r.spec_kind() == kind,
    {
        Error(Box::new(kind))
    }

    /// Creates an `InvalidFrame` error with a descriptive message.
    pub fn invalid_frame(message: &str) -> (r: Error)
        ensures
            r.spec_kind() matches ErrorKind::InvalidFrame { message: m, declared_len, buffer_len, limit }
                && m@ == message@ && declared_len is None && buffer_len is None && limit is None,
    {
        Error::from_kind(
            ErrorKind::InvalidFrame {
                message: message.to_owned(),
                declared_len: None,
                buffer_len: None,
                limit: None,
            },
        )
    }

    /// Creates an `InvalidFrame` error with contextual details.
    pub fn invalid_frame_with(
        message: &str,
        declared_len: Option<usize>,
        buffer_len: Option<usize>,
        limit: Option<usize>,
    ) -> (r: Error)
        ensures
            r.spec_kind() matches ErrorKind::InvalidFrame { message: m, declared_len: d, buffer_len: b, limit: l }
                && m@ == message@ && d == declared_len && b == buffer_len && l == limit,
    {
        Error::from_kind(
            ErrorKind::InvalidFrame { message: message.to_owned(), declared_len, buffer_len, limit },
        )
    }

    /// Creates a `ChecksumMismatch` error with expected and calculated values.
    pub fn checksum_mismatch(expected: u64, calculated: u64) -> (r: Error)
        ensures
            r.is_checksum_mismatch(expected, calculated),
    {
        Error::from_kind(ErrorKind::ChecksumMismatch { expected, calculated })
    }

    /// Creates a `ValidationFailed` error for the named validator.
    pub fn validation_failed(validator: &'static str, reason: &str) -> (r: Error)
        ensures
            r.spec_kind() matches ErrorKind::ValidationFailed { validator: v, reason: m }
                && v == validator && m@ == reason@,
    {
        Error::from_kind(ErrorKind::ValidationFailed { validator, reason: reason.to_owned() })
    }

    /// Creates an `UnexpectedEof` error (end of input inside a frame).
    pub fn unexpected_eof() -> (r: Error)
        ensures
            r.is_unexpected_eof(),
    {
        Error::from_kind(ErrorKind::UnexpectedEof)
    }

    /// Creates the rejection a poisoned writer or reader returns.
    pub fn poisoned() -> (r: Error)
        ensures
            r.is_poisoned(),
    {
        Error::from_kind(ErrorKind::Poisoned)
    }

    /// Wraps an I/O fault.
    pub fn io(source: IoError) -> (r: Error)
        ensures
            r.spec_kind() == ErrorKind::Io(source),
    {
        Error::from_kind(ErrorKind::Io(source))
    }

    /// Creates an error for a failed durability checkpoint.
    pub fn durability_failed(
        mode: SyncMode,
        attempted_watermark: u64,
        previous_watermark: Option<u64>,
        frame_start: Option<u64>,
        wire_len: Option<u64>,
        source: IoError,
    ) -> (r: Error)
        ensures
            r.spec_kind() == (ErrorKind::DurabilityFailed {
                mode,
                attempted_watermark,
                previous_watermark,
                frame_start,
                wire_len,
                source,
            }),
    {
        Error::from_kind(
            ErrorKind::DurabilityFailed {
                mode,
                attempted_watermark,
                previous_watermark,
                frame_start,
                wire_len,
                source,
            },
        )
    }
}

} // verus!
