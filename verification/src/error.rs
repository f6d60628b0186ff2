use crate::text::{debug_quoted, decimal, decimal_string, quote_debug};
use vstd::prelude::*;
use vstd::string::*;

verus! {

/// The kinds of stream failure the in-memory archive can report.
#[derive(Clone, Copy, Debug, PartialEq, Eq, Structural)]
pub enum IoErrorKind {
    /// Fewer bytes were available than a read required.
    UnexpectedEof,
    /// A write position lies beyond what a byte buffer can address.
    InvalidInput,
}

/// A stream failure: its kind and a fixed description.
#[derive(Clone, Copy, Debug)]
pub struct IoError {
    pub kind: IoErrorKind,
    pub message: &'static str,
}

impl IoError {
    /// The error a read reports when the buffer ends before it is filled.
    pub fn unexpected_eof() -> (e: IoError)
        ensures
            e.kind == IoErrorKind::UnexpectedEof,
            e.message@ == "failed to fill whole buffer"@,
    {
        proof {
            reveal_strlit("failed to fill whole buffer");
        }
        IoError { kind: IoErrorKind::UnexpectedEof, message: "failed to fill whole buffer" }
    }
}

/// Every error an archive operation can return.
#[derive(Debug)]
pub enum ArchiveError {
    Io(IoError),
    InvalidData(String),
    InvalidMagic { expected: String, actual: String },
    LengthOverflow { length: u64 },
    /// The encoded value is larger than the configured safety limit.
    LimitExceeded { kind: &'static str, value: u64, limit: u64 },
    /// A chunk payload was not fully consumed by its decoder.
    ChunkNotFullyConsumed { remaining: u64 },
}

pub type ArchiveResult<T> = Result<T, ArchiveError>;

/// `e` is an `InvalidData` error whose message is `msg`.
pub open spec fn is_invalid_data(e: ArchiveError, msg: Seq<char>) -> bool {
    e matches ArchiveError::InvalidData(m) && m@ == msg
}

/// `e` is an I/O error of the given kind.
pub open spec fn is_io(e: ArchiveError, kind: IoErrorKind) -> bool {
    e matches ArchiveError::Io(io) && io.kind == kind
}

/// `e` reports that `value` bytes of `kind` exceed `limit`.
pub open spec fn is_limit_exceeded(e: ArchiveError, kind: Seq<char>, value: u64, limit: u64) -> bool {
    e matches ArchiveError::LimitExceeded { kind: k, value: v, limit: l } && k@ == kind && v == value
        && l == limit
}

/// The text that `ArchiveError::to_string` produces.
pub open spec fn error_text(e: ArchiveError) -> Seq<char> {
    match e {
        ArchiveError::Io(io) => "I/O error: "@ + io.message@,
        ArchiveError::InvalidData(m) => "invalid data: "@ + m@,
        ArchiveError::InvalidMagic { expected, actual } => "invalid magic: expected "@
            + debug_quoted(expected@) + ", actual "@ + debug_quoted(actual@),
        ArchiveError::LengthOverflow { length } => "length is too large for this platform: "@
            + decimal(length as nat),
        ArchiveError::LimitExceeded { kind, value, limit } => kind@ + " is too large: "@ + decimal(
            value as nat,
        ) + " (limit: "@ + decimal(limit as nat) + ")"@,
        ArchiveError::ChunkNotFullyConsumed { remaining } => "chunk decoder left "@ + decimal(
            remaining as nat,
        ) + " bytes unread"@,
    }
}

impl ArchiveError {
    /// Renders the error as text.
    pub fn to_string(&self) -> (s: String)
        ensures
            s@ == error_text(*self),
    {
        match self {
            ArchiveError::Io(io) => {
                let mut s = String::from_str("I/O error: ");
                proof {
                    reveal_strlit("I/O error: ");
                }
                s.append(io.message);
                s
            },
            ArchiveError::InvalidData(message) => {
                let mut s = String::from_str("invalid data: ");
                proof {
                    reveal_strlit("invalid data: ");
                }
                s.append(message.as_str());
                s
            },
            ArchiveError::InvalidMagic { expected, actual } => {
                let mut s = String::from_str("invalid magic: expected ");
                s.append(quote_debug(expected.as_str()).as_str());
                s.append(", actual ");
                s.append(quote_debug(actual.as_str()).as_str());
                proof {
                    reveal_strlit("invalid magic: expected ");
                    reveal_strlit(", actual ");
                }
                s
            },
            ArchiveError::LengthOverflow { length } => {
                let mut s = String::from_str("length is too large for this platform: ");
                s.append(decimal_string(*length).as_str());
                proof {
                    reveal_strlit("length is too large for this platform: ");
                }
                s
            },
            ArchiveError::LimitExceeded { kind, value, limit } => {
                let mut s = String::from_str(*kind);
                s.append(" is too large: ");
                s.append(decimal_string(*value).as_str());
                s.append(" (limit: ");
                s.append(decimal_string(*limit).as_str());
                s.append(")");
                proof {
                    reveal_strlit(" is too large: ");
                    reveal_strlit(" (limit: ");
                    reveal_strlit(")");
                }
                s
            },
            ArchiveError::ChunkNotFullyConsumed { remaining } => {
                let mut s = String::from_str("chunk decoder left ");
                s.append(decimal_string(*remaining).as_str());
                s.append(" bytes unread");
                proof {
                    reveal_strlit("chunk decoder left ");
                    reveal_strlit(" bytes unread");
                }
                s
            },
        }
    }

    /// The underlying stream error, for `Io` errors.
    pub fn source(&self) -> (r: Option<&IoError>)
        ensures
            r is Some <==> *self is Io,
            *self matches ArchiveError::Io(io) ==> r == Some(&io),
    {
        match self {
            ArchiveError::Io(io) => Some(io),
            _ => None,
        }
    }
}

impl From<IoError> for ArchiveError {
    fn from(value: IoError) -> (r: Self) {
        ArchiveError::Io(value)
    }
}

impl vstd::std_specs::convert::FromSpecImpl<IoError> for ArchiveError {
    open spec fn obeys_from_spec() -> bool {
        true
    }

    open spec fn from_spec(value: IoError) -> Self {
        ArchiveError::Io(value)
    }
}

} // verus!
