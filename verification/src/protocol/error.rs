use vstd::prelude::*;
use vstd::string::StringExecFns;
use crate::utils::text::{decimal, decimal_text};

verus! {

/// Why a handshake or a frame was refused. Each of these ends the session.
#[derive(Debug, Clone, Copy, PartialEq, Eq)]
pub enum ProtocolError {
    /// The handshake does not start with the protocol magic.
    InvalidMagic,
    /// The peer speaks a version this side does not.
    UnsupportedVersion(u16),
    /// The payload is longer than the header's length field can say.
    FrameTooLarge(usize),
    /// The header's length field disagrees with the payload at hand.
    InvalidHeader,
    /// The header names a frame type that the protocol does not define.
    UnexpectedFrameType(u8),
    /// The buffer ends before the layout does.
    Truncated,
    /// The payload's CRC-32 is not the one the header carries.
    ChecksumMismatch,
    /// A key is not valid UTF-8.
    InvalidKey,
}

/// The text that describes an error.
pub open spec fn error_text(e: ProtocolError) -> Seq<char> {
    match e {
        ProtocolError::InvalidMagic => "invalid protocol magic"@,
        ProtocolError::UnsupportedVersion(v) => "unsupported protocol version "@ + decimal(v as nat),
        ProtocolError::FrameTooLarge(size) => "frame too large: "@ + decimal(size as nat),
        ProtocolError::InvalidHeader => "invalid frame header"@,
        ProtocolError::UnexpectedFrameType(t) => "unexpected frame type "@ + decimal(t as nat),
        ProtocolError::Truncated => "truncated frame"@,
        ProtocolError::ChecksumMismatch => "checksum mismatch"@,
        ProtocolError::InvalidKey => "key is not valid UTF-8"@,
    }
}

impl ProtocolError {
    /// A description of the error for logs and diagnostics.
    pub fn message(&self) -> (s: String)
        ensures
            s@ == error_text(*self),
    {
        match *self {
            ProtocolError::InvalidMagic => String::from_str("invalid protocol magic"),
            ProtocolError::UnsupportedVersion(v) => {
                let head: String = String::from_str("unsupported protocol version ");
                head.concat(decimal_text(v as u64).as_str())
            },
            ProtocolError::FrameTooLarge(size) => {
                let head: String = String::from_str("frame too large: ");
                head.concat(decimal_text(size as u64).as_str())
            },
            ProtocolError::InvalidHeader => String::from_str("invalid frame header"),
            ProtocolError::UnexpectedFrameType(t) => {
                let head: String = String::from_str("unexpected frame type ");
                head.concat(decimal_text(t as u64).as_str())
            },
            ProtocolError::Truncated => String::from_str("truncated frame"),
            ProtocolError::ChecksumMismatch => String::from_str("checksum mismatch"),
            ProtocolError::InvalidKey => String::from_str("key is not valid UTF-8"),
        }
    }
}

} // verus!
