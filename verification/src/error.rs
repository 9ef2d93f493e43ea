//! Error types shared by the codecs.
//!
//! Every failure is a typed variant, so callers can tell a corrupt file from
//! an unsupported version or a broken frequency table.

use vstd::prelude::*;

verus! {

/// Errors reported by the container codecs and the entropy coders.
#[derive(Debug, Clone, PartialEq)]
pub enum CodecError {
    /// The byte stream does not follow the container layout.
    InvalidFormat(String),
    /// The container is well formed but written by an incompatible version.
    UnsupportedVersion(u32),
    /// The payload does not match its integrity data.
    CorruptedData(String),
    /// A frequency interval was empty or out of range during coding.
    EntropyCoding(String),
    /// Decoded bytes are not valid UTF-8.
    Unicode(String),
    /// An error reported by the surrounding storage layer.
    Io(String),
}

/// Errors reported by the bencode parser.
#[derive(Debug, Clone, PartialEq)]
pub enum BencodeError {
    /// The input does not follow the bencode grammar.
    InvalidFormat(String),
    /// The input ended before the value was complete.
    UnexpectedEof,
    /// An integer field held something besides an optional sign and digits.
    InvalidInteger(String),
    /// A byte-string length field was not a valid length.
    InvalidStringLength(String),
}

} // verus!
