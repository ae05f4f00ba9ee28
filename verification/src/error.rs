//! The error kinds that encoding or decoding can return. Every failure on
//! untrusted input is reported as one of these values; the codec never
//! panics on any input.

use vstd::prelude::*;

verus! {

/// An error raised while encoding or decoding NBT data.
#[derive(Debug, Copy, Clone, PartialEq, Eq, Structural)]
pub enum NbtError {
    /// A tag discriminant byte above the highest defined discriminant (12).
    TypeOutOfRange { actual: u8 },
    /// The input ended in the middle of a value, or a declared length
    /// exceeds the bytes that remain.
    UnexpectedEof,
    /// A string payload whose bytes are not valid UTF-8.
    InvalidUtf8,
    /// A varint ran past its maximum width without terminating.
    VarintTooLong,
    /// A sequence or string is longer than the active length policy can
    /// encode.
    SequenceTooLong,
    /// An `End` tag where a value tag was required: as the root tag, or as
    /// the element tag of a non-empty list.
    UnexpectedEndTag,
    /// Nesting of compounds and lists deeper than the configured limit.
    DepthLimitExceeded,
    /// Bytes remain after the root value; only raised in strict mode.
    TrailingBytes,
}

impl NbtError {
    /// A short, stable name for the error kind.
    pub fn kind_name(&self) -> (r: &'static str)
    {
        match self {
            NbtError::TypeOutOfRange { .. } => "type out of range",
            NbtError::UnexpectedEof => "unexpected end of input",
            NbtError::InvalidUtf8 => "invalid utf-8",
            NbtError::VarintTooLong => "varint too long",
            NbtError::SequenceTooLong => "sequence too long",
            NbtError::UnexpectedEndTag => "unexpected end tag",
            NbtError::DepthLimitExceeded => "depth limit exceeded",
            NbtError::TrailingBytes => "trailing bytes",
        }
    }
}

} // verus!
