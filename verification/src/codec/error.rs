//! The ways the codec refuses its input.

use crate::text::{decimal, prefixed_hex, push_decimal, push_prefixed_hex};
use vstd::prelude::*;
use vstd::string::*;

verus! {

/// Why a compressed stream, or a request to make one, was refused.
#[derive(Debug, Clone, Copy, PartialEq, Eq, Structural)]
pub enum CodecError {
    /// The stream ends inside a field.
    UnexpectedEnd,
    /// The next bits spell no symbol of the table in force.
    InvalidCode,
    /// A block header's checksum byte disagrees with the header.
    BlockChecksum { got: u8, expected: u8 },
    /// A block of length zero.
    ZeroLengthBlock,
    /// A block without tables, before any block that has them.
    NoTables,
    /// A table that starts by repeating the length before it.
    RepeatWithoutLength,
    /// An output filter of unknown type.
    UnknownFilter { filter_type: u8 },
    /// A dictionary size code above the format's largest.
    DictionaryLog { log: u8 },
    /// A dictionary that does not fit the address space.
    DictionaryTooLarge { bytes: u64 },
    /// An output size that does not fit the address space.
    OutputTooLarge,
    /// An output size whose window does not fit the address space.
    WindowTooLarge,
    /// A filter whose region was not produced.
    UnappliedFilter,
    /// More output held back for filters than the streaming decoder keeps.
    StagingLimit,
    /// Another number of bytes than announced.
    SizeMismatch { wanted: u64, produced: u64 },
    /// A compression method the format does not define.
    UnknownMethod { method: u8 },
}

impl CodecError {
    /// The error in words.
    pub open spec fn spec_message(self) -> Seq<char> {
        match self {
            CodecError::UnexpectedEnd => "unexpected end of compressed data"@,
            CodecError::InvalidCode => "invalid Huffman code"@,
            CodecError::BlockChecksum { got, expected } => "block checksum mismatch: got "@
                + prefixed_hex(got as nat) + ", expected "@ + prefixed_hex(expected as nat),
            CodecError::ZeroLengthBlock => "zero-length block"@,
            CodecError::NoTables => "no Huffman tables defined"@,
            CodecError::RepeatWithoutLength => "run-length repeat with no previous length"@,
            CodecError::UnknownFilter { filter_type } => "unknown RAR5 filter type "@ + decimal(
                filter_type as nat,
            ),
            CodecError::DictionaryLog { log } => "dictionary size log "@ + decimal(log as nat)
                + " exceeds supported maximum 15"@,
            CodecError::DictionaryTooLarge { bytes } => "dictionary size "@ + decimal(bytes as nat)
                + " overflows host address space"@,
            CodecError::OutputTooLarge => "unpacked size overflows host address space"@,
            CodecError::WindowTooLarge => "unpacked size too large for host address space"@,
            CodecError::UnappliedFilter => "unapplied RAR5 filter at end of stream"@,
            CodecError::StagingLimit =>
            "filtered output region exceeds streaming buffer limit 67108864"@,
            CodecError::SizeMismatch { wanted, produced } =>
            "decompressed size mismatch: expected "@ + decimal(wanted as nat) + ", got "@ + decimal(
                produced as nat,
            ),
            CodecError::UnknownMethod { method } => "unknown compression method: "@ + decimal(
                method as nat,
            ),
        }
    }

    /// The error in words.
    pub fn message(&self) -> (s: String)
        ensures
            s@ == self.spec_message(),
    {
        let mut s = String::new();
        match *self {
            CodecError::UnexpectedEnd => {
                s.append("unexpected end of compressed data");
            },
            CodecError::InvalidCode => {
                s.append("invalid Huffman code");
            },
            CodecError::BlockChecksum { got, expected } => {
                s.append("block checksum mismatch: got ");
                push_prefixed_hex(&mut s, got as u64);
                s.append(", expected ");
                push_prefixed_hex(&mut s, expected as u64);
            },
            CodecError::ZeroLengthBlock => {
                s.append("zero-length block");
            },
            CodecError::NoTables => {
                s.append("no Huffman tables defined");
            },
            CodecError::RepeatWithoutLength => {
                s.append("run-length repeat with no previous length");
            },
            CodecError::UnknownFilter { filter_type } => {
                s.append("unknown RAR5 filter type ");
                push_decimal(&mut s, filter_type as u64);
            },
            CodecError::DictionaryLog { log } => {
                s.append("dictionary size log ");
                push_decimal(&mut s, log as u64);
                s.append(" exceeds supported maximum 15");
            },
            CodecError::DictionaryTooLarge { bytes } => {
                s.append("dictionary size ");
                push_decimal(&mut s, bytes);
                s.append(" overflows host address space");
            },
            CodecError::OutputTooLarge => {
                s.append("unpacked size overflows host address space");
            },
            CodecError::WindowTooLarge => {
                s.append("unpacked size too large for host address space");
            },
            CodecError::UnappliedFilter => {
                s.append("unapplied RAR5 filter at end of stream");
            },
            CodecError::StagingLimit => {
                s.append("filtered output region exceeds streaming buffer limit 67108864");
            },
            CodecError::SizeMismatch { wanted, produced } => {
                s.append("decompressed size mismatch: expected ");
                push_decimal(&mut s, wanted);
                s.append(", got ");
                push_decimal(&mut s, produced);
            },
            CodecError::UnknownMethod { method } => {
                s.append("unknown compression method: ");
                push_decimal(&mut s, method as u64);
            },
        }
        assert(s@ =~= self.spec_message());
        s
    }
}

} // verus!
