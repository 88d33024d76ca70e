//! The error taxonomy of the decoder.  Errors are values: every parsing
//! step returns one of done, incomplete, or an error kind, and nothing is
//! thrown through the call stack.

use vstd::prelude::*;

verus! {

/// Declares the standard library's I/O error classification so that an
/// `ErrorKind::IO` value can carry it.  The decoder never inspects the
/// carried value; only callers that perform I/O construct it.
#[verifier::external_type_specification]
#[verifier::external_body]
pub struct ExIoErrorKind(std::io::ErrorKind);

/// Represent the different kinds of errors.
#[derive(Copy, Clone, Debug, Eq, PartialEq)]
pub enum ErrorKind {
    /// Error from I/O.
    IO(std::io::ErrorKind),
    /// A parser stopped midway and needs at least this many unconsumed
    /// bytes to continue.
    Incomplete(usize),
    /// A parser has completed and there are still more bytes to consume.
    Continue,
    /// A parser has completed and there are no more bytes to consume.
    EndOfInput,
    /// A non-specified error.
    Unknown,
    /// Failed parsing the "fLaC" header token.
    HeaderParser,
    /// Failed parsing a metadata header.
    MetadataHeaderParser,
    /// Failed parsing the metadata block `StreamInfo`.
    StreamInfoParser,
    /// Failed parsing the metadata block `Padding`.
    PaddingParser,
    /// Failed parsing the metadata block `Application`.
    ApplicationParser,
    /// Failed parsing the metadata block `SeekTable`.
    SeekTableParser,
    /// Failed parsing the metadata block `VorbisComment`.
    VorbisCommentParser,
    /// Failed parsing the metadata block `CueSheet`.
    CueSheetParser,
    /// Failed parsing the metadata block `Picture`.
    PictureParser,
    /// Failed parsing the metadata block `Unknown`.
    UnknownParser,
    /// Failed parsing the blocking strategy inside the frame header.
    BlockingStrategyParser,
    /// Failed parsing the blocking sample inside the frame header.
    BlockingSampleParser,
    /// Failed parsing the channel bits inside the frame header.
    ChannelBitsParser,
    /// Failed parsing the UTF-8 header inside the frame header.
    UTF8HeaderParser,
    /// Failed parsing the UTF-8 body inside the frame header.
    UTF8BodyParser,
    /// Failed parsing the secondary block size inside the frame header.
    BlockSizeParser,
    /// Failed parsing the secondary sample rate inside the frame header.
    SampleRateParser,
    /// Failed parsing the CRC-8 inside the frame header.
    CRC8Parser,
    /// Failed parsing the frame footer, also known as the CRC-16.
    FrameFooterParser,
    /// Failed parsing the subframe header.
    SubframeHeaderParser,
    /// Failed parsing the leading zeros for a unary value.
    LeadingZerosParser,
    /// Failed parsing a Constant subframe data.
    ConstantParser,
    /// Failed parsing a Verbatim subframe data.
    VerbatimParser,
    /// Failed parsing a Fixed subframe data.
    FixedParser,
    /// Failed parsing a LPC subframe data.
    LPCParser,
    /// A block type, based on the number, that is outside the range 0-126.
    InvalidBlockType,
    /// An incorrect sync code within the frame header.
    InvalidSyncCode,
    /// A block sample that could cause sync-fooling.
    InvalidBlockSample,
    /// One or more bits are reserved values.
    InvalidChannelBits,
    /// An error occurred in building the UTF-8 value.
    InvalidUTF8,
    /// The stored CRC-8 doesn't match the one generated from the bytes
    /// within the frame header.
    InvalidCRC8,
    /// The stored CRC-16 doesn't match the one generated from the bytes
    /// within the entire frame.
    InvalidCRC16,
    /// A subframe header that could cause sync-fooling.
    InvalidSubframeHeader,
    /// Some metadata block was not found with a specific filter.
    NotFound,
}

} // verus!
