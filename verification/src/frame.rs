//! Audio frames: the bit-accurate frame header parser with its CRC-8, the
//! per-channel subframes, the CRC-16 footer, and the inter-channel
//! decorrelation.

use vstd::prelude::*;

verus! {

use vstd::arithmetic::power2::{pow2, lemma2_to64, lemma_pow2_strictly_increases};
use vstd::arithmetic::div_mod::lemma_fundamental_div_mod;
use crate::bits::{bits_value, BitCursor};
use crate::error::ErrorKind;
use crate::metadata::{StreamInfo, StreamInfoView};
use crate::subframe::{sp_subframe, subframe_parser, Subframe, SubframeView};
use crate::utility::{be_value, crc16_value, crc8_value, crc16, crc8, lemma_be_value_bound, to_u32};

/// Maximum number of channels supported in the FLAC format.
pub const MAX_CHANNELS: usize = 8;

/// Channel assignment order.
#[derive(Clone, Copy, Debug, PartialEq, Eq, Structural)]
pub enum ChannelAssignment {
    /// Independent channels, from one up to eight.
    Independent,
    /// Left and side stereo.
    LeftSide,
    /// Right and side stereo.
    RightSide,
    /// Midpoint and side stereo.
    MidpointSide,
}

/// Numbering scheme used from the frame.
#[derive(Clone, Copy, Debug, PartialEq, Eq, Structural)]
pub enum NumberType {
    /// Frame number of first sample in frame.
    Frame(u32),
    /// Sample number of first sample in frame.
    Sample(u64),
}

/// Information regarding the current audio frame.
#[derive(Clone, Copy, Debug, PartialEq, Eq, Structural)]
pub struct Header {
    /// Number of samples per subframe.
    pub block_size: u32,
    /// Sample rate in hertz (Hz).
    pub sample_rate: u32,
    /// Number of channels, which is also the number of subframes.
    pub channels: u8,
    /// Channel assignment order.
    pub channel_assignment: ChannelAssignment,
    /// Size, in bits, per sample.
    pub bits_per_sample: usize,
    /// Numbering scheme used from the frame.
    pub number: NumberType,
    /// CRC-8 of all header bytes before this crc.
    pub crc: u8,
}

/// End of the audio frame.
///
/// Contains a value that represents the CRC-16 of everything inside the
/// frame before the footer.
#[derive(Clone, Copy, Debug, PartialEq, Eq, Structural)]
pub struct Footer(pub u16);

/// Audio frame that contains one subframe for each channel.
#[derive(Debug, PartialEq, Eq)]
pub struct Frame {
    /// Information regarding the current audio frame.
    pub header: Header,
    /// Data for each audio channel.
    pub subframes: Vec<Subframe>,
    /// CRC-16 of all frame bytes before this footer.
    pub footer: Footer,
}

/// The mathematical shape of a frame.
pub struct FrameView {
    pub header: Header,
    pub subframes: Seq<SubframeView>,
    pub footer: Footer,
}

impl View for Frame {
    type V = FrameView;

    open spec fn view(&self) -> FrameView {
        FrameView {
            header: self.header,
            subframes: self.subframes@.map_values(|sf: Subframe| sf@),
            footer: self.footer,
        }
    }
}

// ---------------------------------------------------------------------
// Frame header fields
// ---------------------------------------------------------------------

/// What the first two header bytes denote: the 14-bit sync code, a zero
/// reserved bit, and the blocking-strategy bit.
pub open spec fn sp_blocking_strategy(s: Seq<u8>) -> Result<(bool, int), ErrorKind> {
    if s.len() < 2 {
        Err(ErrorKind::Incomplete(2))
    } else if ((s[0] as u16) << 6u16) + ((s[1] as u16) >> 2u16) == 0x3ffe && ((s[1] >> 1u8) & 0x01)
        == 0 {
        Ok(((s[1] & 0x01) == 1, 2))
    } else {
        Err(ErrorKind::BlockingStrategyParser)
    }
}

/// Parses the first two bytes of a frame header: the sync code must be
/// 0b11111111111110 and the following bit zero; the last bit selects
/// variable or fixed blocking.
pub fn blocking_strategy(input: &[u8]) -> (r: Result<(bool, usize), ErrorKind>)
    ensures
        crate::metadata_parser::parses_to_plain(r, sp_blocking_strategy(input@)),
{
    if input.len() < 2 {
        return Err(ErrorKind::Incomplete(2));
    }
    let b0: u8 = input[0];
    let b1: u8 = input[1];
    proof {
        assert(((b0 as u16) << 6u16) <= 0x3fc0 && ((b1 as u16) >> 2u16) <= 0x3f) by (bit_vector);
    }
    let sync_code: u16 = ((b0 as u16) << 6u16) + ((b1 as u16) >> 2u16);
    if sync_code == 0b11111111111110 && ((b1 >> 1u8) & 0b01) == 0 {
        Ok(((b1 & 0b01) == 1, 2))
    } else {
        Err(ErrorKind::BlockingStrategyParser)
    }
}

/// What the third header byte denotes: the block-size code (zero is
/// reserved) and the sample-rate code (fifteen would fool the sync).
pub open spec fn sp_block_sample(s: Seq<u8>) -> Result<((u8, u8), int), ErrorKind> {
    if s.len() < 1 {
        Err(ErrorKind::Incomplete(1))
    } else if (s[0] >> 4u8) != 0 && (s[0] & 0x0f) != 0x0f {
        Ok(((s[0] >> 4u8, s[0] & 0x0f), 1))
    } else {
        Err(ErrorKind::BlockingSampleParser)
    }
}

/// Parses the third byte of a frame header: the high nibble is the
/// block-size code, the low nibble the sample-rate code.
pub fn block_sample(input: &[u8]) -> (r: Result<((u8, u8), usize), ErrorKind>)
    ensures
        crate::metadata_parser::parses_to_plain(r, sp_block_sample(input@)),
{
    if input.len() < 1 {
        return Err(ErrorKind::Incomplete(1));
    }
    let byte: u8 = input[0];
    let block_byte: u8 = byte >> 4u8;
    let sample_byte: u8 = byte & 0b1111;
    if block_byte != 0b0000 && sample_byte != 0b1111 {
        Ok(((block_byte, sample_byte), 1))
    } else {
        Err(ErrorKind::BlockingSampleParser)
    }
}

/// The channel assignment that a high nibble denotes.
pub open spec fn sp_channel_assignment(code: u8) -> ChannelAssignment {
    if code <= 7 {
        ChannelAssignment::Independent
    } else if code == 8 {
        ChannelAssignment::LeftSide
    } else if code == 9 {
        ChannelAssignment::RightSide
    } else {
        ChannelAssignment::MidpointSide
    }
}

/// What the fourth header byte denotes: the channel assignment with its
/// channel count, and the sample-size code; codes eleven and up, sizes
/// three and seven, and a set low bit are reserved.
pub open spec fn sp_channel_bits(s: Seq<u8>) -> Result<((ChannelAssignment, u8, u8), int), ErrorKind> {
    if s.len() < 1 {
        Err(ErrorKind::Incomplete(1))
    } else {
        let code = s[0] >> 4u8;
        let size = (s[0] >> 1u8) & 0x07;
        if code < 11 && size != 0x03 && size != 0x07 && (s[0] & 0x01) == 0 {
            Ok(
                (
                    (
                        sp_channel_assignment(code),
                        if code <= 7 {
                            (code + 1) as u8
                        } else {
                            2u8
                        },
                        size,
                    ),
                    1,
                ),
            )
        } else {
            Err(ErrorKind::ChannelBitsParser)
        }
    }
}

/// Parses the fourth byte of a frame header: channel assignment, channel
/// count, and sample-size code.
pub fn channel_bits(input: &[u8]) -> (r: Result<
    ((ChannelAssignment, u8, u8), usize),
    ErrorKind,
>)
    ensures
        crate::metadata_parser::parses_to_plain(r, sp_channel_bits(input@)),
{
    if input.len() < 1 {
        return Err(ErrorKind::Incomplete(1));
    }
    let byte: u8 = input[0];
    let channel_byte: u8 = byte >> 4u8;
    let size_byte: u8 = (byte >> 1u8) & 0b0111;
    proof {
        assert((byte >> 4u8) <= 15) by (bit_vector);
    }
    if channel_byte < 0b1011 && size_byte != 0b0011 && size_byte != 0b0111 && (byte & 0b01) == 0 {
        let channels: u8 = if channel_byte <= 7 {
            channel_byte + 1
        } else {
            2
        };
        let channel_assignment: ChannelAssignment = if channel_byte <= 7 {
            ChannelAssignment::Independent
        } else if channel_byte == 8 {
            ChannelAssignment::LeftSide
        } else if channel_byte == 9 {
            ChannelAssignment::RightSide
        } else {
            ChannelAssignment::MidpointSide
        };
        Ok(((channel_assignment, channels, size_byte), 1))
    } else {
        Err(ErrorKind::ChannelBitsParser)
    }
}

/// What a UTF-8-style lead byte denotes: the count of continuation bytes
/// and the payload bits of the lead byte, or nothing when the lead byte is
/// malformed.  A six-continuation lead is accepted only for sample-numbered
/// frames.
pub open spec fn sp_utf8_header(s: Seq<u8>, is_u64: bool) -> Result<
    (Option<(usize, u8)>, int),
    ErrorKind,
> {
    if s.len() < 1 {
        Err(ErrorKind::Incomplete(1))
    } else {
        let b = s[0];
        let o: Option<(usize, u8)> = if b <= 0x7f {
            Some((0, b))
        } else if 0xc0 <= b <= 0xdf {
            Some((1, (b & 0x1f) as u8))
        } else if 0xe0 <= b <= 0xef {
            Some((2, (b & 0x0f) as u8))
        } else if 0xf0 <= b <= 0xf7 {
            Some((3, (b & 0x07) as u8))
        } else if 0xf8 <= b <= 0xfb {
            Some((4, (b & 0x03) as u8))
        } else if 0xfc <= b <= 0xfd {
            Some((5, (b & 0x01) as u8))
        } else if b == 0xfe && is_u64 {
            Some((6, 0))
        } else {
            None
        };
        Ok((o, 1))
    }
}

/// Parses the lead byte of the UTF-8-style coded frame or sample number.
pub fn utf8_header(input: &[u8], is_u64: bool) -> (r: Result<
    (Option<(usize, u8)>, usize),
    ErrorKind,
>)
    ensures
        crate::metadata_parser::parses_to_plain(r, sp_utf8_header(input@, is_u64)),
{
    if input.len() < 1 {
        return Err(ErrorKind::Incomplete(1));
    }
    let byte: u8 = input[0];
    let o: Option<(usize, u8)> = if byte <= 0b0111_1111 {
        Some((0, byte))
    } else if 0b1100_0000 <= byte && byte <= 0b1101_1111 {
        Some((1, byte & 0b0001_1111))
    } else if 0b1110_0000 <= byte && byte <= 0b1110_1111 {
        Some((2, byte & 0b0000_1111))
    } else if 0b1111_0000 <= byte && byte <= 0b1111_0111 {
        Some((3, byte & 0b0000_0111))
    } else if 0b1111_1000 <= byte && byte <= 0b1111_1011 {
        Some((4, byte & 0b0000_0011))
    } else if 0b1111_1100 <= byte && byte <= 0b1111_1101 {
        Some((5, byte & 0b0000_0001))
    } else if byte == 0b1111_1110 && is_u64 {
        Some((6, 0))
    } else {
        None
    };
    Ok((o, 1))
}

/// The value accumulated from `n` UTF-8 continuation bytes after the lead
/// payload, six bits each.
pub open spec fn sp_utf8_value(s: Seq<u8>, value: int, n: nat) -> int
    decreases n,
{
    if n == 0 {
        value
    } else {
        sp_utf8_value(s, value, (n - 1) as nat) * 64 + (s[n - 1] & 0x3f)
    }
}

/// Whether the first `n` bytes are all UTF-8 continuation bytes.
pub open spec fn sp_utf8_body_ok(s: Seq<u8>, n: nat) -> bool {
    forall|i: int| 0 <= i < n ==> 0x80 <= #[trigger] s[i] <= 0xbf
}

/// What the continuation bytes denote: the assembled frame or sample
/// number.
pub open spec fn sp_number_type(s: Seq<u8>, is_sample: bool, size: nat, value: u8) -> Result<
    (NumberType, int),
    ErrorKind,
> {
    if s.len() < size {
        Err(ErrorKind::Incomplete(size as usize))
    } else if !sp_utf8_body_ok(s, size) {
        Err(ErrorKind::UTF8BodyParser)
    } else {
        let v = sp_utf8_value(s, value as int, size);
        if is_sample {
            Ok((NumberType::Sample(v as u64), size as int))
        } else {
            Ok((NumberType::Frame(v as u32), size as int))
        }
    }
}

proof fn lemma_sp_utf8_value_bound(s: Seq<u8>, value: int, n: nat)
    requires
        0 <= value < 256,
    ensures
        0 <= sp_utf8_value(s, value, n) < 256 * pow2((6 * n) as nat),
    decreases n,
{
    lemma2_to64();
    if n > 0 {
        lemma_sp_utf8_value_bound(s, value, (n - 1) as nat);
        vstd::arithmetic::power2::lemma_pow2_adds((6 * (n - 1)) as nat, 6);
        let b: u8 = s[n - 1];
        assert((b & 0x3f) < 64) by (bit_vector);
        assert(sp_utf8_value(s, value, (n - 1) as nat) * 64 + (s[n - 1] & 0x3f) < 256 * (pow2(
            (6 * (n - 1)) as nat,
        ) * 64)) by (nonlinear_arith)
            requires
                0 <= sp_utf8_value(s, value, (n - 1) as nat) < 256 * pow2((6 * (n - 1)) as nat),
                (s[n - 1] & 0x3f) < 64,
        ;
        assert(sp_utf8_value(s, value, (n - 1) as nat) * 64 >= 0) by (nonlinear_arith)
            requires
                sp_utf8_value(s, value, (n - 1) as nat) >= 0,
        ;
    }
}

/// Parses the continuation bytes of the coded number and assembles the
/// frame index or first-sample index.
pub fn number_type(input: &[u8], is_sample: bool, size: usize, value: u8) -> (r: Result<
    (NumberType, usize),
    ErrorKind,
>)
    requires
        size <= 6,
    ensures
        crate::metadata_parser::parses_to_plain(r, sp_number_type(input@, is_sample, size as nat, value)),
{
    if input.len() < size {
        return Err(ErrorKind::Incomplete(size));
    }
    let mut result: u64 = value as u64;
    let mut i: usize = 0;
    while i < size
        invariant
            i <= size <= 6,
            input@.len() >= size,
            result == sp_utf8_value(input@, value as int, i as nat),
            sp_utf8_body_ok(input@, i as nat),
        decreases size - i,
    {
        let byte: u8 = input[i];
        if byte < 0b1000_0000 || byte > 0b1011_1111 {
            proof {
                assert(!sp_utf8_body_ok(input@, size as nat));
            }
            return Err(ErrorKind::UTF8BodyParser);
        }
        proof {
            lemma_sp_utf8_value_bound(input@, value as int, i as nat);
            lemma2_to64();
            vstd::arithmetic::power2::lemma2_to64_rest();
            if 6 * i < 36 {
                lemma_pow2_strictly_increases((6 * i) as nat, 36);
            }
            assert((byte & 0x3f) < 64) by (bit_vector);
        }
        result = result * 64 + ((byte & 0b0011_1111) as u64);
        i += 1;
    }
    proof {
        lemma_sp_utf8_value_bound(input@, value as int, size as nat);
        lemma2_to64();
        vstd::arithmetic::power2::lemma2_to64_rest();
        if 6 * size < 40 {
            lemma_pow2_strictly_increases((6 * size) as nat, 40);
        }
    }
    if is_sample {
        Ok((NumberType::Sample(result), size))
    } else {
        Ok((NumberType::Frame(#[verifier::truncate] (result as u32)), size))
    }
}

/// What the optional secondary block-size field denotes: one or two extra
/// big-endian bytes for codes six and seven.
pub open spec fn sp_secondary_block_size(s: Seq<u8>, block_byte: u8) -> Result<
    (Option<u32>, int),
    ErrorKind,
> {
    if block_byte == 6 {
        if s.len() < 1 {
            Err(ErrorKind::Incomplete(1))
        } else {
            Ok((Some(be_value(s.subrange(0, 1)) as u32), 1))
        }
    } else if block_byte == 7 {
        if s.len() < 2 {
            Err(ErrorKind::Incomplete(2))
        } else {
            Ok((Some(be_value(s.subrange(0, 2)) as u32), 2))
        }
    } else {
        Ok((None, 0))
    }
}

/// Parses the secondary block size when the block-size code asks for one.
pub fn secondary_block_size(input: &[u8], block_byte: u8) -> (r: Result<
    (Option<u32>, usize),
    ErrorKind,
>)
    ensures
        crate::metadata_parser::parses_to_plain(r, sp_secondary_block_size(input@, block_byte)),
{
    if block_byte == 0b0110 {
        if input.len() < 1 {
            return Err(ErrorKind::Incomplete(1));
        }
        proof {
            lemma_be_value_bound(input@.subrange(0, 1));
            lemma2_to64();
        }
        Ok((Some(to_u32(&input[0..1])), 1))
    } else if block_byte == 0b0111 {
        if input.len() < 2 {
            return Err(ErrorKind::Incomplete(2));
        }
        proof {
            lemma_be_value_bound(input@.subrange(0, 2));
            lemma2_to64();
        }
        Ok((Some(to_u32(&input[0..2])), 2))
    } else {
        Ok((None, 0))
    }
}

/// What the optional secondary sample-rate field denotes: one byte for
/// code twelve, two for codes thirteen and fourteen.
pub open spec fn sp_secondary_sample_rate(s: Seq<u8>, sample_byte: u8) -> Result<
    (Option<u32>, int),
    ErrorKind,
> {
    if sample_byte == 12 {
        if s.len() < 1 {
            Err(ErrorKind::Incomplete(1))
        } else {
            Ok((Some(be_value(s.subrange(0, 1)) as u32), 1))
        }
    } else if sample_byte == 13 || sample_byte == 14 {
        if s.len() < 2 {
            Err(ErrorKind::Incomplete(2))
        } else {
            Ok((Some(be_value(s.subrange(0, 2)) as u32), 2))
        }
    } else {
        Ok((None, 0))
    }
}

/// Parses the secondary sample rate when the sample-rate code asks for
/// one.
pub fn secondary_sample_rate(input: &[u8], sample_byte: u8) -> (r: Result<
    (Option<u32>, usize),
    ErrorKind,
>)
    ensures
        crate::metadata_parser::parses_to_plain(r, sp_secondary_sample_rate(input@, sample_byte)),
{
    if sample_byte == 0b1100 {
        if input.len() < 1 {
            return Err(ErrorKind::Incomplete(1));
        }
        proof {
            lemma_be_value_bound(input@.subrange(0, 1));
            lemma2_to64();
        }
        Ok((Some(to_u32(&input[0..1])), 1))
    } else if sample_byte == 0b1101 || sample_byte == 0b1110 {
        if input.len() < 2 {
            return Err(ErrorKind::Incomplete(2));
        }
        proof {
            lemma_be_value_bound(input@.subrange(0, 2));
            lemma2_to64();
        }
        Ok((Some(to_u32(&input[0..2])), 2))
    } else {
        Ok((None, 0))
    }
}

/// The block size that a code and its secondary value denote.
pub open spec fn sp_block_size(block_byte: u8, alt: Option<u32>) -> u32 {
    if block_byte == 1 {
        192
    } else if 2 <= block_byte <= 5 {
        (576 * pow2((block_byte - 2) as nat)) as u32
    } else if block_byte == 6 || block_byte == 7 {
        ((alt->Some_0) + 1) as u32
    } else {
        (256 * pow2((block_byte - 8) as nat)) as u32
    }
}

/// The sample rate that a code and its secondary value denote, or nothing
/// when the code defers to the stream information.
pub open spec fn sp_sample_rate(sample_byte: u8, alt: Option<u32>, stream_rate: u32) -> u32 {
    if sample_byte == 0 {
        stream_rate
    } else if sample_byte == 1 {
        88200
    } else if sample_byte == 2 {
        176400
    } else if sample_byte == 3 {
        192000
    } else if sample_byte == 4 {
        8000
    } else if sample_byte == 5 {
        16000
    } else if sample_byte == 6 {
        22050
    } else if sample_byte == 7 {
        24000
    } else if sample_byte == 8 {
        32000
    } else if sample_byte == 9 {
        44100
    } else if sample_byte == 10 {
        48000
    } else if sample_byte == 11 {
        96000
    } else if sample_byte == 12 {
        ((alt->Some_0) * 1000) as u32
    } else if sample_byte == 13 {
        alt->Some_0
    } else {
        ((alt->Some_0) * 10) as u32
    }
}

/// The bits per sample that a size code denotes, or nothing for the code
/// that defers to the stream information.
pub open spec fn sp_bits_per_sample(size_byte: u8, stream_bps: u8) -> int {
    if size_byte == 0 {
        stream_bps as int
    } else if size_byte == 1 {
        8
    } else if size_byte == 2 {
        12
    } else if size_byte == 4 {
        16
    } else if size_byte == 5 {
        20
    } else {
        24
    }
}

/// What a whole frame header denotes, given the stream information for the
/// deferred fields: all fields, then a CRC-8 over every header byte before
/// it.
pub open spec fn sp_frame_header(s: Seq<u8>, si: StreamInfoView) -> Result<(Header, int), ErrorKind> {
    match sp_blocking_strategy(s) {
        Err(e) => Err(e),
        Ok((variable, _n0)) => match sp_block_sample(s.skip(2)) {
            Err(e) => Err(e),
            Ok(((block_byte, sample_byte), _n1)) => match sp_channel_bits(s.skip(3)) {
                Err(e) => Err(e),
                Ok(((assignment, channels, size_byte), _n2)) => match sp_utf8_header(
                    s.skip(4),
                    variable,
                ) {
                    Err(e) => Err(e),
                    Ok((lead, _n3)) => {
                        if lead is None {
                            Err(ErrorKind::UTF8HeaderParser)
                        } else {
                            let (size, value) = lead->Some_0;
                            match sp_number_type(s.skip(5), variable, size as nat, value) {
                                Err(ErrorKind::Incomplete(m)) => Err(
                                    ErrorKind::Incomplete(crate::utility::sat_usize(5 + m)),
                                ),
                                Err(e) => Err(e),
                                Ok((number, n4)) => {
                                    let p5 = 5 + size;
                                    match sp_secondary_block_size(s.skip(p5 as int), block_byte) {
                                        Err(ErrorKind::Incomplete(m)) => Err(
                                            ErrorKind::Incomplete(
                                                crate::utility::sat_usize(p5 + m),
                                            ),
                                        ),
                                        Err(e) => Err(e),
                                        Ok((alt_bs, n5)) => {
                                            let p6 = p5 + n5;
                                            match sp_secondary_sample_rate(
                                                s.skip(p6),
                                                sample_byte,
                                            ) {
                                                Err(ErrorKind::Incomplete(m)) => Err(
                                                    ErrorKind::Incomplete(
                                                        crate::utility::sat_usize(p6 + m),
                                                    ),
                                                ),
                                                Err(e) => Err(e),
                                                Ok((alt_sr, n6)) => {
                                                    let p7 = p6 + n6;
                                                    if size_byte == 0 && !(4 <= si.bits_per_sample
                                                        <= 32) {
                                                        Err(ErrorKind::ChannelBitsParser)
                                                    } else if s.len() < p7 + 1 {
                                                        Err(
                                                            ErrorKind::Incomplete(
                                                                crate::utility::sat_usize(p7 + 1),
                                                            ),
                                                        )
                                                    } else if crc8_value(s.take(p7)) != s[p7] {
                                                        Err(ErrorKind::InvalidCRC8)
                                                    } else {
                                                        Ok(
                                                            (
                                                                Header {
                                                                    block_size: sp_block_size(
                                                                        block_byte,
                                                                        alt_bs,
                                                                    ),
                                                                    sample_rate: sp_sample_rate(
                                                                        sample_byte,
                                                                        alt_sr,
                                                                        si.sample_rate,
                                                                    ),
                                                                    channels: channels,
                                                                    channel_assignment: assignment,
                                                                    bits_per_sample: sp_bits_per_sample(
                                                                        size_byte,
                                                                        si.bits_per_sample,
                                                                    ) as usize,
                                                                    number: number,
                                                                    crc: s[p7],
                                                                },
                                                                p7 + 1,
                                                            ),
                                                        )
                                                    }
                                                },
                                            }
                                        },
                                    }
                                },
                            }
                        }
                    },
                },
            },
        },
    }
}

/// The block size of the parsed codes.
fn compute_block_size(block_byte: u8, alt: Option<u32>) -> (r: u32)
    requires
        1 <= block_byte <= 15,
        block_byte == 6 || block_byte == 7 ==> alt is Some,
    ensures
        r == sp_block_size(block_byte, alt),
{
    proof {
        lemma2_to64();
    }
    if block_byte == 1 {
        192
    } else if block_byte >= 2 && block_byte <= 5 {
        proof {
            assert(pow2((block_byte - 2) as nat) <= 8);
        }
        576 * (crate::utility::power_of_two((block_byte - 2) as u32))
    } else if block_byte == 6 || block_byte == 7 {
        let a: u32 = match alt {
            Some(v) => v,
            None => 0,
        };
        #[verifier::truncate] (((a as u64) + 1) as u32)
    } else {
        proof {
            assert(pow2((block_byte - 8) as nat) <= 128);
        }
        256 * (crate::utility::power_of_two((block_byte - 8) as u32))
    }
}

/// The sample rate of the parsed codes.
fn compute_sample_rate(sample_byte: u8, alt: Option<u32>, stream_rate: u32) -> (r: u32)
    requires
        sample_byte <= 14,
        12 <= sample_byte <= 14 ==> alt is Some,
    ensures
        r == sp_sample_rate(sample_byte, alt, stream_rate),
{
    if sample_byte == 0 {
        stream_rate
    } else if sample_byte == 1 {
        88200
    } else if sample_byte == 2 {
        176400
    } else if sample_byte == 3 {
        192000
    } else if sample_byte == 4 {
        8000
    } else if sample_byte == 5 {
        16000
    } else if sample_byte == 6 {
        22050
    } else if sample_byte == 7 {
        24000
    } else if sample_byte == 8 {
        32000
    } else if sample_byte == 9 {
        44100
    } else if sample_byte == 10 {
        48000
    } else if sample_byte == 11 {
        96000
    } else if sample_byte == 12 {
        let a: u32 = match alt {
            Some(v) => v,
            None => 0,
        };
        #[verifier::truncate] (((a as u64) * 1000) as u32)
    } else if sample_byte == 13 {
        match alt {
            Some(v) => v,
            None => 0,
        }
    } else {
        let a: u32 = match alt {
            Some(v) => v,
            None => 0,
        };
        #[verifier::truncate] (((a as u64) * 10) as u32)
    }
}

/// Parses an audio frame header against the given stream information.
pub fn header(input: &[u8], stream_info: &StreamInfo) -> (r: Result<(Header, usize), ErrorKind>)
    ensures
        crate::metadata_parser::parses_to_plain(r, sp_frame_header(input@, stream_info@)),
{
    let (variable, _n0) = match blocking_strategy(input) {
        Ok(v) => v,
        Err(e) => {
            return Err(e);
        },
    };
    proof {
        assert(input@.subrange(2, input@.len() as int) =~= input@.skip(2));
        assert(input@.subrange(3, input@.len() as int) =~= input@.skip(3));
        assert(input@.subrange(4, input@.len() as int) =~= input@.skip(4));
        assert(input@.subrange(5, input@.len() as int) =~= input@.skip(5));
    }
    let ((block_byte, sample_byte), _n1) = match block_sample(&input[2..input.len()]) {
        Ok(v) => v,
        Err(e) => {
            return Err(e);
        },
    };
    let ((channel_assignment, channels, size_byte), _n2) = match channel_bits(
        &input[3..input.len()],
    ) {
        Ok(v) => v,
        Err(e) => {
            return Err(e);
        },
    };
    let (lead, _n3) = match utf8_header(&input[4..input.len()], variable) {
        Ok(v) => v,
        Err(e) => {
            return Err(e);
        },
    };
    let (size, value) = match lead {
        Some(v) => v,
        None => {
            return Err(ErrorKind::UTF8HeaderParser);
        },
    };
    let (number, _n4) = match number_type(&input[5..input.len()], variable, size, value) {
        Ok(v) => v,
        Err(ErrorKind::Incomplete(m)) => {
            return Err(ErrorKind::Incomplete(crate::utility::sat_add(5, m)));
        },
        Err(e) => {
            return Err(e);
        },
    };
    let p5: usize = 5 + size;
    proof {
        assert(input@.subrange(p5 as int, input@.len() as int) =~= input@.skip(p5 as int));
    }
    let (alt_block_size, n5) = match secondary_block_size(&input[p5..input.len()], block_byte) {
        Ok(v) => v,
        Err(ErrorKind::Incomplete(m)) => {
            return Err(ErrorKind::Incomplete(crate::utility::sat_add(p5, m)));
        },
        Err(e) => {
            return Err(e);
        },
    };
    let p6: usize = p5 + n5;
    proof {
        assert(input@.subrange(p6 as int, input@.len() as int) =~= input@.skip(p6 as int));
    }
    let (alt_sample_rate, n6) = match secondary_sample_rate(&input[p6..input.len()], sample_byte)
        {
        Ok(v) => v,
        Err(ErrorKind::Incomplete(m)) => {
            return Err(ErrorKind::Incomplete(crate::utility::sat_add(p6, m)));
        },
        Err(e) => {
            return Err(e);
        },
    };
    let p7: usize = p6 + n6;
    if size_byte == 0 && (stream_info.bits_per_sample < 4 || stream_info.bits_per_sample > 32) {
        return Err(ErrorKind::ChannelBitsParser);
    }
    if input.len() < p7 + 1 {
        return Err(ErrorKind::Incomplete(crate::utility::sat_add(p7, 1)));
    }
    let computed: u8 = crc8(&input[0..p7]);
    let stored: u8 = input[p7];
    proof {
        assert(input@.subrange(0, p7 as int) =~= input@.take(p7 as int));
    }
    if computed != stored {
        return Err(ErrorKind::InvalidCRC8);
    }
    proof {
        let b2: u8 = input@.skip(2)[0];
        assert(b2 >> 4u8 <= 15) by (bit_vector);
        assert(b2 & 0x0f <= 15) by (bit_vector);
    }
    let block_size: u32 = compute_block_size(block_byte, alt_block_size);
    let sample_rate: u32 = compute_sample_rate(sample_byte, alt_sample_rate, stream_info.sample_rate);
    let bits_per_sample: usize = if size_byte == 0 {
        stream_info.bits_per_sample as usize
    } else if size_byte == 1 {
        8
    } else if size_byte == 2 {
        12
    } else if size_byte == 4 {
        16
    } else if size_byte == 5 {
        20
    } else {
        24
    };
    Ok(
        (
            Header {
                block_size,
                sample_rate,
                channels,
                channel_assignment,
                bits_per_sample,
                number,
                crc: stored,
            },
            p7 + 1,
        ),
    )
}

/// Parses a frame footer: the stored 16-bit CRC.
pub fn footer(input: &[u8]) -> (r: Result<(Footer, usize), ErrorKind>)
    ensures
        match r {
            Ok((f, n)) => input@.len() >= 2 && f.0 == be_value(input@.subrange(0, 2)) && n == 2,
            Err(e) => input@.len() < 2 && e == ErrorKind::Incomplete(2),
        },
{
    if input.len() < 2 {
        return Err(ErrorKind::Incomplete(2));
    }
    proof {
        lemma_be_value_bound(input@.subrange(0, 2));
        lemma2_to64();
    }
    Ok((Footer(to_u32(&input[0..2]) as u16), 2))
}

// ---------------------------------------------------------------------
// The frame parser
// ---------------------------------------------------------------------

/// The effective sample width of one channel: the side channel of a stereo
/// pairing carries one extra bit.
pub open spec fn sp_adjusted_bps(h: Header, channel: int) -> int {
    match h.channel_assignment {
        ChannelAssignment::Independent => h.bits_per_sample as int,
        ChannelAssignment::LeftSide => if channel == 1 {
            h.bits_per_sample + 1
        } else {
            h.bits_per_sample as int
        },
        ChannelAssignment::MidpointSide => if channel == 1 {
            h.bits_per_sample + 1
        } else {
            h.bits_per_sample as int
        },
        ChannelAssignment::RightSide => if channel == 0 {
            h.bits_per_sample + 1
        } else {
            h.bits_per_sample as int
        },
    }
}

/// The channel's bits per sample: the side channel of the left/side,
/// midpoint/side, and side/right assignments is stored one bit wider.
pub fn adjust_bits_per_sample(frame_header: &Header, channel: usize) -> (r: usize)
    requires
        frame_header.bits_per_sample < usize::MAX,
    ensures
        r == sp_adjusted_bps(*frame_header, channel as int),
{
    let bits_per_sample: usize = frame_header.bits_per_sample;
    match frame_header.channel_assignment {
        ChannelAssignment::Independent => bits_per_sample,
        ChannelAssignment::LeftSide | ChannelAssignment::MidpointSide => {
            if channel == 1 {
                bits_per_sample + 1
            } else {
                bits_per_sample
            }
        },
        ChannelAssignment::RightSide => {
            if channel == 0 {
                bits_per_sample + 1
            } else {
                bits_per_sample
            }
        },
    }
}

/// The first `k` subframes of a frame, one per channel, at each channel's
/// effective width.
pub open spec fn sp_subframes(s: Seq<u8>, pos: int, h: Header, k: nat) -> Result<
    (Seq<SubframeView>, int),
    ErrorKind,
>
    decreases k,
{
    if k == 0 {
        Ok((Seq::empty(), pos))
    } else {
        match sp_subframes(s, pos, h, (k - 1) as nat) {
            Err(e) => Err(e),
            Ok((v, p)) => match sp_subframe(
                s,
                p,
                sp_adjusted_bps(h, k - 1) as nat,
                h.block_size as nat,
            ) {
                Err(e) => Err(e),
                Ok((sf, p2)) => Ok((v.push(sf), p2)),
            },
        }
    }
}

proof fn lemma_sp_subframes_err(s: Seq<u8>, pos: int, h: Header, k: nat, n: nat, e: ErrorKind)
    requires
        k < n,
        sp_subframes(s, pos, h, k) is Ok,
        sp_subframe(
            s,
            sp_subframes(s, pos, h, k)->Ok_0.1,
            sp_adjusted_bps(h, k as int) as nat,
            h.block_size as nat,
        ) == Err::<(SubframeView, int), ErrorKind>(e),
    ensures
        sp_subframes(s, pos, h, n) == Err::<(Seq<SubframeView>, int), ErrorKind>(e),
    decreases n,
{
    if n != k + 1 {
        lemma_sp_subframes_err(s, pos, h, k, (n - 1) as nat, e);
    }
}

/// Reads one subframe per channel.
fn read_subframes(input: &[u8], cur: BitCursor, h: &Header) -> (r: Result<
    (Vec<Subframe>, BitCursor),
    ErrorKind,
>)
    requires
        cur.wf(),
        cur.byte <= input@.len(),
        8 * input@.len() <= usize::MAX,
        1 <= h.bits_per_sample <= 33,
    ensures
        match r {
            Ok((v, c2)) => sp_subframes(input@, cur.pos(), *h, h.channels as nat) == Ok::<
                (Seq<SubframeView>, int),
                ErrorKind,
            >((v@.map_values(|sf: Subframe| sf@), c2.pos())) && c2.wf() && c2.byte
                <= input@.len(),
            Err(e) => sp_subframes(input@, cur.pos(), *h, h.channels as nat) == Err::<
                (Seq<SubframeView>, int),
                ErrorKind,
            >(e),
        },
{
    let mut v: Vec<Subframe> = Vec::new();
    let mut c: BitCursor = cur;
    let mut k: usize = 0;
    proof {
        assert(v@.map_values(|sf: Subframe| sf@) =~= Seq::<SubframeView>::empty());
    }
    while k < h.channels as usize
        invariant
            k <= h.channels,
            c.wf(),
            c.byte <= input@.len(),
            8 * input@.len() <= usize::MAX,
            1 <= h.bits_per_sample <= 33,
            sp_subframes(input@, cur.pos(), *h, k as nat) == Ok::<
                (Seq<SubframeView>, int),
                ErrorKind,
            >((v@.map_values(|sf: Subframe| sf@), c.pos())),
        decreases h.channels - k,
    {
        let bps: usize = adjust_bits_per_sample(h, k);
        match subframe_parser(input, c, bps, h.block_size as usize) {
            Ok((sf, c2)) => {
                let ghost before: Seq<SubframeView> = v@.map_values(|x: Subframe| x@);
                let ghost sfv: SubframeView = sf@;
                v.push(sf);
                proof {
                    assert(v@.map_values(|x: Subframe| x@) =~= before.push(sfv));
                }
                c = c2;
            },
            Err(e) => {
                proof {
                    lemma_sp_subframes_err(
                        input@,
                        cur.pos(),
                        *h,
                        k as nat,
                        h.channels as nat,
                        e,
                    );
                }
                return Err(e);
            },
        }
        k += 1;
    }
    Ok((v, c))
}

/// What the rest of a frame after its header denotes: one subframe per
/// channel, zero padding to the next byte boundary, then a CRC-16 over
/// every frame byte before the footer.
pub open spec fn sp_frame_tail(s: Seq<u8>, h: Header, n: int) -> Result<(FrameView, int), ErrorKind> {
    match sp_subframes(s, 8 * n, h, h.channels as nat) {
        Err(e) => Err(e),
        Ok((sfs, p)) => {
            let pad = (8 - p % 8) % 8;
            if p + pad > 8 * s.len() {
                Err(ErrorKind::FrameFooterParser)
            } else if bits_value(s, p, pad as nat) != 0 {
                Err(ErrorKind::FrameFooterParser)
            } else {
                let q = (p + pad) / 8;
                if s.len() < q + 2 {
                    Err(ErrorKind::Incomplete(crate::utility::sat_usize(q + 2)))
                } else {
                    let stored = be_value(s.subrange(q, q + 2));
                    if crc16_value(s.take(q)) != stored {
                        Err(ErrorKind::InvalidCRC16)
                    } else {
                        Ok(
                            (
                                FrameView {
                                    header: h,
                                    subframes: sfs,
                                    footer: Footer(stored as u16),
                                },
                                q + 2,
                            ),
                        )
                    }
                }
            }
        },
    }
}

/// What a whole frame denotes: its header, then its subframes, padding,
/// and footer.
#[verifier::opaque]
pub open spec fn sp_frame(s: Seq<u8>, si: StreamInfoView) -> Result<(FrameView, int), ErrorKind> {
    match sp_frame_header(s, si) {
        Err(e) => Err(e),
        Ok((h, n)) => {
            if h.bits_per_sample < 1 || h.bits_per_sample > 33 {
                Err(ErrorKind::ChannelBitsParser)
            } else {
                sp_frame_tail(s, h, n)
            }
        },
    }
}

/// Parses the subframes, padding, and footer that follow a frame header.
#[verifier::rlimit(60)]
fn frame_tail(input: &[u8], frame_header: Header, n: usize) -> (r: Result<(Frame, usize), ErrorKind>)
    requires
        8 * input@.len() <= usize::MAX,
        n <= input@.len(),
        1 <= frame_header.bits_per_sample <= 33,
    ensures
        match r {
            Ok((f, m)) => sp_frame_tail(input@, frame_header, n as int) == Ok::<
                (FrameView, int),
                ErrorKind,
            >((f@, m as int)) && m <= input@.len(),
            Err(e) => sp_frame_tail(input@, frame_header, n as int) == Err::<
                (FrameView, int),
                ErrorKind,
            >(e),
        },
{
    let cur: BitCursor = BitCursor::at_byte(n);
    let (subframes, c) = match read_subframes(input, cur, &frame_header) {
        Ok(v) => v,
        Err(e) => {
            return Err(e);
        },
    };
    let pad: usize = (8 - c.bit) % 8;
    proof {
        assert((c.byte * 8 + c.bit) % 8 == c.bit) by (nonlinear_arith)
            requires
                c.bit < 8,
                c.byte >= 0,
        ;
    }
    let (padding, c2) = match crate::bits::read_bits(input, c, pad) {
        Some(v) => v,
        None => {
            return Err(ErrorKind::FrameFooterParser);
        },
    };
    if padding != 0 {
        return Err(ErrorKind::FrameFooterParser);
    }
    proof {
        assert(c2.pos() % 8 == 0) by (nonlinear_arith)
            requires
                c2.pos() == c.byte * 8 + c.bit + (8 - (c.byte * 8 + c.bit) % 8) % 8,
                c.bit < 8,
                c.byte >= 0,
        ;
        assert(c2.bit == 0 && c2.byte == c2.pos() / 8) by (nonlinear_arith)
            requires
                c2.pos() == c2.byte * 8 + c2.bit,
                c2.bit < 8,
                c2.pos() % 8 == 0,
                c2.byte >= 0,
        ;
    }
    let q: usize = c2.byte;
    if input.len() - q < 2 {
        return Err(ErrorKind::Incomplete(crate::utility::sat_add(q, 2)));
    }
    proof {
        lemma_be_value_bound(input@.subrange(q as int, q + 2 as int));
        lemma2_to64();
        assert(input@.subrange(0, q as int) =~= input@.take(q as int));
    }
    let stored: u16 = to_u32(&input[q..q + 2]) as u16;
    let computed: u16 = crc16(&input[0..q]);
    if computed != stored {
        return Err(ErrorKind::InvalidCRC16);
    }
    Ok((Frame { header: frame_header, subframes, footer: Footer(stored) }, q + 2))
}

/// Parses an audio frame: header, subframes, byte-alignment padding, and
/// the CRC-16 footer.
pub fn frame_parser(input: &[u8], stream_info: &StreamInfo) -> (r: Result<(Frame, usize), ErrorKind>)
    requires
        8 * input@.len() <= usize::MAX,
    ensures
        match r {
            Ok((f, n)) => sp_frame(input@, stream_info@) == Ok::<(FrameView, int), ErrorKind>(
                (f@, n as int),
            ) && n <= input@.len(),
            Err(e) => sp_frame(input@, stream_info@) == Err::<(FrameView, int), ErrorKind>(e),
        },
{
    proof {
        reveal(sp_frame);
    }
    let (frame_header, n) = match header(input, stream_info) {
        Ok(v) => v,
        Err(e) => {
            return Err(e);
        },
    };
    if frame_header.bits_per_sample < 1 || frame_header.bits_per_sample > 33 {
        return Err(ErrorKind::ChannelBitsParser);
    }
    proof {
        assert(n <= input@.len()) by {
            assert(sp_frame_header(input@, stream_info@) is Ok);
        }
    }
    frame_tail(input, frame_header, n)
}

// ---------------------------------------------------------------------
// Stereo decorrelation
// ---------------------------------------------------------------------

/// The left channel recovered from a midpoint/side pair: the midpoint is
/// doubled, its lost low bit restored from the side's parity, and the side
/// added back; halving gives the left sample.
pub open spec fn mid_side_left(m: int, s: int) -> int {
    (2 * m + s % 2 + s) / 2
}

/// The right channel recovered from a midpoint/side pair.
pub open spec fn mid_side_right(m: int, s: int) -> int {
    (2 * m + s % 2 - s) / 2
}

/// Decode left and side channels to left and right channels: the first
/// half of the buffer is the left channel and the second half the side
/// (difference), which becomes the right channel.  Returns false, leaving
/// the buffer unchanged, when a difference overflows the accumulator.
pub fn decode_left_side(buffer: &mut Vec<i64>) -> (r: bool)
    ensures
        final(buffer)@.len() == old(buffer)@.len(),
        r ==> forall|i: int|
            0 <= i < old(buffer)@.len() as int / 2 ==> #[trigger] final(buffer)@[i]
                == old(buffer)@[i],
        r ==> forall|i: int|
            0 <= i < old(buffer)@.len() as int / 2 ==> final(buffer)@[old(buffer)@.len() as int / 2
                + i] == #[trigger] old(buffer)@[i] - old(buffer)@[old(buffer)@.len() as int / 2
                + i],
        r ==> forall|i: int|
            2 * (old(buffer)@.len() as int / 2) <= i < old(buffer)@.len()
                ==> #[trigger] final(buffer)@[i] == old(buffer)@[i],
        !r ==> final(buffer)@ == old(buffer)@ && exists|i: int|
            0 <= i < old(buffer)@.len() as int / 2 && !(-0x8000_0000_0000_0000
                <= #[trigger] old(buffer)@[i] - old(buffer)@[old(buffer)@.len() as int / 2 + i]
                < 0x8000_0000_0000_0000),
{
    let block_size: usize = buffer.len() / 2;
    let mut rights: Vec<i64> = Vec::new();
    let mut i: usize = 0;
    while i < block_size
        invariant
            i <= block_size == old(buffer)@.len() as int / 2,
            old(buffer)@.len() <= usize::MAX,
            buffer@ == old(buffer)@,
            rights@.len() == i,
            forall|k: int|
                0 <= k < i ==> rights@[k] == old(buffer)@[k] - old(buffer)@[block_size + k],
        decreases block_size - i,
    {
        let left: i64 = buffer[i];
        let side: i64 = buffer[block_size + i];
        let diff: i128 = (left as i128) - (side as i128);
        if diff < i64::MIN as i128 || diff > i64::MAX as i128 {
            return false;
        }
        rights.push(diff as i64);
        i += 1;
    }
    let mut j: usize = 0;
    while j < block_size
        invariant
            j <= block_size == old(buffer)@.len() as int / 2,
            old(buffer)@.len() <= usize::MAX,
            buffer@.len() == old(buffer)@.len(),
            rights@.len() == block_size,
            forall|k: int|
                0 <= k < block_size ==> rights@[k] == old(buffer)@[k] - old(buffer)@[block_size
                    + k],
            forall|k: int| 0 <= k < block_size ==> buffer@[k] == old(buffer)@[k],
            forall|k: int| 0 <= k < j ==> buffer@[block_size + k] == rights@[k],
            forall|k: int|
                block_size + j <= k < old(buffer)@.len() ==> buffer@[k] == old(buffer)@[k],
        decreases block_size - j,
    {
        let value: i64 = rights[j];
        buffer.set(block_size + j, value);
        j += 1;
    }
    proof {
        assert forall|i: int| 0 <= i < block_size as int implies #[trigger] buffer@[
            block_size as int + i] == old(buffer)@[i] - old(buffer)@[block_size as int + i] by {
            assert(buffer@[block_size as int + i] == rights@[i]);
        }
    }
    true
}

/// Decode side and right channels to left and right channels: the first
/// half is the side (difference), replaced by the left channel.  Returns
/// false, leaving the buffer unchanged, when a sum overflows.
pub fn decode_right_side(buffer: &mut Vec<i64>) -> (r: bool)
    ensures
        final(buffer)@.len() == old(buffer)@.len(),
        r ==> forall|i: int|
            0 <= i < old(buffer)@.len() as int / 2 ==> #[trigger] final(buffer)@[i]
                == old(buffer)@[i] + old(buffer)@[old(buffer)@.len() as int / 2 + i],
        r ==> forall|i: int|
            old(buffer)@.len() as int / 2 <= i < old(buffer)@.len()
                ==> #[trigger] final(buffer)@[i] == old(buffer)@[i],
        !r ==> final(buffer)@ == old(buffer)@ && exists|i: int|
            0 <= i < old(buffer)@.len() as int / 2 && !(-0x8000_0000_0000_0000
                <= #[trigger] old(buffer)@[i] + old(buffer)@[old(buffer)@.len() as int / 2 + i]
                < 0x8000_0000_0000_0000),
{
    let block_size: usize = buffer.len() / 2;
    let mut lefts: Vec<i64> = Vec::new();
    let mut i: usize = 0;
    while i < block_size
        invariant
            i <= block_size == old(buffer)@.len() as int / 2,
            old(buffer)@.len() <= usize::MAX,
            buffer@ == old(buffer)@,
            lefts@.len() == i,
            forall|k: int|
                0 <= k < i ==> lefts@[k] == old(buffer)@[k] + old(buffer)@[block_size + k],
        decreases block_size - i,
    {
        let side: i64 = buffer[i];
        let right: i64 = buffer[block_size + i];
        let sum: i128 = (side as i128) + (right as i128);
        if sum < i64::MIN as i128 || sum > i64::MAX as i128 {
            return false;
        }
        lefts.push(sum as i64);
        i += 1;
    }
    let mut j: usize = 0;
    while j < block_size
        invariant
            j <= block_size == old(buffer)@.len() as int / 2,
            old(buffer)@.len() <= usize::MAX,
            buffer@.len() == old(buffer)@.len(),
            lefts@.len() == block_size,
            forall|k: int|
                0 <= k < block_size ==> lefts@[k] == old(buffer)@[k] + old(buffer)@[block_size
                    + k],
            forall|k: int| 0 <= k < j ==> buffer@[k] == lefts@[k],
            forall|k: int| j <= k < old(buffer)@.len() ==> buffer@[k] == old(buffer)@[k],
        decreases block_size - j,
    {
        let value: i64 = lefts[j];
        buffer.set(j, value);
        j += 1;
    }
    proof {
        assert forall|i: int| 0 <= i < block_size as int implies #[trigger] buffer@[i] == old(
            buffer,
        )@[i] + old(buffer)@[block_size as int + i] by {
            assert(buffer@[i] == lefts@[i]);
        }
    }
    true
}

/// Decode midpoint and side channels to left and right channels.  The
/// midpoint's lost low bit is the side's parity; shifting it back and
/// adding or subtracting the side recovers the pair.  Returns false,
/// leaving the buffer unchanged, when a recovered value overflows.
pub fn decode_midpoint_side(buffer: &mut Vec<i64>) -> (r: bool)
    ensures
        final(buffer)@.len() == old(buffer)@.len(),
        r ==> forall|i: int|
            0 <= i < old(buffer)@.len() as int / 2 ==> #[trigger] final(buffer)@[i]
                == mid_side_left(
                old(buffer)@[i] as int,
                old(buffer)@[old(buffer)@.len() as int / 2 + i] as int,
            ),
        r ==> forall|i: int|
            0 <= i < old(buffer)@.len() as int / 2 ==> final(buffer)@[old(buffer)@.len() as int / 2
                + i] == mid_side_right(
                #[trigger] old(buffer)@[i] as int,
                old(buffer)@[old(buffer)@.len() as int / 2 + i] as int,
            ),
        r ==> forall|i: int|
            2 * (old(buffer)@.len() as int / 2) <= i < old(buffer)@.len()
                ==> #[trigger] final(buffer)@[i] == old(buffer)@[i],
        !r ==> final(buffer)@ == old(buffer)@ && exists|i: int|
            0 <= i < old(buffer)@.len() as int / 2 && {
                let left = mid_side_left(
                    #[trigger] old(buffer)@[i] as int,
                    old(buffer)@[old(buffer)@.len() as int / 2 + i] as int,
                );
                let right = mid_side_right(
                    old(buffer)@[i] as int,
                    old(buffer)@[old(buffer)@.len() as int / 2 + i] as int,
                );
                !(-0x8000_0000_0000_0000 <= left < 0x8000_0000_0000_0000)
                    || !(-0x8000_0000_0000_0000 <= right < 0x8000_0000_0000_0000)
            },
{
    let block_size: usize = buffer.len() / 2;
    let mut lefts: Vec<i64> = Vec::new();
    let mut rights: Vec<i64> = Vec::new();
    let mut i: usize = 0;
    while i < block_size
        invariant
            i <= block_size == old(buffer)@.len() as int / 2,
            old(buffer)@.len() <= usize::MAX,
            buffer@ == old(buffer)@,
            lefts@.len() == i,
            rights@.len() == i,
            forall|k: int|
                0 <= k < i ==> lefts@[k] == mid_side_left(
                    old(buffer)@[k] as int,
                    old(buffer)@[block_size + k] as int,
                ),
            forall|k: int|
                0 <= k < i ==> rights@[k] == mid_side_right(
                    old(buffer)@[k] as int,
                    old(buffer)@[block_size + k] as int,
                ),
        decreases block_size - i,
    {
        let midpoint: i64 = buffer[i];
        let side: i64 = buffer[block_size + i];
        let low: i64 = side & 1;
        proof {
            assert(side & 1 == 0 || side & 1 == 1) by (bit_vector);
            assert(((side & 1) as int) == (side as int) % 2) by (bit_vector);
        }
        let m2: i128 = 2 * (midpoint as i128) + (low as i128);
        let left_wide: i128 = match (m2 + (side as i128)).checked_div_euclid(2) {
            Some(v) => v,
            None => {
                proof {
                    assert(false);
                }
                0
            },
        };
        let right_wide: i128 = match (m2 - (side as i128)).checked_div_euclid(2) {
            Some(v) => v,
            None => {
                proof {
                    assert(false);
                }
                0
            },
        };
        if left_wide < i64::MIN as i128 || left_wide > i64::MAX as i128 || right_wide
            < i64::MIN as i128 || right_wide > i64::MAX as i128 {
            proof {
                assert(left_wide == mid_side_left(
                    old(buffer)@[i as int] as int,
                    old(buffer)@[block_size + i as int] as int,
                ));
                assert(right_wide == mid_side_right(
                    old(buffer)@[i as int] as int,
                    old(buffer)@[block_size + i as int] as int,
                ));
            }
            return false;
        }
        lefts.push(left_wide as i64);
        rights.push(right_wide as i64);
        i += 1;
    }
    let mut j: usize = 0;
    while j < block_size
        invariant
            j <= block_size == old(buffer)@.len() as int / 2,
            old(buffer)@.len() <= usize::MAX,
            buffer@.len() == old(buffer)@.len(),
            lefts@.len() == block_size,
            rights@.len() == block_size,
            forall|k: int|
                0 <= k < block_size ==> lefts@[k] == mid_side_left(
                    old(buffer)@[k] as int,
                    old(buffer)@[block_size + k] as int,
                ),
            forall|k: int|
                0 <= k < block_size ==> rights@[k] == mid_side_right(
                    old(buffer)@[k] as int,
                    old(buffer)@[block_size + k] as int,
                ),
            forall|k: int| 0 <= k < j ==> buffer@[k] == lefts@[k],
            forall|k: int| 0 <= k < j ==> buffer@[block_size + k] == rights@[k],
            forall|k: int| j <= k < block_size ==> buffer@[k] == old(buffer)@[k],
            forall|k: int|
                block_size + j <= k < old(buffer)@.len() ==> buffer@[k] == old(buffer)@[k],
        decreases block_size - j,
    {
        let left: i64 = lefts[j];
        let right: i64 = rights[j];
        buffer.set(j, left);
        buffer.set(block_size + j, right);
        j += 1;
    }
    proof {
        assert forall|i: int| 0 <= i < block_size as int implies #[trigger] buffer@[i] == mid_side_left(
            old(buffer)@[i] as int,
            old(buffer)@[block_size as int + i] as int,
        ) by {
            assert(buffer@[i] == lefts@[i]);
        }
        assert forall|i: int| 0 <= i < block_size as int implies #[trigger] buffer@[
            block_size as int + i] == mid_side_right(
            old(buffer)@[i] as int,
            old(buffer)@[block_size as int + i] as int,
        ) by {
            assert(buffer@[block_size as int + i] == rights@[i]);
        }
    }
    true
}

/// Decode the current frame buffer.
///
/// The independent assignment leaves the buffer as it stands; the three
/// stereo pairings replace the stored channels by left and right.
pub fn decode(channel_assignment: ChannelAssignment, buffer: &mut Vec<i64>) -> (r: bool)
    ensures
        final(buffer)@.len() == old(buffer)@.len(),
        !r ==> final(buffer)@ == old(buffer)@,
        !r && channel_assignment == ChannelAssignment::LeftSide ==> exists|i: int|
            0 <= i < old(buffer)@.len() as int / 2 && !(-0x8000_0000_0000_0000
                <= #[trigger] old(buffer)@[i] - old(buffer)@[old(buffer)@.len() as int / 2 + i]
                < 0x8000_0000_0000_0000),
        !r && channel_assignment == ChannelAssignment::RightSide ==> exists|i: int|
            0 <= i < old(buffer)@.len() as int / 2 && !(-0x8000_0000_0000_0000
                <= #[trigger] old(buffer)@[i] + old(buffer)@[old(buffer)@.len() as int / 2 + i]
                < 0x8000_0000_0000_0000),
        !r && channel_assignment == ChannelAssignment::MidpointSide ==> exists|i: int|
            0 <= i < old(buffer)@.len() as int / 2 && {
                let left = mid_side_left(
                    #[trigger] old(buffer)@[i] as int,
                    old(buffer)@[old(buffer)@.len() as int / 2 + i] as int,
                );
                let right = mid_side_right(
                    old(buffer)@[i] as int,
                    old(buffer)@[old(buffer)@.len() as int / 2 + i] as int,
                );
                !(-0x8000_0000_0000_0000 <= left < 0x8000_0000_0000_0000)
                    || !(-0x8000_0000_0000_0000 <= right < 0x8000_0000_0000_0000)
            },
        channel_assignment == ChannelAssignment::Independent ==> r && final(buffer)@ == old(
            buffer,
        )@,
        r && channel_assignment == ChannelAssignment::LeftSide ==> forall|i: int|
            0 <= i < old(buffer)@.len() as int / 2 ==> #[trigger] final(buffer)@[i] == old(
                buffer,
            )@[i]
                && final(buffer)@[old(buffer)@.len() as int / 2 + i] == old(buffer)@[i] - old(
                buffer,
            )@[old(buffer)@.len() as int / 2 + i],
        r && channel_assignment == ChannelAssignment::RightSide ==> forall|i: int|
            0 <= i < old(buffer)@.len() as int / 2 ==> #[trigger] final(buffer)@[i]
                == old(buffer)@[i] + old(
                buffer,
            )@[old(buffer)@.len() as int / 2 + i] && final(buffer)@[old(buffer)@.len() as int / 2
                + i] == old(buffer)@[old(buffer)@.len() as int / 2 + i],
        r && channel_assignment == ChannelAssignment::MidpointSide ==> forall|i: int|
            0 <= i < old(buffer)@.len() as int / 2 ==> #[trigger] final(buffer)@[i]
                == mid_side_left(
                old(buffer)@[i] as int,
                old(buffer)@[old(buffer)@.len() as int / 2 + i] as int,
            ) && final(buffer)@[old(buffer)@.len() as int / 2 + i] == mid_side_right(
                old(buffer)@[i] as int,
                old(buffer)@[old(buffer)@.len() as int / 2 + i] as int,
            ),
{
    match channel_assignment {
        ChannelAssignment::Independent => true,
        ChannelAssignment::LeftSide => decode_left_side(buffer),
        ChannelAssignment::RightSide => decode_right_side(buffer),
        ChannelAssignment::MidpointSide => decode_midpoint_side(buffer),
    }
}

/// Stereo decorrelation is invertible: encoding an arbitrary left/right
/// pair as left/side, side/right, or midpoint/side, and then applying the
/// decoding pairing, recovers the pair exactly.  The encoded side is the
/// difference and the encoded midpoint is the averaged pair rounded down.
pub proof fn lemma_stereo_decorrelation_invertible(l: int, r: int)
    ensures
        l - (l - r) == r,
        (l - r) + r == l,
        mid_side_left((l + r) / 2, l - r) == l,
        mid_side_right((l + r) / 2, l - r) == r,
{
    let m = (l + r) / 2;
    let s = l - r;
    lemma_fundamental_div_mod(l + r, 2);
    lemma_fundamental_div_mod(l - r, 2);
    assert((l + r) % 2 == (l - r) % 2);
    assert(2 * m + s % 2 == l + r);
    assert(2 * m + s % 2 + s == 2 * l);
    assert(2 * m + s % 2 - s == 2 * r);
    vstd::arithmetic::div_mod::lemma_div_multiples_vanish(l, 2);
    vstd::arithmetic::div_mod::lemma_div_multiples_vanish(r, 2);
    assert((2 * l) / 2 == l && (2 * r) / 2 == r);
}

/// The PCM value of channel `ch`, sample `i`, of a decoded frame: the
/// subframe outputs with the inter-channel pairing undone.
pub open spec fn frame_pcm(f: FrameView, ch: int, i: int) -> int {
    let bs = f.header.block_size as int;
    let v = crate::subframe::sp_subframe_output(f.subframes[ch], bs, i);
    let v0 = crate::subframe::sp_subframe_output(f.subframes[0], bs, i);
    let v1 = crate::subframe::sp_subframe_output(f.subframes[1], bs, i);
    match f.header.channel_assignment {
        ChannelAssignment::Independent => v,
        ChannelAssignment::LeftSide => if ch == 0 {
            v0
        } else {
            v0 - v1
        },
        ChannelAssignment::RightSide => if ch == 0 {
            v0 + v1
        } else {
            v1
        },
        ChannelAssignment::MidpointSide => if ch == 0 {
            mid_side_left(v0, v1)
        } else {
            mid_side_right(v0, v1)
        },
    }
}

} // verus!
