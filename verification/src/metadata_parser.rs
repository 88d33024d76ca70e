//! Parsers for the metadata block chain: the block header, the typed block
//! bodies, and the dispatching block parser.  Each parser consumes a byte
//! window and returns the parsed value with its consumed byte count, an
//! `Incomplete` demand for more input, or an error kind; a specification
//! function states the exact outcome for every input.

use vstd::prelude::*;

verus! {

use vstd::utf8::{valid_utf8, decode_utf8};
use vstd::arithmetic::power2::lemma2_to64;
use crate::error::ErrorKind;
use crate::metadata::{
    Application, ApplicationView, CueSheet, CueSheetTrack, CueSheetTrackIndex, CueSheetTrackView,
    CueSheetView, Data, DataView, Metadata, MetadataView, Picture, PictureType, PictureView,
    SeekPoint, StreamInfo, StreamInfoView, VorbisComment, VorbisCommentView,
};
use crate::utility::{
    be_value, le_value, lemma_be_value_bound, sat_add, sat_usize, to_u32, to_u32_le, to_u64,
};

/// An executable parse outcome agrees with its specification: the same
/// value (through its view) and consumed count, or the same error.
pub open spec fn parses_to<T: View>(
    r: Result<(T, usize), ErrorKind>,
    s: Result<(T::V, int), ErrorKind>,
) -> bool {
    match r {
        Ok((v, n)) => s == Ok::<(T::V, int), ErrorKind>((v@, n as int)),
        Err(e) => s == Err::<(T::V, int), ErrorKind>(e),
    }
}

/// As `parses_to`, for results that are their own mathematical value.
pub open spec fn parses_to_plain<T>(
    r: Result<(T, usize), ErrorKind>,
    s: Result<(T, int), ErrorKind>,
) -> bool {
    match r {
        Ok((v, n)) => s == Ok::<(T, int), ErrorKind>((v, n as int)),
        Err(e) => s == Err::<(T, int), ErrorKind>(e),
    }
}

/// Relies on `str::from_utf8` and `str::to_owned`: the conversion succeeds
/// exactly on valid UTF-8 and yields its decoding.
#[verifier::external_body]
fn parse_utf8(bytes: &[u8]) -> (r: Option<String>)
    ensures
        match r {
            Some(s) => valid_utf8(bytes@) && s@ == decode_utf8(bytes@),
            None => !valid_utf8(bytes@),
        },
{
    match std::str::from_utf8(bytes) {
        Ok(s) => Some(s.to_owned()),
        Err(_) => None,
    }
}

// ---------------------------------------------------------------------
// Block header
// ---------------------------------------------------------------------

/// What the four-byte block header denotes: the last-block flag, the type
/// code, and the 24-bit body length.
pub open spec fn sp_header(s: Seq<u8>) -> Result<((bool, u8, u32), int), ErrorKind> {
    if s.len() < 4 {
        Err(ErrorKind::Incomplete(4))
    } else {
        Ok((((s[0] >> 7u8) == 1, s[0] & 0x7f, be_value(s.subrange(1, 4)) as u32), 4))
    }
}

/// Parses a metadata block header: one byte holding the last-block flag
/// and type code, then a 24-bit big-endian length.
pub fn header(input: &[u8]) -> (r: Result<((bool, u8, u32), usize), ErrorKind>)
    ensures
        parses_to_plain(r, sp_header(input@)),
{
    if input.len() < 4 {
        return Err(ErrorKind::Incomplete(4));
    }
    let block_byte: u8 = input[0];
    let is_last: bool = (block_byte >> 7u8) == 1;
    let block_type: u8 = block_byte & 0x7f;
    let length: u32 = to_u32(&input[1..4]);
    proof {
        lemma_be_value_bound(input@.subrange(1, 4));
        lemma2_to64();
    }
    Ok(((is_last, block_type, length), 4))
}

// ---------------------------------------------------------------------
// STREAMINFO
// ---------------------------------------------------------------------

/// What the 34-byte STREAMINFO body denotes.
pub open spec fn sp_stream_info(s: Seq<u8>) -> Result<(DataView, int), ErrorKind> {
    if s.len() < 34 {
        Err(ErrorKind::Incomplete(34))
    } else {
        Ok(
            (
                DataView::StreamInfo(
                    StreamInfoView {
                        min_block_size: be_value(s.subrange(0, 2)) as u16,
                        max_block_size: be_value(s.subrange(2, 4)) as u16,
                        min_frame_size: be_value(s.subrange(4, 7)) as u32,
                        max_frame_size: be_value(s.subrange(7, 10)) as u32,
                        sample_rate: (((s[10] as u32) << 12u32) + ((s[11] as u32) << 4u32) + ((
                        s[12] as u32) >> 4u32)) as u32,
                        channels: (((s[12] >> 1u8) & 0x07) + 1) as u8,
                        bits_per_sample: ((((s[12] & 0x01) << 4u8) | (s[13] >> 4u8)) + 1) as u8,
                        total_samples: ((((s[13] as u64) & 0x0f) << 32u64) + ((s[14] as u64)
                            << 24u64) + ((s[15] as u64) << 16u64) + ((s[16] as u64) << 8u64) + (
                        s[17] as u64)) as u64,
                        md5_sum: s.subrange(18, 34),
                    },
                ),
                34,
            ),
        )
    }
}

/// Parses the STREAMINFO block body.
pub fn stream_info(input: &[u8]) -> (r: Result<(Data, usize), ErrorKind>)
    ensures
        parses_to(r, sp_stream_info(input@)),
{
    if input.len() < 34 {
        return Err(ErrorKind::Incomplete(34));
    }
    proof {
        lemma_be_value_bound(input@.subrange(0, 2));
        lemma_be_value_bound(input@.subrange(2, 4));
        lemma_be_value_bound(input@.subrange(4, 7));
        lemma_be_value_bound(input@.subrange(7, 10));
        lemma2_to64();
    }
    let min_block_size: u16 = to_u32(&input[0..2]) as u16;
    let max_block_size: u16 = to_u32(&input[2..4]) as u16;
    let min_frame_size: u32 = to_u32(&input[4..7]);
    let max_frame_size: u32 = to_u32(&input[7..10]);
    let b10: u8 = input[10];
    let b11: u8 = input[11];
    let b12: u8 = input[12];
    let b13: u8 = input[13];
    proof {
        assert(((b10 as u32) << 12u32) <= 0xff000 && ((b11 as u32) << 4u32) <= 0xff0 && ((
        b12 as u32) >> 4u32) <= 0xff) by (bit_vector);
        assert(((b12 >> 1u8) & 0x07) <= 7) by (bit_vector);
        assert((((b12 & 0x01) << 4u8) | (b13 >> 4u8)) <= 31) by (bit_vector);
    }
    let sample_rate: u32 = ((b10 as u32) << 12u32) + ((b11 as u32) << 4u32) + ((b12 as u32)
        >> 4u32);
    let channels: u8 = ((b12 >> 1u8) & 0x07) + 1;
    let bits_per_sample: u8 = (((b12 & 0x01) << 4u8) | (b13 >> 4u8)) + 1;
    let b14: u8 = input[14];
    let b15: u8 = input[15];
    let b16: u8 = input[16];
    let b17: u8 = input[17];
    proof {
        assert((((b13 as u64) & 0x0f) << 32u64) <= 0xF_0000_0000 && ((b14 as u64) << 24u64)
            <= 0xFF00_0000 && ((b15 as u64) << 16u64) <= 0xFF_0000 && ((b16 as u64) << 8u64)
            <= 0xFF00) by (bit_vector);
    }
    let total_samples: u64 = (((b13 as u64) & 0x0f) << 32u64) + ((b14 as u64) << 24u64) + ((
    b15 as u64) << 16u64) + ((b16 as u64) << 8u64) + (b17 as u64);
    let md5_sum: [u8; 16] = [
        input[18],
        input[19],
        input[20],
        input[21],
        input[22],
        input[23],
        input[24],
        input[25],
        input[26],
        input[27],
        input[28],
        input[29],
        input[30],
        input[31],
        input[32],
        input[33],
    ];
    let result = StreamInfo {
        min_block_size,
        max_block_size,
        min_frame_size,
        max_frame_size,
        sample_rate,
        channels,
        bits_per_sample,
        total_samples,
        md5_sum,
    };
    proof {
        assert(result.md5_sum@ =~= input@.subrange(18, 34));
    }
    Ok((Data::StreamInfo(result), 34))
}

// ---------------------------------------------------------------------
// PADDING and UNKNOWN
// ---------------------------------------------------------------------

/// What the PADDING body denotes: `length` bytes that must all be zero,
/// kept as the byte count.
pub open spec fn sp_padding(s: Seq<u8>, length: u32) -> Result<(DataView, int), ErrorKind> {
    if s.len() < length {
        Err(ErrorKind::Incomplete(length as usize))
    } else if forall|i: int| 0 <= i < length ==> s[i] == 0 {
        Ok((DataView::Padding(length), length as int))
    } else {
        Err(ErrorKind::PaddingParser)
    }
}

/// Parses the PADDING block body: every byte of the declared length must
/// be zero.
pub fn padding(input: &[u8], length: u32) -> (r: Result<(Data, usize), ErrorKind>)
    ensures
        parses_to(r, sp_padding(input@, length)),
{
    if input.len() < length as usize {
        return Err(ErrorKind::Incomplete(length as usize));
    }
    let mut i: usize = 0;
    while i < length as usize
        invariant
            i <= length,
            input@.len() >= length,
            forall|k: int| 0 <= k < i ==> input@[k] == 0,
        decreases length - i,
    {
        if input[i] != 0 {
            return Err(ErrorKind::PaddingParser);
        }
        i += 1;
    }
    Ok((Data::Padding(length), length as usize))
}

/// What an unrecognised block body denotes: its `length` bytes, kept
/// opaquely.
pub open spec fn sp_unknown(s: Seq<u8>, length: u32) -> Result<(DataView, int), ErrorKind> {
    if s.len() < length {
        Err(ErrorKind::Incomplete(length as usize))
    } else {
        Ok((DataView::Unknown(s.subrange(0, length as int)), length as int))
    }
}

/// Parses a block of an unrecognised type by keeping its bytes.
pub fn unknown(input: &[u8], length: u32) -> (r: Result<(Data, usize), ErrorKind>)
    ensures
        parses_to(r, sp_unknown(input@, length)),
{
    if input.len() < length as usize {
        return Err(ErrorKind::Incomplete(length as usize));
    }
    let mut data: Vec<u8> = Vec::new();
    let mut i: usize = 0;
    while i < length as usize
        invariant
            i <= length,
            input@.len() >= length,
            data@ == input@.subrange(0, i as int),
        decreases length - i,
    {
        data.push(input[i]);
        proof {
            assert(input@.subrange(0, i + 1 as int) =~= input@.subrange(0, i as int).push(
                input@[i as int],
            ));
        }
        i += 1;
    }
    Ok((Data::Unknown(data), length as usize))
}

// ---------------------------------------------------------------------
// APPLICATION
// ---------------------------------------------------------------------

/// What the APPLICATION body denotes: a four-byte UTF-8 id, then opaque
/// data filling the declared length.
pub open spec fn sp_application(s: Seq<u8>, length: u32) -> Result<(DataView, int), ErrorKind> {
    if s.len() < length {
        Err(ErrorKind::Incomplete(length as usize))
    } else if length < 4 {
        Err(ErrorKind::ApplicationParser)
    } else if !valid_utf8(s.subrange(0, 4)) {
        Err(ErrorKind::ApplicationParser)
    } else {
        Ok(
            (
                DataView::Application(
                    ApplicationView {
                        id: decode_utf8(s.subrange(0, 4)),
                        data: s.subrange(4, length as int),
                    },
                ),
                length as int,
            ),
        )
    }
}

/// Parses the APPLICATION block body.
pub fn application(input: &[u8], length: u32) -> (r: Result<(Data, usize), ErrorKind>)
    ensures
        parses_to(r, sp_application(input@, length)),
{
    if input.len() < length as usize {
        return Err(ErrorKind::Incomplete(length as usize));
    }
    if length < 4 {
        return Err(ErrorKind::ApplicationParser);
    }
    let id: String = match parse_utf8(&input[0..4]) {
        Some(s) => s,
        None => {
            return Err(ErrorKind::ApplicationParser);
        },
    };
    let mut data: Vec<u8> = Vec::new();
    let mut i: usize = 4;
    while i < length as usize
        invariant
            4 <= i <= length,
            input@.len() >= length,
            data@ == input@.subrange(4, i as int),
        decreases length - i,
    {
        data.push(input[i]);
        proof {
            assert(input@.subrange(4, i + 1 as int) =~= input@.subrange(4, i as int).push(
                input@[i as int],
            ));
        }
        i += 1;
    }
    proof {
        if length == 4 {
            assert(data@ =~= input@.subrange(4, 4));
        }
    }
    Ok((Data::Application(Application { id, data }), length as usize))
}

// ---------------------------------------------------------------------
// SEEKTABLE
// ---------------------------------------------------------------------

/// The seek point starting at byte position `18 * k`.
pub open spec fn sp_seek_point(s: Seq<u8>, k: int) -> SeekPoint {
    SeekPoint {
        sample_number: be_value(s.subrange(18 * k, 18 * k + 8)) as u64,
        stream_offset: be_value(s.subrange(18 * k + 8, 18 * k + 16)) as u64,
        frame_samples: be_value(s.subrange(18 * k + 16, 18 * k + 18)) as u16,
    }
}

/// The first `n` seek points of the body.
pub open spec fn sp_seek_points(s: Seq<u8>, n: nat) -> Seq<SeekPoint>
    decreases n,
{
    if n == 0 {
        Seq::empty()
    } else {
        sp_seek_points(s, (n - 1) as nat).push(sp_seek_point(s, n - 1))
    }
}

/// What the SEEKTABLE body denotes: one 18-byte entry per `length / 18`.
pub open spec fn sp_seek_table(s: Seq<u8>, length: u32) -> Result<(DataView, int), ErrorKind> {
    if s.len() < length {
        Err(ErrorKind::Incomplete(length as usize))
    } else {
        let count = length as int / 18;
        Ok((DataView::SeekTable(sp_seek_points(s, count as nat)), 18 * count))
    }
}

/// Parses the SEEKTABLE block body.
pub fn seek_table(input: &[u8], length: u32) -> (r: Result<(Data, usize), ErrorKind>)
    ensures
        parses_to(r, sp_seek_table(input@, length)),
{
    if input.len() < length as usize {
        return Err(ErrorKind::Incomplete(length as usize));
    }
    let count: usize = (length as usize) / 18;
    proof {
        assert(18 * (length as int / 18) <= length) by (nonlinear_arith);
    }
    let mut points: Vec<SeekPoint> = Vec::new();
    let mut k: usize = 0;
    while k < count
        invariant
            k <= count,
            count == length as int / 18,
            18 * count <= length <= input@.len(),
            points@ == sp_seek_points(input@, k as nat),
        decreases count - k,
    {
        proof {
            assert(18 * (k + 1) <= 18 * count) by (nonlinear_arith)
                requires
                    k + 1 <= count,
            ;
            lemma_be_value_bound(input@.subrange(18 * k as int, 18 * k as int + 8));
            lemma_be_value_bound(input@.subrange(18 * k as int + 8, 18 * k as int + 16));
            lemma_be_value_bound(input@.subrange(18 * k as int + 16, 18 * k as int + 18));
            lemma2_to64();
            vstd::arithmetic::power2::lemma2_to64_rest();
        }
        let base: usize = 18 * k;
        let sample_number: u64 = to_u64(&input[base..base + 8]);
        let stream_offset: u64 = to_u64(&input[base + 8..base + 16]);
        let frame_samples: u16 = to_u64(&input[base + 16..base + 18]) as u16;
        points.push(SeekPoint { sample_number, stream_offset, frame_samples });
        k += 1;
    }
    Ok((Data::SeekTable(points), 18 * count))
}

// ---------------------------------------------------------------------
// VORBIS_COMMENT
// ---------------------------------------------------------------------

/// The first index at which byte `b` occurs, or -1 when it does not.
pub open spec fn find_byte(s: Seq<u8>, b: u8) -> int
    decreases s.len(),
{
    if s.len() == 0 {
        -1
    } else if s.first() == b {
        0
    } else {
        let r = find_byte(s.drop_first(), b);
        if r < 0 {
            -1
        } else {
            r + 1
        }
    }
}

proof fn lemma_find_byte_at(s: Seq<u8>, b: u8, i: int)
    requires
        0 <= i < s.len(),
        s[i] == b,
        forall|k: int| 0 <= k < i ==> s[k] != b,
    ensures
        find_byte(s, b) == i,
    decreases i,
{
    if i > 0 {
        lemma_find_byte_at(s.drop_first(), b, i - 1);
    }
}

proof fn lemma_find_byte_none(s: Seq<u8>, b: u8)
    requires
        forall|k: int| 0 <= k < s.len() ==> s[k] != b,
    ensures
        find_byte(s, b) < 0,
    decreases s.len(),
{
    if s.len() > 0 {
        lemma_find_byte_none(s.drop_first(), b);
    }
}

/// Finds the first equals sign in a comment line.
fn find_eq(bytes: &[u8]) -> (r: Option<usize>)
    ensures
        match r {
            Some(i) => find_byte(bytes@, 61) == i && i < bytes@.len() && bytes@[i as int] == 61,
            None => find_byte(bytes@, 61) < 0,
        },
{
    let mut i: usize = 0;
    while i < bytes.len()
        invariant
            i <= bytes@.len(),
            forall|k: int| 0 <= k < i ==> bytes@[k] != 61,
        decreases bytes@.len() - i,
    {
        if bytes[i] == 61 {
            proof {
                lemma_find_byte_at(bytes@, 61, i as int);
            }
            return Some(i);
        }
        i += 1;
    }
    proof {
        lemma_find_byte_none(bytes@, 61);
    }
    None
}

/// What one length-prefixed NAME=VALUE line starting at `pos` denotes.
pub open spec fn sp_comment_entry(s: Seq<u8>, pos: int) -> Result<
    ((Seq<char>, Seq<char>), int),
    ErrorKind,
> {
    if s.len() < pos + 4 {
        Err(ErrorKind::Incomplete(sat_usize(pos + 4)))
    } else {
        let clen = le_value(s.subrange(pos, pos + 4)) as int;
        if s.len() < pos + 4 + clen {
            Err(ErrorKind::Incomplete(sat_usize(pos + 4 + clen)))
        } else {
            let line = s.subrange(pos + 4, pos + 4 + clen);
            let eq = find_byte(line, 61);
            if eq < 0 {
                Err(ErrorKind::VorbisCommentParser)
            } else {
                let key = line.subrange(0, eq);
                let val = line.subrange(eq + 1, clen);
                if valid_utf8(key) && valid_utf8(val) {
                    Ok(((decode_utf8(key), decode_utf8(val)), pos + 4 + clen))
                } else {
                    Err(ErrorKind::VorbisCommentParser)
                }
            }
        }
    }
}

/// Parses one comment line, split at its first equals sign.
fn comment_entry(input: &[u8], pos: usize) -> (r: Result<((String, String), usize), ErrorKind>)
    requires
        pos <= input@.len(),
    ensures
        match r {
            Ok(((k, v), p)) => sp_comment_entry(input@, pos as int) == Ok::<
                ((Seq<char>, Seq<char>), int),
                ErrorKind,
            >(((k@, v@), p as int)) && pos <= p <= input@.len(),
            Err(e) => sp_comment_entry(input@, pos as int) == Err::<
                ((Seq<char>, Seq<char>), int),
                ErrorKind,
            >(e),
        },
{
    if input.len() - pos < 4 {
        return Err(ErrorKind::Incomplete(sat_add(pos, 4)));
    }
    let clen: usize = to_u32_le(&input[pos..pos + 4]) as usize;
    if input.len() - pos - 4 < clen {
        let needed: usize = sat_add(sat_add(pos, 4), clen);
        proof {
            assert(sat_usize(sat_usize(pos + 4) as int + clen) == sat_usize(pos + 4 + clen));
        }
        return Err(ErrorKind::Incomplete(needed));
    }
    let line_start: usize = pos + 4;
    let line_end: usize = line_start + clen;
    let ghost line: Seq<u8> = input@.subrange(line_start as int, line_end as int);
    let eq: usize = match find_eq(&input[line_start..line_end]) {
        Some(i) => i,
        None => {
            return Err(ErrorKind::VorbisCommentParser);
        },
    };
    proof {
        assert(line.subrange(0, eq as int) =~= input@.subrange(
            line_start as int,
            line_start + eq as int,
        ));
        assert(line.subrange(eq + 1 as int, clen as int) =~= input@.subrange(
            line_start + eq + 1 as int,
            line_end as int,
        ));
    }
    let key: String = match parse_utf8(&input[line_start..line_start + eq]) {
        Some(s) => s,
        None => {
            return Err(ErrorKind::VorbisCommentParser);
        },
    };
    let value: String = match parse_utf8(&input[line_start + eq + 1..line_end]) {
        Some(s) => s,
        None => {
            return Err(ErrorKind::VorbisCommentParser);
        },
    };
    Ok(((key, value), line_end))
}

/// The first `n` comment lines starting at `pos`, with the position after
/// them.
pub open spec fn sp_comments(s: Seq<u8>, pos: int, n: nat) -> Result<
    (Seq<(Seq<char>, Seq<char>)>, int),
    ErrorKind,
>
    decreases n,
{
    if n == 0 {
        Ok((Seq::empty(), pos))
    } else {
        match sp_comments(s, pos, (n - 1) as nat) {
            Err(e) => Err(e),
            Ok((v, p)) => match sp_comment_entry(s, p) {
                Err(e) => Err(e),
                Ok((kv, p2)) => Ok((v.push(kv), p2)),
            },
        }
    }
}

proof fn lemma_sp_comments_err(s: Seq<u8>, pos: int, k: nat, n: nat, e: ErrorKind)
    requires
        k < n,
        sp_comments(s, pos, k) is Ok,
        sp_comment_entry(s, sp_comments(s, pos, k)->Ok_0.1) == Err::<
            ((Seq<char>, Seq<char>), int),
            ErrorKind,
        >(e),
    ensures
        sp_comments(s, pos, n) == Err::<(Seq<(Seq<char>, Seq<char>)>, int), ErrorKind>(e),
    decreases n,
{
    if n == k + 1 {
    } else {
        lemma_sp_comments_err(s, pos, k, (n - 1) as nat, e);
    }
}

/// What the VORBIS_COMMENT body denotes: a length-prefixed vendor string,
/// a line count, and that many NAME=VALUE lines.
pub open spec fn sp_vorbis_comment(s: Seq<u8>) -> Result<(DataView, int), ErrorKind> {
    if s.len() < 4 {
        Err(ErrorKind::Incomplete(4))
    } else {
        let vlen = le_value(s.subrange(0, 4)) as int;
        if s.len() < 4 + vlen {
            Err(ErrorKind::Incomplete(sat_usize(4 + vlen)))
        } else if !valid_utf8(s.subrange(4, 4 + vlen)) {
            Err(ErrorKind::VorbisCommentParser)
        } else if s.len() < 8 + vlen {
            Err(ErrorKind::Incomplete(sat_usize(8 + vlen)))
        } else {
            let count = le_value(s.subrange(4 + vlen, 8 + vlen));
            match sp_comments(s, 8 + vlen, count) {
                Err(e) => Err(e),
                Ok((cs, p)) => Ok(
                    (
                        DataView::VorbisComment(
                            VorbisCommentView {
                                vendor_string: decode_utf8(s.subrange(4, 4 + vlen)),
                                comments: cs,
                            },
                        ),
                        p,
                    ),
                ),
            }
        }
    }
}

/// Parses the VORBIS_COMMENT block body.
pub fn vorbis_comment(input: &[u8]) -> (r: Result<(Data, usize), ErrorKind>)
    ensures
        parses_to(r, sp_vorbis_comment(input@)),
{
    if input.len() < 4 {
        return Err(ErrorKind::Incomplete(4));
    }
    let vlen: usize = to_u32_le(&input[0..4]) as usize;
    if input.len() - 4 < vlen {
        return Err(ErrorKind::Incomplete(sat_add(4, vlen)));
    }
    let vendor_string: String = match parse_utf8(&input[4..4 + vlen]) {
        Some(s) => s,
        None => {
            return Err(ErrorKind::VorbisCommentParser);
        },
    };
    if input.len() - 4 - vlen < 4 {
        return Err(ErrorKind::Incomplete(sat_add(8, vlen)));
    }
    let count: usize = to_u32_le(&input[4 + vlen..8 + vlen]) as usize;
    let ghost start: int = 8 + vlen as int;
    let mut comments: Vec<(String, String)> = Vec::new();
    let mut pos: usize = 8 + vlen;
    let mut k: usize = 0;
    proof {
        assert(comments.deep_view() =~= Seq::<(Seq<char>, Seq<char>)>::empty());
    }
    while k < count
        invariant
            k <= count,
            pos <= input@.len(),
            input@.len() <= usize::MAX,
            start == 8 + vlen as int,
            input@.len() >= 8 + vlen,
            vlen == le_value(input@.subrange(0, 4)),
            valid_utf8(input@.subrange(4, 4 + vlen as int)),
            vendor_string@ == decode_utf8(input@.subrange(4, 4 + vlen as int)),
            count == le_value(input@.subrange(4 + vlen as int, 8 + vlen as int)),
            sp_comments(input@, start, k as nat) == Ok::<
                (Seq<(Seq<char>, Seq<char>)>, int),
                ErrorKind,
            >((comments.deep_view(), pos as int)),
        decreases count - k,
    {
        match comment_entry(input, pos) {
            Ok(((key, value), p2)) => {
                let ghost before: Seq<(Seq<char>, Seq<char>)> = comments.deep_view();
                let ghost kv: (Seq<char>, Seq<char>) = (key@, value@);
                comments.push((key, value));
                proof {
                    assert(comments.deep_view() =~= before.push(kv));
                }
                pos = p2;
            },
            Err(e) => {
                proof {
                    lemma_sp_comments_err(input@, start, k as nat, count as nat, e);
                }
                return Err(e);
            },
        }
        k += 1;
    }
    Ok((Data::VorbisComment(VorbisComment { vendor_string, comments }), pos))
}

// ---------------------------------------------------------------------
// CUESHEET
// ---------------------------------------------------------------------

/// What one 12-byte track index point starting at `pos` denotes.
pub open spec fn sp_cue_index(s: Seq<u8>, pos: int) -> Result<(CueSheetTrackIndex, int), ErrorKind> {
    if s.len() < pos + 12 {
        Err(ErrorKind::Incomplete(sat_usize(pos + 12)))
    } else if s[pos + 9] == 0 && s[pos + 10] == 0 && s[pos + 11] == 0 {
        Ok(
            (
                CueSheetTrackIndex {
                    offset: be_value(s.subrange(pos, pos + 8)) as u64,
                    number: s[pos + 8],
                },
                pos + 12,
            ),
        )
    } else {
        Err(ErrorKind::CueSheetParser)
    }
}

/// Parses one track index point.
fn cue_index(input: &[u8], pos: usize) -> (r: Result<(CueSheetTrackIndex, usize), ErrorKind>)
    requires
        pos <= input@.len(),
    ensures
        match r {
            Ok((x, p)) => sp_cue_index(input@, pos as int) == Ok::<
                (CueSheetTrackIndex, int),
                ErrorKind,
            >((x, p as int)) && pos <= p <= input@.len(),
            Err(e) => sp_cue_index(input@, pos as int) == Err::<
                (CueSheetTrackIndex, int),
                ErrorKind,
            >(e),
        },
{
    if input.len() - pos < 12 {
        return Err(ErrorKind::Incomplete(sat_add(pos, 12)));
    }
    if input[pos + 9] != 0 || input[pos + 10] != 0 || input[pos + 11] != 0 {
        return Err(ErrorKind::CueSheetParser);
    }
    proof {
        lemma_be_value_bound(input@.subrange(pos as int, pos + 8 as int));
        lemma2_to64();
        vstd::arithmetic::power2::lemma2_to64_rest();
    }
    let offset: u64 = to_u64(&input[pos..pos + 8]);
    let number: u8 = input[pos + 8];
    Ok((CueSheetTrackIndex { offset, number }, pos + 12))
}

/// The first `n` index points starting at `pos`.
pub open spec fn sp_cue_indices(s: Seq<u8>, pos: int, n: nat) -> Result<
    (Seq<CueSheetTrackIndex>, int),
    ErrorKind,
>
    decreases n,
{
    if n == 0 {
        Ok((Seq::empty(), pos))
    } else {
        match sp_cue_indices(s, pos, (n - 1) as nat) {
            Err(e) => Err(e),
            Ok((v, p)) => match sp_cue_index(s, p) {
                Err(e) => Err(e),
                Ok((x, p2)) => Ok((v.push(x), p2)),
            },
        }
    }
}

proof fn lemma_sp_cue_indices_err(s: Seq<u8>, pos: int, k: nat, n: nat, e: ErrorKind)
    requires
        k < n,
        sp_cue_indices(s, pos, k) is Ok,
        sp_cue_index(s, sp_cue_indices(s, pos, k)->Ok_0.1) == Err::<
            (CueSheetTrackIndex, int),
            ErrorKind,
        >(e),
    ensures
        sp_cue_indices(s, pos, n) == Err::<(Seq<CueSheetTrackIndex>, int), ErrorKind>(e),
    decreases n,
{
    if n == k + 1 {
    } else {
        lemma_sp_cue_indices_err(s, pos, k, (n - 1) as nat, e);
    }
}

/// What one cue sheet track starting at `pos` denotes.
pub open spec fn sp_cue_track(s: Seq<u8>, pos: int) -> Result<(CueSheetTrackView, int), ErrorKind> {
    if s.len() < pos + 36 {
        Err(ErrorKind::Incomplete(sat_usize(pos + 36)))
    } else if !valid_utf8(s.subrange(pos + 9, pos + 21)) {
        Err(ErrorKind::CueSheetParser)
    } else if (s[pos + 21] << 2u8) != 0 || !(forall|i: int|
        pos + 22 <= i < pos + 35 ==> s[i] == 0) {
        Err(ErrorKind::CueSheetParser)
    } else {
        match sp_cue_indices(s, pos + 36, s[pos + 35] as nat) {
            Err(e) => Err(e),
            Ok((xs, p2)) => Ok(
                (
                    CueSheetTrackView {
                        offset: be_value(s.subrange(pos, pos + 8)) as u64,
                        number: s[pos + 8],
                        isrc: decode_utf8(s.subrange(pos + 9, pos + 21)),
                        is_audio: (s[pos + 21] >> 7u8) == 0,
                        is_pre_emphasis: ((s[pos + 21] >> 6u8) & 0x01) == 1,
                        indices: xs,
                    },
                    p2,
                ),
            ),
        }
    }
}

/// Parses one cue sheet track with its index points.
fn cue_sheet_track(input: &[u8], pos: usize) -> (r: Result<(CueSheetTrack, usize), ErrorKind>)
    requires
        pos <= input@.len(),
    ensures
        match r {
            Ok((t, p)) => sp_cue_track(input@, pos as int) == Ok::<
                (CueSheetTrackView, int),
                ErrorKind,
            >((t@, p as int)) && pos <= p <= input@.len(),
            Err(e) => sp_cue_track(input@, pos as int) == Err::<
                (CueSheetTrackView, int),
                ErrorKind,
            >(e),
        },
{
    if input.len() - pos < 36 {
        return Err(ErrorKind::Incomplete(sat_add(pos, 36)));
    }
    let isrc: String = match parse_utf8(&input[pos + 9..pos + 21]) {
        Some(s) => s,
        None => {
            return Err(ErrorKind::CueSheetParser);
        },
    };
    let flags: u8 = input[pos + 21];
    if (flags << 2u8) != 0 {
        return Err(ErrorKind::CueSheetParser);
    }
    let mut i: usize = pos + 22;
    while i < pos + 35
        invariant
            pos + 22 <= i <= pos + 35,
            pos + 36 <= input@.len(),
            input@.len() <= usize::MAX,
            valid_utf8(input@.subrange(pos + 9, pos + 21)),
            flags == input@[pos + 21],
            (flags << 2u8) == 0,
            forall|k: int| pos + 22 <= k < i ==> input@[k] == 0,
        decreases pos + 35 - i,
    {
        if input[i] != 0 {
            return Err(ErrorKind::CueSheetParser);
        }
        i += 1;
    }
    proof {
        lemma_be_value_bound(input@.subrange(pos as int, pos + 8 as int));
        lemma2_to64();
        vstd::arithmetic::power2::lemma2_to64_rest();
    }
    let offset: u64 = to_u64(&input[pos..pos + 8]);
    let number: u8 = input[pos + 8];
    let is_audio: bool = (flags >> 7u8) == 0;
    let is_pre_emphasis: bool = ((flags >> 6u8) & 0x01) == 1;
    let num_indices: u8 = input[pos + 35];
    let ghost start: int = pos + 36;
    let mut indices: Vec<CueSheetTrackIndex> = Vec::new();
    let mut p: usize = pos + 36;
    let mut k: usize = 0;
    while k < num_indices as usize
        invariant
            k <= num_indices,
            pos + 36 <= p <= input@.len(),
            input@.len() <= usize::MAX,
            pos + 36 <= input@.len(),
            start == pos + 36,
            valid_utf8(input@.subrange(pos + 9, pos + 21)),
            isrc@ == decode_utf8(input@.subrange(pos + 9, pos + 21)),
            flags == input@[pos + 21],
            (flags << 2u8) == 0,
            forall|j: int| pos + 22 <= j < pos + 35 ==> input@[j] == 0,
            num_indices == input@[pos + 35],
            offset == be_value(input@.subrange(pos as int, pos + 8 as int)),
            number == input@[pos + 8],
            is_audio == ((flags >> 7u8) == 0),
            is_pre_emphasis == (((flags >> 6u8) & 0x01) == 1),
            sp_cue_indices(input@, start, k as nat) == Ok::<
                (Seq<CueSheetTrackIndex>, int),
                ErrorKind,
            >((indices@, p as int)),
        decreases num_indices - k,
    {
        match cue_index(input, p) {
            Ok((x, p2)) => {
                indices.push(x);
                p = p2;
            },
            Err(e) => {
                proof {
                    lemma_sp_cue_indices_err(input@, start, k as nat, num_indices as nat, e);
                }
                return Err(e);
            },
        }
        k += 1;
    }
    Ok((CueSheetTrack { offset, number, isrc, is_audio, is_pre_emphasis, indices }, p))
}

/// The first `n` tracks starting at `pos`.
pub open spec fn sp_cue_tracks(s: Seq<u8>, pos: int, n: nat) -> Result<
    (Seq<CueSheetTrackView>, int),
    ErrorKind,
>
    decreases n,
{
    if n == 0 {
        Ok((Seq::empty(), pos))
    } else {
        match sp_cue_tracks(s, pos, (n - 1) as nat) {
            Err(e) => Err(e),
            Ok((v, p)) => match sp_cue_track(s, p) {
                Err(e) => Err(e),
                Ok((t, p2)) => Ok((v.push(t), p2)),
            },
        }
    }
}

proof fn lemma_sp_cue_tracks_err(s: Seq<u8>, pos: int, k: nat, n: nat, e: ErrorKind)
    requires
        k < n,
        sp_cue_tracks(s, pos, k) is Ok,
        sp_cue_track(s, sp_cue_tracks(s, pos, k)->Ok_0.1) == Err::<
            (CueSheetTrackView, int),
            ErrorKind,
        >(e),
    ensures
        sp_cue_tracks(s, pos, n) == Err::<(Seq<CueSheetTrackView>, int), ErrorKind>(e),
    decreases n,
{
    if n == k + 1 {
    } else {
        lemma_sp_cue_tracks_err(s, pos, k, (n - 1) as nat, e);
    }
}

/// What the CUESHEET body denotes: the media catalog number, the lead-in,
/// the disc flag with its reserved zero region, and the tracks.
pub open spec fn sp_cue_sheet(s: Seq<u8>) -> Result<(DataView, int), ErrorKind> {
    if s.len() < 396 {
        Err(ErrorKind::Incomplete(396))
    } else if !valid_utf8(s.subrange(0, 128)) {
        Err(ErrorKind::CueSheetParser)
    } else if (s[136] << 1u8) != 0 || !(forall|i: int| 137 <= i < 395 ==> s[i] == 0) {
        Err(ErrorKind::CueSheetParser)
    } else {
        match sp_cue_tracks(s, 396, s[395] as nat) {
            Err(e) => Err(e),
            Ok((ts, p)) => Ok(
                (
                    DataView::CueSheet(
                        CueSheetView {
                            media_catalog_number: decode_utf8(s.subrange(0, 128)),
                            lead_in: be_value(s.subrange(128, 136)) as u64,
                            is_cd: (s[136] >> 7u8) == 1,
                            tracks: ts,
                        },
                    ),
                    p,
                ),
            ),
        }
    }
}

/// Parses the CUESHEET block body.
pub fn cue_sheet(input: &[u8]) -> (r: Result<(Data, usize), ErrorKind>)
    ensures
        parses_to(r, sp_cue_sheet(input@)),
{
    if input.len() < 396 {
        return Err(ErrorKind::Incomplete(396));
    }
    let media_catalog_number: String = match parse_utf8(&input[0..128]) {
        Some(s) => s,
        None => {
            return Err(ErrorKind::CueSheetParser);
        },
    };
    let flag: u8 = input[136];
    if (flag << 1u8) != 0 {
        return Err(ErrorKind::CueSheetParser);
    }
    let mut i: usize = 137;
    while i < 395
        invariant
            137 <= i <= 395,
            input@.len() >= 396,
            valid_utf8(input@.subrange(0, 128)),
            flag == input@[136],
            (flag << 1u8) == 0,
            forall|k: int| 137 <= k < i ==> input@[k] == 0,
        decreases 395 - i,
    {
        if input[i] != 0 {
            return Err(ErrorKind::CueSheetParser);
        }
        i += 1;
    }
    proof {
        lemma_be_value_bound(input@.subrange(128, 136));
        lemma2_to64();
        vstd::arithmetic::power2::lemma2_to64_rest();
    }
    let lead_in: u64 = to_u64(&input[128..136]);
    let is_cd: bool = (flag >> 7u8) == 1;
    let num_tracks: u8 = input[395];
    let mut tracks: Vec<CueSheetTrack> = Vec::new();
    let mut p: usize = 396;
    let mut k: usize = 0;
    proof {
        assert(tracks@.map_values(|t: CueSheetTrack| t@) =~= Seq::<CueSheetTrackView>::empty());
    }
    while k < num_tracks as usize
        invariant
            k <= num_tracks,
            p <= input@.len(),
            input@.len() >= 396,
            input@.len() <= usize::MAX,
            valid_utf8(input@.subrange(0, 128)),
            media_catalog_number@ == decode_utf8(input@.subrange(0, 128)),
            flag == input@[136],
            (flag << 1u8) == 0,
            forall|j: int| 137 <= j < 395 ==> input@[j] == 0,
            num_tracks == input@[395],
            lead_in == be_value(input@.subrange(128, 136)),
            is_cd == ((flag >> 7u8) == 1),
            sp_cue_tracks(input@, 396, k as nat) == Ok::<
                (Seq<CueSheetTrackView>, int),
                ErrorKind,
            >((tracks@.map_values(|t: CueSheetTrack| t@), p as int)),
        decreases num_tracks - k,
    {
        match cue_sheet_track(input, p) {
            Ok((t, p2)) => {
                let ghost before: Seq<CueSheetTrackView> = tracks@.map_values(
                    |t: CueSheetTrack| t@,
                );
                let ghost tv: CueSheetTrackView = t@;
                tracks.push(t);
                proof {
                    assert(tracks@.map_values(|t: CueSheetTrack| t@) =~= before.push(tv));
                }
                p = p2;
            },
            Err(e) => {
                proof {
                    lemma_sp_cue_tracks_err(input@, 396, k as nat, num_tracks as nat, e);
                }
                return Err(e);
            },
        }
        k += 1;
    }
    Ok((Data::CueSheet(CueSheet { media_catalog_number, lead_in, is_cd, tracks }), p))
}

// ---------------------------------------------------------------------
// PICTURE
// ---------------------------------------------------------------------

/// The picture type that a numeric code denotes; out-of-range codes map to
/// `Other`.
pub open spec fn sp_picture_type(n: u32) -> PictureType {
    if n == 1 {
        PictureType::FileIconStandard
    } else if n == 2 {
        PictureType::FileIcon
    } else if n == 3 {
        PictureType::FrontCover
    } else if n == 4 {
        PictureType::BackCover
    } else if n == 5 {
        PictureType::LeafletPage
    } else if n == 6 {
        PictureType::Media
    } else if n == 7 {
        PictureType::LeadArtist
    } else if n == 8 {
        PictureType::Artist
    } else if n == 9 {
        PictureType::Conductor
    } else if n == 10 {
        PictureType::Band
    } else if n == 11 {
        PictureType::Composer
    } else if n == 12 {
        PictureType::Lyricist
    } else if n == 13 {
        PictureType::RecordingLocation
    } else if n == 14 {
        PictureType::DuringRecording
    } else if n == 15 {
        PictureType::DuringPerformance
    } else if n == 16 {
        PictureType::VideoScreenCapture
    } else if n == 17 {
        PictureType::Fish
    } else if n == 18 {
        PictureType::Illustration
    } else if n == 19 {
        PictureType::BandLogo
    } else if n == 20 {
        PictureType::PublisherLogo
    } else {
        PictureType::Other
    }
}

/// Maps a numeric picture-type code to its enum value.
fn picture_type_of(n: u32) -> (r: PictureType)
    ensures
        r == sp_picture_type(n),
{
    if n == 1 {
        PictureType::FileIconStandard
    } else if n == 2 {
        PictureType::FileIcon
    } else if n == 3 {
        PictureType::FrontCover
    } else if n == 4 {
        PictureType::BackCover
    } else if n == 5 {
        PictureType::LeafletPage
    } else if n == 6 {
        PictureType::Media
    } else if n == 7 {
        PictureType::LeadArtist
    } else if n == 8 {
        PictureType::Artist
    } else if n == 9 {
        PictureType::Conductor
    } else if n == 10 {
        PictureType::Band
    } else if n == 11 {
        PictureType::Composer
    } else if n == 12 {
        PictureType::Lyricist
    } else if n == 13 {
        PictureType::RecordingLocation
    } else if n == 14 {
        PictureType::DuringRecording
    } else if n == 15 {
        PictureType::DuringPerformance
    } else if n == 16 {
        PictureType::VideoScreenCapture
    } else if n == 17 {
        PictureType::Fish
    } else if n == 18 {
        PictureType::Illustration
    } else if n == 19 {
        PictureType::BandLogo
    } else if n == 20 {
        PictureType::PublisherLogo
    } else {
        PictureType::Other
    }
}

/// Copies `input[start..end]` into an owned vector.
fn copy_range(input: &[u8], start: usize, end: usize) -> (r: Vec<u8>)
    requires
        start <= end <= input@.len(),
    ensures
        r@ == input@.subrange(start as int, end as int),
{
    let mut data: Vec<u8> = Vec::new();
    let mut i: usize = start;
    while i < end
        invariant
            start <= i <= end <= input@.len(),
            data@ == input@.subrange(start as int, i as int),
        decreases end - i,
    {
        data.push(input[i]);
        proof {
            assert(input@.subrange(start as int, i + 1 as int) =~= input@.subrange(
                start as int,
                i as int,
            ).push(input@[i as int]));
        }
        i += 1;
    }
    proof {
        if start == end {
            assert(data@ =~= input@.subrange(start as int, end as int));
        }
    }
    data
}

/// What the PICTURE body denotes.
pub open spec fn sp_picture(s: Seq<u8>) -> Result<(DataView, int), ErrorKind> {
    if s.len() < 8 {
        Err(ErrorKind::Incomplete(8))
    } else {
        let mlen = be_value(s.subrange(4, 8)) as int;
        if s.len() < 8 + mlen {
            Err(ErrorKind::Incomplete(sat_usize(8 + mlen)))
        } else if !valid_utf8(s.subrange(8, 8 + mlen)) {
            Err(ErrorKind::PictureParser)
        } else if s.len() < 12 + mlen {
            Err(ErrorKind::Incomplete(sat_usize(12 + mlen)))
        } else {
            let dlen = be_value(s.subrange(8 + mlen, 12 + mlen)) as int;
            if s.len() < 12 + mlen + dlen {
                Err(ErrorKind::Incomplete(sat_usize(12 + mlen + dlen)))
            } else if !valid_utf8(s.subrange(12 + mlen, 12 + mlen + dlen)) {
                Err(ErrorKind::PictureParser)
            } else if s.len() < 32 + mlen + dlen {
                Err(ErrorKind::Incomplete(sat_usize(32 + mlen + dlen)))
            } else {
                let base = 12 + mlen + dlen;
                let payload = be_value(s.subrange(base + 16, base + 20)) as int;
                if s.len() < 32 + mlen + dlen + payload {
                    Err(ErrorKind::Incomplete(sat_usize(32 + mlen + dlen + payload)))
                } else {
                    Ok(
                        (
                            DataView::Picture(
                                PictureView {
                                    picture_type: sp_picture_type(
                                        be_value(s.subrange(0, 4)) as u32,
                                    ),
                                    mime_type: decode_utf8(s.subrange(8, 8 + mlen)),
                                    description: decode_utf8(
                                        s.subrange(12 + mlen, 12 + mlen + dlen),
                                    ),
                                    width: be_value(s.subrange(base, base + 4)) as u32,
                                    height: be_value(s.subrange(base + 4, base + 8)) as u32,
                                    depth: be_value(s.subrange(base + 8, base + 12)) as u32,
                                    colors: be_value(s.subrange(base + 12, base + 16)) as u32,
                                    data: s.subrange(base + 20, base + 20 + payload),
                                },
                            ),
                            32 + mlen + dlen + payload,
                        ),
                    )
                }
            }
        }
    }
}

/// Parses the PICTURE block body.
pub fn picture(input: &[u8]) -> (r: Result<(Data, usize), ErrorKind>)
    ensures
        parses_to(r, sp_picture(input@)),
{
    if input.len() < 8 {
        return Err(ErrorKind::Incomplete(8));
    }
    proof {
        lemma_be_value_bound(input@.subrange(0, 4));
        lemma_be_value_bound(input@.subrange(4, 8));
        lemma2_to64();
        vstd::arithmetic::power2::lemma2_to64_rest();
    }
    let type_code: u32 = to_u32(&input[0..4]);
    let mlen: usize = to_u32(&input[4..8]) as usize;
    if input.len() - 8 < mlen {
        return Err(ErrorKind::Incomplete(sat_add(8, mlen)));
    }
    let mime_type: String = match parse_utf8(&input[8..8 + mlen]) {
        Some(s) => s,
        None => {
            return Err(ErrorKind::PictureParser);
        },
    };
    if input.len() - 8 - mlen < 4 {
        return Err(ErrorKind::Incomplete(sat_add(12, mlen)));
    }
    proof {
        lemma_be_value_bound(input@.subrange(8 + mlen as int, 12 + mlen as int));
        lemma2_to64();
    }
    let dlen: usize = to_u32(&input[8 + mlen..12 + mlen]) as usize;
    if input.len() - 12 - mlen < dlen {
        let needed: usize = sat_add(sat_add(12, mlen), dlen);
        proof {
            assert(sat_usize(sat_usize(12 + mlen as int) as int + dlen) == sat_usize(
                12 + mlen + dlen as int,
            ));
        }
        return Err(ErrorKind::Incomplete(needed));
    }
    let description: String = match parse_utf8(&input[12 + mlen..12 + mlen + dlen]) {
        Some(s) => s,
        None => {
            return Err(ErrorKind::PictureParser);
        },
    };
    if input.len() - 12 - mlen - dlen < 20 {
        let needed: usize = sat_add(sat_add(32, mlen), dlen);
        proof {
            assert(sat_usize(sat_usize(32 + mlen as int) as int + dlen) == sat_usize(
                32 + mlen + dlen as int,
            ));
        }
        return Err(ErrorKind::Incomplete(needed));
    }
    let base: usize = 12 + mlen + dlen;
    proof {
        lemma_be_value_bound(input@.subrange(base as int, base + 4 as int));
        lemma_be_value_bound(input@.subrange(base + 4 as int, base + 8 as int));
        lemma_be_value_bound(input@.subrange(base + 8 as int, base + 12 as int));
        lemma_be_value_bound(input@.subrange(base + 12 as int, base + 16 as int));
        lemma_be_value_bound(input@.subrange(base + 16 as int, base + 20 as int));
        lemma2_to64();
    }
    let width: u32 = to_u32(&input[base..base + 4]);
    let height: u32 = to_u32(&input[base + 4..base + 8]);
    let depth: u32 = to_u32(&input[base + 8..base + 12]);
    let colors: u32 = to_u32(&input[base + 12..base + 16]);
    let payload: usize = to_u32(&input[base + 16..base + 20]) as usize;
    if input.len() - base - 20 < payload {
        let needed: usize = sat_add(sat_add(sat_add(32, mlen), dlen), payload);
        proof {
            assert(sat_usize(sat_usize(sat_usize(32 + mlen as int) as int + dlen) as int
                + payload) == sat_usize(32 + mlen + dlen + payload as int));
        }
        return Err(ErrorKind::Incomplete(needed));
    }
    let data: Vec<u8> = copy_range(input, base + 20, base + 20 + payload);
    let picture_type: PictureType = picture_type_of(type_code);
    Ok(
        (
            Data::Picture(
                Picture {
                    picture_type,
                    mime_type,
                    description,
                    width,
                    height,
                    depth,
                    colors,
                    data,
                },
            ),
            32 + mlen + dlen + payload,
        ),
    )
}

// ---------------------------------------------------------------------
// Block dispatch
// ---------------------------------------------------------------------

/// The error kind that reports a malformed block body of the given type.
pub open spec fn block_body_error(block_type: u8) -> ErrorKind {
    if block_type == 0 {
        ErrorKind::StreamInfoParser
    } else if block_type == 1 {
        ErrorKind::PaddingParser
    } else if block_type == 2 {
        ErrorKind::ApplicationParser
    } else if block_type == 3 {
        ErrorKind::SeekTableParser
    } else if block_type == 4 {
        ErrorKind::VorbisCommentParser
    } else if block_type == 5 {
        ErrorKind::CueSheetParser
    } else if block_type == 6 {
        ErrorKind::PictureParser
    } else {
        ErrorKind::UnknownParser
    }
}

/// What a block body of the given type and declared length denotes.  The
/// whole declared length must be available before the body is inspected,
/// and every block other than STREAMINFO must consume exactly its declared
/// length.
pub open spec fn sp_block_data(s: Seq<u8>, block_type: u8, length: u32) -> Result<
    (DataView, int),
    ErrorKind,
> {
    if length > s.len() {
        Err(ErrorKind::Incomplete(length as usize))
    } else if block_type > 126 {
        Err(ErrorKind::InvalidBlockType)
    } else {
        let body = if block_type == 0 {
            sp_stream_info(s)
        } else if block_type == 1 {
            sp_padding(s, length)
        } else if block_type == 2 {
            sp_application(s, length)
        } else if block_type == 3 {
            sp_seek_table(s, length)
        } else if block_type == 4 {
            sp_vorbis_comment(s)
        } else if block_type == 5 {
            sp_cue_sheet(s)
        } else if block_type == 6 {
            sp_picture(s)
        } else {
            sp_unknown(s, length)
        };
        match body {
            Err(e) => Err(e),
            Ok((d, n)) => {
                if block_type != 0 && n != length {
                    Err(block_body_error(block_type))
                } else {
                    Ok((d, n))
                }
            },
        }
    }
}

/// Parses a block body of the given type and declared length.
pub fn block_data(input: &[u8], block_type: u8, length: u32) -> (r: Result<
    (Data, usize),
    ErrorKind,
>)
    ensures
        parses_to(r, sp_block_data(input@, block_type, length)),
{
    if length as usize > input.len() {
        return Err(ErrorKind::Incomplete(length as usize));
    }
    if block_type > 126 {
        return Err(ErrorKind::InvalidBlockType);
    }
    let body = if block_type == 0 {
        stream_info(input)
    } else if block_type == 1 {
        padding(input, length)
    } else if block_type == 2 {
        application(input, length)
    } else if block_type == 3 {
        seek_table(input, length)
    } else if block_type == 4 {
        vorbis_comment(input)
    } else if block_type == 5 {
        cue_sheet(input)
    } else if block_type == 6 {
        picture(input)
    } else {
        unknown(input, length)
    };
    match body {
        Err(e) => Err(e),
        Ok((d, n)) => {
            if block_type != 0 && n != length as usize {
                let kind = if block_type == 1 {
                    ErrorKind::PaddingParser
                } else if block_type == 2 {
                    ErrorKind::ApplicationParser
                } else if block_type == 3 {
                    ErrorKind::SeekTableParser
                } else if block_type == 4 {
                    ErrorKind::VorbisCommentParser
                } else if block_type == 5 {
                    ErrorKind::CueSheetParser
                } else if block_type == 6 {
                    ErrorKind::PictureParser
                } else {
                    ErrorKind::UnknownParser
                };
                Err(kind)
            } else {
                Ok((d, n))
            }
        },
    }
}

/// What a whole metadata block denotes: its header, then its body.
#[verifier::opaque]
pub open spec fn sp_metadata(s: Seq<u8>) -> Result<(MetadataView, int), ErrorKind> {
    match sp_header(s) {
        Err(e) => Err(e),
        Ok((h, n0)) => match sp_block_data(s.skip(4), h.1, h.2) {
            Ok((d, n)) => Ok((MetadataView { is_last: h.0, length: h.2, data: d }, 4 + n)),
            Err(ErrorKind::Incomplete(m)) => Err(ErrorKind::Incomplete(sat_usize(4 + m))),
            Err(e) => Err(e),
        },
    }
}

/// Parses a metadata block: a four-byte header, then the typed body.
pub fn metadata_parser(input: &[u8]) -> (r: Result<(Metadata, usize), ErrorKind>)
    ensures
        parses_to(r, sp_metadata(input@)),
{
    proof {
        reveal(sp_metadata);
    }
    let ((is_last, block_type, length), _n0) = match header(input) {
        Ok(v) => v,
        Err(e) => {
            return Err(e);
        },
    };
    proof {
        assert(input@.subrange(4, input@.len() as int) =~= input@.skip(4));
    }
    let tail: &[u8] = &input[4..input.len()];
    match block_data(tail, block_type, length) {
        Ok((data, n)) => Ok((Metadata { is_last, length, data }, 4 + n)),
        Err(ErrorKind::Incomplete(m)) => Err(ErrorKind::Incomplete(sat_add(4, m))),
        Err(e) => Err(e),
    }
}

} // verus!
