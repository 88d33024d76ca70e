//! The metadata block types of a FLAC stream: the stream information
//! record, the six typed blocks, and the unknown fallback, together with
//! their byte encodings.

use vstd::prelude::*;

verus! {

use vstd::utf8::encode_utf8;
use crate::utility::{
    enc_be16, enc_be24, enc_be32, enc_be64, enc_le32, enc_u8, WriteExtension,
};

/// An enum that represents a metadata block type.
#[derive(Clone, Copy, Debug, PartialEq, Eq, Structural)]
pub enum Type {
    /// Represents the current block is stream information.
    StreamInfo,
    /// Represents the current block is padding.
    Padding,
    /// Represents the current block is application data.
    Application,
    /// Represents the current block is a seek table.
    SeekTable,
    /// Represents the current block is a vorbis comment.
    VorbisComment,
    /// Represents the current block is a cue sheet.
    CueSheet,
    /// Represents the current block is a picture.
    Picture,
    /// Represents the current block is unknown.
    Unknown,
}

/// Information regarding the entire audio stream.
#[derive(Clone, Copy, Debug, PartialEq, Eq)]
pub struct StreamInfo {
    /// Minimum block size, in samples, used in the stream.
    pub min_block_size: u16,
    /// Maximum block size, in samples, used in the stream.
    pub max_block_size: u16,
    /// Minimum frame size, in bytes, used in the stream. May be zero to
    /// imply the value isn't known.
    pub min_frame_size: u32,
    /// Maximum frame size, in bytes, used in the stream. May be zero to
    /// imply the value isn't known.
    pub max_frame_size: u32,
    /// Sample rate in hertz (Hz).
    pub sample_rate: u32,
    /// Number of channels. FLAC supports one to eight channels.
    pub channels: u8,
    /// Bits per sample. FLAC supports four to thirty-two bits per sample.
    pub bits_per_sample: u8,
    /// Total samples in the stream. A value of zero means the number is
    /// unknown.
    pub total_samples: u64,
    /// MD5 signature of the unencoded audio data.
    pub md5_sum: [u8; 16],
}

/// Data used by third-party applications.
#[derive(Debug, PartialEq, Eq)]
pub struct Application {
    /// Registered application ID.
    pub id: String,
    /// Data used by the third-party application.
    pub data: Vec<u8>,
}

/// Seek, or skip, to a point within the FLAC file.
#[derive(Debug, PartialEq, Eq)]
pub struct SeekPoint {
    /// Sample number of the first sample in the target frame.
    pub sample_number: u64,
    /// Byte offset of the target frame's header.
    pub stream_offset: u64,
    /// Number of samples in the target frame.
    pub frame_samples: u16,
}

/// Stores human-readable name/value pairs.
///
/// The pairs are kept in stream order, duplicates included; read as a
/// name-to-value map, a later pair with the same name shadows an earlier
/// one, which `VorbisComment::comment` implements.
#[derive(Debug, PartialEq, Eq)]
pub struct VorbisComment {
    /// Vendor name.
    pub vendor_string: String,
    /// Comments, each a name followed by its contents, in stream order.
    pub comments: Vec<(String, String)>,
}

/// Stores cue information.
///
/// Generally for storing information from Compact Disc Digital Audio, but
/// can be used as a cueing mechanism for playback.
#[derive(Debug, PartialEq, Eq)]
pub struct CueSheet {
    /// Media catalog number.
    pub media_catalog_number: String,
    /// Number of lead-in samples.
    pub lead_in: u64,
    /// Whether or not this `CueSheet` corresponds to a Compact Disc.
    pub is_cd: bool,
    /// One or more tracks.
    pub tracks: Vec<CueSheetTrack>,
}

/// Track information inside a cue sheet.
#[derive(Debug, PartialEq, Eq)]
pub struct CueSheetTrack {
    /// Track offset, in samples, relative to the beginning of the FLAC
    /// audio stream.
    pub offset: u64,
    /// Track number.
    pub number: u8,
    /// Twelve digit alphanumeric code.
    pub isrc: String,
    /// Whether the cue sheet track is audio.
    pub is_audio: bool,
    /// Whether the cue sheet track is pre-emphasis.
    pub is_pre_emphasis: bool,
    /// For all tracks except the lead-out track.
    pub indices: Vec<CueSheetTrackIndex>,
}

/// An index point within a track, inside of a cue sheet.
#[derive(Debug, PartialEq, Eq)]
pub struct CueSheetTrackIndex {
    /// Offset, in samples, relative to the track offset of the index point.
    pub offset: u64,
    /// Index point number.
    pub number: u8,
}

/// The picture type according to the ID3v2 attached picture frame.
#[derive(Debug, PartialEq, Eq, Clone, Copy, Structural)]
pub enum PictureType {
    /// Other picture type not categorized in this enum.
    Other,
    /// 32x32 pixels 'file icon'.
    FileIconStandard,
    /// Other, or non-standard, file icon.
    FileIcon,
    /// Cover (front).
    FrontCover,
    /// Cover (back).
    BackCover,
    /// Leaflet page.
    LeafletPage,
    /// Media, like label side of a CD.
    Media,
    /// Lead artist, lead performer, or soloist.
    LeadArtist,
    /// Artist or performer.
    Artist,
    /// Conductor.
    Conductor,
    /// Band or orchestra.
    Band,
    /// Composer.
    Composer,
    /// Lyricist or text writer.
    Lyricist,
    /// Recording location.
    RecordingLocation,
    /// During recording.
    DuringRecording,
    /// During performance.
    DuringPerformance,
    /// Movie, or video, screen capture.
    VideoScreenCapture,
    /// A bright colored fish.
    Fish,
    /// Illustration.
    Illustration,
    /// Band, or artist, logotype.
    BandLogo,
    /// Publisher, or studio, logotype.
    PublisherLogo,
}

/// Stores pictures associated with the FLAC file.
///
/// More than likely these pictures will be cover art, but a file can hold
/// more than one, distinguished by `PictureType` and the MIME type string.
#[derive(Debug, PartialEq, Eq)]
pub struct Picture {
    /// Picture type, based on the ID3v2 APIC frame.
    pub picture_type: PictureType,
    /// Multipurpose Internet Mail Extensions (MIME) type.
    pub mime_type: String,
    /// A string describing the picture.
    pub description: String,
    /// Width of the picture in pixels.
    pub width: u32,
    /// Height of the picture in pixels.
    pub height: u32,
    /// Color depth of the picture in bits-per-pixel.
    pub depth: u32,
    /// Number of colors used.
    pub colors: u32,
    /// Binary picture data.
    pub data: Vec<u8>,
}

/// General enum that holds all the different metadata block data.
#[derive(Debug, PartialEq, Eq)]
pub enum Data {
    /// Information regarding the entire audio stream.
    StreamInfo(StreamInfo),
    /// Block that represents a number of padded bytes.
    Padding(u32),
    /// Data used by third-party applications.
    Application(Application),
    /// Table of multiple points to seek, or skip, to within the FLAC file.
    SeekTable(Vec<SeekPoint>),
    /// Stores human-readable name/value pairs.
    VorbisComment(VorbisComment),
    /// Stores cue information.
    CueSheet(CueSheet),
    /// Stores pictures associated with the FLAC file.
    Picture(Picture),
    /// A type of block data that isn't known or doesn't match the types
    /// above.
    Unknown(Vec<u8>),
}

/// Data associated with a single metadata block.
#[derive(Debug)]
pub struct Metadata {
    /// Marks whether the current metadata block is the last.
    pub is_last: bool,
    /// The length, in bytes, of the block being parsed. This does not
    /// include the metadata block header.
    pub length: u32,
    /// Block data containing one of the eight different types of metadata.
    pub data: Data,
}

// ---------------------------------------------------------------------
// Byte encodings of each block body
// ---------------------------------------------------------------------

/// The numeric code of a picture type in the encoded block.
pub open spec fn picture_type_code(t: PictureType) -> u32 {
    match t {
        PictureType::Other => 0,
        PictureType::FileIconStandard => 1,
        PictureType::FileIcon => 2,
        PictureType::FrontCover => 3,
        PictureType::BackCover => 4,
        PictureType::LeafletPage => 5,
        PictureType::Media => 6,
        PictureType::LeadArtist => 7,
        PictureType::Artist => 8,
        PictureType::Conductor => 9,
        PictureType::Band => 10,
        PictureType::Composer => 11,
        PictureType::Lyricist => 12,
        PictureType::RecordingLocation => 13,
        PictureType::DuringRecording => 14,
        PictureType::DuringPerformance => 15,
        PictureType::VideoScreenCapture => 16,
        PictureType::Fish => 17,
        PictureType::Illustration => 18,
        PictureType::BandLogo => 19,
        PictureType::PublisherLogo => 20,
    }
}

/// A run of zero bytes.
pub open spec fn zero_bytes(n: nat) -> Seq<u8> {
    Seq::new(n, |i: int| 0u8)
}

/// The 34-byte STREAMINFO body.
pub open spec fn stream_info_bytes(si: StreamInfo) -> Seq<u8> {
    enc_be16(si.min_block_size) + enc_be16(si.max_block_size) + enc_be24(si.min_frame_size)
        + enc_be24(si.max_frame_size) + seq![
        (si.sample_rate >> 12) as u8,
        (si.sample_rate >> 4) as u8,
        ((si.sample_rate << 4) as u8) | ((((si.channels - 1) as u8) << 1) | (((
        si.bits_per_sample - 1) as u8) >> 4)),
        ((((si.bits_per_sample - 1) as u8) << 4) | ((si.total_samples >> 32) as u8)),
    ] + enc_be32(si.total_samples as u32) + si.md5_sum@
}

/// The APPLICATION body: the four-byte id followed by opaque data.
pub open spec fn application_bytes(a: Application) -> Seq<u8> {
    encode_utf8(a.id@) + a.data@
}

/// One 18-byte seek point.
pub open spec fn seek_point_bytes(p: SeekPoint) -> Seq<u8> {
    enc_be64(p.sample_number) + enc_be64(p.stream_offset) + enc_be16(p.frame_samples)
}

/// The SEEKTABLE body: the seek points in order.
pub open spec fn seek_table_bytes(points: Seq<SeekPoint>) -> Seq<u8>
    decreases points.len(),
{
    if points.len() == 0 {
        Seq::empty()
    } else {
        seek_table_bytes(points.drop_last()) + seek_point_bytes(points.last())
    }
}

/// One length-prefixed NAME=VALUE comment line.
pub open spec fn comment_entry_bytes(k: Seq<char>, v: Seq<char>) -> Seq<u8> {
    enc_le32((encode_utf8(k).len() + encode_utf8(v).len() + 1) as u32) + encode_utf8(k)
        + seq![61u8] + encode_utf8(v)
}

/// The comment lines in order.
pub open spec fn comments_bytes(cs: Seq<(String, String)>) -> Seq<u8>
    decreases cs.len(),
{
    if cs.len() == 0 {
        Seq::empty()
    } else {
        comments_bytes(cs.drop_last()) + comment_entry_bytes(cs.last().0@, cs.last().1@)
    }
}

/// The VORBIS_COMMENT body: the vendor string then the comment lines, all
/// with little-endian length prefixes.
pub open spec fn vorbis_comment_bytes(vc: VorbisComment) -> Seq<u8> {
    enc_le32(encode_utf8(vc.vendor_string@).len() as u32) + encode_utf8(vc.vendor_string@)
        + enc_le32(vc.comments@.len() as u32) + comments_bytes(vc.comments@)
}

/// One 12-byte cue sheet track index point.
pub open spec fn cue_sheet_track_index_bytes(x: CueSheetTrackIndex) -> Seq<u8> {
    enc_be64(x.offset) + enc_u8(x.number) + zero_bytes(3)
}

/// The index points in order.
pub open spec fn cue_sheet_indices_bytes(xs: Seq<CueSheetTrackIndex>) -> Seq<u8>
    decreases xs.len(),
{
    if xs.len() == 0 {
        Seq::empty()
    } else {
        cue_sheet_indices_bytes(xs.drop_last()) + cue_sheet_track_index_bytes(xs.last())
    }
}

/// The flag byte of a cue sheet track: a non-audio bit and a
/// pre-emphasis bit.
pub open spec fn cue_sheet_track_flags(t: CueSheetTrack) -> u8 {
    if !t.is_audio {
        if t.is_pre_emphasis {
            0xc0u8
        } else {
            0x80u8
        }
    } else {
        if t.is_pre_emphasis {
            0x40u8
        } else {
            0u8
        }
    }
}

/// One cue sheet track with its index points.
pub open spec fn cue_sheet_track_bytes(t: CueSheetTrack) -> Seq<u8> {
    enc_be64(t.offset) + enc_u8(t.number) + encode_utf8(t.isrc@) + enc_u8(cue_sheet_track_flags(t))
        + zero_bytes(13) + enc_u8(t.indices@.len() as u8) + cue_sheet_indices_bytes(t.indices@)
}

/// The tracks in order.
pub open spec fn cue_sheet_tracks_bytes(ts: Seq<CueSheetTrack>) -> Seq<u8>
    decreases ts.len(),
{
    if ts.len() == 0 {
        Seq::empty()
    } else {
        cue_sheet_tracks_bytes(ts.drop_last()) + cue_sheet_track_bytes(ts.last())
    }
}

/// The CUESHEET body.
pub open spec fn cue_sheet_bytes(cs: CueSheet) -> Seq<u8> {
    encode_utf8(cs.media_catalog_number@) + enc_be64(cs.lead_in) + enc_u8(
        if cs.is_cd {
            0x80u8
        } else {
            0u8
        },
    ) + zero_bytes(258) + enc_u8(cs.tracks@.len() as u8) + cue_sheet_tracks_bytes(cs.tracks@)
}

/// The PICTURE body.
pub open spec fn picture_bytes(p: Picture) -> Seq<u8> {
    enc_be32(picture_type_code(p.picture_type)) + enc_be32(
        encode_utf8(p.mime_type@).len() as u32,
    ) + encode_utf8(p.mime_type@) + enc_be32(encode_utf8(p.description@).len() as u32)
        + encode_utf8(p.description@) + enc_be32(p.width) + enc_be32(p.height) + enc_be32(p.depth)
        + enc_be32(p.colors) + enc_be32(p.data@.len() as u32) + p.data@
}

/// The body bytes of any block data value.
pub open spec fn data_bytes(d: Data) -> Seq<u8> {
    match d {
        Data::StreamInfo(si) => stream_info_bytes(si),
        Data::Padding(n) => zero_bytes(n as nat),
        Data::Application(a) => application_bytes(a),
        Data::SeekTable(points) => seek_table_bytes(points@),
        Data::VorbisComment(vc) => vorbis_comment_bytes(vc),
        Data::CueSheet(cs) => cue_sheet_bytes(cs),
        Data::Picture(p) => picture_bytes(p),
        Data::Unknown(u) => u@,
    }
}

/// The numeric code of a block type in the block header byte.
pub open spec fn data_code(d: Data) -> u8 {
    match d {
        Data::StreamInfo(_) => 0,
        Data::Padding(_) => 1,
        Data::Application(_) => 2,
        Data::SeekTable(_) => 3,
        Data::VorbisComment(_) => 4,
        Data::CueSheet(_) => 5,
        Data::Picture(_) => 6,
        Data::Unknown(_) => 7,
    }
}

/// The byte length of the comment lines as the length accounting computes
/// it: four prefix bytes, the name, the separator, and the value for each
/// line.
pub open spec fn comments_length(cs: Seq<(String, String)>) -> int
    decreases cs.len(),
{
    if cs.len() == 0 {
        0
    } else {
        comments_length(cs.drop_last()) + encode_utf8(cs.last().0@).len() + encode_utf8(
            cs.last().1@,
        ).len() + 5
    }
}

/// The byte length that the cue sheet length accounting gives the tracks:
/// 36 bytes per track plus 12 per index point.
pub open spec fn cue_sheet_tracks_length(ts: Seq<CueSheetTrack>) -> int
    decreases ts.len(),
{
    if ts.len() == 0 {
        0
    } else {
        cue_sheet_tracks_length(ts.drop_last()) + 36 + 12 * ts.last().indices@.len()
    }
}

/// The body length that a block declares in its header, as the length
/// accounting of each type computes it.
pub open spec fn declared_length(d: Data) -> int {
    match d {
        Data::StreamInfo(_) => 34,
        Data::Padding(n) => n as int,
        Data::Application(a) => 4 + a.data@.len() as int,
        Data::SeekTable(points) => 18 * points@.len() as int,
        Data::VorbisComment(vc) => 8 + encode_utf8(vc.vendor_string@).len() as int
            + comments_length(vc.comments@),
        Data::CueSheet(cs) => 396 + cue_sheet_tracks_length(cs.tracks@),
        Data::Picture(p) => 32 + encode_utf8(p.mime_type@).len() as int + encode_utf8(
            p.description@,
        ).len() as int + p.data@.len() as int,
        Data::Unknown(u) => u@.len() as int,
    }
}

/// A whole encoded metadata block: the header byte carrying the last-block
/// flag and type code, the 24-bit big-endian declared length, then the
/// body.
pub open spec fn metadata_block_bytes(m: Metadata) -> Seq<u8> {
    let tag: u8 = if m.is_last {
        0x80u8
    } else {
        0u8
    };
    seq![(tag + data_code(m.data)) as u8] + enc_be24(declared_length(m.data) as u32) + data_bytes(
        m.data,
    )
}

/// The side conditions under which a block value can be encoded on this
/// machine: subtractions in the packed STREAMINFO fields cannot underflow
/// and every computed length fits in a `usize`.
pub open spec fn encodable(d: Data) -> bool {
    &&& declared_length(d) <= usize::MAX
    &&& match d {
        Data::StreamInfo(si) => si.channels >= 1 && si.bits_per_sample >= 1,
        Data::VorbisComment(vc) => {
            &&& encode_utf8(vc.vendor_string@).len() <= usize::MAX
            &&& forall|i: int|
                0 <= i < vc.comments@.len() ==> encode_utf8(vc.comments@[i].0@).len()
                    + encode_utf8(vc.comments@[i].1@).len() + 1 <= usize::MAX
        },
        Data::Picture(p) => encode_utf8(p.mime_type@).len() <= usize::MAX && encode_utf8(
            p.description@,
        ).len() <= usize::MAX && 4 + p.data@.len() <= usize::MAX,
        _ => true,
    }
}

proof fn lemma_comments_length_nonneg(cs: Seq<(String, String)>)
    ensures
        comments_length(cs) >= 0,
    decreases cs.len(),
{
    if cs.len() > 0 {
        lemma_comments_length_nonneg(cs.drop_last());
    }
}

proof fn lemma_comments_length_take(cs: Seq<(String, String)>, j: int)
    requires
        0 <= j <= cs.len(),
    ensures
        comments_length(cs.take(j)) <= comments_length(cs),
    decreases cs.len() - j,
{
    if j == cs.len() {
        assert(cs.take(j) =~= cs);
    } else {
        lemma_comments_length_take(cs, j + 1);
        assert(cs.take(j + 1).drop_last() =~= cs.take(j));
        assert(comments_length(cs.take(j + 1)) >= comments_length(cs.take(j)));
    }
}

proof fn lemma_cue_sheet_tracks_length_take(ts: Seq<CueSheetTrack>, j: int)
    requires
        0 <= j <= ts.len(),
    ensures
        cue_sheet_tracks_length(ts.take(j)) <= cue_sheet_tracks_length(ts),
    decreases ts.len() - j,
{
    if j == ts.len() {
        assert(ts.take(j) =~= ts);
    } else {
        lemma_cue_sheet_tracks_length_take(ts, j + 1);
        assert(ts.take(j + 1).drop_last() =~= ts.take(j));
    }
}

// ---------------------------------------------------------------------
// Executable encoders
// ---------------------------------------------------------------------

/// Appends `n` zero bytes.
fn write_zeros(buffer: &mut Vec<u8>, n: usize)
    ensures
        final(buffer)@ == old(buffer)@ + zero_bytes(n as nat),
{
    let ghost start: Seq<u8> = buffer@;
    let mut j: usize = 0;
    while j < n
        invariant
            j <= n,
            buffer@ == start + zero_bytes(j as nat),
        decreases n - j,
    {
        buffer.push(0u8);
        proof {
            assert(start + zero_bytes((j + 1) as nat) =~= (start + zero_bytes(j as nat)).push(
                0u8,
            ));
        }
        j += 1;
    }
    proof {
        assert(buffer@ =~= start + zero_bytes(n as nat));
    }
}

/// Appends the UTF-8 bytes of a string.
fn write_str(buffer: &mut Vec<u8>, s: &str)
    ensures
        final(buffer)@ == old(buffer)@ + encode_utf8(s@),
{
    let bytes: &[u8] = s.as_bytes();
    buffer.extend_from_slice(bytes);
}

impl StreamInfo {
    /// Constructs a zeroed out `StreamInfo` struct.
    pub fn new() -> (r: StreamInfo)
        ensures
            r.min_block_size == 0,
            r.max_block_size == 0,
            r.min_frame_size == 0,
            r.max_frame_size == 0,
            r.sample_rate == 0,
            r.channels == 0,
            r.bits_per_sample == 0,
            r.total_samples == 0,
            r.md5_sum@ == zero_bytes(16),
    {
        let r = StreamInfo {
            min_block_size: 0,
            max_block_size: 0,
            min_frame_size: 0,
            max_frame_size: 0,
            sample_rate: 0,
            channels: 0,
            bits_per_sample: 0,
            total_samples: 0,
            md5_sum: [0; 16],
        };
        proof {
            assert(r.md5_sum@ =~= zero_bytes(16));
        }
        r
    }

    /// Returns true if `min_block_size` and `max_block_size` are different,
    /// otherwise false.
    pub fn is_varied_block_size(&self) -> (r: bool)
        ensures
            r == (self.min_block_size != self.max_block_size),
    {
        self.min_block_size != self.max_block_size
    }

    /// Returns true if `min_block_size` and `max_block_size` are equal,
    /// otherwise false.
    pub fn is_fixed_block_size(&self) -> (r: bool)
        ensures
            r == (self.min_block_size == self.max_block_size),
    {
        self.min_block_size == self.max_block_size
    }

    /// The byte length of the encoded STREAMINFO body.
    pub fn bytes_len(&self) -> (r: usize)
        ensures
            r == 34,
            r == declared_length(Data::StreamInfo(*self)),
    {
        34
    }

    /// Appends the encoded STREAMINFO body.
    pub fn to_bytes(&self, buffer: &mut Vec<u8>)
        requires
            self.channels >= 1,
            self.bits_per_sample >= 1,
        ensures
            final(buffer)@ == old(buffer)@ + stream_info_bytes(*self),
    {
        buffer.write_be_u16(self.min_block_size);
        buffer.write_be_u16(self.max_block_size);
        buffer.write_be_u24(self.min_frame_size);
        buffer.write_be_u24(self.max_frame_size);
        buffer.push(#[verifier::truncate] ((self.sample_rate >> 12u32) as u8));
        buffer.push(#[verifier::truncate] ((self.sample_rate >> 4u32) as u8));
        buffer.push(
            (#[verifier::truncate] ((self.sample_rate << 4u32) as u8)) | (((self.channels - 1)
                << 1u8) | ((self.bits_per_sample - 1) >> 4u8)),
        );
        buffer.push(
            ((self.bits_per_sample - 1) << 4u8) | (#[verifier::truncate] ((self.total_samples
                >> 32u64) as u8)),
        );
        buffer.write_be_u32(#[verifier::truncate] (self.total_samples as u32));
        let ghost mid: Seq<u8> = buffer@;
        let mut i: usize = 0;
        while i < 16
            invariant
                i <= 16,
                buffer@ == mid + self.md5_sum@.take(i as int),
            decreases 16 - i,
        {
            buffer.push(self.md5_sum[i]);
            proof {
                assert(mid + self.md5_sum@.take(i + 1 as int) =~= (mid + self.md5_sum@.take(
                    i as int,
                )).push(self.md5_sum@[i as int]));
            }
            i += 1;
        }
        proof {
            assert(self.md5_sum@.take(16) =~= self.md5_sum@);
            assert(buffer@ =~= old(buffer)@ + stream_info_bytes(*self));
        }
    }
}

impl Application {
    /// The byte length that the APPLICATION block declares.
    pub fn bytes_len(&self) -> (r: usize)
        requires
            4 + self.data@.len() <= usize::MAX,
        ensures
            r == declared_length(Data::Application(*self)),
            r == 4 + self.data@.len(),
    {
        4 + self.data.len()
    }

    /// Appends the encoded APPLICATION body.
    pub fn to_bytes(&self, buffer: &mut Vec<u8>)
        ensures
            final(buffer)@ == old(buffer)@ + application_bytes(*self),
    {
        write_str(buffer, self.id.as_str());
        buffer.extend_from_slice(self.data.as_slice());
        proof {
            assert(buffer@ =~= old(buffer)@ + (encode_utf8(self.id@) + self.data@));
        }
    }
}

impl SeekPoint {
    /// The byte length of one encoded seek point.
    pub fn bytes_len(&self) -> (r: usize)
        ensures
            r == 18,
            r == seek_point_bytes(*self).len(),
    {
        18
    }

    /// Appends the encoded seek point.
    pub fn to_bytes(&self, buffer: &mut Vec<u8>)
        ensures
            final(buffer)@ == old(buffer)@ + seek_point_bytes(*self),
    {
        buffer.write_be_u64(self.sample_number);
        buffer.write_be_u64(self.stream_offset);
        buffer.write_be_u16(self.frame_samples);
        proof {
            assert(buffer@ =~= old(buffer)@ + seek_point_bytes(*self));
        }
    }
}

impl VorbisComment {
    /// The byte length that the VORBIS_COMMENT block declares.
    pub fn bytes_len(&self) -> (r: usize)
        requires
            encodable(Data::VorbisComment(*self)),
        ensures
            r == declared_length(Data::VorbisComment(*self)),
    {
        let ghost whole: Seq<(String, String)> = self.comments@;
        proof {
            lemma_comments_length_nonneg(whole);
        }
        let vendor_length: usize = self.vendor_string.as_str().len();
        let mut result: usize = 8 + vendor_length;
        let mut i: usize = 0;
        while i < self.comments.len()
            invariant
                i <= self.comments@.len(),
                whole == self.comments@,
                encodable(Data::VorbisComment(*self)),
                vendor_length == encode_utf8(self.vendor_string@).len(),
                result == 8 + vendor_length + comments_length(whole.take(i as int)),
            decreases self.comments@.len() - i,
        {
            proof {
                assert(whole.take(i + 1 as int).drop_last() =~= whole.take(i as int));
                assert(whole.take(i + 1 as int).last() == whole[i as int]);
                lemma_comments_length_take(whole, i + 1 as int);
                lemma_comments_length_nonneg(whole.take(i as int));
            }
            let pair: &(String, String) = &self.comments[i];
            let k_length: usize = pair.0.as_str().len();
            let v_length: usize = pair.1.as_str().len();
            result = result + k_length + 5 + v_length;
            i += 1;
        }
        proof {
            assert(whole.take(whole.len() as int) =~= whole);
        }
        result
    }

    /// Appends the encoded VORBIS_COMMENT body.
    pub fn to_bytes(&self, buffer: &mut Vec<u8>)
        requires
            encodable(Data::VorbisComment(*self)),
        ensures
            final(buffer)@ == old(buffer)@ + vorbis_comment_bytes(*self),
    {
        let ghost whole: Seq<(String, String)> = self.comments@;
        let vendor_length: usize = self.vendor_string.as_str().len();
        buffer.write_le_u32(#[verifier::truncate] (vendor_length as u32));
        write_str(buffer, self.vendor_string.as_str());
        buffer.write_le_u32(#[verifier::truncate] (self.comments.len() as u32));
        let ghost mid: Seq<u8> = buffer@;
        let mut i: usize = 0;
        while i < self.comments.len()
            invariant
                i <= self.comments@.len(),
                whole == self.comments@,
                encodable(Data::VorbisComment(*self)),
                buffer@ == mid + comments_bytes(whole.take(i as int)),
            decreases self.comments@.len() - i,
        {
            proof {
                assert(whole.take(i + 1 as int).drop_last() =~= whole.take(i as int));
                assert(whole.take(i + 1 as int).last() == whole[i as int]);
            }
            let pair: &(String, String) = &self.comments[i];
            let k_length: usize = pair.0.as_str().len();
            let v_length: usize = pair.1.as_str().len();
            let line_length: usize = k_length + v_length + 1;
            buffer.write_le_u32(#[verifier::truncate] (line_length as u32));
            write_str(buffer, pair.0.as_str());
            buffer.push(61u8);
            write_str(buffer, pair.1.as_str());
            proof {
                assert(buffer@ =~= mid + comments_bytes(whole.take(i + 1 as int)));
            }
            i += 1;
        }
        proof {
            assert(whole.take(whole.len() as int) =~= whole);
            assert(buffer@ =~= old(buffer)@ + vorbis_comment_bytes(*self));
        }
    }
}

impl CueSheetTrackIndex {
    /// The byte length of one encoded index point.
    pub fn bytes_len(&self) -> (r: usize)
        ensures
            r == 12,
            r == cue_sheet_track_index_bytes(*self).len(),
    {
        12
    }

    /// Appends the encoded index point.
    pub fn to_bytes(&self, buffer: &mut Vec<u8>)
        ensures
            final(buffer)@ == old(buffer)@ + cue_sheet_track_index_bytes(*self),
    {
        buffer.write_be_u64(self.offset);
        buffer.write_u8(self.number);
        write_zeros(buffer, 3);
        proof {
            assert(buffer@ =~= old(buffer)@ + cue_sheet_track_index_bytes(*self));
        }
    }
}

impl CueSheetTrack {
    /// The byte length that the cue sheet length accounting gives this
    /// track.
    pub fn bytes_len(&self) -> (r: usize)
        requires
            36 + 12 * self.indices@.len() <= usize::MAX,
        ensures
            r == 36 + 12 * self.indices@.len(),
    {
        36 + self.indices.len() * 12
    }

    /// Appends the encoded track.
    pub fn to_bytes(&self, buffer: &mut Vec<u8>)
        ensures
            final(buffer)@ == old(buffer)@ + cue_sheet_track_bytes(*self),
    {
        let ghost me: CueSheetTrack = *self;
        let ghost whole: Seq<CueSheetTrackIndex> = self.indices@;
        buffer.write_be_u64(self.offset);
        buffer.write_u8(self.number);
        write_str(buffer, self.isrc.as_str());
        let flags: u8 = if !self.is_audio {
            if self.is_pre_emphasis {
                0b1100_0000
            } else {
                0b1000_0000
            }
        } else {
            if self.is_pre_emphasis {
                0b0100_0000
            } else {
                0b0000_0000
            }
        };
        buffer.write_u8(flags);
        write_zeros(buffer, 13);
        buffer.write_u8(#[verifier::truncate] (self.indices.len() as u8));
        let ghost mid: Seq<u8> = buffer@;
        let mut i: usize = 0;
        while i < self.indices.len()
            invariant
                i <= self.indices@.len(),
                whole == self.indices@,
                buffer@ == mid + cue_sheet_indices_bytes(whole.take(i as int)),
            decreases self.indices@.len() - i,
        {
            proof {
                assert(whole.take(i + 1 as int).drop_last() =~= whole.take(i as int));
                assert(whole.take(i + 1 as int).last() == whole[i as int]);
            }
            let index_point: &CueSheetTrackIndex = &self.indices[i];
            index_point.to_bytes(buffer);
            proof {
                assert(buffer@ =~= mid + cue_sheet_indices_bytes(whole.take(i + 1 as int)));
            }
            i += 1;
        }
        proof {
            assert(whole.take(whole.len() as int) =~= whole);
            assert(buffer@ =~= old(buffer)@ + cue_sheet_track_bytes(me));
        }
    }
}

impl CueSheet {
    /// The byte length that the CUESHEET block declares.
    pub fn bytes_len(&self) -> (r: usize)
        requires
            396 + cue_sheet_tracks_length(self.tracks@) <= usize::MAX,
        ensures
            r == 396 + cue_sheet_tracks_length(self.tracks@),
    {
        let ghost whole: Seq<CueSheetTrack> = self.tracks@;
        let mut result: usize = 396;
        let mut i: usize = 0;
        while i < self.tracks.len()
            invariant
                i <= self.tracks@.len(),
                whole == self.tracks@,
                396 + cue_sheet_tracks_length(whole) <= usize::MAX,
                result == 396 + cue_sheet_tracks_length(whole.take(i as int)),
            decreases self.tracks@.len() - i,
        {
            proof {
                assert(whole.take(i + 1 as int).drop_last() =~= whole.take(i as int));
                assert(whole.take(i + 1 as int).last() == whole[i as int]);
                lemma_cue_sheet_tracks_length_take(whole, i + 1 as int);
                lemma_cue_sheet_tracks_length_take(whole, i as int);
                lemma_cue_sheet_tracks_length_nonneg(whole.take(i as int));
            }
            let track: &CueSheetTrack = &self.tracks[i];
            result = result + (36 + track.indices.len() * 12);
            i += 1;
        }
        proof {
            assert(whole.take(whole.len() as int) =~= whole);
        }
        result
    }

    /// Appends the encoded CUESHEET body.
    pub fn to_bytes(&self, buffer: &mut Vec<u8>)
        ensures
            final(buffer)@ == old(buffer)@ + cue_sheet_bytes(*self),
    {
        let ghost me: CueSheet = *self;
        let ghost whole: Seq<CueSheetTrack> = self.tracks@;
        write_str(buffer, self.media_catalog_number.as_str());
        buffer.write_be_u64(self.lead_in);
        if self.is_cd {
            buffer.write_u8(0b1000_0000);
        } else {
            buffer.write_u8(0);
        }
        write_zeros(buffer, 258);
        buffer.write_u8(#[verifier::truncate] (self.tracks.len() as u8));
        let ghost mid: Seq<u8> = buffer@;
        let mut i: usize = 0;
        while i < self.tracks.len()
            invariant
                i <= self.tracks@.len(),
                whole == self.tracks@,
                buffer@ == mid + cue_sheet_tracks_bytes(whole.take(i as int)),
            decreases self.tracks@.len() - i,
        {
            proof {
                assert(whole.take(i + 1 as int).drop_last() =~= whole.take(i as int));
                assert(whole.take(i + 1 as int).last() == whole[i as int]);
            }
            let track: &CueSheetTrack = &self.tracks[i];
            track.to_bytes(buffer);
            proof {
                assert(buffer@ =~= mid + cue_sheet_tracks_bytes(whole.take(i + 1 as int)));
            }
            i += 1;
        }
        proof {
            assert(whole.take(whole.len() as int) =~= whole);
            assert(buffer@ =~= old(buffer)@ + cue_sheet_bytes(me));
        }
    }
}

proof fn lemma_cue_sheet_tracks_length_nonneg(ts: Seq<CueSheetTrack>)
    ensures
        cue_sheet_tracks_length(ts) >= 0,
    decreases ts.len(),
{
    if ts.len() > 0 {
        lemma_cue_sheet_tracks_length_nonneg(ts.drop_last());
    }
}

impl Picture {
    /// The byte length that the PICTURE block declares.
    pub fn bytes_len(&self) -> (r: usize)
        requires
            encodable(Data::Picture(*self)),
        ensures
            r == 32 + encode_utf8(self.mime_type@).len() + encode_utf8(self.description@).len()
                + self.data@.len(),
    {
        let mime_type_len: usize = self.mime_type.as_str().len();
        let description_len: usize = self.description.as_str().len();
        let data_len: usize = self.data.len();
        32 + mime_type_len + description_len + data_len
    }

    /// Appends the encoded PICTURE body.
    pub fn to_bytes(&self, buffer: &mut Vec<u8>)
        requires
            encodable(Data::Picture(*self)),
        ensures
            final(buffer)@ == old(buffer)@ + picture_bytes(*self),
    {
        let ghost me: Picture = *self;
        let code: u32 = match self.picture_type {
            PictureType::Other => 0,
            PictureType::FileIconStandard => 1,
            PictureType::FileIcon => 2,
            PictureType::FrontCover => 3,
            PictureType::BackCover => 4,
            PictureType::LeafletPage => 5,
            PictureType::Media => 6,
            PictureType::LeadArtist => 7,
            PictureType::Artist => 8,
            PictureType::Conductor => 9,
            PictureType::Band => 10,
            PictureType::Composer => 11,
            PictureType::Lyricist => 12,
            PictureType::RecordingLocation => 13,
            PictureType::DuringRecording => 14,
            PictureType::DuringPerformance => 15,
            PictureType::VideoScreenCapture => 16,
            PictureType::Fish => 17,
            PictureType::Illustration => 18,
            PictureType::BandLogo => 19,
            PictureType::PublisherLogo => 20,
        };
        buffer.write_be_u32(code);
        let mime_type_len: usize = self.mime_type.as_str().len();
        buffer.write_be_u32(#[verifier::truncate] (mime_type_len as u32));
        write_str(buffer, self.mime_type.as_str());
        let description_len: usize = self.description.as_str().len();
        buffer.write_be_u32(#[verifier::truncate] (description_len as u32));
        write_str(buffer, self.description.as_str());
        buffer.write_be_u32(self.width);
        buffer.write_be_u32(self.height);
        buffer.write_be_u32(self.depth);
        buffer.write_be_u32(self.colors);
        buffer.write_be_u32(#[verifier::truncate] (self.data.len() as u32));
        buffer.extend_from_slice(self.data.as_slice());
        proof {
            assert(buffer@ =~= old(buffer)@ + picture_bytes(me));
        }
    }
}

impl Metadata {
    /// Constructs a new `Metadata` struct based on the arguments passed in.
    pub fn new(is_last: bool, length: u32, data: Data) -> (r: Metadata)
        ensures
            r.is_last == is_last,
            r.length == length,
            r.data == data,
    {
        Metadata { is_last, length, data }
    }

    /// Returns whether the current metadata block is the last.
    pub fn is_last(&self) -> (r: bool)
        ensures
            r == self.is_last,
    {
        self.is_last
    }

    /// Returns the metadata block's type.
    pub fn data_type(&self) -> (r: Type)
        ensures
            r == data_type_of(self.data),
    {
        match self.data {
            Data::StreamInfo(_) => Type::StreamInfo,
            Data::Padding(_) => Type::Padding,
            Data::Application(_) => Type::Application,
            Data::SeekTable(_) => Type::SeekTable,
            Data::VorbisComment(_) => Type::VorbisComment,
            Data::CueSheet(_) => Type::CueSheet,
            Data::Picture(_) => Type::Picture,
            Data::Unknown(_) => Type::Unknown,
        }
    }

    /// Returns true when the current `Metadata` is `StreamInfo`.
    pub fn is_stream_info(&self) -> (r: bool)
        ensures
            r == (self.data is StreamInfo),
    {
        matches!(self.data, Data::StreamInfo(_))
    }

    /// Returns true when the current `Metadata` is `Padding`.
    pub fn is_padding(&self) -> (r: bool)
        ensures
            r == (self.data is Padding),
    {
        matches!(self.data, Data::Padding(_))
    }

    /// Returns true when the current `Metadata` is `Application`.
    pub fn is_application(&self) -> (r: bool)
        ensures
            r == (self.data is Application),
    {
        matches!(self.data, Data::Application(_))
    }

    /// Returns true when the current `Metadata` is `SeekTable`.
    pub fn is_seek_table(&self) -> (r: bool)
        ensures
            r == (self.data is SeekTable),
    {
        matches!(self.data, Data::SeekTable(_))
    }

    /// Returns true when the current `Metadata` is `VorbisComment`.
    pub fn is_vorbis_comment(&self) -> (r: bool)
        ensures
            r == (self.data is VorbisComment),
    {
        matches!(self.data, Data::VorbisComment(_))
    }

    /// Returns true when the current `Metadata` is `CueSheet`.
    pub fn is_cue_sheet(&self) -> (r: bool)
        ensures
            r == (self.data is CueSheet),
    {
        matches!(self.data, Data::CueSheet(_))
    }

    /// Returns true when the current `Metadata` is `Picture`.
    pub fn is_picture(&self) -> (r: bool)
        ensures
            r == (self.data is Picture),
    {
        matches!(self.data, Data::Picture(_))
    }

    /// Returns true when the current `Metadata` is `Unknown`.
    pub fn is_unknown(&self) -> (r: bool)
        ensures
            r == (self.data is Unknown),
    {
        matches!(self.data, Data::Unknown(_))
    }

    /// Encodes the whole block: header byte, declared length, body.
    pub fn to_bytes(&self) -> (r: Vec<u8>)
        requires
            encodable(self.data),
        ensures
            r@ == metadata_block_bytes(*self),
    {
        let ghost me: Metadata = *self;
        let tag: u8 = if self.is_last {
            0b1000_0000
        } else {
            0b0000_0000
        };
        let mut bytes: Vec<u8> = Vec::new();
        match &self.data {
            Data::StreamInfo(stream_info) => {
                bytes.write_u8(tag + 0);
                bytes.write_be_u24(34);
                stream_info.to_bytes(&mut bytes);
            },
            Data::Padding(length) => {
                bytes.write_u8(tag + 1);
                bytes.write_be_u24(*length);
                write_zeros(&mut bytes, (*length) as usize);
            },
            Data::Application(application) => {
                let length: usize = application.bytes_len();
                bytes.write_u8(tag + 2);
                bytes.write_be_u24(#[verifier::truncate] (length as u32));
                application.to_bytes(&mut bytes);
            },
            Data::SeekTable(seek_points) => {
                proof {
                    lemma_seek_table_bytes_len(seek_points@);
                }
                bytes.write_u8(tag + 3);
                bytes.write_be_u24(#[verifier::truncate] ((seek_points.len() * 18) as u32));
                let ghost whole: Seq<SeekPoint> = seek_points@;
                let ghost mid: Seq<u8> = bytes@;
                let mut i: usize = 0;
                while i < seek_points.len()
                    invariant
                        i <= seek_points@.len(),
                        whole == seek_points@,
                        bytes@ == mid + seek_table_bytes(whole.take(i as int)),
                    decreases seek_points@.len() - i,
                {
                    proof {
                        assert(whole.take(i + 1 as int).drop_last() =~= whole.take(i as int));
                        assert(whole.take(i + 1 as int).last() == whole[i as int]);
                    }
                    let seek_point: &SeekPoint = &seek_points[i];
                    seek_point.to_bytes(&mut bytes);
                    proof {
                        assert(bytes@ =~= mid + seek_table_bytes(whole.take(i + 1 as int)));
                    }
                    i += 1;
                }
                proof {
                    assert(whole.take(whole.len() as int) =~= whole);
                }
            },
            Data::VorbisComment(vorbis_comment) => {
                let length: usize = vorbis_comment.bytes_len();
                bytes.write_u8(tag + 4);
                bytes.write_be_u24(#[verifier::truncate] (length as u32));
                vorbis_comment.to_bytes(&mut bytes);
            },
            Data::CueSheet(cue_sheet) => {
                let length: usize = cue_sheet.bytes_len();
                bytes.write_u8(tag + 5);
                bytes.write_be_u24(#[verifier::truncate] (length as u32));
                cue_sheet.to_bytes(&mut bytes);
            },
            Data::Picture(picture) => {
                let length: usize = picture.bytes_len();
                bytes.write_u8(tag + 6);
                bytes.write_be_u24(#[verifier::truncate] (length as u32));
                picture.to_bytes(&mut bytes);
            },
            Data::Unknown(unknown) => {
                bytes.write_u8(tag + 7);
                bytes.write_be_u24(#[verifier::truncate] (unknown.len() as u32));
                bytes.extend_from_slice(unknown.as_slice());
            },
        }
        proof {
            assert(bytes@ =~= metadata_block_bytes(me));
        }
        bytes
    }
}

/// The block type of a data value.
pub open spec fn data_type_of(d: Data) -> Type {
    match d {
        Data::StreamInfo(_) => Type::StreamInfo,
        Data::Padding(_) => Type::Padding,
        Data::Application(_) => Type::Application,
        Data::SeekTable(_) => Type::SeekTable,
        Data::VorbisComment(_) => Type::VorbisComment,
        Data::CueSheet(_) => Type::CueSheet,
        Data::Picture(_) => Type::Picture,
        Data::Unknown(_) => Type::Unknown,
    }
}

proof fn lemma_seek_table_bytes_len(points: Seq<SeekPoint>)
    ensures
        seek_table_bytes(points).len() == 18 * points.len(),
    decreases points.len(),
{
    if points.len() > 0 {
        lemma_seek_table_bytes_len(points.drop_last());
    }
}

// ---------------------------------------------------------------------
// Mathematical views of the block types
// ---------------------------------------------------------------------

/// The mathematical shape of a STREAMINFO record.
pub struct StreamInfoView {
    pub min_block_size: u16,
    pub max_block_size: u16,
    pub min_frame_size: u32,
    pub max_frame_size: u32,
    pub sample_rate: u32,
    pub channels: u8,
    pub bits_per_sample: u8,
    pub total_samples: u64,
    pub md5_sum: Seq<u8>,
}

impl View for StreamInfo {
    type V = StreamInfoView;

    open spec fn view(&self) -> StreamInfoView {
        StreamInfoView {
            min_block_size: self.min_block_size,
            max_block_size: self.max_block_size,
            min_frame_size: self.min_frame_size,
            max_frame_size: self.max_frame_size,
            sample_rate: self.sample_rate,
            channels: self.channels,
            bits_per_sample: self.bits_per_sample,
            total_samples: self.total_samples,
            md5_sum: self.md5_sum@,
        }
    }
}

/// The mathematical shape of an APPLICATION block.
pub struct ApplicationView {
    pub id: Seq<char>,
    pub data: Seq<u8>,
}

impl View for Application {
    type V = ApplicationView;

    open spec fn view(&self) -> ApplicationView {
        ApplicationView { id: self.id@, data: self.data@ }
    }
}

/// The mathematical shape of a VORBIS_COMMENT block.
pub struct VorbisCommentView {
    pub vendor_string: Seq<char>,
    pub comments: Seq<(Seq<char>, Seq<char>)>,
}

impl View for VorbisComment {
    type V = VorbisCommentView;

    open spec fn view(&self) -> VorbisCommentView {
        VorbisCommentView {
            vendor_string: self.vendor_string@,
            comments: self.comments.deep_view(),
        }
    }
}

/// The mathematical shape of one cue sheet track.
pub struct CueSheetTrackView {
    pub offset: u64,
    pub number: u8,
    pub isrc: Seq<char>,
    pub is_audio: bool,
    pub is_pre_emphasis: bool,
    pub indices: Seq<CueSheetTrackIndex>,
}

impl View for CueSheetTrack {
    type V = CueSheetTrackView;

    open spec fn view(&self) -> CueSheetTrackView {
        CueSheetTrackView {
            offset: self.offset,
            number: self.number,
            isrc: self.isrc@,
            is_audio: self.is_audio,
            is_pre_emphasis: self.is_pre_emphasis,
            indices: self.indices@,
        }
    }
}

/// The mathematical shape of a CUESHEET block.
pub struct CueSheetView {
    pub media_catalog_number: Seq<char>,
    pub lead_in: u64,
    pub is_cd: bool,
    pub tracks: Seq<CueSheetTrackView>,
}

impl View for CueSheet {
    type V = CueSheetView;

    open spec fn view(&self) -> CueSheetView {
        CueSheetView {
            media_catalog_number: self.media_catalog_number@,
            lead_in: self.lead_in,
            is_cd: self.is_cd,
            tracks: self.tracks@.map_values(|t: CueSheetTrack| t@),
        }
    }
}

/// The mathematical shape of a PICTURE block.
pub struct PictureView {
    pub picture_type: PictureType,
    pub mime_type: Seq<char>,
    pub description: Seq<char>,
    pub width: u32,
    pub height: u32,
    pub depth: u32,
    pub colors: u32,
    pub data: Seq<u8>,
}

impl View for Picture {
    type V = PictureView;

    open spec fn view(&self) -> PictureView {
        PictureView {
            picture_type: self.picture_type,
            mime_type: self.mime_type@,
            description: self.description@,
            width: self.width,
            height: self.height,
            depth: self.depth,
            colors: self.colors,
            data: self.data@,
        }
    }
}

/// The mathematical shape of any block data value.
pub enum DataView {
    /// Information regarding the entire audio stream.
    StreamInfo(StreamInfoView),
    /// A number of padded bytes.
    Padding(u32),
    /// Data used by third-party applications.
    Application(ApplicationView),
    /// The seek points in order.
    SeekTable(Seq<SeekPoint>),
    /// Name/value pairs.
    VorbisComment(VorbisCommentView),
    /// Cue information.
    CueSheet(CueSheetView),
    /// A stored picture.
    Picture(PictureView),
    /// An unrecognised block body.
    Unknown(Seq<u8>),
}

impl View for Data {
    type V = DataView;

    open spec fn view(&self) -> DataView {
        match self {
            Data::StreamInfo(si) => DataView::StreamInfo(si@),
            Data::Padding(n) => DataView::Padding(*n),
            Data::Application(a) => DataView::Application(a@),
            Data::SeekTable(points) => DataView::SeekTable(points@),
            Data::VorbisComment(vc) => DataView::VorbisComment(vc@),
            Data::CueSheet(cs) => DataView::CueSheet(cs@),
            Data::Picture(p) => DataView::Picture(p@),
            Data::Unknown(u) => DataView::Unknown(u@),
        }
    }
}

/// The mathematical shape of a metadata block.
pub struct MetadataView {
    pub is_last: bool,
    pub length: u32,
    pub data: DataView,
}

impl View for Metadata {
    type V = MetadataView;

    open spec fn view(&self) -> MetadataView {
        MetadataView { is_last: self.is_last, length: self.length, data: self.data@ }
    }
}

/// The value of the named comment among the pairs: the latest pair with
/// that name wins, as in a map built by inserting the pairs in order.
pub open spec fn comment_value(cs: Seq<(String, String)>, name: Seq<char>) -> Option<Seq<char>>
    decreases cs.len(),
{
    if cs.len() == 0 {
        None
    } else if cs.last().0@ == name {
        Some(cs.last().1@)
    } else {
        comment_value(cs.drop_last(), name)
    }
}

impl VorbisComment {
    /// Looks up the named comment; when the name occurs more than once the
    /// latest value wins, the reading a map built in stream order gives.
    pub fn comment(&self, name: &str) -> (r: Option<&String>)
        ensures
            match r {
                Some(v) => comment_value(self.comments@, name@) == Some(v@),
                None => comment_value(self.comments@, name@) is None,
            },
    {
        let mut i: usize = self.comments.len();
        proof {
            assert(self.comments@.take(self.comments@.len() as int) =~= self.comments@);
        }
        while i > 0
            invariant
                i <= self.comments@.len(),
                comment_value(self.comments@, name@) == comment_value(
                    self.comments@.take(i as int),
                    name@,
                ),
            decreases i,
        {
            i -= 1;
            proof {
                assert(self.comments@.take(i + 1 as int).drop_last() =~= self.comments@.take(
                    i as int,
                ));
                assert(self.comments@.take(i + 1 as int).last() == self.comments@[i as int]);
            }
            let pair: &(String, String) = &self.comments[i];
            if crate::utility::str_eq(pair.0.as_str(), name) {
                return Some(&pair.1);
            }
        }
        None
    }
}

} // verus!
