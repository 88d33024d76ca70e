//! Reading the whole metadata chain out of a byte buffer: the "fLaC"
//! signature, then blocks until the last-block flag, with the lookup
//! helpers that fetch one block kind out of the chain.

use vstd::prelude::*;

verus! {


use crate::error::ErrorKind;
use crate::metadata::{
    CueSheet, CueSheetView, Data, Metadata, MetadataView, Picture, PictureType, PictureView,
    StreamInfo, StreamInfoView, VorbisComment, VorbisCommentView,
};
use crate::metadata_parser::{metadata_parser, sp_metadata};
use crate::utility::str_eq;

// ---------------------------------------------------------------------
// The block chain
// ---------------------------------------------------------------------

/// What the block chain after the signature denotes: blocks in order up to
/// and including the one with the last-block flag.  The first block must
/// be STREAMINFO.
pub open spec fn sp_blocks(s: Seq<u8>, first: bool) -> Result<
    (Seq<MetadataView>, int),
    ErrorKind,
>
    decreases s.len(),
{
    if s.len() == 0 && !first {
        Err(ErrorKind::EndOfInput)
    } else {
        match sp_metadata(s) {
            Err(e) => Err(e),
            Ok((m, n)) => {
                if first && !(m.data is StreamInfo) {
                    Err(ErrorKind::Unknown)
                } else if n > s.len() {
                    Err(ErrorKind::Unknown)
                } else if m.is_last {
                    Ok((seq![m], n))
                } else if 4 <= n <= s.len() {
                    match sp_blocks(s.skip(n), false) {
                        Err(e) => Err(e),
                        Ok((rest, n2)) => Ok((seq![m] + rest, n + n2)),
                    }
                } else {
                    Err(ErrorKind::Unknown)
                }
            },
        }
    }
}

/// What a whole metadata section denotes: the four-byte "fLaC" signature,
/// then the block chain.
pub open spec fn sp_get_metadata(s: Seq<u8>) -> Result<(Seq<MetadataView>, int), ErrorKind> {
    if s.len() == 0 {
        Err(ErrorKind::EndOfInput)
    } else if s.len() < 4 {
        Err(ErrorKind::Incomplete(4))
    } else if !(s[0] == 0x66 && s[1] == 0x4c && s[2] == 0x61 && s[3] == 0x43) {
        Err(ErrorKind::HeaderParser)
    } else {
        match sp_blocks(s.skip(4), true) {
            Err(e) => Err(e),
            Ok((blocks, n)) => Ok((blocks, 4 + n)),
        }
    }
}

/// Reads the metadata chain of a FLAC byte stream: the "fLaC" signature,
/// then every block up to and including the one whose last-block flag is
/// set.  The first block must be STREAMINFO.
pub fn get_metadata(bytes: &[u8]) -> (r: Result<Vec<Metadata>, ErrorKind>)
    ensures
        match r {
            Ok(blocks) => sp_get_metadata(bytes@) is Ok && sp_get_metadata(
                bytes@,
            )->Ok_0.0 == blocks@.map_values(|m: Metadata| m@),
            Err(e) => sp_get_metadata(bytes@) == Err::<(Seq<MetadataView>, int), ErrorKind>(e),
        },
{
    if bytes.len() == 0 {
        return Err(ErrorKind::EndOfInput);
    }
    if bytes.len() < 4 {
        return Err(ErrorKind::Incomplete(4));
    }
    if !(bytes[0] == 0x66 && bytes[1] == 0x4c && bytes[2] == 0x61 && bytes[3] == 0x43) {
        return Err(ErrorKind::HeaderParser);
    }
    let ghost s: Seq<u8> = bytes@;
    let mut blocks: Vec<Metadata> = Vec::new();
    let mut pos: usize = 4;
    let mut first: bool = true;
    proof {
        assert(blocks@.map_values(|m: Metadata| m@) =~= Seq::<MetadataView>::empty());
        assert(match sp_blocks(s.skip(4), true) {
            Ok((rest, _)) => Seq::<MetadataView>::empty() + rest =~= rest,
            Err(e) => true,
        });
    }
    loop
        invariant
            4 <= pos <= s.len(),
            s == bytes@,
            s.len() <= usize::MAX,
            sp_get_metadata(s) == (match sp_blocks(s.skip(4), true) {
                Ok((b, n)) => Ok::<(Seq<MetadataView>, int), ErrorKind>((b, 4 + n)),
                Err(e) => Err::<(Seq<MetadataView>, int), ErrorKind>(e),
            }),
            sp_blocks(s.skip(4), true) == (match sp_blocks(s.skip(pos as int), first) {
                Ok((rest, n2)) => Ok::<(Seq<MetadataView>, int), ErrorKind>(
                    (blocks@.map_values(|m: Metadata| m@) + rest, (pos - 4) + n2),
                ),
                Err(e) => Err::<(Seq<MetadataView>, int), ErrorKind>(e),
            }),
        decreases s.len() - pos,
    {
        if !first && pos == bytes.len() {
            return Err(ErrorKind::EndOfInput);
        }
        let window: &[u8] = &bytes[pos..bytes.len()];
        proof {
            assert(window@ =~= s.skip(pos as int));
        }
        match metadata_parser(window) {
            Err(e) => {
                return Err(e);
            },
            Ok((m, n)) => {
                let ghost mv: MetadataView = m@;
                let ghost done: Seq<MetadataView> = blocks@.map_values(|m: Metadata| m@);
                if first && !m.is_stream_info() {
                    return Err(ErrorKind::Unknown);
                }
                if n > bytes.len() - pos {
                    return Err(ErrorKind::Unknown);
                }
                let last: bool = m.is_last();
                blocks.push(m);
                proof {
                    assert(blocks@.map_values(|m: Metadata| m@) =~= done.push(mv));
                }
                if last {
                    proof {
                        assert(done + seq![mv] =~= done.push(mv));
                    }
                    return Ok(blocks);
                }
                if n < 4 {
                    return Err(ErrorKind::Unknown);
                }
                proof {
                    assert(s.skip(pos as int).skip(n as int) =~= s.skip(pos + n as int));
                    let rec = sp_blocks(s.skip(pos + n as int), false);
                    if rec is Ok {
                        let rest = rec->Ok_0.0;
                        assert(done + (seq![mv] + rest) =~= done.push(mv) + rest);
                    }
                }
                pos = pos + n;
                first = false;
            },
        }
    }
}

// ---------------------------------------------------------------------
// Lookup helpers
// ---------------------------------------------------------------------

/// Will return true when the unwrapped value of `option` and `other`
/// match, or `option` is `Option::None`, otherwise false.  For a type
/// whose equality obeys its specification, the result is pinned exactly.
pub fn optional_eq<T: Eq + vstd::std_specs::cmp::PartialEqSpec>(option: Option<T>, other: T) -> (r:
    bool)
    ensures
        option is None ==> r,
        T::obeys_eq_spec() ==> r == (match option {
            None => true,
            Some(value) => value.eq_spec(&other),
        }),
{
    match option {
        None => true,
        Some(value) => value == other,
    }
}

/// The first STREAMINFO block in the chain, if any.
pub open spec fn first_stream_info(blocks: Seq<MetadataView>) -> Option<StreamInfoView>
    decreases blocks.len(),
{
    if blocks.len() == 0 {
        None
    } else if blocks.first().data is StreamInfo {
        Some(blocks.first().data->StreamInfo_0)
    } else {
        first_stream_info(blocks.drop_first())
    }
}

proof fn lemma_first_stream_info_at(blocks: Seq<MetadataView>, i: int)
    requires
        0 <= i < blocks.len(),
        blocks[i].data is StreamInfo,
        forall|k: int| 0 <= k < i ==> !(blocks[k].data is StreamInfo),
    ensures
        first_stream_info(blocks) == Some(blocks[i].data->StreamInfo_0),
    decreases i,
{
    if i > 0 {
        lemma_first_stream_info_at(blocks.drop_first(), i - 1);
    }
}

proof fn lemma_first_stream_info_none(blocks: Seq<MetadataView>)
    requires
        forall|k: int| 0 <= k < blocks.len() ==> !(blocks[k].data is StreamInfo),
    ensures
        first_stream_info(blocks) is None,
    decreases blocks.len(),
{
    if blocks.len() > 0 {
        lemma_first_stream_info_none(blocks.drop_first());
    }
}

/// Reads and returns the STREAMINFO metadata block of the given FLAC byte
/// stream, or `NotFound` when the chain holds none.
pub fn get_stream_info(bytes: &[u8]) -> (r: Result<StreamInfo, ErrorKind>)
    ensures
        match sp_get_metadata(bytes@) {
            Ok((blocks, _)) => match first_stream_info(blocks) {
                Some(v) => r matches Ok(si) && si@ == v,
                None => r == Err::<StreamInfo, ErrorKind>(ErrorKind::NotFound),
            },
            Err(e) => r == Err::<StreamInfo, ErrorKind>(e),
        },
{
    let blocks: Vec<Metadata> = match get_metadata(bytes) {
        Ok(b) => b,
        Err(e) => {
            return Err(e);
        },
    };
    let ghost bv: Seq<MetadataView> = blocks@.map_values(|m: Metadata| m@);
    let mut i: usize = 0;
    while i < blocks.len()
        invariant
            i <= blocks@.len(),
            bv == blocks@.map_values(|m: Metadata| m@),
            sp_get_metadata(bytes@) is Ok && sp_get_metadata(bytes@)->Ok_0.0 == bv,
            forall|k: int| 0 <= k < i ==> !(bv[k].data is StreamInfo),
        decreases blocks@.len() - i,
    {
        match &blocks[i].data {
            Data::StreamInfo(si) => {
                proof {
                    lemma_first_stream_info_at(bv, i as int);
                }
                return Ok(*si);
            },
            _ => {},
        }
        i += 1;
    }
    proof {
        lemma_first_stream_info_none(bv);
    }
    Err(ErrorKind::NotFound)
}

/// The first VORBIS_COMMENT block in the chain, if any.
pub open spec fn first_vorbis_comment(blocks: Seq<MetadataView>) -> Option<VorbisCommentView>
    decreases blocks.len(),
{
    if blocks.len() == 0 {
        None
    } else if blocks.first().data is VorbisComment {
        Some(blocks.first().data->VorbisComment_0)
    } else {
        first_vorbis_comment(blocks.drop_first())
    }
}

proof fn lemma_first_vorbis_comment_at(blocks: Seq<MetadataView>, i: int)
    requires
        0 <= i < blocks.len(),
        blocks[i].data is VorbisComment,
        forall|k: int| 0 <= k < i ==> !(blocks[k].data is VorbisComment),
    ensures
        first_vorbis_comment(blocks) == Some(blocks[i].data->VorbisComment_0),
    decreases i,
{
    if i > 0 {
        lemma_first_vorbis_comment_at(blocks.drop_first(), i - 1);
    }
}

proof fn lemma_first_vorbis_comment_none(blocks: Seq<MetadataView>)
    requires
        forall|k: int| 0 <= k < blocks.len() ==> !(blocks[k].data is VorbisComment),
    ensures
        first_vorbis_comment(blocks) is None,
    decreases blocks.len(),
{
    if blocks.len() > 0 {
        lemma_first_vorbis_comment_none(blocks.drop_first());
    }
}

/// Reads and returns the VORBIS_COMMENT metadata block of the given FLAC
/// byte stream, or `NotFound` when the chain holds none.
pub fn get_vorbis_comment(bytes: &[u8]) -> (r: Result<VorbisComment, ErrorKind>)
    ensures
        match sp_get_metadata(bytes@) {
            Ok((blocks, _)) => match first_vorbis_comment(blocks) {
                Some(v) => r matches Ok(vc) && vc@ == v,
                None => r == Err::<VorbisComment, ErrorKind>(ErrorKind::NotFound),
            },
            Err(e) => r == Err::<VorbisComment, ErrorKind>(e),
        },
{
    let mut blocks: Vec<Metadata> = match get_metadata(bytes) {
        Ok(b) => b,
        Err(e) => {
            return Err(e);
        },
    };
    let ghost bv: Seq<MetadataView> = blocks@.map_values(|m: Metadata| m@);
    let mut i: usize = 0;
    while i < blocks.len()
        invariant
            i <= blocks@.len(),
            bv == blocks@.map_values(|m: Metadata| m@),
            sp_get_metadata(bytes@) is Ok && sp_get_metadata(bytes@)->Ok_0.0 == bv,
            forall|k: int| 0 <= k < i ==> !(bv[k].data is VorbisComment),
        decreases blocks@.len() - i,
    {
        let found: bool = blocks[i].is_vorbis_comment();
        if found {
            proof {
                lemma_first_vorbis_comment_at(bv, i as int);
            }
            let m: Metadata = blocks.remove(i);
            match m.data {
                Data::VorbisComment(vc) => {
                    return Ok(vc);
                },
                _ => {
                    return Err(ErrorKind::NotFound);
                },
            }
        }
        i += 1;
    }
    proof {
        lemma_first_vorbis_comment_none(bv);
    }
    Err(ErrorKind::NotFound)
}

/// The first CUESHEET block in the chain, if any.
pub open spec fn first_cue_sheet(blocks: Seq<MetadataView>) -> Option<CueSheetView>
    decreases blocks.len(),
{
    if blocks.len() == 0 {
        None
    } else if blocks.first().data is CueSheet {
        Some(blocks.first().data->CueSheet_0)
    } else {
        first_cue_sheet(blocks.drop_first())
    }
}

proof fn lemma_first_cue_sheet_at(blocks: Seq<MetadataView>, i: int)
    requires
        0 <= i < blocks.len(),
        blocks[i].data is CueSheet,
        forall|k: int| 0 <= k < i ==> !(blocks[k].data is CueSheet),
    ensures
        first_cue_sheet(blocks) == Some(blocks[i].data->CueSheet_0),
    decreases i,
{
    if i > 0 {
        lemma_first_cue_sheet_at(blocks.drop_first(), i - 1);
    }
}

proof fn lemma_first_cue_sheet_none(blocks: Seq<MetadataView>)
    requires
        forall|k: int| 0 <= k < blocks.len() ==> !(blocks[k].data is CueSheet),
    ensures
        first_cue_sheet(blocks) is None,
    decreases blocks.len(),
{
    if blocks.len() > 0 {
        lemma_first_cue_sheet_none(blocks.drop_first());
    }
}

/// Reads and returns the CUESHEET metadata block of the given FLAC byte
/// stream, or `NotFound` when the chain holds none.
pub fn get_cue_sheet(bytes: &[u8]) -> (r: Result<CueSheet, ErrorKind>)
    ensures
        match sp_get_metadata(bytes@) {
            Ok((blocks, _)) => match first_cue_sheet(blocks) {
                Some(v) => r matches Ok(cs) && cs@ == v,
                None => r == Err::<CueSheet, ErrorKind>(ErrorKind::NotFound),
            },
            Err(e) => r == Err::<CueSheet, ErrorKind>(e),
        },
{
    let mut blocks: Vec<Metadata> = match get_metadata(bytes) {
        Ok(b) => b,
        Err(e) => {
            return Err(e);
        },
    };
    let ghost bv: Seq<MetadataView> = blocks@.map_values(|m: Metadata| m@);
    let mut i: usize = 0;
    while i < blocks.len()
        invariant
            i <= blocks@.len(),
            bv == blocks@.map_values(|m: Metadata| m@),
            sp_get_metadata(bytes@) is Ok && sp_get_metadata(bytes@)->Ok_0.0 == bv,
            forall|k: int| 0 <= k < i ==> !(bv[k].data is CueSheet),
        decreases blocks@.len() - i,
    {
        let found: bool = blocks[i].is_cue_sheet();
        if found {
            proof {
                lemma_first_cue_sheet_at(bv, i as int);
            }
            let m: Metadata = blocks.remove(i);
            match m.data {
                Data::CueSheet(cs) => {
                    return Ok(cs);
                },
                _ => {
                    return Err(ErrorKind::NotFound);
                },
            }
        }
        i += 1;
    }
    proof {
        lemma_first_cue_sheet_none(bv);
    }
    Err(ErrorKind::NotFound)
}

// ---------------------------------------------------------------------
// Picture selection
// ---------------------------------------------------------------------

/// Whether a picture satisfies the given constraints: matching type, MIME
/// type and description where given, and dimensions within the bounds.
pub open spec fn picture_satisfies(
    p: PictureView,
    picture_type: Option<PictureType>,
    mime_type: Option<Seq<char>>,
    description: Option<Seq<char>>,
    max_width: Option<u32>,
    max_height: Option<u32>,
    max_depth: Option<u32>,
    max_colors: Option<u32>,
) -> bool {
    &&& match picture_type {
        Some(t) => p.picture_type == t,
        None => true,
    }
    &&& match mime_type {
        Some(m) => p.mime_type == m,
        None => true,
    }
    &&& match description {
        Some(d) => p.description == d,
        None => true,
    }
    &&& p.width <= (match max_width {
        Some(w) => w,
        None => u32::MAX,
    })
    &&& p.height <= (match max_height {
        Some(h) => h,
        None => u32::MAX,
    })
    &&& p.depth <= (match max_depth {
        Some(d) => d,
        None => u32::MAX,
    })
    &&& p.colors <= (match max_colors {
        Some(c) => c,
        None => u32::MAX,
    })
}

/// The selection key of a picture: its pixel area, then its colour depth.
pub open spec fn picture_key(p: PictureView) -> (int, int) {
    (p.width * p.height, p.depth as int)
}

/// Strictly-greater on selection keys: larger area, or equal area and
/// greater depth.
pub open spec fn key_gt(a: (int, int), b: (int, int)) -> bool {
    a.0 > b.0 || (a.0 == b.0 && a.1 > b.1)
}

/// The key a candidate must beat: the zero key when nothing has been
/// selected yet.
pub open spec fn option_key(best: Option<PictureView>) -> (int, int) {
    match best {
        None => (0, 0),
        Some(p) => picture_key(p),
    }
}

/// The selection fold over the chain: a matching picture replaces the
/// current choice exactly when its key is strictly greater.
pub open spec fn best_picture_from(
    blocks: Seq<MetadataView>,
    picture_type: Option<PictureType>,
    mime_type: Option<Seq<char>>,
    description: Option<Seq<char>>,
    max_width: Option<u32>,
    max_height: Option<u32>,
    max_depth: Option<u32>,
    max_colors: Option<u32>,
    best: Option<PictureView>,
) -> Option<PictureView>
    decreases blocks.len(),
{
    if blocks.len() == 0 {
        best
    } else {
        let next = if blocks.first().data is Picture && picture_satisfies(
            blocks.first().data->Picture_0,
            picture_type,
            mime_type,
            description,
            max_width,
            max_height,
            max_depth,
            max_colors,
        ) && key_gt(picture_key(blocks.first().data->Picture_0), option_key(best)) {
            Some(blocks.first().data->Picture_0)
        } else {
            best
        };
        best_picture_from(
            blocks.drop_first(),
            picture_type,
            mime_type,
            description,
            max_width,
            max_height,
            max_depth,
            max_colors,
            next,
        )
    }
}


/// The choice after considering one block against the current one.
pub open spec fn next_pick(
    m: MetadataView,
    picture_type: Option<PictureType>,
    mime_type: Option<Seq<char>>,
    description: Option<Seq<char>>,
    max_width: Option<u32>,
    max_height: Option<u32>,
    max_depth: Option<u32>,
    max_colors: Option<u32>,
    cur: Option<PictureView>,
) -> Option<PictureView> {
    if m.data is Picture && picture_satisfies(
        m.data->Picture_0,
        picture_type,
        mime_type,
        description,
        max_width,
        max_height,
        max_depth,
        max_colors,
    ) && key_gt(picture_key(m.data->Picture_0), option_key(cur)) {
        Some(m.data->Picture_0)
    } else {
        cur
    }
}

proof fn lemma_best_step(
    blocks: Seq<MetadataView>,
    i: int,
    picture_type: Option<PictureType>,
    mime_type: Option<Seq<char>>,
    description: Option<Seq<char>>,
    max_width: Option<u32>,
    max_height: Option<u32>,
    max_depth: Option<u32>,
    max_colors: Option<u32>,
    cur: Option<PictureView>,
)
    requires
        0 <= i < blocks.len(),
    ensures
        best_picture_from(
            blocks.skip(i),
            picture_type,
            mime_type,
            description,
            max_width,
            max_height,
            max_depth,
            max_colors,
            cur,
        ) == best_picture_from(
            blocks.skip(i + 1),
            picture_type,
            mime_type,
            description,
            max_width,
            max_height,
            max_depth,
            max_colors,
            next_pick(
                blocks[i],
                picture_type,
                mime_type,
                description,
                max_width,
                max_height,
                max_depth,
                max_colors,
                cur,
            ),
        ),
{
    assert(blocks.skip(i).drop_first() =~= blocks.skip(i + 1));
    assert(blocks.skip(i).first() == blocks[i]);
}

/// Checks the constraints against one picture.
fn picture_ok(
    p: &Picture,
    picture_type: Option<PictureType>,
    mime_type: Option<&str>,
    description: Option<&str>,
    max_width: Option<u32>,
    max_height: Option<u32>,
    max_depth: Option<u32>,
    max_colors: Option<u32>,
) -> (r: bool)
    ensures
        r == picture_satisfies(
            p@,
            picture_type,
            mime_type.deep_view(),
            description.deep_view(),
            max_width,
            max_height,
            max_depth,
            max_colors,
        ),
{
    let type_ok: bool = match picture_type {
        Some(t) => t == p.picture_type,
        None => true,
    };
    let mime_ok: bool = match mime_type {
        Some(m) => str_eq(m, p.mime_type.as_str()),
        None => true,
    };
    let desc_ok: bool = match description {
        Some(d) => str_eq(d, p.description.as_str()),
        None => true,
    };
    let width_ok: bool = p.width <= (match max_width {
        Some(w) => w,
        None => u32::MAX,
    });
    let height_ok: bool = p.height <= (match max_height {
        Some(h) => h,
        None => u32::MAX,
    });
    let depth_ok: bool = p.depth <= (match max_depth {
        Some(d) => d,
        None => u32::MAX,
    });
    let colors_ok: bool = p.colors <= (match max_colors {
        Some(c) => c,
        None => u32::MAX,
    });
    type_ok && mime_ok && desc_ok && width_ok && height_ok && depth_ok && colors_ok
}

/// Reads and returns a PICTURE metadata block of the given FLAC byte
/// stream.
///
/// Optional constraints narrow the search; among the pictures that satisfy
/// all of them, the one with the largest pixel area is returned, ties
/// broken by greater colour depth, and the earliest such block on a
/// remaining tie.  `NotFound` is returned when no picture matches.
pub fn get_picture(
    bytes: &[u8],
    picture_type: Option<PictureType>,
    mime_type: Option<&str>,
    description: Option<&str>,
    max_width: Option<u32>,
    max_height: Option<u32>,
    max_depth: Option<u32>,
    max_colors: Option<u32>,
) -> (r: Result<Picture, ErrorKind>)
    ensures
        match sp_get_metadata(bytes@) {
            Ok((blocks, _)) => match best_picture_from(
                blocks,
                picture_type,
                mime_type.deep_view(),
                description.deep_view(),
                max_width,
                max_height,
                max_depth,
                max_colors,
                None,
            ) {
                Some(v) => r matches Ok(pic) && pic@ == v,
                None => r == Err::<Picture, ErrorKind>(ErrorKind::NotFound),
            },
            Err(e) => r == Err::<Picture, ErrorKind>(e),
        },
        r matches Ok(pic) ==> picture_satisfies(
            pic@,
            picture_type,
            mime_type.deep_view(),
            description.deep_view(),
            max_width,
            max_height,
            max_depth,
            max_colors,
        ),
{
    let mut blocks: Vec<Metadata> = match get_metadata(bytes) {
        Ok(b) => b,
        Err(e) => {
            return Err(e);
        },
    };
    let ghost bv: Seq<MetadataView> = blocks@.map_values(|m: Metadata| m@);
    let ghost mt: Option<Seq<char>> = mime_type.deep_view();
    let ghost dt: Option<Seq<char>> = description.deep_view();
    let mut best_index: Option<usize> = None;
    let mut best_area: u64 = 0;
    let mut best_depth: u32 = 0;
    let ghost mut best_v: Option<PictureView> = None;
    let mut i: usize = 0;
    proof {
        assert(bv.skip(0) =~= bv);
    }
    while i < blocks.len()
        invariant
            i <= blocks@.len(),
            bv == blocks@.map_values(|m: Metadata| m@),
            mt == mime_type.deep_view(),
            dt == description.deep_view(),
            sp_get_metadata(bytes@) is Ok && sp_get_metadata(bytes@)->Ok_0.0 == bv,
            option_key(best_v) == (best_area as int, best_depth as int) || (best_v is None
                && best_area == 0 && best_depth == 0),
            match best_index {
                None => best_v is None && best_area == 0 && best_depth == 0,
                Some(b) => {
                    &&& b < i
                    &&& bv[b as int].data is Picture
                    &&& best_v == Some(bv[b as int].data->Picture_0)
                    &&& picture_satisfies(
                        bv[b as int].data->Picture_0,
                        picture_type,
                        mt,
                        dt,
                        max_width,
                        max_height,
                        max_depth,
                        max_colors,
                    )
                    &&& key_gt(picture_key(bv[b as int].data->Picture_0), (0int, 0int))
                },
            },
            best_v matches Some(pv) ==> picture_key(pv) == (best_area as int, best_depth as int),
            best_picture_from(
                bv,
                picture_type,
                mt,
                dt,
                max_width,
                max_height,
                max_depth,
                max_colors,
                None,
            ) == best_picture_from(
                bv.skip(i as int),
                picture_type,
                mt,
                dt,
                max_width,
                max_height,
                max_depth,
                max_colors,
                best_v,
            ),
        decreases blocks@.len() - i,
    {
        proof {
            lemma_best_step(
                bv,
                i as int,
                picture_type,
                mt,
                dt,
                max_width,
                max_height,
                max_depth,
                max_colors,
                best_v,
            );
        }
        match &blocks[i].data {
            Data::Picture(picture) => {
                proof {
                    assert((picture.width as u64) * (picture.height as u64)
                        < 0x1_0000_0000_0000_0000) by (nonlinear_arith)
                        requires
                            picture.width < 0x1_0000_0000u64,
                            picture.height < 0x1_0000_0000u64,
                    ;
                }
                let matches_constraints: bool = picture_ok(
                    picture,
                    picture_type,
                    mime_type,
                    description,
                    max_width,
                    max_height,
                    max_depth,
                    max_colors,
                );
                let area: u64 = (picture.width as u64) * (picture.height as u64);
                let better: bool = area > best_area || (area == best_area && picture.depth
                    > best_depth);
                proof {
                    assert(bv[i as int].data->Picture_0 == picture@);
                    assert(better == key_gt(picture_key(picture@), option_key(best_v)));
                }
                if matches_constraints && better {
                    best_index = Some(i);
                    best_area = area;
                    best_depth = picture.depth;
                    proof {
                        best_v = Some(picture@);
                    }
                } else {
                    proof {
                        assert(next_pick(
                            bv[i as int],
                            picture_type,
                            mt,
                            dt,
                            max_width,
                            max_height,
                            max_depth,
                            max_colors,
                            best_v,
                        ) == best_v);
                    }
                }
            },
            _ => {
                proof {
                    assert(!(bv[i as int].data is Picture));
                }
            },
        }
        i += 1;
    }
    match best_index {
        Some(b) => {
            proof {
                assert(bv.skip(bv.len() as int) =~= Seq::<MetadataView>::empty());
            }
            let m: Metadata = blocks.remove(b);
            match m.data {
                Data::Picture(picture) => Ok(picture),
                _ => Err(ErrorKind::NotFound),
            }
        },
        None => {
            proof {
                assert(bv.skip(bv.len() as int) =~= Seq::<MetadataView>::empty());
            }
            Err(ErrorKind::NotFound)
        },
    }
}

} // verus!
