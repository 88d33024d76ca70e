//! The streaming driver: a growable input buffer fed by the caller, the
//! metadata chain read incrementally, and frame-by-frame decoding that
//! hands out interleaved samples.
//!
//! The driver never blocks: when it needs more input it returns
//! `Incomplete` with the byte count it wants, and the caller feeds more
//! bytes and retries.  A byte-slice source feeds everything once and
//! closes the input, so an `Incomplete` there is terminal.

use vstd::prelude::*;

verus! {

use crate::chain::{sp_blocks, sp_get_metadata};
use crate::error::ErrorKind;
use crate::frame::{frame_pcm, frame_parser, sp_frame, ChannelAssignment, FrameView};
use crate::metadata::{zero_bytes, Data, Metadata, MetadataView, StreamInfo, StreamInfoView};
use crate::metadata_parser::{metadata_parser, sp_metadata};
use crate::subframe;

/// The stream information before any block has been read: all zero.
pub open spec fn initial_stream_info() -> StreamInfoView {
    StreamInfoView {
        min_block_size: 0,
        max_block_size: 0,
        min_frame_size: 0,
        max_frame_size: 0,
        sample_rate: 0,
        channels: 0,
        bits_per_sample: 0,
        total_samples: 0,
        md5_sum: zero_bytes(16),
    }
}

/// The stream information left after folding a block chain over an initial
/// value: each STREAMINFO block replaces it.
pub open spec fn fold_stream_info(blocks: Seq<MetadataView>, init: StreamInfoView) -> StreamInfoView
    decreases blocks.len(),
{
    if blocks.len() == 0 {
        init
    } else {
        match blocks.last().data {
            crate::metadata::DataView::StreamInfo(si) => si,
            _ => fold_stream_info(blocks.drop_last(), init),
        }
    }
}

/// The blocks of a chain that the driver keeps in its metadata list:
/// everything that is not STREAMINFO, in order.
pub open spec fn kept_blocks(blocks: Seq<MetadataView>) -> Seq<MetadataView>
    decreases blocks.len(),
{
    if blocks.len() == 0 {
        Seq::empty()
    } else {
        kept_blocks(blocks.drop_last()) + (if blocks.last().data is StreamInfo {
            Seq::empty()
        } else {
            seq![blocks.last()]
        })
    }
}

/// What one opening pass denotes from a driver state: the "fLaC" signature
/// when it has not been consumed yet, then the block chain to the last
/// flag, with the consumed byte count.
pub open spec fn sp_open(s: Seq<u8>, header_done: bool, first: bool) -> Result<
    (Seq<MetadataView>, int),
    ErrorKind,
> {
    if !header_done {
        if s.len() == 0 {
            Err(ErrorKind::EndOfInput)
        } else if s.len() < 4 {
            Err(ErrorKind::Incomplete(4))
        } else if !(s[0] == 0x66 && s[1] == 0x4c && s[2] == 0x61 && s[3] == 0x43) {
            Err(ErrorKind::HeaderParser)
        } else {
            match sp_blocks(s.skip(4), true) {
                Err(e) => Err(e),
                Ok((blocks, n)) => Ok((blocks, 4 + n)),
            }
        }
    } else {
        sp_blocks(s, first)
    }
}

/// FLAC stream that decodes and holds file information.
#[derive(Debug)]
pub struct Stream {
    /// The stream information from the first metadata block.
    pub info: StreamInfo,
    /// Every other metadata block, in stream order.
    pub metadata: Vec<Metadata>,
    /// The input buffer.
    pub input: Vec<u8>,
    /// How many input bytes have been consumed.
    pub offset: usize,
    /// Whether the caller has closed the input.
    pub input_done: bool,
    /// Whether the stream signature has been consumed.
    pub header_done: bool,
    /// Whether at least one metadata block has been read.
    pub block_seen: bool,
    /// Whether the metadata chain has been fully read.
    pub opened: bool,
    /// The decoded samples of the current frame, channel-major.
    pub buffer: Vec<i64>,
    /// The block size of the current frame.
    pub block_size: usize,
    /// The channel count of the current frame.
    pub channels: usize,
    /// The next sample index to hand out.
    pub sample_index: usize,
    /// The next channel to hand out.
    pub channel: usize,
}

impl Stream {
    /// The internal consistency of the driver state.
    pub open spec fn wf(self) -> bool {
        &&& self.offset <= self.input@.len()
        &&& 8 * self.input@.len() <= usize::MAX
        &&& self.buffer@.len() == self.block_size * self.channels
        &&& self.sample_index <= self.block_size
        &&& (self.channels > 0 ==> self.channel < self.channels)
        &&& (self.channels == 0 ==> self.channel == 0 && self.block_size == 0
            && self.sample_index == 0)
        &&& self.block_size <= u32::MAX
        &&& self.channels <= 8
        &&& self.block_size * self.channels <= usize::MAX
        &&& (self.block_seen ==> self.header_done)
    }

    /// Whether the metadata chain has been read and frames may follow.
    pub open spec fn is_open(self) -> bool {
        self.opened
    }

    /// The unconsumed input bytes.
    pub open spec fn remaining(self) -> Seq<u8> {
        self.input@.skip(self.offset as int)
    }

    /// Whether a decoded sample is pending in the current frame.
    pub open spec fn has_pending(self) -> bool {
        self.sample_index < self.block_size && self.channels > 0
    }

    /// The next sample that will be handed out.
    pub open spec fn peek(self) -> i64 {
        self.buffer@[self.channel * self.block_size + self.sample_index]
    }

    /// The stream information seen by specifications.
    pub open spec fn spec_info(self) -> StreamInfo {
        self.info
    }

    /// An empty driver awaiting input.
    pub fn new() -> (r: Stream)
        ensures
            r.wf(),
            !r.is_open(),
            r.input@ == Seq::<u8>::empty(),
            r.offset == 0,
            r.remaining() == Seq::<u8>::empty(),
            !r.input_done,
            !r.header_done,
            !r.block_seen,
            r.info@ == initial_stream_info(),
            r.metadata@ == Seq::<Metadata>::empty(),
    {
        let r = Stream {
            info: StreamInfo::new(),
            metadata: Vec::new(),
            input: Vec::new(),
            offset: 0,
            input_done: false,
            header_done: false,
            block_seen: false,
            opened: false,
            buffer: Vec::new(),
            block_size: 0,
            channels: 0,
            sample_index: 0,
            channel: 0,
        };
        proof {
            assert(r.input@.skip(0) =~= Seq::<u8>::empty());
            assert(r.info@.md5_sum =~= zero_bytes(16));
        }
        r
    }

    /// Appends input bytes.  Returns false, leaving the stream unchanged,
    /// when the buffer would outgrow the bit-position range of the
    /// machine.
    pub fn feed(&mut self, bytes: &[u8]) -> (r: bool)
        requires
            old(self).wf(),
        ensures
            final(self).wf(),
            r ==> final(self).input@ == old(self).input@ + bytes@,
            final(self).offset == old(self).offset,
            final(self).info == old(self).info,
            final(self).metadata == old(self).metadata,
            final(self).input_done == old(self).input_done,
            final(self).header_done == old(self).header_done,
            final(self).block_seen == old(self).block_seen,
            final(self).opened == old(self).opened,
            final(self).buffer == old(self).buffer,
            final(self).block_size == old(self).block_size,
            final(self).channels == old(self).channels,
            final(self).sample_index == old(self).sample_index,
            final(self).channel == old(self).channel,
            r == (bytes@.len() <= usize::MAX / 8 - old(self).input@.len()),
            !r ==> *final(self) == *old(self),
            final(self).is_open() == old(self).is_open(),
    {
        if bytes.len() > (usize::MAX / 8) - self.input.len() {
            return false;
        }
        self.input.extend_from_slice(bytes);
        true
    }

    /// Marks the end of input: no more bytes will be fed.
    pub fn end_of_input(&mut self)
        requires
            old(self).wf(),
        ensures
            final(self).wf(),
            *final(self) == (Stream { input_done: true, ..*old(self) }),
    {
        self.input_done = true;
    }

    /// Returns information for the current stream.
    pub fn info(&self) -> (r: StreamInfo)
        ensures
            r == self.spec_info(),
    {
        self.info
    }

    /// Returns the metadata blocks other than STREAMINFO, which is held in
    /// `Stream::info`.
    pub fn metadata(&self) -> (r: &Vec<Metadata>)
        ensures
            r == self.metadata,
    {
        &self.metadata
    }

    /// The declared number of interleaved samples of the whole stream: the
    /// STREAMINFO total-samples count times the channel count, clamped to
    /// the 64-bit range.  Zero means the total is unknown.
    pub fn declared_sample_count(&self) -> (r: u64)
        ensures
            r == (if self.info.total_samples * self.info.channels <= u64::MAX {
                (self.info.total_samples * self.info.channels) as u64
            } else {
                u64::MAX
            }),
    {
        match self.info.total_samples.checked_mul(self.info.channels as u64) {
            Some(v) => v,
            None => u64::MAX,
        }
    }

    /// Drives the metadata parser to the last block.
    ///
    /// On success the stream is open: the "fLaC" signature and the block
    /// chain were consumed from the head of the unconsumed input exactly as
    /// `sp_open` states, the last STREAMINFO of the chain stands in `info`,
    /// and every other block was appended to `metadata` in order.  An
    /// `Incomplete` error asks the caller to feed more bytes and call
    /// again; every other error is terminal, as is `Incomplete` once the
    /// input is closed.
    #[verifier::rlimit(100)]
    pub fn process_metadata(&mut self) -> (r: Result<(), ErrorKind>)
        requires
            old(self).wf(),
        ensures
            final(self).wf(),
            r is Ok ==> final(self).is_open(),
            r is Err ==> final(self).is_open() == old(self).is_open(),
            final(self).input@ == old(self).input@,
            final(self).input_done == old(self).input_done,
            old(self).is_open() ==> r is Ok && *final(self) == *old(self),
            !old(self).is_open() ==> (match sp_open(
                old(self).remaining(),
                old(self).header_done,
                !old(self).block_seen,
            ) {
                Ok((blocks, n)) => {
                    &&& r is Ok
                    &&& final(self).offset == old(self).offset + n
                    &&& final(self).info@ == fold_stream_info(blocks, old(self).info@)
                    &&& final(self).metadata@.map_values(|m: Metadata| m@) == old(
                        self,
                    ).metadata@.map_values(|m: Metadata| m@) + kept_blocks(blocks)
                },
                Err(e) => r == Err::<(), ErrorKind>(e),
            }),
    {
        if self.opened {
            return Ok(());
        }
        proof {
            assert(old(self).remaining().len() == old(self).input@.len() - old(self).offset);
        }
        if !self.header_done {
            if self.input.len() - self.offset < 4 {
                if self.input.len() == self.offset {
                    proof {
                        assert(self.remaining() =~= Seq::<u8>::empty());
                    }
                    return Err(ErrorKind::EndOfInput);
                }
                return Err(ErrorKind::Incomplete(4));
            }
            let o: usize = self.offset;
            proof {
                assert(old(self).remaining()[0] == self.input@[o as int]);
                assert(old(self).remaining()[1] == self.input@[o + 1]);
                assert(old(self).remaining()[2] == self.input@[o + 2]);
                assert(old(self).remaining()[3] == self.input@[o + 3]);
            }
            if !(self.input[o] == 0x66 && self.input[o + 1] == 0x4c && self.input[o + 2] == 0x61
                && self.input[o + 3] == 0x43) {
                return Err(ErrorKind::HeaderParser);
            }
            self.offset = o + 4;
            self.header_done = true;
        }
        let ghost mut done: Seq<MetadataView> = Seq::empty();
        proof {
            assert(self.metadata@.map_values(|m: Metadata| m@) =~= old(
                self,
            ).metadata@.map_values(|m: Metadata| m@) + kept_blocks(done));
            if !old(self).header_done {
                assert(self.remaining() =~= old(self).remaining().skip(4));
            }
            assert(match sp_blocks(self.remaining(), !self.block_seen) {
                Ok((rest, n2)) => done + rest =~= rest,
                Err(e) => true,
            });
        }
        loop
            invariant
                self.wf(),
                self.header_done,
                !self.opened,
                !old(self).opened,
                self.input@ == old(self).input@,
                self.input_done == old(self).input_done,
                old(self).offset <= self.offset,
                self.block_seen == (old(self).block_seen || done.len() > 0),
                self.info@ == fold_stream_info(done, old(self).info@),
                self.metadata@.map_values(|m: Metadata| m@) == old(self).metadata@.map_values(
                    |m: Metadata| m@,
                ) + kept_blocks(done),
                sp_open(old(self).remaining(), old(self).header_done, !old(self).block_seen) == (
                match sp_blocks(self.remaining(), !self.block_seen) {
                    Ok((rest, n2)) => Ok::<(Seq<MetadataView>, int), ErrorKind>(
                        (done + rest, (self.offset - old(self).offset) + n2),
                    ),
                    Err(e) => Err::<(Seq<MetadataView>, int), ErrorKind>(e),
                }),
            decreases self.input@.len() - self.offset,
        {
            let first: bool = !self.block_seen;
            if self.offset == self.input.len() && !first {
                proof {
                    assert(self.remaining() =~= Seq::<u8>::empty());
                }
                return Err(ErrorKind::EndOfInput);
            }
            let window: &[u8] = &self.input[self.offset..self.input.len()];
            proof {
                assert(window@ =~= self.remaining());
            }
            match metadata_parser(window) {
                Err(e) => {
                    return Err(e);
                },
                Ok((block, n)) => {
                    if first && !block.is_stream_info() {
                        return Err(ErrorKind::Unknown);
                    }
                    if n > self.input.len() - self.offset {
                        return Err(ErrorKind::Unknown);
                    }
                    let ghost mv: MetadataView = block@;
                    let ghost done_before: Seq<MetadataView> = done;
                    let ghost meta_before: Seq<MetadataView> = self.metadata@.map_values(
                        |m: Metadata| m@,
                    );
                    let last: bool = block.is_last();
                    match block.data {
                        Data::StreamInfo(si) => {
                            self.info = si;
                        },
                        data => {
                            self.metadata.push(
                                Metadata { is_last: block.is_last, length: block.length, data },
                            );
                        },
                    }
                    self.block_seen = true;
                    self.offset = self.offset + n;
                    proof {
                        done = done.push(mv);
                        assert(done.drop_last() =~= done_before);
                        assert(done.last() == mv);
                        let old_map = old(self).metadata@.map_values(|m: Metadata| m@);
                        if mv.data is StreamInfo {
                            assert(kept_blocks(done) =~= kept_blocks(done_before));
                            assert(self.metadata@.map_values(|m: Metadata| m@) == meta_before);
                            assert(fold_stream_info(done, old(self).info@) == self.info@);
                        } else {
                            assert(kept_blocks(done) =~= kept_blocks(done_before).push(mv));
                            assert(self.metadata@.map_values(|m: Metadata| m@) =~= meta_before.push(
                                mv,
                            ));
                            assert(old_map + kept_blocks(done) =~= (old_map + kept_blocks(
                                done_before,
                            )).push(mv));
                            assert(fold_stream_info(done, old(self).info@) == fold_stream_info(
                                done_before,
                                old(self).info@,
                            ));
                        }
                    }
                    if last {
                        self.opened = true;
                        proof {
                            assert(done_before + seq![mv] =~= done);
                        }
                        return Ok(());
                    }
                    if n < 4 {
                        return Err(ErrorKind::Unknown);
                    }
                    proof {
                        assert(self.remaining() =~= old(self).input@.skip(
                            self.offset - n,
                        ).skip(n as int));
                        let rec = sp_blocks(self.remaining(), false);
                        if rec is Ok {
                            let rest = rec->Ok_0.0;
                            assert(done_before + (seq![mv] + rest) =~= done + rest);
                        }
                    }
                },
            }
        }
    }

    /// Pulls and decodes the next frame into the sample buffer.
    ///
    /// On success some frame was parsed from the head of the unconsumed
    /// input exactly as `sp_frame` states, and the buffer holds its
    /// decoded channels: channel `ch` sample `i` of the frame stands at
    /// `ch * block_size + i` and equals `frame_pcm` of the parsed frame.
    #[verifier::rlimit(100)]
    fn next_frame(&mut self) -> (r: Result<(), ErrorKind>)
        requires
            old(self).wf(),
            old(self).is_open(),
        ensures
            final(self).wf(),
            final(self).is_open(),
            final(self).input@ == old(self).input@,
            final(self).input_done == old(self).input_done,
            final(self).spec_info() == old(self).spec_info(),
            r is Err && sp_frame(old(self).remaining(), old(self).spec_info()@) is Err
                ==> r->Err_0 == sp_frame(old(self).remaining(), old(self).spec_info()@)->Err_0,
            r is Ok ==> sp_frame(old(self).remaining(), old(self).spec_info()@) is Ok,
            r is Ok ==> exists|fv: FrameView, n: int|
                {
                    &&& #[trigger] sp_frame(old(self).remaining(), old(self).spec_info()@)
                        == Ok::<(FrameView, int), ErrorKind>((fv, n))
                    &&& final(self).block_size == fv.header.block_size
                    &&& final(self).channels == fv.header.channels
                    &&& final(self).sample_index == 0
                    &&& final(self).channel == 0
                    &&& final(self).offset == old(self).offset + n
                    &&& forall|ch: int, i: int|
                        0 <= ch < fv.header.channels && 0 <= i < fv.header.block_size
                            ==> #[trigger] final(self).buffer@[ch * fv.header.block_size as int
                            + i] == frame_pcm(fv, ch, i)
                },
    {
        let ghost win: Seq<u8> = self.remaining();
        let window: &[u8] = &self.input[self.offset..self.input.len()];
        proof {
            assert(window@ =~= win);
        }
        let (frame, n) = match frame_parser(window, &self.info) {
            Ok(v) => v,
            Err(e) => {
                return Err(e);
            },
        };
        let bs: usize = frame.header.block_size as usize;
        let ch_count: usize = frame.header.channels as usize;
        if ch_count == 0 || ch_count > 8 {
            return Err(ErrorKind::ChannelBitsParser);
        }
        if !matches!(frame.header.channel_assignment, ChannelAssignment::Independent) && ch_count
            != 2 {
            return Err(ErrorKind::ChannelBitsParser);
        }
        if bs > (usize::MAX / 8) / 8 {
            return Err(ErrorKind::Unknown);
        }
        proof {
            assert(bs * ch_count <= usize::MAX) by (nonlinear_arith)
                requires
                    bs <= usize::MAX / 8 / 8,
                    ch_count <= 8,
                    0 <= bs,
                    0 <= ch_count,
            ;
        }
        let ghost fv: FrameView = frame@;
        if frame.subframes.len() != ch_count {
            return Err(ErrorKind::Unknown);
        }
        let mut buffer: Vec<i64> = Vec::new();
        let mut ch: usize = 0;
        while ch < ch_count
            invariant
                *self == *old(self),
                self.wf(),
                self.is_open(),
                sp_frame(old(self).remaining(), old(self).spec_info()@) is Ok,
                ch <= ch_count <= 8,
                bs == fv.header.block_size,
                frame.subframes@.len() == ch_count,
                ch_count == fv.header.channels,
                fv == frame@,
                buffer@.len() == ch * bs,
                forall|c: int, i: int|
                    0 <= c < ch && 0 <= i < bs ==> #[trigger] buffer@[c * bs as int + i]
                        == crate::subframe::sp_subframe_output(
                        fv.subframes[c],
                        bs as int,
                        i,
                    ),
            decreases ch_count - ch,
        {
            let out: Vec<i64> = match subframe::decode(&frame.subframes[ch], bs) {
                Ok(v) => v,
                Err(e) => {
                    return Err(e);
                },
            };
            let ghost before: Seq<i64> = buffer@;
            let mut i: usize = 0;
            while i < bs
                invariant
                    *self == *old(self),
                    self.wf(),
                    self.is_open(),
                    sp_frame(old(self).remaining(), old(self).spec_info()@) is Ok,
                    i <= bs,
                    out@.len() == bs,
                    buffer@ == before + out@.take(i as int),
                    forall|k: int|
                        0 <= k < bs ==> out@[k] == crate::subframe::sp_subframe_output(
                            frame.subframes@[ch as int]@,
                            bs as int,
                            k,
                        ),
                decreases bs - i,
            {
                buffer.push(out[i]);
                proof {
                    assert(before + out@.take(i + 1 as int) =~= (before + out@.take(
                        i as int,
                    )).push(out@[i as int]));
                }
                i += 1;
            }
            proof {
                assert((ch + 1) * bs == ch * bs + bs) by (nonlinear_arith);
                assert(before + out@.take(bs as int) =~= before + out@);
                assert(frame.subframes@[ch as int]@ == fv.subframes[ch as int]);
                assert(forall|c: int, i: int|
                    0 <= c < ch && 0 <= i < bs ==> #[trigger] buffer@[c * bs as int + i]
                        == before[c * bs as int + i]) by {
                    assert(forall|c: int, i: int|
                        0 <= c < ch && 0 <= i < bs ==> 0 <= #[trigger] (c * bs as int + i)
                            < before.len()) by (nonlinear_arith)
                        requires
                            before.len() == ch * bs,
                    ;
                }
                assert(forall|i: int|
                    0 <= i < bs ==> #[trigger] buffer@[ch as int * bs as int + i] == out@[i]);
            }
            ch += 1;
        }
        let ghost pre: Seq<i64> = buffer@;
        let ok: bool = crate::frame::decode(frame.header.channel_assignment, &mut buffer);
        if !ok {
            return Err(ErrorKind::Unknown);
        }
        proof {
            assert(bs * ch_count == ch_count * bs) by (nonlinear_arith);
            if !(fv.header.channel_assignment is Independent) {
                assert(pre.len() == 2 * (bs as int));
                assert(pre.len() as int / 2 == bs as int) by (nonlinear_arith)
                    requires
                        pre.len() == 2 * (bs as int),
                        bs >= 0,
                ;
            }
            assert forall|c: int, i: int|
                0 <= c < ch_count && 0 <= i < bs implies #[trigger] buffer@[c * (bs as int) + i]
                == frame_pcm(fv, c, i) by {
                assert(0 <= c * (bs as int) + i < pre.len()) by (nonlinear_arith)
                    requires
                        0 <= c < ch_count,
                        0 <= i < bs,
                        pre.len() == ch_count * bs,
                ;
                assert(c * (bs as int) + i == c * bs as int + i);
                assert(pre[c * bs as int + i] == crate::subframe::sp_subframe_output(
                    fv.subframes[c],
                    bs as int,
                    i,
                ));
                assert(0 * bs as int + i == i);
                assert(pre[0 * bs as int + i] == crate::subframe::sp_subframe_output(
                    fv.subframes[0],
                    bs as int,
                    i,
                ));
                if ch_count == 2 {
                    assert(1 * bs as int + i == bs as int + i);
                    assert(pre[1 * bs as int + i] == crate::subframe::sp_subframe_output(
                        fv.subframes[1],
                        bs as int,
                        i,
                    ));
                }
                assert(fv.header.block_size as int == bs as int);
                match fv.header.channel_assignment {
                    ChannelAssignment::Independent => {
                        assert(buffer@ == pre);
                        assert(buffer@[c * (bs as int) + i] == frame_pcm(fv, c, i));
                    },
                    ChannelAssignment::LeftSide => {
                        assert(c == 0 || c == 1);
                        assert(buffer@[i] == pre[i]);
                        assert(buffer@[pre.len() as int / 2 + i] == pre[i] - pre[pre.len() as int
                            / 2 + i]);
                        if c == 0 {
                            assert(buffer@[c * (bs as int) + i] == buffer@[i]);
                        } else {
                            assert(buffer@[c * (bs as int) + i] == buffer@[bs as int + i]);
                        }
                        assert(buffer@[c * (bs as int) + i] == frame_pcm(fv, c, i));
                    },
                    ChannelAssignment::RightSide => {
                        assert(c == 0 || c == 1);
                        assert(buffer@[i] == pre[i] + pre[pre.len() as int / 2 + i]);
                        assert(buffer@[pre.len() as int / 2 + i] == pre[pre.len() as int / 2
                            + i]);
                        if c == 0 {
                            assert(buffer@[c * (bs as int) + i] == buffer@[i]);
                        } else {
                            assert(buffer@[c * (bs as int) + i] == buffer@[bs as int + i]);
                        }
                        assert(buffer@[c * (bs as int) + i] == frame_pcm(fv, c, i));
                    },
                    ChannelAssignment::MidpointSide => {
                        assert(c == 0 || c == 1);
                        assert(buffer@[i] == crate::frame::mid_side_left(
                            pre[i] as int,
                            pre[pre.len() as int / 2 + i] as int,
                        ));
                        assert(buffer@[pre.len() as int / 2 + i] == crate::frame::mid_side_right(
                            pre[i] as int,
                            pre[pre.len() as int / 2 + i] as int,
                        ));
                        if c == 0 {
                            assert(buffer@[c * (bs as int) + i] == buffer@[i]);
                        } else {
                            assert(buffer@[c * (bs as int) + i] == buffer@[bs as int + i]);
                        }
                        assert(buffer@[c * (bs as int) + i] == frame_pcm(fv, c, i));
                    },
                }
            }
        }
        self.buffer = buffer;
        self.block_size = bs;
        self.channels = ch_count;
        self.sample_index = 0;
        self.channel = 0;
        self.offset = self.offset + n;
        proof {
            assert(self.buffer@.len() == self.block_size * self.channels) by (nonlinear_arith)
                requires
                    self.buffer@.len() == self.channels * self.block_size,
            ;
        }
        Ok(())
    }

    /// Hands out the next decoded sample, in channel-first interleaved
    /// order: channel 0 sample 0, channel 1 sample 0, ..., channel 0
    /// sample 1, and so on.
    ///
    /// When the current frame is exhausted the next one is pulled from the
    /// input: a clean end of input ends iteration with `EndOfInput`, an
    /// `Incomplete` error asks for more bytes unless the input is closed,
    /// and any other error is terminal.
    pub fn next_sample(&mut self) -> (r: Result<i64, ErrorKind>)
        requires
            old(self).wf(),
            old(self).is_open(),
        ensures
            final(self).wf(),
            final(self).is_open(),
            old(self).has_pending() ==> (r matches Ok(v) && v == old(self).peek()
                && final(self).buffer@ == old(self).buffer@ && final(self).block_size == old(
                self,
            ).block_size && final(self).channels == old(self).channels && (if old(self).channel
                + 1 < old(self).channels {
                final(self).channel == old(self).channel + 1 && final(self).sample_index == old(
                    self,
                ).sample_index
            } else {
                final(self).channel == 0 && final(self).sample_index == old(self).sample_index
                    + 1
            })),
            !old(self).has_pending() && old(self).remaining() == Seq::<u8>::empty() ==> r
                == Err::<i64, ErrorKind>(ErrorKind::EndOfInput),
            !old(self).has_pending() && old(self).remaining().len() > 0 && r is Err && sp_frame(
                old(self).remaining(),
                old(self).spec_info()@,
            ) is Err ==> r->Err_0 == sp_frame(
                old(self).remaining(),
                old(self).spec_info()@,
            )->Err_0,
            !old(self).has_pending() && r is Ok ==> exists|fv: FrameView, n: int|
                {
                    &&& #[trigger] sp_frame(old(self).remaining(), old(self).spec_info()@)
                        == Ok::<(FrameView, int), ErrorKind>((fv, n))
                    &&& r->Ok_0 == frame_pcm(fv, 0, 0)
                    &&& final(self).offset == old(self).offset + n
                    &&& final(self).block_size == fv.header.block_size
                    &&& final(self).channels == fv.header.channels
                    &&& forall|ch: int, i: int|
                        0 <= ch < fv.header.channels && 0 <= i < fv.header.block_size
                            ==> #[trigger] final(self).buffer@[ch * fv.header.block_size as int
                            + i] == frame_pcm(fv, ch, i)
                    &&& final(self).sample_index == (if fv.header.channels == 1 {
                        1int
                    } else {
                        0int
                    })
                    &&& final(self).channel == (if fv.header.channels == 1 {
                        0int
                    } else {
                        1int
                    })
                },
    {
        proof {
            assert(old(self).remaining().len() == old(self).input@.len() - old(self).offset);
        }
        let ghost pulled: bool = !old(self).has_pending();
        if self.channels == 0 || self.sample_index == self.block_size {
            if self.offset == self.input.len() {
                proof {
                    assert(self.remaining() =~= Seq::<u8>::empty());
                }
                return Err(ErrorKind::EndOfInput);
            }
            match self.next_frame() {
                Ok(()) => {},
                Err(e) => {
                    return Err(e);
                },
            }
            if self.channels == 0 || self.sample_index == self.block_size {
                proof {
                    let (fv, n) = choose|fv: FrameView, n: int|
                        {
                            &&& #[trigger] sp_frame(old(self).remaining(), old(self).spec_info()@)
                                == Ok::<(FrameView, int), ErrorKind>((fv, n))
                            &&& self.block_size == fv.header.block_size
                            &&& self.channels == fv.header.channels
                            &&& self.sample_index == 0
                            &&& self.channel == 0
                        };
                    assert(sp_frame(old(self).remaining(), old(self).spec_info()@) is Ok);
                }
                return Err(ErrorKind::EndOfInput);
            }
            proof {
                let (fv, n) = choose|fv: FrameView, n: int|
                    {
                        &&& #[trigger] sp_frame(old(self).remaining(), old(self).spec_info()@)
                            == Ok::<(FrameView, int), ErrorKind>((fv, n))
                        &&& self.block_size == fv.header.block_size
                        &&& self.channels == fv.header.channels
                        &&& self.sample_index == 0
                        &&& self.channel == 0
                        &&& self.offset == old(self).offset + n
                        &&& forall|ch: int, i: int|
                            0 <= ch < fv.header.channels && 0 <= i < fv.header.block_size
                                ==> #[trigger] self.buffer@[ch * fv.header.block_size as int + i]
                                == frame_pcm(fv, ch, i)
                    };
                assert(self.buffer@[0 * fv.header.block_size as int + 0] == frame_pcm(fv, 0, 0));
                assert(0 * fv.header.block_size as int + 0 == 0);
            }
        }
        proof {
            assert(self.channel * self.block_size + self.sample_index < self.channels
                * self.block_size) by (nonlinear_arith)
                requires
                    self.channel < self.channels,
                    self.sample_index < self.block_size,
                    0 <= self.channel,
                    0 <= self.sample_index,
            ;
            assert(self.buffer@.len() == self.block_size * self.channels);
            assert(self.channels * self.block_size == self.block_size * self.channels)
                by (nonlinear_arith);
        }
        let index: usize = self.channel * self.block_size + self.sample_index;
        let sample: i64 = self.buffer[index];
        self.channel = self.channel + 1;
        if self.channel == self.channels {
            self.channel = 0;
            self.sample_index = self.sample_index + 1;
        }
        Ok(sample)
    }

    /// Constructs a decoder over a complete in-memory FLAC stream and
    /// reads its metadata chain: the signature and every block are consumed
    /// exactly as the chain specification states, the last STREAMINFO
    /// stands in `info`, the other blocks in `metadata`, and the frames
    /// remain unconsumed.
    pub fn from_buffer(buffer: &[u8]) -> (r: Result<Stream, ErrorKind>)
        requires
            8 * buffer@.len() <= usize::MAX,
        ensures
            match sp_get_metadata(buffer@) {
                Ok((blocks, n)) => r matches Ok(s) && {
                    &&& s.wf()
                    &&& s.is_open()
                    &&& s.input_done
                    &&& s.info@ == fold_stream_info(blocks, initial_stream_info())
                    &&& s.metadata@.map_values(|m: Metadata| m@) == kept_blocks(blocks)
                    &&& s.remaining() == buffer@.skip(n)
                },
                Err(e) => r == Err::<Stream, ErrorKind>(e),
            },
    {
        let mut stream: Stream = Stream::new();
        let fed: bool = stream.feed(buffer);
        if !fed {
            proof {
                assert(false);
            }
            return Err(ErrorKind::Unknown);
        }
        stream.end_of_input();
        proof {
            assert(stream.remaining() =~= buffer@);
            assert(sp_open(buffer@, false, true) == sp_get_metadata(buffer@));
        }
        match stream.process_metadata() {
            Ok(()) => {
                proof {
                    if sp_get_metadata(buffer@) is Ok {
                        let n = sp_get_metadata(buffer@)->Ok_0.1;
                        assert(stream.remaining() =~= buffer@.skip(n));
                        assert(Seq::<MetadataView>::empty() + kept_blocks(
                            sp_get_metadata(buffer@)->Ok_0.0,
                        ) =~= kept_blocks(sp_get_metadata(buffer@)->Ok_0.0));
                    }
                }
                Ok(stream)
            },
            Err(e) => Err(e),
        }
    }
}

} // verus!
