//! Frames out of Clusters and Blocks.
//!
//! A Block without lacing carries one frame behind its header. The other lacing
//! modes are reported as [`Error::Unsupported`].

use crate::bytes;
use crate::mkv::demux::{DemuxView, Demuxer};
use crate::mkv::ebml::element;
use crate::mkv::ebml::element::{ElementHeader, Reader};
use crate::mkv::ebml::schema::ids;
use crate::mkv::ebml::varint;
use crate::mkv::ebml::varint::read_vint_raw;
use crate::mkv::Error;
use vstd::prelude::*;

verus! {

/// One frame, its timestamp in nanoseconds, its data borrowed from the input.
#[derive(Debug, Clone, Copy)]
pub struct Frame<'a> {
    pub track: u64,
    pub timestamp_ns: u64,
    /// The header bit of a SimpleBlock; for a BlockGroup, whether no
    /// ReferenceBlock stands beside the Block.
    pub is_keyframe: Option<bool>,
    pub is_invisible: bool,
    /// The header bit of a SimpleBlock; `None` for a Block.
    pub is_discardable: Option<bool>,
    pub data: &'a [u8],
}

/// The value of a [`Frame`].
pub struct FrameView {
    pub track: u64,
    pub timestamp_ns: u64,
    pub is_keyframe: Option<bool>,
    pub is_invisible: bool,
    pub is_discardable: Option<bool>,
    pub data: Seq<u8>,
}

impl<'a> View for Frame<'a> {
    type V = FrameView;

    open spec fn view(&self) -> FrameView {
        FrameView {
            track: self.track,
            timestamp_ns: self.timestamp_ns,
            is_keyframe: self.is_keyframe,
            is_invisible: self.is_invisible,
            is_discardable: self.is_discardable,
            data: self.data@,
        }
    }
}

/// The value of what [`Frames::next_frame`] returns.
pub open spec fn frame_result(r: Result<Option<Frame<'_>>, Error>) -> Result<
    Option<FrameView>,
    Error,
> {
    match r {
        Err(e) => Err(e),
        Ok(None) => Ok(None),
        Ok(Some(f)) => Ok(Some(f@)),
    }
}

/// `v` read as a two's complement 64-bit integer.
pub open spec fn as_signed64(v: u64) -> int {
    if v < 0x8000_0000_0000_0000 {
        v as int
    } else {
        v - 0x1_0000_0000_0000_0000
    }
}

/// The nearest 64-bit signed integer to `v`.
pub open spec fn clamp64(v: int) -> int {
    if v > i64::MAX {
        i64::MAX as int
    } else if v < i64::MIN {
        i64::MIN as int
    } else {
        v
    }
}

/// The two's complement 16-bit integer at `i`.
pub open spec fn signed16(s: Seq<u8>, i: int) -> int {
    if s[i] >= 0x80 {
        bytes::get16(s, i) - 0x1_0000
    } else {
        bytes::get16(s, i) as int
    }
}

/// A block's time: its cluster's time and its delta in ticks, saturating at both
/// ends and never negative.
pub open spec fn block_time(cluster_ts_ns: u64, delta: int, scale: u64) -> u64 {
    let t = clamp64(as_signed64(cluster_ts_ns) + clamp64(delta * as_signed64(scale)));
    if t < 0 {
        0
    } else {
        t as u64
    }
}

/// The frame in the Block or SimpleBlock with payload `p`: a track VINT, a signed
/// 16-bit delta, a flag byte, and the data.
pub open spec fn block_of(p: Seq<u8>, is_simple: bool, cluster_ts_ns: u64, scale: u64) -> Result<
    FrameView,
    Error,
> {
    match varint::vint_at(p, 0) {
        Err(e) => Err(e),
        Ok((track, w, _)) => if w + 3 > p.len() {
            Err(Error::UnexpectedEof("Block header"))
        } else {
            let flags = p[w + 2];
            if flags / 2 % 4 != 0 {
                Err(Error::Unsupported { what: "lacing modes 1/2/3" })
            } else {
                Ok(
                    FrameView {
                        track,
                        timestamp_ns: block_time(cluster_ts_ns, signed16(p, w as int), scale),
                        is_keyframe: if is_simple {
                            Some(flags >= 0x80)
                        } else {
                            None
                        },
                        is_invisible: flags / 8 % 2 == 1,
                        is_discardable: if is_simple {
                            Some(flags % 2 == 1)
                        } else {
                            None
                        },
                        data: p.skip(w + 3),
                    },
                )
            }
        },
    }
}

/// `v` read as a two's complement 64-bit integer.
fn to_signed64(v: u64) -> (r: i64)
    ensures
        r == as_signed64(v),
{
    if v < 0x8000_0000_0000_0000 {
        v as i64
    } else {
        -((u64::MAX - v) as i64) - 1
    }
}

fn saturate(v: i128) -> (r: i64)
    ensures
        r == clamp64(v as int),
{
    if v > i64::MAX as i128 {
        i64::MAX
    } else if v < i64::MIN as i128 {
        i64::MIN
    } else {
        v as i64
    }
}

/// The two's complement 16-bit integer at `i`.
pub(crate) fn read_i16(s: &[u8], i: usize) -> (r: i16)
    requires
        i + 2 <= s@.len(),
    ensures
        r == signed16(s@, i as int),
{
    let v: i32 = bytes::read_u16(s, i) as i32;
    if s[i] >= 0x80 {
        (v - 0x1_0000) as i16
    } else {
        v as i16
    }
}

/// Reads the header of a Block or SimpleBlock and returns the frame behind it.
pub fn decode_block_header<'a>(
    payload: &'a [u8],
    is_simple: bool,
    cluster_ts_ns: u64,
    timestamp_scale_ns: u64,
) -> (r: Result<Frame<'a>, Error>)
    ensures
        match block_of(payload@, is_simple, cluster_ts_ns, timestamp_scale_ns) {
            Ok(f) => r is Ok && r->Ok_0@ == f,
            Err(e) => r == Err::<Frame<'a>, Error>(e),
        },
{
    let mut pos: usize = 0;
    let (track, _width, _unknown) = read_vint_raw(payload, &mut pos)?;
    if payload.len() - pos < 3 {
        return Err(Error::UnexpectedEof("Block header"));
    }
    let delta: i16 = read_i16(payload, pos);
    let flags: u8 = payload[pos + 2];
    if flags / 2 % 4 != 0 {
        return Err(Error::Unsupported { what: "lacing modes 1/2/3" });
    }
    let n: usize = payload.len();
    let scale: i64 = to_signed64(timestamp_scale_ns);
    assert(-0x8000_0000_0000_0000_0000 <= delta * scale <= 0x8000_0000_0000_0000_0000)
        by (nonlinear_arith)
        requires
            -0x8000 <= delta <= 0x7FFF,
            i64::MIN <= scale <= i64::MAX,
    ;
    let delta_ns: i64 = saturate(delta as i128 * scale as i128);
    let t: i64 = saturate(to_signed64(cluster_ts_ns) as i128 + delta_ns as i128);
    let timestamp_ns: u64 = if t < 0 {
        0
    } else {
        t as u64
    };
    Ok(
        Frame {
            track,
            timestamp_ns,
            is_keyframe: if is_simple {
                Some(flags >= 0x80)
            } else {
                None
            },
            is_invisible: flags / 8 % 2 == 1,
            is_discardable: if is_simple {
                Some(flags % 2 == 1)
            } else {
                None
            },
            data: &payload[pos + 3..n],
        },
    )
}

/// What a BlockGroup holds so far: the frame of its last Block, and whether a
/// ReferenceBlock was seen.
pub struct GroupView {
    pub frame: Option<FrameView>,
    pub referenced: bool,
}

/// What the children of a BlockGroup between `pos` and `end` make of `st`.
pub open spec fn group_of(
    s: Seq<u8>,
    pos: int,
    end: int,
    cluster_ts_ns: u64,
    scale: u64,
    st: GroupView,
) -> Result<GroupView, Error>
    decreases s.len() - pos,
{
    if pos >= end {
        Ok(st)
    } else {
        match element::header_at(s, pos) {
            Err(e) => Err(e),
            Ok(h) => {
                let read = if h.id.value == ids::BLOCK {
                    match element::payload_of(s, h) {
                        Err(e) => Err(e),
                        Ok(p) => match block_of(p, false, cluster_ts_ns, scale) {
                            Err(e) => Err(e),
                            Ok(f) => Ok(GroupView { frame: Some(f), ..st }),
                        },
                    }
                } else if h.id.value == ids::REFERENCE_BLOCK {
                    Ok(GroupView { referenced: true, ..st })
                } else {
                    Ok(st)
                };
                match read {
                    Err(e) => Err(e),
                    Ok(next) => match h.end() {
                        None => Err(Error::Malformed("BlockGroup child size")),
                        Some(e) => if e >= end {
                            Ok(next)
                        } else if e >= s.len() {
                            Err(Error::UnexpectedEof("VINT"))
                        } else if e > pos {
                            group_of(s, e, end, cluster_ts_ns, scale, next)
                        } else {
                            Ok(next)
                        },
                    },
                }
            },
        }
    }
}

/// The value of a [`Frames`]: the input, where its Segment ends, the length of a
/// tick, and how far the walk has come. `cluster_end` bounds the Cluster that
/// `pos` is in; if the Cluster has `no_size`, an element of its own level ends it
/// before that.
pub struct FramesView {
    pub input: Seq<u8>,
    pub segment_end: int,
    pub scale: u64,
    pub pos: int,
    pub ticks: u64,
    pub cluster_end: Option<int>,
    pub no_size: bool,
}

/// Whether an element is one of those that stand beside Clusters in a Segment.
pub open spec fn beside_clusters(id: u64) -> bool {
    id == ids::CLUSTER || id == ids::CUES || id == ids::TAGS || id == ids::CHAPTERS || id
        == ids::ATTACHMENTS || id == ids::SEEK_HEAD || id == ids::INFO || id == ids::TRACKS
}

impl FramesView {
    /// The current Cluster's time.
    pub open spec fn cluster_ts(self) -> u64 {
        if self.ticks * self.scale <= u64::MAX {
            (self.ticks * self.scale) as u64
        } else {
            u64::MAX
        }
    }

    /// How many bytes lie ahead.
    pub open spec fn ahead(self) -> int {
        if self.pos < self.input.len() {
            self.input.len() - self.pos
        } else {
            0
        }
    }
}

/// What the next call returns and where it leaves the walk.
#[verifier::opaque]
pub open spec fn next_of(f: FramesView) -> (Result<Option<FrameView>, Error>, FramesView)
    decreases
            f.ahead(),
            (if f.cluster_end is Some {
                1int
            } else {
                0int
            }),
{
    match f.cluster_end {
        None => if f.pos >= f.segment_end {
            (Ok(None), f)
        } else {
            match element::header_at(f.input, f.pos) {
                Err(e) => (
                    if e is UnexpectedEof {
                        Ok(None)
                    } else {
                        Err(e)
                    },
                    f,
                ),
                Ok(h) => if !(f.pos < h.payload_start <= f.input.len()) {
                    (Ok(None), f)
                } else if h.id.value == ids::CLUSTER {
                    next_of(
                        FramesView {
                            pos: h.payload_start as int,
                            ticks: 0,
                            cluster_end: Some(
                                match h.end() {
                                    Some(e) => e,
                                    None => f.segment_end,
                                },
                            ),
                            no_size: h.end() is None,
                            ..f
                        },
                    )
                } else {
                    match h.end() {
                        Some(e) => next_of(FramesView { pos: e, ..f }),
                        None => (Ok(None), FramesView { pos: h.payload_start as int, ..f }),
                    }
                },
            }
        },
        Some(end) => if f.pos >= end {
            next_of(FramesView { cluster_end: None, ..f })
        } else {
            match element::header_at(f.input, f.pos) {
                Err(e) => (Err(e), f),
                Ok(h) => if !(f.pos < h.payload_start <= f.input.len()) {
                    (Ok(None), f)
                } else if f.no_size && beside_clusters(h.id.value) {
                    next_of(FramesView { cluster_end: None, ..f })
                } else {
                    let g = FramesView { pos: h.payload_start as int, ..f };
                    let id = h.id.value;
                    if id == ids::TIMESTAMP {
                        match element::uint_of(f.input, h) {
                            Err(e) => (Err(e), g),
                            Ok(t) => next_of(FramesView { ticks: t, pos: h.end()->Some_0, ..f }),
                        }
                    } else if id == ids::SIMPLE_BLOCK {
                        match element::payload_of(f.input, h) {
                            Err(e) => (Err(e), g),
                            Ok(p) => match block_of(p, true, f.cluster_ts(), f.scale) {
                                Err(e) => (Err(e), g),
                                Ok(x) => (
                                    Ok(Some(x)),
                                    FramesView { pos: h.end()->Some_0, ..f },
                                ),
                            },
                        }
                    } else if id == ids::BLOCK_GROUP {
                        match h.end() {
                            None => (Err(Error::Malformed("BlockGroup size")), g),
                            Some(e) => match group_of(
                                f.input,
                                h.payload_start as int,
                                e,
                                f.cluster_ts(),
                                f.scale,
                                GroupView { frame: None, referenced: false },
                            ) {
                                Err(x) => (Err(x), g),
                                Ok(st) => match st.frame {
                                    Some(x) => (
                                        Ok(
                                            Some(
                                                FrameView {
                                                    is_keyframe: Some(!st.referenced),
                                                    ..x
                                                },
                                            ),
                                        ),
                                        FramesView { pos: e, ..f },
                                    ),
                                    None => next_of(FramesView { pos: e, ..f }),
                                },
                            },
                        }
                    } else {
                        match h.end() {
                            Some(e) => next_of(FramesView { pos: e, ..f }),
                            None => (
                                Err(
                                    if id == ids::VOID || id == ids::CRC32 {
                                        Error::Malformed("Void/CRC")
                                    } else {
                                        Error::Malformed("Cluster child")
                                    },
                                ),
                                g,
                            ),
                        }
                    }
                },
            }
        },
    }
}

/// Each frame leaves less input ahead, so the walk ends.
pub proof fn law_frames_end(f: FramesView)
    ensures
        next_of(f).0 matches Ok(Some(_)) ==> next_of(f).1.ahead() < f.ahead(),
    decreases
            f.ahead(),
            (if f.cluster_end is Some {
                1int
            } else {
                0int
            }),
{
    reveal(next_of);
    if f.cluster_end is Some && f.pos >= f.cluster_end->Some_0 {
        law_frames_end(FramesView { cluster_end: None, ..f });
    } else if let Ok(h) = element::header_at(f.input, f.pos) {
        if f.pos < h.payload_start <= f.input.len() {
            if f.cluster_end is Some && f.no_size && beside_clusters(h.id.value) {
                law_frames_end(FramesView { cluster_end: None, ..f });
            } else if f.cluster_end is None && h.id.value == ids::CLUSTER {
                law_frames_end(
                    FramesView {
                        pos: h.payload_start as int,
                        ticks: 0,
                        cluster_end: Some(
                            match h.end() {
                                Some(e) => e,
                                None => f.segment_end,
                            },
                        ),
                        no_size: h.end() is None,
                        ..f
                    },
                );
            } else if let Some(e) = h.end() {
                law_frames_end(FramesView { pos: e, ..f });
                if let Ok(t) = element::uint_of(f.input, h) {
                    law_frames_end(FramesView { ticks: t, pos: e, ..f });
                }
            }
        }
    }
}

/// A Cluster of unknown size ends at the next element that stands beside Clusters, and
/// the walk goes on with that element.
pub proof fn law_open_cluster_ends(f: FramesView)
    requires
        f.no_size,
        f.cluster_end matches Some(end) && f.pos < end,
        element::header_at(f.input, f.pos) matches Ok(h) && f.pos < h.payload_start
            <= f.input.len() && beside_clusters(h.id.value),
    ensures
        next_of(f) == next_of(FramesView { cluster_end: None, ..f }),
{
    reveal(next_of);
}

/// All frames that repeated calls return, up to the end or the first error.
#[verifier::opaque]
pub open spec fn all_frames(f: FramesView) -> Result<Seq<FrameView>, Error>
    decreases f.ahead(),
{
    match next_of(f) {
        (Err(e), _) => Err(e),
        (Ok(None), _) => Ok(Seq::empty()),
        (Ok(Some(x)), g) => if g.ahead() < f.ahead() {
            match all_frames(g) {
                Err(e) => Err(e),
                Ok(rest) => Ok(seq![x] + rest),
            }
        } else {
            Ok(seq![x])
        },
    }
}

/// Where `n` calls leave the walk.
pub open spec fn walked(f: FramesView, n: nat) -> FramesView
    decreases n,
{
    if n == 0 {
        f
    } else {
        next_of(walked(f, (n - 1) as nat)).1
    }
}

proof fn lemma_walked(f: FramesView, n: nat)
    ensures
        walked(f, n + 1) == walked(next_of(f).1, n),
    decreases n,
{
    reveal_with_fuel(walked, 2);
    if n > 0 {
        lemma_walked(f, (n - 1) as nat);
    }
}

/// Calls one after the other return the frames of the walk in turn, and behind the last
/// one that there is none.
pub proof fn law_frames_come_in_turn(f: FramesView, n: nat)
    requires
        all_frames(f) matches Ok(fs) && n <= fs.len(),
    ensures
        next_of(walked(f, n)).0 == if n < all_frames(f)->Ok_0.len() {
            Ok::<Option<FrameView>, Error>(Some(all_frames(f)->Ok_0[n as int]))
        } else {
            Ok::<Option<FrameView>, Error>(None)
        },
    decreases n,
{
    reveal(all_frames);
    law_frames_end(f);
    if n > 0 {
        let g = next_of(f).1;
        lemma_walked(f, (n - 1) as nat);
        law_frames_come_in_turn(g, (n - 1) as nat);
    }
}

/// The walk over `input` that its metadata `d` sets out.
pub open spec fn walk_of(input: Seq<u8>, d: DemuxView) -> FramesView {
    FramesView {
        input,
        segment_end: d.segment_end,
        scale: d.info.timestamp_scale_ns,
        pos: d.clusters_offset,
        ticks: 0,
        cluster_end: None,
        no_size: false,
    }
}

fn is_beside_clusters(id: u64) -> (r: bool)
    ensures
        r == beside_clusters(id),
{
    matches!(
        id,
        ids::CLUSTER | ids::CUES | ids::TAGS | ids::CHAPTERS | ids::ATTACHMENTS | ids::SEEK_HEAD
            | ids::INFO | ids::TRACKS
    )
}

/// A walk over the frames of a stream.
pub struct Frames<'a> {
    input: &'a [u8],
    pos: usize,
    segment_end: usize,
    timestamp_scale_ns: u64,
    cluster_ts_ticks: u64,
    cluster_end: Option<usize>,
    /// Whether the Cluster that the walk is in declares no size.
    no_size: bool,
}

impl<'a> View for Frames<'a> {
    type V = FramesView;

    closed spec fn view(&self) -> FramesView {
        FramesView {
            input: self.input@,
            segment_end: self.segment_end as int,
            scale: self.timestamp_scale_ns,
            pos: self.pos as int,
            ticks: self.cluster_ts_ticks,
            cluster_end: match self.cluster_end {
                None => None,
                Some(e) => Some(e as int),
            },
            no_size: self.no_size,
        }
    }
}

impl<'a> Frames<'a> {
    /// A walk from the first Cluster that the metadata records.
    pub fn new(input: &'a [u8], demuxer: &Demuxer) -> (r: Self)
        ensures
            r@ == walk_of(input@, demuxer@),
    {
        Frames {
            input,
            pos: demuxer.clusters_offset,
            segment_end: demuxer.segment_end,
            timestamp_scale_ns: demuxer.timestamp_scale_ns,
            cluster_ts_ticks: 0,
            cluster_end: None,
            no_size: false,
        }
    }

    fn cluster_ts(&self) -> (r: u64)
        ensures
            r == self@.cluster_ts(),
    {
        match self.cluster_ts_ticks.checked_mul(self.timestamp_scale_ns) {
            Some(v) => v,
            None => u64::MAX,
        }
    }

    /// Reads the children of the BlockGroup whose payload lies between `start` and
    /// `end`.
    fn read_group(&self, start: usize, end: usize) -> (r: Result<(Option<Frame<'a>>, bool), Error>)
        ensures
            match group_of(
                self@.input,
                start as int,
                end as int,
                self@.cluster_ts(),
                self@.scale,
                GroupView { frame: None, referenced: false },
            ) {
                Err(e) => r == Err::<(Option<Frame<'a>>, bool), Error>(e),
                Ok(st) => r matches Ok((f, referenced)) && referenced == st.referenced && (match f {
                    Some(x) => st.frame == Some(x@),
                    None => st.frame is None,
                }),
            },
    {
        let mut frame: Option<Frame<'a>> = None;
        let mut referenced: bool = false;
        let mut pos: usize = start;
        let ts: u64 = self.cluster_ts();
        let input = self.input;
        let ghost none = GroupView { frame: None, referenced: false };
        let ghost scale = self.timestamp_scale_ns;
        while pos < end
            invariant
                input@ == self@.input,
                scale == self.timestamp_scale_ns,
                scale == self@.scale,
                ts == self@.cluster_ts(),
                none == (GroupView { frame: None, referenced: false }),
                group_of(input@, start as int, end as int, ts, scale, none) == group_of(
                    input@,
                    pos as int,
                    end as int,
                    ts,
                    scale,
                    (GroupView { frame: opt_frame(frame), referenced }),
                ),
            decreases (if pos < input@.len() { input@.len() - pos } else { 0 }),
        {
            let mut r = Reader::new_at(input, pos);
            let hdr = r.read_header()?;
            match hdr.id.value {
                ids::BLOCK => {
                    let payload = slice_payload(input, &hdr)?;
                    frame = Some(decode_block_header(payload, false, ts, self.timestamp_scale_ns)?);
                },
                ids::REFERENCE_BLOCK => {
                    referenced = true;
                },
                _ => {},
            }
            pos = match hdr.payload_end() {
                Some(e) => e,
                None => return Err(Error::Malformed("BlockGroup child size")),
            };
        }
        Ok((frame, referenced))
    }

    /// The next frame, or `None` at the end of the Segment.
    pub fn next_frame(&mut self) -> (r: Result<Option<Frame<'a>>, Error>)
        ensures
            (frame_result(r), final(self)@) == next_of(old(self)@),
    {
        loop
            invariant
                next_of(self@) == next_of(old(self)@),
            decreases
                    self@.ahead(),
                    (if self.cluster_end is Some {
                        1int
                    } else {
                        0int
                    }),
        {
            proof {
                reveal(next_of);
            }
            let cluster_end: usize = match self.cluster_end {
                Some(e) => e,
                None => {
                    // Between Clusters: find the next one.
                    if self.pos >= self.segment_end {
                        return Ok(None);
                    }
                    let mut r = Reader::new_at(self.input, self.pos);
                    let hdr = match r.read_header() {
                        Ok(h) => h,
                        Err(Error::UnexpectedEof(_)) => return Ok(None),
                        Err(e) => return Err(e),
                    };
                    let end = hdr.payload_end();
                    if hdr.id.value == ids::CLUSTER {
                        self.pos = hdr.payload_start;
                        self.cluster_end = Some(
                            match end {
                                Some(e) => e,
                                None => self.segment_end,
                            },
                        );
                        self.no_size = end.is_none();
                        self.cluster_ts_ticks = 0;
                        continue ;
                    }
                    match end {
                        Some(e) => {
                            self.pos = e;
                            continue ;
                        },
                        None => {
                            self.pos = hdr.payload_start;
                            return Ok(None);
                        },
                    }
                },
            };
            if self.pos >= cluster_end {
                self.cluster_end = None;
                continue ;
            }
            let mut r = Reader::new_at(self.input, self.pos);
            let hdr = r.read_header()?;
            if self.no_size && is_beside_clusters(hdr.id.value) {
                self.cluster_end = None;
                continue ;
            }
            self.pos = hdr.payload_start;
            match hdr.id.value {
                ids::TIMESTAMP => {
                    self.cluster_ts_ticks = r.read_uint(&hdr)?;
                    self.pos = match hdr.payload_end() {
                        Some(e) => e,
                        None => return Err(Error::Malformed("Cluster Timestamp")),
                    };
                },
                ids::SIMPLE_BLOCK => {
                    let payload = slice_payload(self.input, &hdr)?;
                    let frame = decode_block_header(
                        payload,
                        true,
                        self.cluster_ts(),
                        self.timestamp_scale_ns,
                    )?;
                    self.pos = match hdr.payload_end() {
                        Some(e) => e,
                        None => return Err(Error::SizeOverflow),
                    };
                    return Ok(Some(frame));
                },
                ids::BLOCK_GROUP => {
                    let group_end: usize = match hdr.payload_end() {
                        Some(e) => e,
                        None => return Err(Error::Malformed("BlockGroup size")),
                    };
                    let (frame, referenced) = self.read_group(hdr.payload_start, group_end)?;
                    self.pos = group_end;
                    if let Some(f) = frame {
                        return Ok(
                            Some(
                                Frame {
                                    track: f.track,
                                    timestamp_ns: f.timestamp_ns,
                                    is_keyframe: Some(!referenced),
                                    is_invisible: f.is_invisible,
                                    is_discardable: f.is_discardable,
                                    data: f.data,
                                },
                            ),
                        );
                    }
                },
                ids::VOID | ids::CRC32 => {
                    self.pos = match hdr.payload_end() {
                        Some(e) => e,
                        None => return Err(Error::Malformed("Void/CRC")),
                    };
                },
                _ => {
                    self.pos = match hdr.payload_end() {
                        Some(e) => e,
                        None => return Err(Error::Malformed("Cluster child")),
                    };
                },
            }
        }
    }
}

/// The value of an optional frame.
pub open spec fn opt_frame(f: Option<Frame<'_>>) -> Option<FrameView> {
    match f {
        None => None,
        Some(x) => Some(x@),
    }
}

fn slice_payload<'a>(input: &'a [u8], hdr: &ElementHeader) -> (r: Result<&'a [u8], Error>)
    ensures
        match element::payload_of(input@, *hdr) {
            Ok(b) => r is Ok && r->Ok_0@ == b,
            Err(e) => r == Err::<&[u8], Error>(e),
        },
{
    match hdr.payload_end() {
        None => Err(Error::Malformed("payload requested for unknown-size element")),
        Some(end) => {
            if end > input.len() {
                return Err(Error::SizeOverflow);
            }
            Ok(&input[hdr.payload_start..end])
        },
    }
}

} // verus!
