//! Walking the frames of a source.
//!
//! Clusters and their children must have known sizes, a Cluster its timestamp before
//! its blocks, and a BlockGroup one Block. Lacing is an error on tracks that were
//! asked for. On any error, what was copied is to be thrown away.

use crate::bytes;
use crate::mkv::cluster;
use crate::mkv::cluster::read_i16;
use crate::mkv::demux::{CuePoint, DemuxView, Demuxer};
use crate::mkv::ebml::schema::ids;
use crate::mkv::ebml::varint;
use crate::mkv::ebml::varint::read_vint_raw;
use crate::mkv::streaming::bounded;
use crate::mkv::streaming::bounded::{checked_end, IoHeader, WalkBudget};
use crate::mkv::streaming::FrameHeader;
use crate::mkv::Error;
use vstd::prelude::*;

verus! {

/// How much of a block is read to find its header: a track number, a 16-bit delta
/// and the flags.
pub const MAX_INNER_HEADER: u64 = 11;

/// What to do next to get a frame.
#[derive(Debug, Clone, Copy, PartialEq, Eq, Structural)]
pub enum WalkAsk {
    /// Go to this offset and read an element header.
    HeaderAt(u64),
    /// Read an element header where the source stands.
    Header,
    /// Read this many bytes.
    Bytes(usize),
    /// Read and drop this many bytes.
    Skip(u64),
    /// Pass over this many bytes of a block that nobody asked for.
    SkipBlock(u64),
    /// Write what was last read, from this offset on, and then copy this many more
    /// bytes.
    Copy { from: usize, rest: u64 },
    /// Find out how long the source is.
    Length,
    /// Nothing: this is the next frame, and its data was copied.
    Frame(FrameHeader),
    /// Nothing: there are no more frames.
    End,
}

/// The Cluster that the walk is in.
#[derive(Debug, Clone, Copy, PartialEq, Eq, Structural)]
pub struct ClusterCursor {
    /// Offset of the next child.
    pub pos: u64,
    pub end: u64,
    pub ts_ticks: u64,
    pub has_timestamp: bool,
}

/// The BlockGroup that the walk is in.
#[derive(Debug, Clone, Copy, PartialEq, Eq, Structural)]
pub struct GroupCursor {
    pub end: u64,
    pub block_seen: bool,
    /// The frame of the Block, if its track was asked for.
    pub frame: Option<FrameHeader>,
    pub references: u8,
    pub duration_ticks: Option<u64>,
}

/// What a [`Walker`] waits for.
#[derive(Debug, Clone, Copy, PartialEq, Eq, Structural)]
pub enum WalkPhase {
    /// Nothing: the next frame was not asked for yet.
    Idle,
    /// The header of a child of the Segment.
    Sibling,
    /// The header of a child of a Cluster or BlockGroup.
    Child,
    /// A number of this many bytes; the element ends here.
    Number { end: u64, len: u64 },
    /// The start of a block of this length; the element ends here.
    Peek { end: u64, len: u64, simple: bool },
    /// Bytes being dropped; the element ends here.
    Pass { end: u64 },
    /// Data being copied; the element ends here.
    Deliver { end: u64, frame: FrameHeader },
    /// The length of the source.
    Length,
}

/// The value of a [`Walker`].
pub struct WalkView {
    pub file_len: u64,
    pub segment_start: u64,
    pub segment_end: u64,
    pub clusters_offset: u64,
    pub scale: u64,
    pub cues: Seq<CuePoint>,
    pub filter: Option<Seq<u64>>,
    /// How many more elements may be read.
    pub left: int,
    /// Offset of the next child of the Segment.
    pub pos: u64,
    pub cluster: Option<ClusterCursor>,
    pub group: Option<GroupCursor>,
    pub phase: WalkPhase,
}

/// The walk after a step, and what to do next, or what is wrong.
pub type Turn = (WalkView, Result<WalkAsk, Error>);

/// What an error leads to: the walk is between frames, whatever BlockGroup it was in.
pub open spec fn halted(v: WalkView, e: Error) -> Turn {
    (WalkView { group: None, phase: WalkPhase::Idle, ..v }, Err(e))
}

/// What to do next, nothing being wrong.
pub open spec fn going(t: (WalkView, WalkAsk)) -> Turn {
    (t.0, Ok(t.1))
}

/// What to do between Clusters.
pub open spec fn outside(v: WalkView) -> (WalkView, WalkAsk) {
    if v.pos >= v.segment_end || v.pos >= v.file_len {
        (WalkView { phase: WalkPhase::Length, ..v }, WalkAsk::Length)
    } else {
        (WalkView { phase: WalkPhase::Sibling, ..v }, WalkAsk::HeaderAt(v.pos))
    }
}

/// What to do in a Cluster, or behind its end.
pub open spec fn inside(v: WalkView) -> (WalkView, WalkAsk) {
    match v.cluster {
        Some(c) => if c.pos >= c.end {
            outside(WalkView { cluster: None, ..v })
        } else {
            (WalkView { phase: WalkPhase::Child, ..v }, WalkAsk::Header)
        },
        None => outside(v),
    }
}

/// The frame of a BlockGroup: without a ReferenceBlock it is a keyframe.
pub open spec fn grouped(g: GroupCursor, f: FrameHeader, scale: u64) -> Result<FrameHeader, Error> {
    let done = FrameHeader {
        is_keyframe: Some(g.references == 0),
        reference_block_count: Some(g.references),
        ..f
    };
    match g.duration_ticks {
        None => Ok(FrameHeader { block_duration_ns: None, ..done }),
        Some(t) => if t * scale > u64::MAX {
            Err(Error::SizeOverflow)
        } else {
            Ok(FrameHeader { block_duration_ns: Some((t * scale) as u64), ..done })
        },
    }
}

/// What to do once an element is dealt with.
pub open spec fn onward(v: WalkView) -> Turn {
    match v.group {
        None => going(inside(v)),
        Some(g) => if v.cluster->Some_0.pos < g.end {
            (WalkView { phase: WalkPhase::Child, ..v }, Ok(WalkAsk::Header))
        } else {
            let w = WalkView {
                group: None,
                cluster: Some(ClusterCursor { pos: g.end, ..v.cluster->Some_0 }),
                ..v
            };
            if !g.block_seen {
                halted(w, Error::Malformed("BlockGroup missing Block"))
            } else {
                match g.frame {
                    None => going(inside(w)),
                    Some(f) => match grouped(g, f, v.scale) {
                        Err(e) => halted(w, e),
                        Ok(f) => (WalkView { phase: WalkPhase::Idle, ..w }, Ok(WalkAsk::Frame(f))),
                    },
                }
            }
        },
    }
}

/// Asks for the start of a block of `len` bytes that ends at `end`.
pub open spec fn peek(v: WalkView, end: u64, len: u64, simple: bool) -> (WalkView, WalkAsk) {
    (
        WalkView { phase: WalkPhase::Peek { end, len, simple }, ..v },
        WalkAsk::Bytes(
            if len < MAX_INNER_HEADER {
                len as usize
            } else {
                MAX_INNER_HEADER as usize
            },
        ),
    )
}

/// Asks to drop `len` bytes that end at `end`.
pub open spec fn pass(v: WalkView, end: u64, len: u64) -> (WalkView, WalkAsk) {
    (WalkView { phase: WalkPhase::Pass { end }, ..v }, WalkAsk::Skip(len))
}

/// What a child of a BlockGroup leads to.
pub open spec fn group_child(v: WalkView, g: GroupCursor, id: u64, end: u64, len: u64) -> Turn {
    if id == ids::BLOCK {
        if g.block_seen {
            halted(v, Error::Malformed("multiple Blocks in BlockGroup"))
        } else {
            going(
                peek(
                    WalkView { group: Some(GroupCursor { block_seen: true, ..g }), ..v },
                    end,
                    len,
                    false,
                ),
            )
        }
    } else if id == ids::REFERENCE_BLOCK {
        if g.references == 255 {
            halted(v, Error::SizeOverflow)
        } else if len == 0 || len > 8 {
            halted(v, Error::Malformed("invalid ReferenceBlock"))
        } else {
            going(
                pass(
                    WalkView {
                        group: Some(GroupCursor { references: (g.references + 1) as u8, ..g }),
                        ..v
                    },
                    end,
                    len,
                ),
            )
        }
    } else if id == ids::BLOCK_DURATION {
        if g.duration_ticks is Some || len == 0 || len > 8 {
            halted(v, Error::Malformed("invalid/duplicate BlockDuration"))
        } else {
            (
                WalkView { phase: WalkPhase::Number { end, len }, ..v },
                Ok(WalkAsk::Bytes(len as usize)),
            )
        }
    } else if bounded::is_filler(id) {
        going(pass(v, end, len))
    } else {
        halted(v, Error::Unsupported { what: "strict BlockGroup child" })
    }
}

/// What a child of a Cluster leads to.
pub open spec fn cluster_child(v: WalkView, c: ClusterCursor, id: u64, end: u64, len: u64) -> Turn {
    if id == ids::TIMESTAMP {
        if c.has_timestamp {
            halted(v, Error::Malformed("duplicate cluster timestamp"))
        } else {
            let w = WalkView { cluster: Some(ClusterCursor { has_timestamp: true, ..c }), ..v };
            if len == 0 || len > 8 {
                halted(w, Error::Malformed("integer payload out of range"))
            } else {
                (
                    WalkView { phase: WalkPhase::Number { end, len }, ..w },
                    Ok(WalkAsk::Bytes(len as usize)),
                )
            }
        }
    } else if id == ids::SIMPLE_BLOCK {
        if !c.has_timestamp {
            halted(v, Error::Malformed("block before cluster timestamp"))
        } else {
            going(peek(v, end, len, true))
        }
    } else if id == ids::BLOCK_GROUP {
        if !c.has_timestamp {
            halted(v, Error::Malformed("block before cluster timestamp"))
        } else {
            onward(
                WalkView {
                    group: Some(
                        GroupCursor {
                            end,
                            block_seen: false,
                            frame: None,
                            references: 0,
                            duration_ticks: None,
                        },
                    ),
                    ..v
                },
            )
        }
    } else if bounded::is_filler(id) || id == POSITION || id == PREV_SIZE {
        going(pass(v, end, len))
    } else {
        halted(v, Error::Unsupported { what: "strict Cluster child" })
    }
}

/// A Cluster's Position, which does not affect its frames.
pub const POSITION: u64 = 0xA7;

/// A Cluster's PrevSize, which does not affect its frames.
pub const PREV_SIZE: u64 = 0xAB;

/// What an element header leads to.
pub open spec fn header_met(v: WalkView, h: IoHeader) -> Turn {
    let out = Error::Unsupported { what: "strict element budget exceeded" };
    if v.phase is Sibling {
        if v.left < 1 {
            halted(v, out)
        } else {
            let p = WalkView { left: v.left - 1, ..v };
            match bounded::end_of(h, v.segment_end) {
                Err(e) => halted(p, e),
                Ok(end) => onward(
                    WalkView {
                        pos: end,
                        cluster: if h.id == ids::CLUSTER {
                            Some(
                                ClusterCursor {
                                    pos: h.payload_start,
                                    end,
                                    ts_ticks: 0,
                                    has_timestamp: false,
                                },
                            )
                        } else {
                            v.cluster
                        },
                        ..p
                    },
                ),
            }
        }
    } else {
        let c = ClusterCursor { pos: h.payload_start, ..v.cluster->Some_0 };
        let w = WalkView { cluster: Some(c), ..v };
        if v.left < 1 {
            halted(w, out)
        } else {
            let p = WalkView { left: v.left - 1, ..w };
            let parent_end = match v.group {
                Some(g) => g.end,
                None => c.end,
            };
            match bounded::end_of(h, parent_end) {
                Err(e) => halted(p, e),
                Ok(end) => {
                    let len = (end - h.payload_start) as u64;
                    match v.group {
                        Some(g) => group_child(p, g, h.id, end, len),
                        None => cluster_child(p, c, h.id, end, len),
                    }
                },
            }
        }
    }
}

/// Whether frames of this track were asked for.
pub open spec fn wanted(filter: Option<Seq<u64>>, track: u64) -> bool {
    match filter {
        None => true,
        Some(f) => f.contains(track),
    }
}

/// What the start `b` of a block leads to.
pub open spec fn block_met(v: WalkView, b: Seq<u8>, end: u64, len: u64, simple: bool) -> Turn {
    match varint::vint_at(b, 0) {
        Err(e) => halted(v, e),
        Ok((track, w, _)) => if w + 3 > b.len() {
            halted(v, Error::Malformed("short block header"))
        } else if !wanted(v.filter, track) {
            (
                WalkView { phase: WalkPhase::Pass { end }, ..v },
                Ok(WalkAsk::SkipBlock((len - b.len()) as u64)),
            )
        } else {
            let flags = b[w + 2];
            let ns = (v.cluster->Some_0.ts_ticks + cluster::signed16(b, w as int)) * v.scale;
            if flags / 2 % 4 != 0 {
                halted(v, Error::Unsupported { what: "selected block lacing" })
            } else if ns > i128::MAX || ns < i128::MIN {
                halted(v, Error::SizeOverflow)
            } else if !(0 <= ns <= u64::MAX) {
                halted(v, Error::Malformed("negative/overflowing block timestamp"))
            } else if len - (w + 3) > u32::MAX {
                halted(v, Error::SizeOverflow)
            } else {
                let frame = FrameHeader {
                    track,
                    timestamp_ns: ns as u64,
                    is_keyframe: if simple {
                        Some(flags >= 0x80)
                    } else {
                        None
                    },
                    is_invisible: flags / 8 % 2 == 1,
                    is_discardable: if simple {
                        Some(flags % 2 == 1)
                    } else {
                        None
                    },
                    block_duration_ns: None,
                    reference_block_count: None,
                    data_size: (len - (w + 3)) as u32,
                };
                (
                    WalkView { phase: WalkPhase::Deliver { end, frame }, ..v },
                    Ok(WalkAsk::Copy { from: (w + 3) as usize, rest: (len - b.len()) as u64 }),
                )
            }
        },
    }
}

/// What the bytes that were asked for lead to.
pub open spec fn bytes_met(v: WalkView, b: Seq<u8>) -> Turn {
    let c = v.cluster->Some_0;
    match v.phase {
        WalkPhase::Peek { end, len, simple } => block_met(v, b, end, len, simple),
        WalkPhase::Number { end, .. } => match v.group {
            Some(g) => onward(
                WalkView {
                    cluster: Some(ClusterCursor { pos: end, ..c }),
                    group: Some(
                        GroupCursor { duration_ticks: Some(bytes::uint(b) as u64), ..g },
                    ),
                    ..v
                },
            ),
            None => onward(
                WalkView {
                    cluster: Some(
                        ClusterCursor { pos: end, ts_ticks: bytes::uint(b) as u64, ..c },
                    ),
                    ..v
                },
            ),
        },
        _ => going((v, WalkAsk::End)),
    }
}

/// What the end of a skip or copy leads to.
pub open spec fn done_met(v: WalkView) -> Turn {
    let c = v.cluster->Some_0;
    match v.phase {
        WalkPhase::Deliver { end, frame } => {
            let w = WalkView { cluster: Some(ClusterCursor { pos: end, ..c }), ..v };
            match v.group {
                Some(g) => onward(
                    WalkView { group: Some(GroupCursor { frame: Some(frame), ..g }), ..w },
                ),
                None => (WalkView { phase: WalkPhase::Idle, ..w }, Ok(WalkAsk::Frame(frame))),
            }
        },
        WalkPhase::Pass { end } => onward(
            WalkView { cluster: Some(ClusterCursor { pos: end, ..c }), ..v },
        ),
        _ => going((v, WalkAsk::End)),
    }
}

/// What the length of the source leads to: it must be what it was at the start.
pub open spec fn length_met(v: WalkView, len: u64) -> Turn {
    if len != v.file_len {
        (v, Err(Error::Malformed("file length changed during strict walk")))
    } else {
        (WalkView { phase: WalkPhase::Idle, ..v }, Ok(WalkAsk::End))
    }
}

/// A walk from the first Cluster on of a source of `file_len` bytes with this metadata,
/// in which `left` elements may be read.
pub open spec fn walk_over(d: DemuxView, left: int, file_len: u64) -> WalkView {
    WalkView {
        file_len,
        segment_start: d.segment_payload_start as u64,
        segment_end: d.segment_end as u64,
        clusters_offset: d.clusters_offset as u64,
        scale: d.info.timestamp_scale_ns,
        cues: d.cues,
        filter: None,
        left,
        pos: d.clusters_offset as u64,
        cluster: None,
        group: None,
        phase: WalkPhase::Idle,
    }
}

/// Where the walk goes for time `ts_ns`: to the Cluster of the last index entry at
/// or before it, for `track` if one is given, else to the first Cluster.
pub open spec fn cue_for(cues: Seq<CuePoint>, ts_ns: u64, track: Option<u64>) -> Option<int> {
    cue_before(cues, ts_ns, track, cues.len() as int)
}

/// Whether an index entry is at or before `ts_ns`, and for `track` if one is given.
pub open spec fn eligible(c: CuePoint, ts_ns: u64, track: Option<u64>) -> bool {
    c.ts_ns <= ts_ns && (track matches Some(t) ==> c.track_number == t)
}

/// The latest eligible entry among the first `n`; of equal ones the last.
pub open spec fn cue_before(cues: Seq<CuePoint>, ts_ns: u64, track: Option<u64>, n: int) -> Option<
    int,
>
    decreases n,
{
    if n <= 0 {
        None
    } else {
        let best = cue_before(cues, ts_ns, track, n - 1);
        if eligible(cues[n - 1], ts_ns, track) && (best matches Some(b) ==> cues[b].ts_ns
            <= cues[n - 1].ts_ns) {
            Some(n - 1)
        } else {
            best
        }
    }
}

/// The entry chosen is eligible, and no eligible one is later.
pub proof fn law_cue_is_latest(cues: Seq<CuePoint>, ts_ns: u64, track: Option<u64>)
    ensures
        match cue_for(cues, ts_ns, track) {
            Some(b) => 0 <= b < cues.len() && eligible(cues[b], ts_ns, track) && forall|i: int|
                0 <= i < cues.len() && eligible(#[trigger] cues[i], ts_ns, track) ==> cues[i].ts_ns
                    <= cues[b].ts_ns,
            None => forall|i: int|
                0 <= i < cues.len() ==> !eligible(#[trigger] cues[i], ts_ns, track),
        },
{
    lemma_cue_before(cues, ts_ns, track, cues.len() as int);
}

proof fn lemma_cue_before(cues: Seq<CuePoint>, ts_ns: u64, track: Option<u64>, n: int)
    requires
        0 <= n <= cues.len(),
    ensures
        match cue_before(cues, ts_ns, track, n) {
            Some(b) => 0 <= b < n && eligible(cues[b], ts_ns, track) && forall|i: int|
                0 <= i < n && eligible(#[trigger] cues[i], ts_ns, track) ==> cues[i].ts_ns
                    <= cues[b].ts_ns,
            None => forall|i: int| 0 <= i < n ==> !eligible(#[trigger] cues[i], ts_ns, track),
        },
    decreases n,
{
    if n > 0 {
        lemma_cue_before(cues, ts_ns, track, n - 1);
    }
}

/// The offset of the Cluster for a time.
pub open spec fn target_of(v: WalkView, ts_ns: u64, track: Option<u64>) -> Result<u64, Error> {
    match cue_for(v.cues, ts_ns, track) {
        None => Ok(v.clusters_offset),
        Some(i) => {
            let p = v.segment_start + v.cues[i].cluster_position;
            if p > u64::MAX || p >= v.segment_end {
                Err(Error::SizeOverflow)
            } else {
                Ok(p as u64)
            }
        },
    }
}

/// The walk from offset `pos` on.
pub open spec fn moved(v: WalkView, pos: u64) -> Result<WalkView, Error> {
    if pos < v.segment_start || pos > v.file_len {
        Err(Error::SizeOverflow)
    } else {
        Ok(WalkView { pos, cluster: None, group: None, phase: WalkPhase::Idle, ..v })
    }
}

/// Every element header that is taken costs one element; nothing else does, and moving
/// the walk gives none back. Nor does an error.
pub proof fn law_walk_spends_elements(v: WalkView, h: IoHeader, b: Seq<u8>, pos: u64)
    ensures
        header_met(v, h).1 is Ok ==> v.left >= 1,
        header_met(v, h).0.left == if v.left >= 1 {
            v.left - 1
        } else {
            v.left
        },
        bytes_met(v, b).0.left == v.left,
        done_met(v).0.left == v.left,
        moved(v, pos) matches Ok(w) ==> w.left == v.left && w.filter == v.filter,
        inside(v).0.left == v.left,
{
}

/// Data is copied for tracks that were asked for only.
pub proof fn law_only_wanted_frames(v: WalkView, b: Seq<u8>, end: u64, len: u64, simple: bool)
    ensures
        block_met(v, b, end, len, simple) matches (w, Ok(WalkAsk::Copy { .. })) ==> (w.phase matches
            WalkPhase::Deliver { frame, .. } && wanted(v.filter, frame.track)),
{
}

/// A block that the walk accepts is the one that [`cluster::block_of`] finds in its
/// whole payload, as long as times stay in 64-bit signed range.
pub proof fn law_blocks_agree(v: WalkView, p: Seq<u8>, end: u64, simple: bool)
    requires
        p.len() <= u64::MAX,
        v.cluster is Some,
        v.cluster->Some_0.ts_ticks * v.scale <= i64::MAX,
        v.scale <= i64::MAX,
        wanted_block(v, p),
    ensures
        ({
            let b = if p.len() < MAX_INNER_HEADER {
                p
            } else {
                p.take(MAX_INNER_HEADER as int)
            };
            let ts = (v.cluster->Some_0.ts_ticks * v.scale) as u64;
            block_met(v, b, end, p.len() as u64, simple) matches (n, Ok(WalkAsk::Copy { from, rest }))
                ==> n.phase matches WalkPhase::Deliver { frame, .. } && (frame.timestamp_ns
                <= i64::MAX ==> cluster::block_of(p, simple, ts, v.scale) == Ok::<
                cluster::FrameView,
                Error,
            >(
                (cluster::FrameView {
                    track: frame.track,
                    timestamp_ns: frame.timestamp_ns,
                    is_keyframe: frame.is_keyframe,
                    is_invisible: frame.is_invisible,
                    is_discardable: frame.is_discardable,
                    data: p.skip(from as int),
                }),
            )) && p.skip(from as int).len() == frame.data_size && p.skip(from as int).len() == b.len() - from
                + rest
        }),
{
    let b = if p.len() < MAX_INNER_HEADER {
        p
    } else {
        p.take(MAX_INNER_HEADER as int)
    };
    if let Ok((track, w, _)) = varint::vint_at(b, 0) {
        if w + 3 <= b.len() {
            assert(b[0] == p[0]);
            assert(b.subrange(0, w as int) =~= p.subrange(0, w as int));
            assert(varint::vint_at(p, 0) == varint::vint_at(b, 0));
            let ticks = v.cluster->Some_0.ts_ticks as int;
            let delta = cluster::signed16(b, w as int);
            let scale = v.scale as int;
            assert((ticks + delta) * scale == ticks * scale + delta * scale) by (nonlinear_arith);
            if (ticks + delta) * scale <= i64::MAX && (ticks + delta) * scale >= 0 {
                assert(-i64::MAX <= delta * scale <= i64::MAX) by (nonlinear_arith)
                    requires
                        0 <= ticks * scale <= i64::MAX,
                        0 <= ticks * scale + delta * scale <= i64::MAX,
                ;
            }
        }
    }
}

/// The block's track was asked for.
pub open spec fn wanted_block(v: WalkView, p: Seq<u8>) -> bool {
    varint::vint_at(p, 0) matches Ok((track, _, _)) ==> wanted(v.filter, track)
}

/// What holds of every walk: in a BlockGroup or on a child, there is a Cluster.
pub open spec fn consistent(v: WalkView) -> bool {
    &&& v.group is Some ==> v.cluster is Some
    &&& (v.phase is Child || v.phase is Number || v.phase is Peek || v.phase is Pass
        || v.phase is Deliver) ==> v.cluster is Some
    &&& v.phase is Sibling ==> v.cluster is None && v.group is None
    &&& v.phase matches WalkPhase::Number { len, .. } ==> 0 < len <= 8
}

/// How many bytes a phase waits for.
pub open spec fn awaited(p: WalkPhase) -> int {
    match p {
        WalkPhase::Number { len, .. } => len as int,
        WalkPhase::Peek { len, .. } => if len < MAX_INNER_HEADER {
            len as int
        } else {
            MAX_INNER_HEADER as int
        },
        _ => -1,
    }
}

/// Walks the frames of a source. Headers and bytes are read outside and handed in.
pub struct Walker {
    demuxer: Demuxer,
    file_len: u64,
    filter: Option<Vec<u64>>,
    budget: WalkBudget,
    pos: u64,
    cluster: Option<ClusterCursor>,
    group: Option<GroupCursor>,
    phase: WalkPhase,
}

impl View for Walker {
    type V = WalkView;

    closed spec fn view(&self) -> WalkView {
        WalkView {
            file_len: self.file_len,
            segment_start: self.demuxer.segment_payload_start as u64,
            segment_end: self.demuxer.segment_end as u64,
            clusters_offset: self.demuxer.clusters_offset as u64,
            scale: self.demuxer.timestamp_scale_ns,
            cues: self.demuxer.cues@,
            filter: match self.filter {
                None => None,
                Some(f) => Some(f@),
            },
            left: self.budget.elements as int,
            pos: self.pos,
            cluster: self.cluster,
            group: self.group,
            phase: self.phase,
        }
    }
}

/// Whether a list holds a track.
fn lists(f: &Vec<u64>, track: u64) -> (r: bool)
    ensures
        r == f@.contains(track),
{
    let mut i: usize = 0;
    while i < f.len()
        invariant
            i <= f@.len(),
            forall|j: int| 0 <= j < i ==> #[trigger] f@[j] != track,
        decreases f@.len() - i,
    {
        if f[i] == track {
            return true;
        }
        i = i + 1;
    }
    false
}

impl Walker {
    /// The walk's parts belong together.
    pub closed spec fn wf(&self) -> bool {
        consistent(self@)
    }

    /// The metadata that was found when the source was opened.
    pub closed spec fn metadata(&self) -> DemuxView {
        self.demuxer@
    }

    /// The metadata that was found when the source was opened.
    pub fn demuxer(&self) -> (r: &Demuxer)
        ensures
            r@ == self.metadata(),
    {
        &self.demuxer
    }

    /// A walk over the Clusters of a source that was opened.
    pub fn new(demuxer: Demuxer, budget: WalkBudget, file_len: u64) -> (r: Self)
        ensures
            r.wf(),
            r.metadata() == demuxer@,
            r@ == walk_over(demuxer@, budget.elements as int, file_len),
    {
        let pos: u64 = demuxer.clusters_offset as u64;
        Walker {
            demuxer,
            file_len,
            filter: None,
            budget,
            pos,
            cluster: None,
            group: None,
            phase: WalkPhase::Idle,
        }
    }

    /// Restricts the walk to frames of these tracks, from where it stands on.
    pub fn set_track_filter(&mut self, tracks: Option<Vec<u64>>)
        ensures
            final(self)@ == (WalkView {
                filter: match tracks {
                    None => None,
                    Some(f) => Some(f@),
                },
                ..old(self)@
            }),
            old(self).wf() ==> final(self).wf(),
    {
        self.filter = tracks;
    }

    /// How much one read may take while headers are walked: with a filter, little
    /// of each packet that nobody asked for.
    pub fn read_cap(&self) -> (r: usize)
        ensures
            r == if self@.filter is Some {
                64
            } else {
                usize::MAX
            },
    {
        if self.filter.is_some() {
            64
        } else {
            usize::MAX
        }
    }

    /// Moves the walk to an offset of the source.
    pub fn seek_to_byte(&mut self, pos: u64) -> (r: Result<(), Error>)
        ensures
            match moved(old(self)@, pos) {
                Ok(v) => r is Ok && final(self)@ == v && final(self).wf(),
                Err(e) => r == Err::<(), Error>(e) && *final(self) == *old(self),
            },
    {
        if pos < self.demuxer.segment_payload_start as u64 || pos > self.file_len {
            return Err(Error::SizeOverflow);
        }
        self.pos = pos;
        self.cluster = None;
        self.group = None;
        self.phase = WalkPhase::Idle;
        Ok(())
    }

    /// Moves the walk to the Cluster of the last index entry at or before `ts_ns`,
    /// or to the first Cluster if there is none, and returns its offset.
    pub fn seek_to_time(&mut self, ts_ns: u64, track_number: Option<u64>) -> (r: Result<u64, Error>)
        ensures
            match target_of(old(self)@, ts_ns, track_number) {
                Err(e) => r == Err::<u64, Error>(e) && *final(self) == *old(self),
                Ok(p) => match moved(old(self)@, p) {
                    Ok(v) => r == Ok::<u64, Error>(p) && final(self)@ == v && final(self).wf(),
                    Err(e) => r == Err::<u64, Error>(e) && *final(self) == *old(self),
                },
            },
    {
        let n: usize = self.demuxer.cues.len();
        let mut best: Option<usize> = None;
        let mut i: usize = 0;
        while i < n
            invariant
                i <= n == self.demuxer.cues@.len(),
                *self == *old(self),
                best matches Some(b) ==> b < i,
                cue_before(self@.cues, ts_ns, track_number, i as int) == match best {
                    Some(b) => Some(b as int),
                    None => None,
                },
            decreases n - i,
        {
            let c = &self.demuxer.cues[i];
            let fits: bool = c.ts_ns <= ts_ns && match track_number {
                Some(t) => c.track_number == t,
                None => true,
            };
            let later: bool = match best {
                Some(b) => self.demuxer.cues[b].ts_ns <= c.ts_ns,
                None => true,
            };
            if fits && later {
                best = Some(i);
            }
            i = i + 1;
        }
        let target: u64 = match best {
            Some(b) => {
                let start: u64 = self.demuxer.segment_payload_start as u64;
                let p: u64 = match start.checked_add(self.demuxer.cues[b].cluster_position) {
                    Some(p) => p,
                    None => return Err(Error::SizeOverflow),
                };
                if p >= self.demuxer.segment_end as u64 {
                    return Err(Error::SizeOverflow);
                }
                p
            },
            None => self.demuxer.clusters_offset as u64,
        };
        self.seek_to_byte(target)?;
        Ok(target)
    }

    /// Between Clusters.
    fn go_outside(&mut self) -> (r: WalkAsk)
        requires
            old(self)@.cluster is None,
            old(self)@.group is None,
        ensures
            (final(self)@, r) == outside(old(self)@),
            final(self).wf(),
    {
        if self.pos >= self.demuxer.segment_end as u64 || self.pos >= self.file_len {
            self.phase = WalkPhase::Length;
            WalkAsk::Length
        } else {
            self.phase = WalkPhase::Sibling;
            WalkAsk::HeaderAt(self.pos)
        }
    }

    /// In a Cluster, or behind its end.
    fn go_inside(&mut self) -> (r: WalkAsk)
        requires
            old(self)@.group is None,
        ensures
            (final(self)@, r) == inside(old(self)@),
            final(self).wf(),
    {
        match self.cluster {
            Some(c) => {
                if c.pos >= c.end {
                    self.cluster = None;
                    return self.go_outside();
                }
                self.phase = WalkPhase::Child;
                WalkAsk::Header
            },
            None => self.go_outside(),
        }
    }

    /// Gives up with an error.
    fn halt(&mut self, e: Error) -> (r: Result<WalkAsk, Error>)
        ensures
            (final(self)@, r) == halted(old(self)@, e),
            final(self).wf(),
    {
        self.group = None;
        self.phase = WalkPhase::Idle;
        Err(e)
    }

    /// Goes on once an element is dealt with.
    fn go_on(&mut self) -> (r: Result<WalkAsk, Error>)
        requires
            old(self)@.group is Some ==> old(self)@.cluster is Some,
        ensures
            (final(self)@, r) == onward(old(self)@),
            final(self).wf(),
    {
        let g = match self.group {
            None => return Ok(self.go_inside()),
            Some(g) => g,
        };
        let c = match self.cluster {
            None => return Ok(WalkAsk::End),
            Some(c) => c,
        };
        if c.pos < g.end {
            self.phase = WalkPhase::Child;
            return Ok(WalkAsk::Header);
        }
        self.group = None;
        self.cluster = Some(
            ClusterCursor {
                pos: g.end,
                end: c.end,
                ts_ticks: c.ts_ticks,
                has_timestamp: c.has_timestamp,
            },
        );
        if !g.block_seen {
            return self.halt(Error::Malformed("BlockGroup missing Block"));
        }
        match g.frame {
            None => Ok(self.go_inside()),
            Some(f) => {
                let block_duration_ns: Option<u64> = match g.duration_ticks {
                    None => None,
                    Some(t) => match t.checked_mul(self.demuxer.timestamp_scale_ns) {
                        Some(ns) => Some(ns),
                        None => return self.halt(Error::SizeOverflow),
                    },
                };
                self.phase = WalkPhase::Idle;
                Ok(
                    WalkAsk::Frame(
                        FrameHeader {
                            track: f.track,
                            timestamp_ns: f.timestamp_ns,
                            is_keyframe: Some(g.references == 0),
                            is_invisible: f.is_invisible,
                            is_discardable: f.is_discardable,
                            block_duration_ns,
                            reference_block_count: Some(g.references),
                            data_size: f.data_size,
                        },
                    ),
                )
            },
        }
    }

    /// Asks for the next frame.
    pub fn begin(&mut self) -> (r: WalkAsk)
        ensures
            (final(self)@, r) == inside(WalkView { group: None, ..old(self)@ }),
            final(self).wf(),
    {
        self.group = None;
        self.go_inside()
    }

    /// Asks for the start of a block.
    fn ask_peek(&mut self, end: u64, len: u64, simple: bool) -> (r: WalkAsk)
        requires
            old(self)@.cluster is Some,
        ensures
            (final(self)@, r) == peek(old(self)@, end, len, simple),
            final(self).wf(),
    {
        self.phase = WalkPhase::Peek { end, len, simple };
        WalkAsk::Bytes(
            if len < MAX_INNER_HEADER {
                len as usize
            } else {
                MAX_INNER_HEADER as usize
            },
        )
    }

    /// Asks to drop bytes.
    fn ask_pass(&mut self, end: u64, len: u64) -> (r: WalkAsk)
        requires
            old(self)@.cluster is Some,
        ensures
            (final(self)@, r) == pass(old(self)@, end, len),
            final(self).wf(),
    {
        self.phase = WalkPhase::Pass { end };
        WalkAsk::Skip(len)
    }

    /// The header of a child of a BlockGroup.
    fn meet_group_child(&mut self, g: GroupCursor, id: u64, end: u64, len: u64) -> (r: Result<
        WalkAsk,
        Error,
    >)
        requires
            old(self)@.cluster is Some,
            old(self)@.group == Some(g),
        ensures
            (final(self)@, r) == group_child(old(self)@, g, id, end, len),
            final(self).wf(),
    {
        match id {
            ids::BLOCK => {
                if g.block_seen {
                    return self.halt(Error::Malformed("multiple Blocks in BlockGroup"));
                }
                self.group = Some(
                    GroupCursor {
                        end: g.end,
                        block_seen: true,
                        frame: g.frame,
                        references: g.references,
                        duration_ticks: g.duration_ticks,
                    },
                );
                Ok(self.ask_peek(end, len, false))
            },
            ids::REFERENCE_BLOCK => {
                if g.references == 255 {
                    return self.halt(Error::SizeOverflow);
                }
                if len == 0 || len > 8 {
                    return self.halt(Error::Malformed("invalid ReferenceBlock"));
                }
                self.group = Some(
                    GroupCursor {
                        end: g.end,
                        block_seen: g.block_seen,
                        frame: g.frame,
                        references: g.references + 1,
                        duration_ticks: g.duration_ticks,
                    },
                );
                Ok(self.ask_pass(end, len))
            },
            ids::BLOCK_DURATION => {
                if g.duration_ticks.is_some() || len == 0 || len > 8 {
                    return self.halt(Error::Malformed("invalid/duplicate BlockDuration"));
                }
                self.phase = WalkPhase::Number { end, len };
                Ok(WalkAsk::Bytes(len as usize))
            },
            ids::VOID | ids::CRC32 => Ok(self.ask_pass(end, len)),
            _ => self.halt(Error::Unsupported { what: "strict BlockGroup child" }),
        }
    }

    /// The header of a child of a Cluster.
    fn meet_cluster_child(&mut self, c: ClusterCursor, id: u64, end: u64, len: u64) -> (r: Result<
        WalkAsk,
        Error,
    >)
        requires
            old(self)@.cluster == Some(c),
            old(self)@.group is None,
        ensures
            (final(self)@, r) == cluster_child(old(self)@, c, id, end, len),
            final(self).wf(),
    {
        match id {
            ids::TIMESTAMP => {
                if c.has_timestamp {
                    return self.halt(Error::Malformed("duplicate cluster timestamp"));
                }
                self.cluster = Some(
                    ClusterCursor {
                        pos: c.pos,
                        end: c.end,
                        ts_ticks: c.ts_ticks,
                        has_timestamp: true,
                    },
                );
                if len == 0 || len > 8 {
                    return self.halt(Error::Malformed("integer payload out of range"));
                }
                self.phase = WalkPhase::Number { end, len };
                Ok(WalkAsk::Bytes(len as usize))
            },
            ids::SIMPLE_BLOCK => {
                if !c.has_timestamp {
                    return self.halt(Error::Malformed("block before cluster timestamp"));
                }
                Ok(self.ask_peek(end, len, true))
            },
            ids::BLOCK_GROUP => {
                if !c.has_timestamp {
                    return self.halt(Error::Malformed("block before cluster timestamp"));
                }
                self.group = Some(
                    GroupCursor {
                        end,
                        block_seen: false,
                        frame: None,
                        references: 0,
                        duration_ticks: None,
                    },
                );
                self.go_on()
            },
            ids::VOID | ids::CRC32 | POSITION | PREV_SIZE => Ok(self.ask_pass(end, len)),
            _ => self.halt(Error::Unsupported { what: "strict Cluster child" }),
        }
    }

    /// Takes the header that was asked for. After an error the walk is between frames,
    /// behind that header.
    pub fn header(&mut self, h: &IoHeader) -> (r: Result<WalkAsk, Error>)
        requires
            old(self).wf(),
            old(self)@.phase is Sibling || old(self)@.phase is Child,
        ensures
            (final(self)@, r) == header_met(old(self)@, *h),
            final(self).wf(),
    {
        let old_cluster = match self.cluster {
            None => {
                if let Err(e) = self.budget.element() {
                    return self.halt(e);
                }
                let end: u64 = match checked_end(h, self.demuxer.segment_end as u64) {
                    Ok(end) => end,
                    Err(e) => return self.halt(e),
                };
                self.pos = end;
                if h.id == ids::CLUSTER {
                    self.cluster = Some(
                        ClusterCursor {
                            pos: h.payload_start,
                            end,
                            ts_ticks: 0,
                            has_timestamp: false,
                        },
                    );
                }
                return self.go_on();
            },
            Some(c) => c,
        };
        let c = ClusterCursor {
            pos: h.payload_start,
            end: old_cluster.end,
            ts_ticks: old_cluster.ts_ticks,
            has_timestamp: old_cluster.has_timestamp,
        };
        self.cluster = Some(c);
        if let Err(e) = self.budget.element() {
            return self.halt(e);
        }
        let parent_end: u64 = match self.group {
            Some(g) => g.end,
            None => c.end,
        };
        let end: u64 = match checked_end(h, parent_end) {
            Ok(end) => end,
            Err(e) => return self.halt(e),
        };
        match self.group {
            Some(g) => self.meet_group_child(g, h.id, end, end - h.payload_start),
            None => self.meet_cluster_child(c, h.id, end, end - h.payload_start),
        }
    }

    /// Whether frames of this track were asked for.
    fn wants(&self, track: u64) -> (r: bool)
        ensures
            r == wanted(self@.filter, track),
    {
        match &self.filter {
            None => true,
            Some(f) => lists(f, track),
        }
    }

    /// The start of a block.
    fn meet_block(&mut self, b: &[u8], end: u64, len: u64, simple: bool) -> (r: Result<
        WalkAsk,
        Error,
    >)
        requires
            old(self)@.cluster is Some,
            b@.len() <= len,
            b@.len() <= MAX_INNER_HEADER,
        ensures
            (final(self)@, r) == block_met(old(self)@, b@, end, len, simple),
            final(self).wf(),
    {
        let ticks: u64 = match self.cluster {
            Some(c) => c.ts_ticks,
            None => 0,
        };
        let mut p: usize = 0;
        let track: u64 = match read_vint_raw(b, &mut p) {
            Ok((track, _width, _unknown)) => track,
            Err(e) => return self.halt(e),
        };
        if p + 3 > b.len() {
            return self.halt(Error::Malformed("short block header"));
        }
        let rest: u64 = len - b.len() as u64;
        if !self.wants(track) {
            self.phase = WalkPhase::Pass { end };
            return Ok(WalkAsk::SkipBlock(rest));
        }
        let delta: i16 = read_i16(b, p);
        let flags: u8 = b[p + 2];
        if flags / 2 % 4 != 0 {
            return self.halt(Error::Unsupported { what: "selected block lacing" });
        }
        let t: i128 = ticks as i128 + delta as i128;
        let ns: i128 = match t.checked_mul(self.demuxer.timestamp_scale_ns as i128) {
            Some(n) => n,
            None => return self.halt(Error::SizeOverflow),
        };
        if ns < 0 || ns > u64::MAX as i128 {
            return self.halt(Error::Malformed("negative/overflowing block timestamp"));
        }
        let from: usize = p + 3;
        let size: u64 = len - from as u64;
        if size > u32::MAX as u64 {
            return self.halt(Error::SizeOverflow);
        }
        let frame = FrameHeader {
            track,
            timestamp_ns: ns as u64,
            is_keyframe: if simple {
                Some(flags >= 0x80)
            } else {
                None
            },
            is_invisible: flags / 8 % 2 == 1,
            is_discardable: if simple {
                Some(flags % 2 == 1)
            } else {
                None
            },
            block_duration_ns: None,
            reference_block_count: None,
            data_size: size as u32,
        };
        self.phase = WalkPhase::Deliver { end, frame };
        Ok(WalkAsk::Copy { from, rest })
    }

    /// Takes the bytes that were asked for.
    pub fn bytes(&mut self, b: &[u8]) -> (r: Result<WalkAsk, Error>)
        requires
            old(self).wf(),
            old(self)@.phase is Number || old(self)@.phase is Peek,
            b@.len() == awaited(old(self)@.phase),
        ensures
            (final(self)@, r) == bytes_met(old(self)@, b@),
            final(self).wf(),
    {
        match self.phase {
            WalkPhase::Peek { end, len, simple } => self.meet_block(b, end, len, simple),
            WalkPhase::Number { end, .. } => {
                let v: u64 = bytes::read_uint(b);
                if let Some(c) = self.cluster {
                    match self.group {
                        Some(g) => {
                            self.cluster = Some(
                                ClusterCursor {
                                    pos: end,
                                    end: c.end,
                                    ts_ticks: c.ts_ticks,
                                    has_timestamp: c.has_timestamp,
                                },
                            );
                            self.group = Some(
                                GroupCursor {
                                    end: g.end,
                                    block_seen: g.block_seen,
                                    frame: g.frame,
                                    references: g.references,
                                    duration_ticks: Some(v),
                                },
                            );
                        },
                        None => {
                            self.cluster = Some(
                                ClusterCursor {
                                    pos: end,
                                    end: c.end,
                                    ts_ticks: v,
                                    has_timestamp: c.has_timestamp,
                                },
                            );
                        },
                    }
                }
                self.go_on()
            },
            _ => Ok(WalkAsk::End),
        }
    }

    /// Takes note that the skip or copy that was asked for is done.
    pub fn done(&mut self) -> (r: Result<WalkAsk, Error>)
        requires
            old(self).wf(),
            old(self)@.phase is Pass || old(self)@.phase is Deliver,
        ensures
            (final(self)@, r) == done_met(old(self)@),
            final(self).wf(),
    {
        let end: u64 = match self.phase {
            WalkPhase::Pass { end } => end,
            WalkPhase::Deliver { end, .. } => end,
            _ => 0,
        };
        if let Some(c) = self.cluster {
            self.cluster = Some(
                ClusterCursor {
                    pos: end,
                    end: c.end,
                    ts_ticks: c.ts_ticks,
                    has_timestamp: c.has_timestamp,
                },
            );
        }
        match self.phase {
            WalkPhase::Deliver { frame, .. } => {
                match self.group {
                    Some(g) => {
                        self.group = Some(
                            GroupCursor {
                                end: g.end,
                                block_seen: g.block_seen,
                                frame: Some(frame),
                                references: g.references,
                                duration_ticks: g.duration_ticks,
                            },
                        );
                        self.go_on()
                    },
                    None => {
                        self.phase = WalkPhase::Idle;
                        Ok(WalkAsk::Frame(frame))
                    },
                }
            },
            _ => self.go_on(),
        }
    }

    /// Takes the length of the source: it must be what it was at the start.
    pub fn length(&mut self, len: u64) -> (r: Result<WalkAsk, Error>)
        requires
            old(self).wf(),
            old(self)@.phase is Length,
        ensures
            final(self).wf(),
            (final(self)@, r) == length_met(old(self)@, len),
    {
        if len != self.file_len {
            return Err(Error::Malformed("file length changed during strict walk"));
        }
        self.phase = WalkPhase::Idle;
        Ok(WalkAsk::End)
    }
}

} // verus!
