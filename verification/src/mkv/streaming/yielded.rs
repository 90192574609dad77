//! What a walk over a source whose bytes are known yields: the frames that are read where
//! the whole source is in memory.

use crate::bytes;
use crate::mkv::cluster;
use crate::mkv::cluster::{FrameView, FramesView, GroupView};
use crate::mkv::ebml::schema::ids;
use crate::mkv::ebml::varint;
use crate::mkv::streaming::bounded;
use crate::mkv::streaming::bounded::{IoHeader, StreamingLimits};
use crate::mkv::streaming::memory;
use crate::mkv::streaming::open;
use crate::mkv::streaming::walk;
use crate::mkv::streaming::walk::{
    ClusterCursor, GroupCursor, Turn, WalkAsk, WalkPhase, WalkView, MAX_INNER_HEADER,
};
use crate::mkv::streaming::FrameHeader;
use crate::mkv::Error;
use vstd::prelude::*;

verus! {

/// A walk that is being answered from a source.
pub struct Reading {
    pub v: WalkView,
    /// What is asked for.
    pub ask: WalkAsk,
    /// Where the source stands.
    pub at: int,
    /// What was last read.
    pub last: Seq<u8>,
    /// What was copied.
    pub out: Seq<u8>,
}

/// What a step makes of a reading.
pub open spec fn turned(t: Turn, w: Reading) -> Result<Reading, Error> {
    match t.1 {
        Err(e) => Err(e),
        Ok(ask) => Ok(Reading { v: t.0, ask, ..w }),
    }
}

/// What is asked for, done with the source `s`, leads to.
pub open spec fn answer(s: Seq<u8>, w: Reading) -> Result<Reading, Error> {
    match w.ask {
        WalkAsk::HeaderAt(p) => match memory::header_in(s, p as int) {
            Err(e) => Err(e),
            Ok(h) => turned(walk::header_met(w.v, h), Reading { at: h.payload_start as int, ..w }),
        },
        WalkAsk::Header => match memory::header_in(s, w.at) {
            Err(e) => Err(e),
            Ok(h) => turned(walk::header_met(w.v, h), Reading { at: h.payload_start as int, ..w }),
        },
        WalkAsk::Bytes(n) => if w.at + n > s.len() {
            Err(Error::UnexpectedEof("walked bytes"))
        } else {
            let last = s.subrange(w.at, w.at + n);
            turned(walk::bytes_met(w.v, last), Reading { at: w.at + n, last, ..w })
        },
        WalkAsk::Skip(n) => if w.at + n > s.len() {
            Err(Error::UnexpectedEof("skip_n short read"))
        } else {
            turned(walk::done_met(w.v), Reading { at: w.at + n, ..w })
        },
        WalkAsk::SkipBlock(n) => turned(walk::done_met(w.v), Reading { at: w.at + n, ..w }),
        WalkAsk::Copy { from, rest } => if w.at + rest > s.len() {
            Err(Error::UnexpectedEof("frame data short read"))
        } else {
            turned(
                walk::done_met(w.v),
                Reading {
                    at: w.at + rest,
                    out: w.out + w.last.skip(from as int) + s.subrange(w.at, w.at + rest),
                    ..w
                },
            )
        },
        WalkAsk::Length => turned(walk::length_met(w.v, s.len() as u64), w),
        WalkAsk::Frame(_) => Ok(w),
        WalkAsk::End => Ok(w),
    }
}

/// A reading that was answered `n` times since the next frame was asked of the walk `v`.
pub open spec fn walking(s: Seq<u8>, v: WalkView, n: nat) -> Result<Reading, Error>
    decreases n,
{
    if n == 0 {
        let (w, ask) = walk::inside(WalkView { group: None, ..v });
        Ok(
            Reading {
                v: w,
                ask,
                at: match v.cluster {
                    Some(c) => c.pos as int,
                    None => 0,
                },
                last: Seq::empty(),
                out: Seq::empty(),
            },
        )
    } else {
        match walking(s, v, (n - 1) as nat) {
            Err(e) => Err(e),
            Ok(w) => answer(s, w),
        }
    }
}

/// The next frame of a track that was asked for, and where that leaves the walk.
pub open spec fn next_wanted(f: FramesView, filter: Option<Seq<u64>>) -> (
    Result<Option<FrameView>, Error>,
    FramesView,
)
    decreases f.ahead(),
{
    match cluster::next_of(f) {
        (Ok(Some(x)), g) => if !walk::wanted(filter, x.track) && g.ahead() < f.ahead() {
            next_wanted(g, filter)
        } else {
            (Ok(Some(x)), g)
        },
        other => other,
    }
}

/// Walks of the source `s`, by steps and in memory, with the same bounds and ticks.
spec fn beside(s: Seq<u8>, v: WalkView, f: FramesView) -> bool {
    &&& f.input == s
    &&& f.segment_end == v.segment_end
    &&& f.scale == v.scale
    &&& v.file_len == s.len()
    &&& v.segment_end <= s.len()
}

/// Walks of the source `s`, by steps and in memory, stand at the same place between
/// frames.
pub open spec fn together(s: Seq<u8>, v: WalkView, f: FramesView) -> bool {
    &&& f.input == s
    &&& f.segment_end == v.segment_end
    &&& f.scale == v.scale
    &&& v.file_len == s.len()
    &&& v.segment_end <= s.len()
    &&& match v.cluster {
        None => f.cluster_end is None && f.pos == v.pos,
        Some(c) => {
            &&& f.cluster_end == Some(c.end as int)
            &&& f.pos == c.pos
            &&& f.ticks == c.ts_ticks
            &&& !f.no_size
            &&& c.pos <= c.end <= v.segment_end
            &&& v.pos == c.end
        },
    }
}

/// A frame is the one that was yielded: all but its time, and that too where the times of
/// its Cluster and its own fit signed 64-bit numbers.
pub open spec fn same_frame(x: FrameView, h: FrameHeader, ticks: u64, scale: u64) -> bool {
    &&& x.track == h.track
    &&& x.is_keyframe == h.is_keyframe
    &&& x.is_invisible == h.is_invisible
    &&& x.is_discardable == h.is_discardable
    &&& x.data.len() == h.data_size
    &&& ticks * scale <= i64::MAX && scale <= i64::MAX && h.timestamp_ns <= i64::MAX
        ==> x.timestamp_ns == h.timestamp_ns
}

/// The element at `pos` has this header and ends here, inside its parent.
spec fn stands(s: Seq<u8>, pos: int, h: IoHeader, end: u64, parent_end: u64) -> bool {
    &&& 0 <= pos < s.len()
    &&& memory::header_in(s, pos) == Ok::<IoHeader, Error>(h)
    &&& bounded::end_of(h, parent_end) == Ok::<u64, Error>(end)
    &&& parent_end <= s.len()
}

proof fn lemma_same(f: FramesView, g: FramesView, filter: Option<Seq<u64>>)
    requires
        cluster::next_of(f) == cluster::next_of(g),
    ensures
        next_wanted(f, filter) == next_wanted(g, filter),
{
    cluster::law_frames_end(f);
    cluster::law_frames_end(g);
}

/// A block that is delivered is the frame of its whole payload; one that is passed over
/// is of another track, or no frame.
#[verifier::spinoff_prover]
proof fn lemma_block(v: WalkView, p: Seq<u8>, end: u64, simple: bool, ts: u64)
    requires
        p.len() <= u64::MAX,
        v.cluster is Some,
        v.cluster->Some_0.ts_ticks * v.scale <= u64::MAX ==> ts == v.cluster->Some_0.ts_ticks
            * v.scale,
    ensures
        ({
            let n: int = if p.len() < MAX_INNER_HEADER {
                p.len() as int
            } else {
                MAX_INNER_HEADER as int
            };
            let t = walk::block_met(v, p.take(n), end, p.len() as u64, simple);
            let x = cluster::block_of(p, simple, ts, v.scale);
            match t.1 {
                Ok(WalkAsk::Copy { from, rest }) => {
                    &&& x is Ok
                    &&& t.0.phase matches WalkPhase::Deliver { end: e, frame }
                    &&& e == end
                    &&& t.0 == (WalkView { phase: t.0.phase, ..v })
                    &&& same_frame(x->Ok_0, frame, v.cluster->Some_0.ts_ticks, v.scale)
                    &&& walk::wanted(v.filter, frame.track)
                    &&& from <= n
                    &&& rest == p.len() - n
                    &&& x->Ok_0.data == p.skip(from as int)
                },
                Ok(WalkAsk::SkipBlock(k)) => {
                    &&& t.0 == (WalkView { phase: WalkPhase::Pass { end }, ..v })
                    &&& k == p.len() - n
                    &&& v.filter is Some
                    &&& x matches Ok(y) ==> !walk::wanted(v.filter, y.track)
                },
                Ok(_) => false,
                Err(_) => true,
            }
        }),
{
    let n: int = if p.len() < MAX_INNER_HEADER {
        p.len() as int
    } else {
        MAX_INNER_HEADER as int
    };
    let b = p.take(n);
    if let Ok((track, w, _)) = varint::vint_at(b, 0) {
        if w + 3 <= b.len() {
            assert(b[0] == p[0]);
            assert(b.subrange(0, w as int) =~= p.subrange(0, w as int));
            assert(varint::vint_at(p, 0) == varint::vint_at(b, 0));
            let ticks = v.cluster->Some_0.ts_ticks as int;
            let delta = cluster::signed16(b, w as int);
            let scale = v.scale as int;
            assert((ticks + delta) * scale == ticks * scale + delta * scale) by (nonlinear_arith);
            assert(ticks * scale >= 0) by (nonlinear_arith)
                requires
                    ticks >= 0,
                    scale >= 0,
            ;
        }
    }
}

/// Between Clusters: a Cluster is entered.
#[verifier::spinoff_prover]
proof fn lemma_enter(s: Seq<u8>, f: FramesView, h: IoHeader, end: u64, parent_end: u64)
    requires
        s.len() <= usize::MAX,
        f.input == s,
        f.cluster_end is None,
        f.pos < f.segment_end,
        stands(s, f.pos, h, end, parent_end),
        h.id == ids::CLUSTER,
    ensures
        cluster::next_of(f) == cluster::next_of(
            FramesView {
                pos: h.payload_start as int,
                ticks: 0,
                cluster_end: Some(end as int),
                no_size: false,
                ..f
            },
        ),
{
    reveal(cluster::next_of);
    memory::lemma_header(s, f.pos);
}

/// Between Clusters: another element is passed over.
#[verifier::spinoff_prover]
proof fn lemma_pass_sibling(s: Seq<u8>, f: FramesView, h: IoHeader, end: u64, parent_end: u64)
    requires
        s.len() <= usize::MAX,
        f.input == s,
        f.cluster_end is None,
        f.pos < f.segment_end,
        stands(s, f.pos, h, end, parent_end),
        h.id != ids::CLUSTER,
    ensures
        cluster::next_of(f) == cluster::next_of(FramesView { pos: end as int, ..f }),
{
    reveal(cluster::next_of);
    memory::lemma_header(s, f.pos);
}

/// Behind the last Cluster.
#[verifier::spinoff_prover]
proof fn lemma_no_more(s: Seq<u8>, f: FramesView)
    requires
        f.input == s,
        f.cluster_end is None,
        f.pos >= f.segment_end || f.pos >= s.len(),
    ensures
        cluster::next_of(f) == (Ok::<Option<FrameView>, Error>(None), f),
{
    reveal(cluster::next_of);
}

/// Behind the end of a Cluster.
#[verifier::spinoff_prover]
proof fn lemma_leave(f: FramesView, end: int)
    requires
        f.cluster_end == Some(end),
        f.pos >= end,
    ensures
        cluster::next_of(f) == cluster::next_of(FramesView { cluster_end: None, ..f }),
{
    reveal(cluster::next_of);
}

/// In a Cluster: its time.
#[verifier::spinoff_prover]
proof fn lemma_time(s: Seq<u8>, f: FramesView, h: IoHeader, end: u64, parent_end: u64)
    requires
        s.len() <= usize::MAX,
        f.input == s,
        f.cluster_end == Some(parent_end as int),
        !f.no_size,
        f.pos < parent_end,
        stands(s, f.pos, h, end, parent_end),
        h.id == ids::TIMESTAMP,
        end - h.payload_start <= 8,
    ensures
        cluster::next_of(f) == cluster::next_of(
            FramesView {
                pos: end as int,
                ticks: bytes::uint(s.subrange(h.payload_start as int, end as int)) as u64,
                ..f
            },
        ),
{
    reveal(cluster::next_of);
    memory::lemma_header(s, f.pos);
}

/// In a Cluster: a SimpleBlock.
#[verifier::spinoff_prover]
proof fn lemma_simple(s: Seq<u8>, f: FramesView, h: IoHeader, end: u64, parent_end: u64)
    requires
        s.len() <= usize::MAX,
        f.input == s,
        f.cluster_end == Some(parent_end as int),
        !f.no_size,
        f.pos < parent_end,
        stands(s, f.pos, h, end, parent_end),
        h.id == ids::SIMPLE_BLOCK,
    ensures
        match cluster::block_of(
            s.subrange(h.payload_start as int, end as int),
            true,
            f.cluster_ts(),
            f.scale,
        ) {
            Err(e) => cluster::next_of(f).0 is Err,
            Ok(x) => cluster::next_of(f) == (
                Ok::<Option<FrameView>, Error>(Some(x)),
                FramesView { pos: end as int, ..f },
            ),
        },
{
    reveal(cluster::next_of);
    memory::lemma_header(s, f.pos);
}

/// In a Cluster: a BlockGroup.
#[verifier::spinoff_prover]
proof fn lemma_group(s: Seq<u8>, f: FramesView, h: IoHeader, end: u64, parent_end: u64)
    requires
        s.len() <= usize::MAX,
        f.input == s,
        f.cluster_end == Some(parent_end as int),
        !f.no_size,
        f.pos < parent_end,
        stands(s, f.pos, h, end, parent_end),
        h.id == ids::BLOCK_GROUP,
    ensures
        match cluster::group_of(
            s,
            h.payload_start as int,
            end as int,
            f.cluster_ts(),
            f.scale,
            GroupView { frame: None, referenced: false },
        ) {
            Err(e) => cluster::next_of(f).0 is Err,
            Ok(st) => st.frame matches Some(x) ==> cluster::next_of(f) == (
                Ok::<Option<FrameView>, Error>(
                    Some(FrameView { is_keyframe: Some(!st.referenced), ..x }),
                ),
                FramesView { pos: end as int, ..f },
            ),
        },
{
    reveal(cluster::next_of);
    memory::lemma_header(s, f.pos);
}

/// In a Cluster: an element that holds no frame.
#[verifier::spinoff_prover]
proof fn lemma_pass_child(s: Seq<u8>, f: FramesView, h: IoHeader, end: u64, parent_end: u64)
    requires
        s.len() <= usize::MAX,
        f.input == s,
        f.cluster_end == Some(parent_end as int),
        !f.no_size,
        f.pos < parent_end,
        stands(s, f.pos, h, end, parent_end),
        h.id != ids::TIMESTAMP,
        h.id != ids::SIMPLE_BLOCK,
        h.id != ids::BLOCK_GROUP,
    ensures
        cluster::next_of(f) == cluster::next_of(FramesView { pos: end as int, ..f }),
{
    reveal(cluster::next_of);
    memory::lemma_header(s, f.pos);
}

/// In a BlockGroup: a child, and then the rest.
#[verifier::spinoff_prover]
proof fn lemma_group_child(
    s: Seq<u8>,
    p: int,
    h: IoHeader,
    end: u64,
    parent_end: u64,
    ts: u64,
    scale: u64,
    st: GroupView,
)
    requires
        s.len() <= usize::MAX,
        p < parent_end,
        stands(s, p, h, end, parent_end),
    ensures
        ({
            let all = cluster::group_of(s, p, parent_end as int, ts, scale, st);
            let b = s.subrange(h.payload_start as int, end as int);
            let next = if h.id == ids::BLOCK {
                match cluster::block_of(b, false, ts, scale) {
                    Err(e) => Err(e),
                    Ok(x) => Ok(GroupView { frame: Some(x), ..st }),
                }
            } else if h.id == ids::REFERENCE_BLOCK {
                Ok(GroupView { referenced: true, ..st })
            } else {
                Ok::<GroupView, Error>(st)
            };
            match next {
                Err(e) => all is Err,
                Ok(n) => all == cluster::group_of(s, end as int, parent_end as int, ts, scale, n),
            }
        }),
{
    memory::lemma_header(s, p);
}

/// What a BlockGroup gave so far.
spec fn gathered(
    filter: Option<Seq<u64>>,
    g: GroupCursor,
    fr: Option<FrameView>,
    out: Seq<u8>,
    ticks: u64,
    scale: u64,
) -> bool {
    if !g.block_seen {
        fr is None && g.frame is None && out.len() == 0
    } else {
        &&& fr matches Some(x)
        &&& match g.frame {
            Some(h) => same_frame(x, h, ticks, scale) && x.data == out && walk::wanted(
                filter,
                x.track,
            ),
            None => !walk::wanted(filter, x.track) && out.len() == 0,
        }
    }
}

/// The frame `x` is being copied, and ends at `end`.
spec fn copied(s: Seq<u8>, w: Reading, x: FrameView, end: u64) -> bool {
    &&& w.ask matches WalkAsk::Copy { from, rest }
    &&& from <= w.last.len()
    &&& w.at + rest == end <= s.len()
    &&& x.data == w.last.skip(from as int) + s.subrange(w.at, end as int)
    &&& w.out.len() == 0
}

/// Bytes up to `end` are being passed over.
spec fn passed(w: Reading, end: u64) -> bool {
    match w.ask {
        WalkAsk::Skip(k) => w.at + k == end,
        WalkAsk::SkipBlock(k) => w.at + k == end,
        _ => false,
    }
}

/// The start of a block of `len` bytes is asked for.
spec fn peeked(w: Reading, h: IoHeader, end: u64, len: u64) -> bool {
    &&& w.at == h.payload_start
    &&& len == end - h.payload_start
    &&& w.ask == WalkAsk::Bytes(walk::awaited(w.v.phase) as usize)
}

/// A walk in memory that is in a Cluster, as the walk by steps is.
spec fn in_cluster(v: WalkView, f: FramesView, c: ClusterCursor) -> bool {
    &&& v.cluster == Some(c)
    &&& f.cluster_end == Some(c.end as int)
    &&& f.ticks == c.ts_ticks
    &&& !f.no_size
    &&& c.end <= v.segment_end
    &&& v.pos == c.end
}

/// What a BlockGroup is to a walk in memory when all before `p` is dealt with.
spec fn in_group(
    s: Seq<u8>,
    f: FramesView,
    c: ClusterCursor,
    g: GroupCursor,
    p: int,
    fr: Option<FrameView>,
) -> bool {
    let h = memory::header_in(s, f.pos)->Ok_0;
    &&& f.pos < c.end
    &&& stands(s, f.pos, h, g.end, c.end)
    &&& h.id == ids::BLOCK_GROUP
    &&& h.payload_start <= p <= g.end
    &&& cluster::group_of(
        s,
        h.payload_start as int,
        g.end as int,
        f.cluster_ts(),
        f.scale,
        GroupView { frame: None, referenced: false },
    ) == cluster::group_of(
        s,
        p,
        g.end as int,
        f.cluster_ts(),
        f.scale,
        GroupView { frame: fr, referenced: g.references > 0 },
    )
}

/// A reading on the way to a frame, and the walk `f` in memory that has come as far. In a
/// BlockGroup, `p` is how far that has come, and `fr` is its frame.
spec fn tracks(s: Seq<u8>, w: Reading, f: FramesView, p: int, fr: Option<FrameView>) -> bool {
    let v = w.v;
    let c = v.cluster->Some_0;
    &&& beside(s, v, f)
    &&& match v.phase {
        WalkPhase::Idle => false,
        WalkPhase::Sibling => {
            &&& v.cluster is None
            &&& v.group is None
            &&& f.cluster_end is None
            &&& f.pos == v.pos
            &&& v.pos < v.segment_end
            &&& v.pos < s.len()
            &&& w.ask == WalkAsk::HeaderAt(v.pos)
            &&& w.out.len() == 0
        },
        WalkPhase::Length => {
            &&& v.cluster is None
            &&& v.group is None
            &&& f.cluster_end is None
            &&& f.pos == v.pos
            &&& v.pos >= v.segment_end || v.pos >= s.len()
            &&& w.ask == WalkAsk::Length
        },
        WalkPhase::Child => {
            &&& in_cluster(v, f, c)
            &&& w.ask == WalkAsk::Header
            &&& w.at == c.pos
            &&& match v.group {
                None => f.pos == c.pos && c.pos < c.end && w.out.len() == 0,
                Some(g) => in_group(s, f, c, g, p, fr) && p == c.pos && p < g.end && gathered(
                    v.filter,
                    g,
                    fr,
                    w.out,
                    f.ticks,
                    f.scale,
                ),
            }
        },
        WalkPhase::Number { end, len } => {
            &&& in_cluster(v, f, c)
            &&& w.ask == WalkAsk::Bytes(len as usize)
            &&& w.at + len == end
            &&& 0 < len <= 8
            &&& match v.group {
                None => {
                    let h = memory::header_in(s, f.pos)->Ok_0;
                    &&& f.pos < c.end
                    &&& stands(s, f.pos, h, end, c.end)
                    &&& h.id == ids::TIMESTAMP
                    &&& w.at == h.payload_start
                    &&& w.out.len() == 0
                },
                Some(g) => in_group(s, f, c, g, p, fr) && p == end && gathered(
                    v.filter,
                    g,
                    fr,
                    w.out,
                    f.ticks,
                    f.scale,
                ),
            }
        },
        WalkPhase::Peek { end, len, simple } => {
            &&& in_cluster(v, f, c)
            &&& w.out.len() == 0
            &&& match v.group {
                None => {
                    let h = memory::header_in(s, f.pos)->Ok_0;
                    &&& simple
                    &&& f.pos < c.end
                    &&& stands(s, f.pos, h, end, c.end)
                    &&& h.id == ids::SIMPLE_BLOCK
                    &&& peeked(w, h, end, len)
                },
                Some(g) => {
                    let h = memory::header_in(s, p)->Ok_0;
                    &&& !simple
                    &&& in_group(s, f, c, g, p, fr)
                    &&& p < g.end
                    &&& stands(s, p, h, end, g.end)
                    &&& h.id == ids::BLOCK
                    &&& peeked(w, h, end, len)
                    &&& g.block_seen
                    &&& g.frame is None
                    &&& fr is None
                },
            }
        },
        WalkPhase::Pass { end } => {
            &&& in_cluster(v, f, c)
            &&& passed(w, end)
            &&& match v.group {
                None => f.pos == end && end <= c.end && w.out.len() == 0,
                Some(g) => in_group(s, f, c, g, p, fr) && p == end && gathered(
                    v.filter,
                    g,
                    fr,
                    w.out,
                    f.ticks,
                    f.scale,
                ),
            }
        },
        WalkPhase::Deliver { end, frame } => {
            &&& in_cluster(v, f, c)
            &&& fr matches Some(x)
            &&& same_frame(x, frame, f.ticks, f.scale)
            &&& walk::wanted(v.filter, x.track)
            &&& copied(s, w, x, end)
            &&& match v.group {
                None => end <= c.end && cluster::next_of(f) == (
                    Ok::<Option<FrameView>, Error>(Some(x)),
                    FramesView { pos: end as int, ..f },
                ),
                Some(g) => in_group(s, f, c, g, p, fr) && p == end && g.block_seen
                    && g.frame is None,
            }
        },
    }
}

/// The reading has come to a frame, or to the end, as the walk `f` in memory does.
pub open spec fn yields(s: Seq<u8>, f: FramesView, w: Reading) -> bool {
    match w.ask {
        WalkAsk::Frame(h) => {
            let (r, g) = next_wanted(f, w.v.filter);
            &&& r matches Ok(Some(x))
            &&& w.v.cluster matches Some(c)
            &&& same_frame(x, h, c.ts_ticks, w.v.scale)
            &&& x.data == w.out
            &&& together(s, w.v, g)
            &&& w.at == c.pos
        },
        WalkAsk::End => next_wanted(f, w.v.filter).0 == Ok::<Option<FrameView>, Error>(None),
        _ => false,
    }
}

/// A block that nobody asked for was no frame, so that the walk in memory ends in an
/// error.
spec fn lost(f: FramesView, filter: Option<Seq<u64>>) -> bool {
    filter is Some && next_wanted(f, filter).0 is Err
}

/// What holds of every reading that came from where `f` stands.
spec fn sound(s: Seq<u8>, f: FramesView, w: Reading) -> bool {
    ||| lost(f, w.v.filter)
    ||| w.v.phase is Idle && yields(s, f, w)
    ||| exists|g: FramesView, p: int, fr: Option<FrameView>|
        #[trigger] tracks(s, w, g, p, fr) && next_wanted(f, w.v.filter) == next_wanted(
            g,
            w.v.filter,
        )
}

/// Between frames, what is asked for next is on the way to the next one.
#[verifier::spinoff_prover]
proof fn lemma_inside(s: Seq<u8>, f0: FramesView, f: FramesView, w: Reading)
    requires
        together(s, w.v, f),
        w.v.group is None,
        w.v.cluster matches Some(c) ==> w.at == c.pos,
        w.out.len() == 0,
        next_wanted(f0, w.v.filter) == next_wanted(f, w.v.filter),
    ensures
        sound(
            s,
            f0,
            Reading { v: walk::inside(w.v).0, ask: walk::inside(w.v).1, ..w },
        ),
{
    let x = Reading { v: walk::inside(w.v).0, ask: walk::inside(w.v).1, ..w };
    match w.v.cluster {
        None => {
            assert(tracks(s, x, f, 0, None));
        },
        Some(c) => if c.pos >= c.end {
            let g = FramesView { cluster_end: None, ..f };
            lemma_leave(f, c.end as int);
            lemma_same(f, g, w.v.filter);
            assert(tracks(s, x, g, 0, None));
        } else {
            assert(tracks(s, x, f, 0, None));
        },
    }
}

/// In a BlockGroup, when a child is dealt with.
#[verifier::spinoff_prover]
proof fn lemma_onward(
    s: Seq<u8>,
    f0: FramesView,
    f: FramesView,
    p: int,
    fr: Option<FrameView>,
    w: Reading,
)
    requires
        s.len() <= usize::MAX,
        beside(s, w.v, f),
        w.v.cluster is Some,
        w.v.group is Some,
        in_cluster(w.v, f, w.v.cluster->Some_0),
        in_group(s, f, w.v.cluster->Some_0, w.v.group->Some_0, p, fr),
        p == w.v.cluster->Some_0.pos,
        w.at == p,
        gathered(w.v.filter, w.v.group->Some_0, fr, w.out, f.ticks, f.scale),
        next_wanted(f0, w.v.filter) == next_wanted(f, w.v.filter),
    ensures
        turned(walk::onward(w.v), w) matches Ok(x) ==> sound(s, f0, x),
{
    let g = w.v.group->Some_0;
    let c = w.v.cluster->Some_0;
    let filter = w.v.filter;
    if let Ok(x) = turned(walk::onward(w.v), w) {
        if p < g.end {
            assert(tracks(s, x, f, p, fr));
        } else {
            let h = memory::header_in(s, f.pos)->Ok_0;
            lemma_group(s, f, h, g.end, c.end);
            cluster::law_frames_end(f);
            let f2 = FramesView { pos: g.end as int, ..f };
            let v2 = WalkView {
                group: None,
                cluster: Some(ClusterCursor { pos: g.end, ..c }),
                ..w.v
            };
            assert(together(s, v2, f2));
            match g.frame {
                None => {
                    assert(next_wanted(f, filter) == next_wanted(f2, filter));
                    lemma_inside(s, f0, f2, Reading { v: v2, ..w });
                },
                Some(_) => {
                    assert(next_wanted(f, filter) == cluster::next_of(f));
                    assert(yields(s, f0, x));
                },
            }
        }
    }
}

/// The header of a child of the Segment.
#[verifier::spinoff_prover]
proof fn lemma_sibling(s: Seq<u8>, f0: FramesView, f: FramesView, w: Reading)
    requires
        s.len() <= usize::MAX,
        w.v.phase is Sibling,
        tracks(s, w, f, 0, None),
        next_wanted(f0, w.v.filter) == next_wanted(f, w.v.filter),
    ensures
        answer(s, w) matches Ok(x) ==> sound(s, f0, x),
{
    if let Ok(x) = answer(s, w) {
        let h = memory::header_in(s, f.pos)->Ok_0;
        let end = h.payload_end->Some_0;
        memory::lemma_header(s, f.pos);
        let p = WalkView { left: w.v.left - 1, pos: end, ..w.v };
        if h.id == ids::CLUSTER {
            let g = FramesView {
                pos: h.payload_start as int,
                ticks: 0,
                cluster_end: Some(end as int),
                no_size: false,
                ..f
            };
            lemma_enter(s, f, h, end, w.v.segment_end);
            lemma_same(f, g, w.v.filter);
            let v = WalkView {
                cluster: Some(
                    ClusterCursor {
                        pos: h.payload_start,
                        end,
                        ts_ticks: 0,
                        has_timestamp: false,
                    },
                ),
                ..p
            };
            lemma_inside(s, f0, g, Reading { v, at: h.payload_start as int, ..w });
        } else {
            let g = FramesView { pos: end as int, ..f };
            lemma_pass_sibling(s, f, h, end, w.v.segment_end);
            lemma_same(f, g, w.v.filter);
            lemma_inside(s, f0, g, Reading { v: p, at: h.payload_start as int, ..w });
        }
    }
}

/// The header of a child of a Cluster.
#[verifier::spinoff_prover]
proof fn lemma_child(s: Seq<u8>, f0: FramesView, f: FramesView, w: Reading)
    requires
        s.len() <= usize::MAX,
        w.v.phase is Child,
        w.v.group is None,
        tracks(s, w, f, 0, None),
        next_wanted(f0, w.v.filter) == next_wanted(f, w.v.filter),
    ensures
        answer(s, w) matches Ok(x) ==> sound(s, f0, x),
{
    if let Ok(x) = answer(s, w) {
        let h = memory::header_in(s, f.pos)->Ok_0;
        let end = h.payload_end->Some_0;
        let c = w.v.cluster->Some_0;
        memory::lemma_header(s, f.pos);
        assert(stands(s, f.pos, h, end, c.end));
        if h.id == ids::TIMESTAMP || h.id == ids::SIMPLE_BLOCK {
            assert(tracks(s, x, f, 0, None));
        } else if h.id == ids::BLOCK_GROUP {
            let g = GroupCursor {
                end,
                block_seen: false,
                frame: None,
                references: 0,
                duration_ticks: None,
            };
            let v = WalkView {
                left: w.v.left - 1,
                cluster: Some(ClusterCursor { pos: h.payload_start, ..c }),
                group: Some(g),
                ..w.v
            };
            lemma_onward(
                s,
                f0,
                f,
                h.payload_start as int,
                None,
                Reading { v, at: h.payload_start as int, ..w },
            );
        } else {
            let g = FramesView { pos: end as int, ..f };
            lemma_pass_child(s, f, h, end, c.end);
            lemma_same(f, g, w.v.filter);
            assert(tracks(s, x, g, 0, None));
        }
    }
}

/// The header of a child of a BlockGroup.
#[verifier::spinoff_prover]
proof fn lemma_grandchild(
    s: Seq<u8>,
    f0: FramesView,
    f: FramesView,
    p: int,
    fr: Option<FrameView>,
    w: Reading,
)
    requires
        s.len() <= usize::MAX,
        w.v.phase is Child,
        w.v.group is Some,
        tracks(s, w, f, p, fr),
        next_wanted(f0, w.v.filter) == next_wanted(f, w.v.filter),
    ensures
        answer(s, w) matches Ok(x) ==> sound(s, f0, x),
{
    if let Ok(x) = answer(s, w) {
        let h = memory::header_in(s, p)->Ok_0;
        let end = h.payload_end->Some_0;
        let g = w.v.group->Some_0;
        memory::lemma_header(s, p);
        assert(stands(s, p, h, end, g.end));
        lemma_group_child(
            s,
            p,
            h,
            end,
            g.end,
            f.cluster_ts(),
            f.scale,
            GroupView { frame: fr, referenced: g.references > 0 },
        );
        if h.id == ids::BLOCK {
            assert(tracks(s, x, f, p, fr));
        } else {
            assert(tracks(s, x, f, end as int, fr));
        }
    }
}

/// The number that was asked for.
#[verifier::spinoff_prover]
proof fn lemma_number(
    s: Seq<u8>,
    f0: FramesView,
    f: FramesView,
    p: int,
    fr: Option<FrameView>,
    w: Reading,
)
    requires
        s.len() <= usize::MAX,
        w.v.phase is Number,
        tracks(s, w, f, p, fr),
        next_wanted(f0, w.v.filter) == next_wanted(f, w.v.filter),
    ensures
        answer(s, w) matches Ok(x) ==> sound(s, f0, x),
{
    if let Ok(x) = answer(s, w) {
        let (end, len) = match w.v.phase {
            WalkPhase::Number { end, len } => (end, len),
            _ => (0, 0),
        };
        let c = w.v.cluster->Some_0;
        let last = s.subrange(w.at, w.at + len);
        let n = bytes::uint(last) as u64;
        match w.v.group {
            None => {
                let h = memory::header_in(s, f.pos)->Ok_0;
                lemma_time(s, f, h, end, c.end);
                let g = FramesView { pos: end as int, ticks: n, ..f };
                lemma_same(f, g, w.v.filter);
                let v = WalkView {
                    cluster: Some(ClusterCursor { pos: end, ts_ticks: n, ..c }),
                    ..w.v
                };
                lemma_inside(s, f0, g, Reading { v, at: w.at + len, last, ..w });
            },
            Some(g) => {
                let v = WalkView {
                    cluster: Some(ClusterCursor { pos: end, ..c }),
                    group: Some(GroupCursor { duration_ticks: Some(n), ..g }),
                    ..w.v
                };
                lemma_onward(s, f0, f, p, fr, Reading { v, at: w.at + len, last, ..w });
            },
        }
    }
}

/// What was asked for of a block is its start.
proof fn lemma_peek(s: Seq<u8>, w: Reading, h: IoHeader, end: u64, len: u64)
    requires
        s.len() <= usize::MAX,
        w.v.phase matches WalkPhase::Peek { end: e, len: l, .. } && e == end && l == len,
        peeked(w, h, end, len),
        h.payload_start <= end <= s.len(),
        0 <= w.at,
    ensures
        ({
            let b = s.subrange(h.payload_start as int, end as int);
            let n = walk::awaited(w.v.phase);
            &&& b.len() == len
            &&& 0 <= n <= len
            &&& n == if len < MAX_INNER_HEADER {
                len as int
            } else {
                MAX_INNER_HEADER as int
            }
            &&& w.ask == WalkAsk::Bytes(n as usize)
            &&& s.subrange(w.at, w.at + n) == b.take(n)
            &&& forall|k: int|
                0 <= k <= n ==> #[trigger] b.skip(k) == b.take(n).skip(k) + s.subrange(
                    w.at + n,
                    end as int,
                )
        }),
{
    let b = s.subrange(h.payload_start as int, end as int);
    let n = walk::awaited(w.v.phase);
    assert(s.subrange(w.at, w.at + n) =~= b.take(n));
    assert forall|k: int| 0 <= k <= n implies #[trigger] b.skip(k) == b.take(n).skip(k)
        + s.subrange(w.at + n, end as int) by {
        assert(b.skip(k) =~= b.take(n).skip(k) + s.subrange(w.at + n, end as int));
    }
}

/// The start of a SimpleBlock.
#[verifier::spinoff_prover]
proof fn lemma_peek_simple(s: Seq<u8>, f0: FramesView, f: FramesView, w: Reading)
    requires
        s.len() <= usize::MAX,
        w.v.phase is Peek,
        w.v.group is None,
        tracks(s, w, f, 0, None),
        next_wanted(f0, w.v.filter) == next_wanted(f, w.v.filter),
    ensures
        answer(s, w) matches Ok(x) ==> sound(s, f0, x),
{
    if let Ok(x) = answer(s, w) {
        let (end, len, simple) = match w.v.phase {
            WalkPhase::Peek { end, len, simple } => (end, len, simple),
            _ => (0, 0, false),
        };
        let h = memory::header_in(s, f.pos)->Ok_0;
        let c = w.v.cluster->Some_0;
        let filter = w.v.filter;
        let b = s.subrange(h.payload_start as int, end as int);
        memory::lemma_header(s, f.pos);
        lemma_peek(s, w, h, end, len);
        lemma_block(w.v, b, end, true, f.cluster_ts());
        lemma_simple(s, f, h, end, c.end);
        cluster::law_frames_end(f);
        let g = FramesView { pos: end as int, ..f };
        match x.ask {
            WalkAsk::Copy { from, rest } => {
                let y = cluster::block_of(b, true, f.cluster_ts(), f.scale)->Ok_0;
                assert(b.skip(from as int) == x.last.skip(from as int) + s.subrange(
                    x.at,
                    end as int,
                ));
                assert(tracks(s, x, f, 0, Some(y)));
            },
            _ => {
                match cluster::block_of(b, true, f.cluster_ts(), f.scale) {
                    Ok(y) => {
                        assert(next_wanted(f, filter) == next_wanted(g, filter));
                        assert(tracks(s, x, g, 0, None));
                    },
                    Err(_) => {
                        assert(lost(f0, filter));
                    },
                }
            },
        }
    }
}

/// The start of a Block of a BlockGroup.
#[verifier::spinoff_prover]
proof fn lemma_peek_grouped(s: Seq<u8>, f0: FramesView, f: FramesView, p: int, w: Reading)
    requires
        s.len() <= usize::MAX,
        w.v.phase is Peek,
        w.v.group is Some,
        tracks(s, w, f, p, None),
        next_wanted(f0, w.v.filter) == next_wanted(f, w.v.filter),
    ensures
        answer(s, w) matches Ok(x) ==> sound(s, f0, x),
{
    if let Ok(x) = answer(s, w) {
        let (end, len, simple) = match w.v.phase {
            WalkPhase::Peek { end, len, simple } => (end, len, simple),
            _ => (0, 0, false),
        };
        let h = memory::header_in(s, p)->Ok_0;
        let hg = memory::header_in(s, f.pos)->Ok_0;
        let c = w.v.cluster->Some_0;
        let g = w.v.group->Some_0;
        let b = s.subrange(h.payload_start as int, end as int);
        let ts = f.cluster_ts();
        memory::lemma_header(s, p);
        memory::lemma_header(s, f.pos);
        lemma_peek(s, w, h, end, len);
        lemma_block(w.v, b, end, false, ts);
        lemma_group_child(
            s,
            p,
            h,
            end,
            g.end,
            ts,
            f.scale,
            GroupView { frame: None, referenced: g.references > 0 },
        );
        match x.ask {
            WalkAsk::Copy { from, rest } => {
                let y = cluster::block_of(b, false, ts, f.scale)->Ok_0;
                assert(b.skip(from as int) == x.last.skip(from as int) + s.subrange(
                    x.at,
                    end as int,
                ));
                assert(tracks(s, x, f, end as int, Some(y)));
            },
            _ => {
                match cluster::block_of(b, false, ts, f.scale) {
                    Ok(y) => {
                        assert(tracks(s, x, f, end as int, Some(y)));
                    },
                    Err(_) => {
                        lemma_group(s, f, hg, g.end, c.end);
                        assert(lost(f0, w.v.filter));
                    },
                }
            },
        }
    }
}

/// What was to be passed over or copied has been.
#[verifier::spinoff_prover]
proof fn lemma_done(
    s: Seq<u8>,
    f0: FramesView,
    f: FramesView,
    p: int,
    fr: Option<FrameView>,
    w: Reading,
)
    requires
        s.len() <= usize::MAX,
        w.v.phase is Pass || w.v.phase is Deliver,
        tracks(s, w, f, p, fr),
        next_wanted(f0, w.v.filter) == next_wanted(f, w.v.filter),
    ensures
        answer(s, w) matches Ok(x) ==> sound(s, f0, x),
{
    if let Ok(x) = answer(s, w) {
        let c = w.v.cluster->Some_0;
        match w.v.phase {
            WalkPhase::Pass { end } => {
                let v = WalkView { cluster: Some(ClusterCursor { pos: end, ..c }), ..w.v };
                let r = Reading { v, at: end as int, ..w };
                match w.v.group {
                    None => {
                        lemma_inside(s, f0, f, r);
                    },
                    Some(_) => {
                        lemma_onward(s, f0, f, p, fr, r);
                    },
                }
            },
            WalkPhase::Deliver { end, frame } => {
                let v = WalkView { cluster: Some(ClusterCursor { pos: end, ..c }), ..w.v };
                let y = fr->Some_0;
                assert(x.out =~= y.data);
                match w.v.group {
                    None => {
                        assert(next_wanted(f, w.v.filter) == cluster::next_of(f));
                        assert(yields(s, f0, x));
                    },
                    Some(g) => {
                        let v2 = WalkView {
                            group: Some(GroupCursor { frame: Some(frame), ..g }),
                            ..v
                        };
                        lemma_onward(
                            s,
                            f0,
                            f,
                            p,
                            fr,
                            Reading { v: v2, at: end as int, out: x.out, ..w },
                        );
                    },
                }
            },
            _ => {},
        }
    }
}

/// One answer leads on.
proof fn lemma_answer(s: Seq<u8>, f0: FramesView, w: Reading)
    requires
        s.len() <= usize::MAX,
        sound(s, f0, w),
    ensures
        answer(s, w) matches Ok(x) ==> sound(s, f0, x) && x.v.filter == w.v.filter,
{
    lemma_filter_stays(s, w);
    if !lost(f0, w.v.filter) && !(w.v.phase is Idle && yields(s, f0, w)) {
        let (f, p, fr) = choose|f: FramesView, p: int, fr: Option<FrameView>|
            #[trigger] tracks(s, w, f, p, fr) && next_wanted(f0, w.v.filter) == next_wanted(
                f,
                w.v.filter,
            );
        match w.v.phase {
            WalkPhase::Sibling => {
                assert(tracks(s, w, f, 0, None));
                lemma_sibling(s, f0, f, w);
            },
            WalkPhase::Child => {
                if w.v.group is None {
                    assert(tracks(s, w, f, 0, None));
                    lemma_child(s, f0, f, w);
                } else {
                    lemma_grandchild(s, f0, f, p, fr, w);
                }
            },
            WalkPhase::Number { .. } => {
                lemma_number(s, f0, f, p, fr, w);
            },
            WalkPhase::Peek { .. } => {
                if w.v.group is None {
                    assert(tracks(s, w, f, 0, None));
                    lemma_peek_simple(s, f0, f, w);
                } else {
                    lemma_peek_grouped(s, f0, f, p, w);
                }
            },
            WalkPhase::Length => {
                lemma_no_more(s, f);
            },
            _ => {
                lemma_done(s, f0, f, p, fr, w);
            },
        }
    }
}

/// No answer changes which tracks were asked for.
proof fn lemma_filter_stays(s: Seq<u8>, w: Reading)
    ensures
        answer(s, w) matches Ok(x) ==> x.v.filter == w.v.filter,
{
}

proof fn lemma_walking(s: Seq<u8>, v: WalkView, f: FramesView, n: nat)
    requires
        s.len() <= usize::MAX,
        together(s, v, f),
    ensures
        walking(s, v, n) matches Ok(w) ==> sound(s, f, w) && w.v.filter == v.filter,
    decreases n,
{
    if n == 0 {
        let w = WalkView { group: None, ..v };
        lemma_inside(
            s,
            f,
            f,
            Reading {
                v: w,
                ask: WalkAsk::End,
                at: match v.cluster {
                    Some(c) => c.pos as int,
                    None => 0,
                },
                last: Seq::empty(),
                out: Seq::empty(),
            },
        );
    } else {
        lemma_walking(s, v, f, (n - 1) as nat);
        if let Ok(w) = walking(s, v, (n - 1) as nat) {
            lemma_answer(s, f, w);
        }
    }
}

/// Whether a reading has come to a frame or to the end.
pub open spec fn complete(w: Reading) -> bool {
    w.ask is Frame || w.ask is End
}

/// A walk by steps, and one in memory, that stand at the same place yield the same next
/// frame of the tracks that were asked for, and then stand at the same place again; or
/// both come to the end. Only where blocks of other tracks are no frames does the walk in
/// memory fail instead, for it does not pass over them unread.
pub proof fn law_walk_yields_the_next_frame(s: Seq<u8>, v: WalkView, f: FramesView, n: nat)
    requires
        s.len() <= usize::MAX,
        together(s, v, f),
        walking(s, v, n) matches Ok(w) && complete(w),
    ensures
        ({
            let w = walking(s, v, n)->Ok_0;
            ||| yields(s, f, w)
            ||| v.filter is Some && next_wanted(f, v.filter).0 is Err
        }),
        walking(s, v, n)->Ok_0.v.filter == v.filter,
{
    lemma_walking(s, v, f, n);
}

/// The frames that were yielded with their data, one after the other, and where that
/// leaves the walk; `counts` says how many answers each took.
pub open spec fn yielded(s: Seq<u8>, v: WalkView, counts: Seq<nat>) -> Option<
    (Seq<(FrameHeader, Seq<u8>)>, WalkView),
>
    decreases counts.len(),
{
    if counts.len() == 0 {
        Some((Seq::empty(), v))
    } else {
        match yielded(s, v, counts.drop_last()) {
            None => None,
            Some((fs, u)) => match walking(s, u, counts.last()) {
                Err(_) => None,
                Ok(w) => match w.ask {
                    WalkAsk::Frame(h) => Some((fs.push((h, w.out)), w.v)),
                    _ => None,
                },
            },
        }
    }
}

/// A walk by steps over all tracks yields the frames that a walk in memory yields, call by
/// call: the times too where those of the Cluster and of the frame fit signed 64-bit
/// numbers. It comes to the end where that does.
pub proof fn law_walk_yields_all_frames(
    s: Seq<u8>,
    v: WalkView,
    f: FramesView,
    counts: Seq<nat>,
    i: nat,
)
    requires
        s.len() <= usize::MAX,
        together(s, v, f),
        v.filter is None,
        yielded(s, v, counts) is Some,
        i <= counts.len(),
    ensures
        yielded(s, v, counts)->Some_0.0.len() == counts.len(),
        i < counts.len() ==> ({
            let (h, data) = yielded(s, v, counts)->Some_0.0[i as int];
            &&& yielded(s, v, counts.take(i as int + 1)) matches Some((_, u))
            &&& u.cluster matches Some(c)
            &&& cluster::next_of(cluster::walked(f, i)).0 matches Ok(Some(x))
            &&& same_frame(x, h, c.ts_ticks, u.scale)
            &&& x.data == data
        }),
        together(s, yielded(s, v, counts)->Some_0.1, cluster::walked(f, counts.len())),
        yielded(s, v, counts)->Some_0.1.filter is None,
        forall|n: nat|
            (#[trigger] walking(s, yielded(s, v, counts)->Some_0.1, n) matches Ok(w)
                && w.ask is End) ==> cluster::next_of(cluster::walked(f, counts.len())).0 == Ok::<
                Option<FrameView>,
                Error,
            >(None),
    decreases counts.len(),
{
    let (fs, z) = yielded(s, v, counts)->Some_0;
    if counts.len() > 0 {
        let rest = counts.drop_last();
        let k = rest.len();
        let j = if i < k {
            i
        } else {
            k
        };
        law_walk_yields_all_frames(s, v, f, rest, j);
        let (before, u) = yielded(s, v, rest)->Some_0;
        let g = cluster::walked(f, k);
        law_walk_yields_the_next_frame(s, u, g, counts.last());
        assert(next_wanted(g, None) == cluster::next_of(g));
        assert(cluster::walked(f, counts.len()) == cluster::next_of(g).1);
        let w = walking(s, u, counts.last())->Ok_0;
        assert(fs == before.push((w.ask->Frame_0, w.out)));
        if i < k {
            assert(fs[i as int] == before[i as int]);
            assert(rest.take(i as int + 1) =~= counts.take(i as int + 1));
        } else if i == k {
            assert(counts.take(i as int + 1) =~= counts);
        }
    }
    let g = cluster::walked(f, counts.len());
    assert forall|n: nat|
        (#[trigger] walking(s, z, n) matches Ok(w) && w.ask is End) implies cluster::next_of(g).0
        == Ok::<Option<FrameView>, Error>(None) by {
        law_walk_yields_the_next_frame(s, z, g, n);
        assert(next_wanted(g, None) == cluster::next_of(g));
    }
}

/// A source that was opened is walked from where a walk in memory starts: with the
/// metadata that was found, both stand at the same place.
pub proof fn law_opened_source_is_walked(
    s: Seq<u8>,
    limits: StreamingLimits,
    n: nat,
)
    requires
        s.len() <= usize::MAX,
        s.len() <= i64::MAX,
        memory::opening(s, limits, n) matches Ok((_, a)) && a is Done,
    ensures
        ({
            let z = memory::opening(s, limits, n)->Ok_0.0;
            let d = open::found(z);
            together(s, walk::walk_over(d, z.left, s.len() as u64), cluster::walk_of(s, d))
        }),
{
    memory::law_opened_source_holds(s, limits, n);
}

} // verus!
