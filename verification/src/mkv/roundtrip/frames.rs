//! The frames that the walker reads of Clusters that the muxer wrote.

use crate::bytes;
use crate::mkv::cluster;
use crate::mkv::cluster::{FrameView, FramesView};
use crate::mkv::ebml::element;
use crate::mkv::ebml::schema::ids;
use crate::mkv::ebml::writer;
use crate::mkv::mux;
use crate::mkv::mux::{BlockLog, ClusterLog};
use crate::mkv::roundtrip::file;
use crate::mkv::Error;
use vstd::prelude::*;

verus! {

/// The time of a block in a Cluster that starts at `start`, in nanoseconds.
pub open spec fn block_ns(start: u64, b: BlockLog) -> int {
    (start + b.delta) * mux::TIMESTAMP_SCALE_NS
}

/// A block whose track, and whose Cluster's time, the reader can represent.
pub open spec fn readable_block(start: u64, b: BlockLog) -> bool {
    &&& b.track < writer::size_limit()
    &&& start * mux::TIMESTAMP_SCALE_NS <= u64::MAX
}

/// A Cluster whose blocks the reader can represent.
pub open spec fn readable_cluster(c: ClusterLog) -> bool {
    forall|i: int| 0 <= i < c.blocks.len() ==> readable_block(c.start, #[trigger] c.blocks[i])
}

/// The frame that a block stands for.
pub open spec fn block_frame(start: u64, b: BlockLog) -> FrameView {
    FrameView {
        track: b.track,
        timestamp_ns: block_ns(start, b) as u64,
        is_keyframe: Some(b.keyframe),
        is_invisible: false,
        is_discardable: Some(false),
        data: b.data,
    }
}

/// The frames of one Cluster.
pub open spec fn cluster_frames(c: ClusterLog) -> Seq<FrameView> {
    c.blocks.map_values(|b: BlockLog| block_frame(c.start, b))
}

/// The frames of all Clusters, in the order appended.
pub open spec fn frames_of(done: Seq<ClusterLog>) -> Seq<FrameView>
    decreases done.len(),
{
    if done.len() == 0 {
        Seq::empty()
    } else {
        cluster_frames(done[0]) + frames_of(done.skip(1))
    }
}

/// The frame that a reader makes of a block. It reckons with signed 64-bit times.
pub open spec fn read_frame(start: u64, b: BlockLog) -> FrameView {
    FrameView {
        timestamp_ns: cluster::block_time(
            (start * mux::TIMESTAMP_SCALE_NS) as u64,
            b.delta as int,
            mux::TIMESTAMP_SCALE_NS,
        ),
        ..block_frame(start, b)
    }
}

/// The frames that a reader makes of one Cluster.
pub open spec fn cluster_read(c: ClusterLog) -> Seq<FrameView> {
    c.blocks.map_values(|b: BlockLog| read_frame(c.start, b))
}

/// The frames that a reader makes of all Clusters, in order.
pub open spec fn read_of(done: Seq<ClusterLog>) -> Seq<FrameView>
    decreases done.len(),
{
    if done.len() == 0 {
        Seq::empty()
    } else {
        cluster_read(done[0]) + read_of(done.skip(1))
    }
}

/// Frames as they were read are those that were logged, and so are their times if all of
/// them fit signed 64-bit numbers.
pub open spec fn told(read: Seq<FrameView>, logged: Seq<FrameView>) -> bool {
    &&& read.len() == logged.len()
    &&& forall|i: int|
        0 <= i < read.len() ==> #[trigger] read[i] == (FrameView {
            timestamp_ns: read[i].timestamp_ns,
            ..logged[i]
        })
    &&& in_range(logged) ==> read == logged
}

/// Whether all times fit signed 64-bit numbers.
pub open spec fn in_range(fs: Seq<FrameView>) -> bool {
    forall|i: int| 0 <= i < fs.len() ==> (#[trigger] fs[i]).timestamp_ns <= i64::MAX
}

/// A block whose time fits, and whose Cluster's time does, is read with its time.
proof fn lemma_time_fits(start: u64, b: BlockLog)
    requires
        start * mux::TIMESTAMP_SCALE_NS <= i64::MAX,
        0 <= block_ns(start, b) <= i64::MAX,
    ensures
        read_frame(start, b) == block_frame(start, b),
{
    let t = mux::TIMESTAMP_SCALE_NS as int;
    assert(start * t + b.delta * t == (start + b.delta) * t) by (nonlinear_arith);
    assert(-0x8000 * t <= b.delta * t <= 0x7FFF * t) by (nonlinear_arith)
        requires
            -0x8000 <= b.delta <= 0x7FFF,
            t > 0,
    ;
}

/// What is read of Clusters that start with their first block.
pub proof fn lemma_told(done: Seq<ClusterLog>)
    requires
        forall|k: int|
            0 <= k < done.len() ==> (#[trigger] done[k]).blocks.len() > 0
                && done[k].blocks[0].delta == 0 && done[k].start * mux::TIMESTAMP_SCALE_NS
                <= u64::MAX,
        forall|k: int, j: int|
            0 <= k < done.len() && 0 <= j < done[k].blocks.len() ==> 0 <= block_ns(
                done[k].start,
                #[trigger] done[k].blocks[j],
            ) <= u64::MAX,
    ensures
        told(read_of(done), frames_of(done)),
    decreases done.len(),
{
    if done.len() > 0 {
        let c = done[0];
        let rest = done.skip(1);
        assert forall|k: int| 0 <= k < rest.len() implies (#[trigger] rest[k]).blocks.len() > 0
            && rest[k].blocks[0].delta == 0 && rest[k].start * mux::TIMESTAMP_SCALE_NS
            <= u64::MAX by {
            assert(rest[k] == done[k + 1]);
        }
        assert forall|k: int, j: int|
            0 <= k < rest.len() && 0 <= j < rest[k].blocks.len() implies 0 <= block_ns(
            rest[k].start,
            #[trigger] rest[k].blocks[j],
        ) <= u64::MAX by {
            assert(rest[k] == done[k + 1]);
            assert(rest[k].blocks[j] == done[k + 1].blocks[j]);
        }
        lemma_told(rest);
        let logged = frames_of(done);
        let first = cluster_frames(c);
        if in_range(logged) {
            assert forall|j: int| 0 <= j < c.blocks.len() implies #[trigger] cluster_read(c)[j]
                == first[j] by {
                assert(logged[0] == first[0]);
                assert(logged[j] == first[j]);
                assert(0 <= block_ns(done[0].start, done[0].blocks[0]) <= u64::MAX);
                assert(0 <= block_ns(done[0].start, done[0].blocks[j]) <= u64::MAX);
                assert(logged[0].timestamp_ns == c.start * mux::TIMESTAMP_SCALE_NS);
                lemma_time_fits(c.start, c.blocks[j]);
            }
            assert(cluster_read(c) =~= first);
            assert(in_range(frames_of(rest))) by {
                assert forall|i: int| 0 <= i < frames_of(rest).len() implies (
                #[trigger] frames_of(rest)[i]).timestamp_ns <= i64::MAX by {
                    assert(logged[first.len() + i] == frames_of(rest)[i]);
                }
            }
        }
        assert forall|i: int| 0 <= i < read_of(done).len() implies #[trigger] read_of(done)[i] == (
        FrameView { timestamp_ns: read_of(done)[i].timestamp_ns, ..logged[i] }) by {
            if i >= first.len() {
                let k = i - first.len();
                assert(read_of(done)[i] == read_of(rest)[k]);
                assert(logged[i] == frames_of(rest)[k]);
            }
        }
    }
}

/// A walk over the stream `s`, whose Segment ends with it.
pub open spec fn walker(s: Seq<u8>, pos: int, ticks: u64, cluster_end: Option<int>) -> FramesView {
    FramesView {
        input: s,
        segment_end: s.len() as int,
        scale: mux::TIMESTAMP_SCALE_NS,
        pos,
        ticks,
        cluster_end,
        no_size: false,
    }
}

/// What stands in a part stands in the whole.
proof fn lemma_stands_in(s: Seq<u8>, at: int, part: Seq<u8>, pos: int, id: u64, p: Seq<u8>)
    requires
        writer::stands(part, pos, id, p),
        0 <= at,
        at + part.len() <= s.len() <= usize::MAX,
        s.subrange(at, at + part.len()) == part,
    ensures
        writer::stands(s, at + pos, id, p),
{
    reveal(writer::stands);
    let n = writer::element_len(id, p.len()) as int;
    assert(s.subrange(at + pos, at + pos + n) =~= part.subrange(pos, pos + n));
}

/// A 16-bit delta reads back.
proof fn lemma_delta(s: Seq<u8>, i: int, d: i16)
    requires
        0 <= i,
        i + 2 <= s.len(),
        s[i] == bytes::be16i(d)[0],
        s[i + 1] == bytes::be16i(d)[1],
    ensures
        cluster::signed16(s, i) == d,
{
    let u = d as u16;
    assert(d >= 0 ==> u == d) by (bit_vector)
        requires
            u == d as u16,
    ;
    assert(d < 0 ==> u == d + 0x1_0000) by (bit_vector)
        requires
            u == d as u16,
    ;
    bytes::lemma_be16(u);
}

/// A SimpleBlock's payload gives its frame back.
proof fn lemma_block_of(start: u64, b: BlockLog)
    requires
        readable_block(start, b),
    ensures
        cluster::block_of(
            mux::block_payload(b),
            true,
            (start * mux::TIMESTAMP_SCALE_NS) as u64,
            mux::TIMESTAMP_SCALE_NS,
        ) == Ok::<FrameView, Error>(read_frame(start, b)),
{
    let p = mux::block_payload(b);
    let w = writer::size_width(b.track as nat);
    writer::lemma_size_width(b.track as nat);
    assert(p.subrange(0, w) =~= writer::size_bytes(b.track as nat));
    writer::lemma_size_reads_back(p, 0, b.track as nat);
    assert(p[w] == bytes::be16i(b.delta)[0]);
    assert(p[w + 1] == bytes::be16i(b.delta)[1]);
    lemma_delta(p, w, b.delta);
    assert(p[w + 2] == if b.keyframe {
        0x80u8
    } else {
        0u8
    });
    assert(p.skip(w + 3) =~= b.data);
}

/// One SimpleBlock is one frame.
proof fn lemma_next_block(s: Seq<u8>, pos: int, end: int, start: u64, b: BlockLog)
    requires
        readable_block(start, b),
        writer::stands(s, pos, ids::SIMPLE_BLOCK, mux::block_payload(b)),
        pos < end,
    ensures
        cluster::next_of(walker(s, pos, start, Some(end))) == (
            Ok::<Option<FrameView>, Error>(Some(read_frame(start, b))),
            walker(
                s,
                pos + writer::element_len(ids::SIMPLE_BLOCK, mux::block_payload(b).len()),
                start,
                Some(end),
            ),
        ),
        writer::element_len(ids::SIMPLE_BLOCK, mux::block_payload(b).len()) > 0,
        pos + writer::element_len(ids::SIMPLE_BLOCK, mux::block_payload(b).len()) <= s.len(),
{
    reveal(writer::stands);
    reveal(cluster::next_of);
    let p = mux::block_payload(b);
    writer::lemma_element_len(ids::SIMPLE_BLOCK, p);
    writer::law_element_reads_back(s, pos, ids::SIMPLE_BLOCK, p);
    element::lemma_header_at(s, pos);
    lemma_block_of(start, b);
    let f = walker(s, pos, start, Some(end));
    assert(f.cluster_ts() == start * mux::TIMESTAMP_SCALE_NS);
}

/// The blocks of a Cluster from the `j`th on, followed by what follows it.
proof fn lemma_blocks(
    s: Seq<u8>,
    at: int,
    c: ClusterLog,
    j: int,
    rest: Seq<FrameView>,
)
    requires
        readable_cluster(c),
        0 <= j <= c.blocks.len(),
        0 <= at,
        s.len() <= usize::MAX,
        mux::cluster_payload(c).len() < writer::size_limit(),
        at + mux::cluster_payload(c).len() <= s.len(),
        s.subrange(at, at + mux::cluster_payload(c).len()) == mux::cluster_payload(c),
        cluster::all_frames(walker(s, at + mux::cluster_payload(c).len(), c.start, None)) == Ok::<
            Seq<FrameView>,
            Error,
        >(rest),
    ensures
        cluster::all_frames(
            walker(
                s,
                at + block_at(c, j),
                c.start,
                Some((at + mux::cluster_payload(c).len()) as int),
            ),
        ) == Ok::<Seq<FrameView>, Error>(cluster_read(c).skip(j) + rest),
        at + block_at(c, j) <= at + mux::cluster_payload(c).len(),
    decreases c.blocks.len() - j,
{
    let end = (at + mux::cluster_payload(c).len()) as int;
    let f = walker(s, at + block_at(c, j), c.start, Some(end));
    lemma_block_positions(c);
    if j == c.blocks.len() {
        let g = walker(s, end, c.start, None);
        assert(cluster::next_of(f) == cluster::next_of(g)) by {
            reveal(cluster::next_of);
        }
        cluster::law_frames_end(g);
        lemma_same_next(f, g);
        assert(cluster_read(c).skip(j) + rest =~= rest);
    } else {
        let b = c.blocks[j];
        lemma_block_stands(s, at, c, j);
        lemma_next_block(s, at + block_at(c, j), end, c.start, b);
        lemma_blocks(s, at, c, j + 1, rest);
        let g = walker(s, at + block_at(c, j + 1), c.start, Some(end));
        assert(cluster::next_of(f) == (
            Ok::<Option<FrameView>, Error>(Some(read_frame(c.start, b))),
            g,
        ));
        lemma_step(f, read_frame(c.start, b), g, cluster_read(c).skip(j + 1) + rest);
        assert(cluster_read(c).skip(j) + rest =~= seq![read_frame(c.start, b)] + (cluster_read(
            c,
        ).skip(j + 1) + rest));
    }
}

/// Offset of the `j`th block in its Cluster's payload.
spec fn block_at(c: ClusterLog, j: int) -> int {
    writer::items_bytes(mux::cluster_items(c).take(j + 1)).len() as int
}

/// A Cluster's payload is its children.
proof fn lemma_cluster_payload(c: ClusterLog)
    ensures
        mux::cluster_payload(c) == writer::items_bytes(mux::cluster_items(c)),
{
    let e = Seq::<(u64, Seq<u8>)>::empty();
    let t = e.push((ids::TIMESTAMP, writer::uint_bytes(c.start)));
    writer::lemma_items_push(e, ids::TIMESTAMP, writer::uint_bytes(c.start));
    writer::lemma_items_concat(t, mux::block_items(c.blocks));
    assert(writer::items_bytes(t) =~= writer::element_bytes(
        ids::TIMESTAMP,
        writer::uint_bytes(c.start),
    ));
}

/// The last block ends where the Cluster ends, and none starts behind that.
proof fn lemma_block_positions(c: ClusterLog)
    ensures
        block_at(c, c.blocks.len() as int) == mux::cluster_payload(c).len(),
        forall|j: int|
            0 <= j <= c.blocks.len() ==> #[trigger] block_at(c, j) <= mux::cluster_payload(c).len(),
{
    let items = mux::cluster_items(c);
    lemma_cluster_payload(c);
    assert(items.take(c.blocks.len() as int + 1) =~= items);
    assert forall|j: int| 0 <= j <= c.blocks.len() implies #[trigger] block_at(c, j)
        <= mux::cluster_payload(c).len() by {
        writer::lemma_items_prefix(items, j + 1);
    }
}

proof fn lemma_cluster_writable(c: ClusterLog)
    requires
        mux::cluster_payload(c).len() < writer::size_limit(),
    ensures
        writer::writable(mux::cluster_items(c)),
{
    let items = mux::cluster_items(c);
    lemma_cluster_payload(c);
    assert forall|i: int| 0 <= i < items.len() implies writer::is_id((#[trigger] items[i]).0) by {
        if i > 0 {
            assert(items[i] == mux::block_items(c.blocks)[i - 1]);
        }
    }
    writer::lemma_writable(items);
}

/// Where the `j`th block stands.
proof fn lemma_block_stands(s: Seq<u8>, at: int, c: ClusterLog, j: int)
    requires
        0 <= j < c.blocks.len(),
        0 <= at,
        s.len() <= usize::MAX,
        mux::cluster_payload(c).len() < writer::size_limit(),
        at + mux::cluster_payload(c).len() <= s.len(),
        s.subrange(at, at + mux::cluster_payload(c).len()) == mux::cluster_payload(c),
    ensures
        writer::stands(s, at + block_at(c, j), ids::SIMPLE_BLOCK, mux::block_payload(c.blocks[j])),
        block_at(c, j + 1) == block_at(c, j) + writer::element_len(
            ids::SIMPLE_BLOCK,
            mux::block_payload(c.blocks[j]).len(),
        ),
        block_at(c, j) < mux::cluster_payload(c).len(),
{
    let items = mux::cluster_items(c);
    lemma_cluster_payload(c);
    lemma_cluster_writable(c);
    assert(items[j + 1] == mux::block_items(c.blocks)[j]);
    writer::lemma_item_stands(items, j + 1);
    lemma_stands_in(
        s,
        at,
        mux::cluster_payload(c),
        block_at(c, j),
        ids::SIMPLE_BLOCK,
        mux::block_payload(c.blocks[j]),
    );
    lemma_block_positions(c);
    writer::lemma_size_width(mux::block_payload(c.blocks[j]).len());
    assert(block_at(c, j + 1) <= mux::cluster_payload(c).len());
}

/// Opening a Cluster and reading its time.
proof fn lemma_enter(s: Seq<u8>, pos: int, t: u64, c: ClusterLog)
    requires
        writer::stands(s, pos, ids::CLUSTER, mux::cluster_payload(c)),
    ensures
        ({
            let at = pos + writer::element_len(ids::CLUSTER, mux::cluster_payload(c).len())
                - mux::cluster_payload(c).len();
            let end = at + mux::cluster_payload(c).len();
            &&& 0 <= pos < at
            &&& at + block_at(c, 0) <= end <= s.len() <= usize::MAX
            &&& s.subrange(at, end) == mux::cluster_payload(c)
            &&& mux::cluster_payload(c).len() < writer::size_limit()
            &&& cluster::next_of(walker(s, pos, t, None)) == cluster::next_of(
                walker(s, at + block_at(c, 0), c.start, Some(end)),
            )
            &&& walker(s, at + block_at(c, 0), c.start, Some(end)).ahead() < walker(
                s,
                pos,
                t,
                None,
            ).ahead()
        }),
{
    let p = mux::cluster_payload(c);
    let tp = writer::uint_bytes(c.start);
    let items = mux::cluster_items(c);
    let at = pos + writer::element_len(ids::CLUSTER, p.len()) - p.len();
    let end = at + p.len();
    assert(s.subrange(at, end) == p && 0 <= pos < at && p.len() < writer::size_limit() && end
        <= s.len() <= usize::MAX) by {
        reveal(writer::stands);
        writer::lemma_element_len(ids::CLUSTER, p);
        writer::law_element_reads_back(s, pos, ids::CLUSTER, p);
    }
    lemma_open_cluster(s, pos, t, p);
    assert(writer::stands(s, at, ids::TIMESTAMP, tp) && block_at(c, 0) == writer::element_len(
        ids::TIMESTAMP,
        tp.len(),
    ) && block_at(c, 0) <= p.len()) by {
        lemma_cluster_payload(c);
        lemma_cluster_writable(c);
        lemma_block_positions(c);
        writer::lemma_item_stands(items, 0);
        assert(items.take(0) =~= Seq::<(u64, Seq<u8>)>::empty());
        assert(items[0] == (ids::TIMESTAMP, tp));
        lemma_stands_in(s, at, p, 0, ids::TIMESTAMP, tp);
    }
    lemma_read_time(s, at, end, c.start);
}

/// Opening a Cluster.
proof fn lemma_open_cluster(s: Seq<u8>, pos: int, t: u64, p: Seq<u8>)
    requires
        writer::stands(s, pos, ids::CLUSTER, p),
    ensures
        ({
            let end = pos + writer::element_len(ids::CLUSTER, p.len());
            cluster::next_of(walker(s, pos, t, None)) == cluster::next_of(
                walker(s, end - p.len(), 0, Some(end)),
            )
        }),
{
    reveal(writer::stands);
    reveal(cluster::next_of);
    writer::lemma_element_len(ids::CLUSTER, p);
    writer::law_element_reads_back(s, pos, ids::CLUSTER, p);
    element::lemma_header_at(s, pos);
}

/// Reading a Cluster's time.
proof fn lemma_read_time(s: Seq<u8>, pos: int, end: int, start: u64)
    requires
        writer::stands(s, pos, ids::TIMESTAMP, writer::uint_bytes(start)),
        pos < end,
    ensures
        ({
            let n = writer::element_len(ids::TIMESTAMP, writer::uint_bytes(start).len());
            &&& cluster::next_of(walker(s, pos, 0, Some(end))) == cluster::next_of(
                walker(s, pos + n, start, Some(end)),
            )
            &&& 0 < n
            &&& pos + n <= s.len()
        }),
{
    reveal(writer::stands);
    reveal(cluster::next_of);
    let tp = writer::uint_bytes(start);
    writer::law_uint_reads_back(start);
    writer::lemma_element_len(ids::TIMESTAMP, tp);
    writer::law_element_reads_back(s, pos, ids::TIMESTAMP, tp);
    element::lemma_header_at(s, pos);
}

/// Where the `i`th Cluster starts.
spec fn cluster_at(done: Seq<ClusterLog>, i: int) -> int {
    writer::items_bytes(mux::clusters_items(done).take(i)).len() as int
}

/// Clusters that stand at `base`, the walk ending behind them, give their frames.
proof fn lemma_clusters(s: Seq<u8>, base: int, done: Seq<ClusterLog>, i: int, t: u64)
    requires
        0 <= i <= done.len(),
        0 <= base,
        s.len() <= usize::MAX,
        base + mux::clusters_bytes(done).len() <= s.len(),
        mux::clusters_bytes(done).len() < writer::size_limit(),
        s.subrange(base, base + mux::clusters_bytes(done).len()) == mux::clusters_bytes(done),
        forall|k: int| 0 <= k < done.len() ==> readable_cluster(#[trigger] done[k]),
        forall|u: u64|
            #[trigger] cluster::next_of(
                walker(s, base + mux::clusters_bytes(done).len(), u, None),
            ).0 == Ok::<Option<FrameView>, Error>(None),
    ensures
        cluster::all_frames(walker(s, base + cluster_at(done, i), t, None)) == Ok::<
            Seq<FrameView>,
            Error,
        >(read_of(done.skip(i))),
    decreases done.len() - i,
{
    let items = mux::clusters_items(done);
    if i == done.len() {
        assert(items.take(i) =~= items);
        assert(done.skip(i) =~= Seq::<ClusterLog>::empty());
        assert(read_of(done.skip(i)) =~= Seq::<FrameView>::empty());
        lemma_no_more(walker(s, base + cluster_at(done, i), t, None));
    } else {
        let c = done[i];
        let p = mux::cluster_payload(c);
        assert(items[i] == (ids::CLUSTER, p));
        assert forall|k: int| 0 <= k < items.len() implies writer::is_id((#[trigger] items[k]).0) by {
            assert(items[k].0 == ids::CLUSTER);
        }
        writer::lemma_writable(items);
        writer::lemma_item_stands(items, i);
        let pos = base + cluster_at(done, i);
        lemma_stands_in(
            s,
            base,
            mux::clusters_bytes(done),
            cluster_at(done, i),
            ids::CLUSTER,
            p,
        );
        lemma_enter(s, pos, t, c);
        let at = pos + writer::element_len(ids::CLUSTER, p.len()) - p.len();
        let end = at + p.len();
        assert(end == base + cluster_at(done, i + 1));
        lemma_clusters(s, base, done, i + 1, c.start);
        let rest = read_of(done.skip(i + 1));
        lemma_blocks(s, at, c, 0, rest);
        let f = walker(s, pos, t, None);
        let g = walker(s, at + block_at(c, 0), c.start, Some(end));
        cluster::law_frames_end(g);
        lemma_same_next(f, g);
        assert(done.skip(i)[0] == c);
        assert(done.skip(i).skip(1) =~= done.skip(i + 1));
        assert(cluster_read(c).skip(0) =~= cluster_read(c));
    }
}

/// Walks that go on alike give the same frames.
proof fn lemma_same_next(f: FramesView, g: FramesView)
    requires
        cluster::next_of(f) == cluster::next_of(g),
        g.ahead() <= f.ahead(),
        cluster::next_of(g).0 matches Ok(Some(_)) ==> cluster::next_of(g).1.ahead() < g.ahead(),
    ensures
        cluster::all_frames(f) == cluster::all_frames(g),
{
    reveal(cluster::all_frames);
}

/// A frame, and then the rest.
proof fn lemma_step(f: FramesView, x: FrameView, g: FramesView, rest: Seq<FrameView>)
    requires
        cluster::next_of(f) == (Ok::<Option<FrameView>, Error>(Some(x)), g),
        g.ahead() < f.ahead(),
        cluster::all_frames(g) == Ok::<Seq<FrameView>, Error>(rest),
    ensures
        cluster::all_frames(f) == Ok::<Seq<FrameView>, Error>(seq![x] + rest),
{
    reveal(cluster::all_frames);
}

/// No frame is left.
proof fn lemma_no_more(f: FramesView)
    requires
        cluster::next_of(f).0 == Ok::<Option<FrameView>, Error>(None),
    ensures
        cluster::all_frames(f) == Ok::<Seq<FrameView>, Error>(Seq::empty()),
{
    reveal(cluster::all_frames);
}

/// The frames of a stream whose Segment ends with it and whose children `sb` are
/// a head, Clusters and at most an index.
pub proof fn lemma_tail_frames(
    s: Seq<u8>,
    head: Seq<u8>,
    done: Seq<ClusterLog>,
    sb: Seq<u8>,
    index: Option<Seq<u8>>,
)
    requires
        s.len() <= usize::MAX,
        sb.len() <= s.len(),
        s.subrange(s.len() - sb.len(), s.len() as int) == sb,
        head.len() + mux::clusters_bytes(done).len() <= sb.len(),
        sb.take((head + mux::clusters_bytes(done)).len() as int) == head + mux::clusters_bytes(
            done,
        ),
        match index {
            None => sb == head + mux::clusters_bytes(done),
            Some(cb) => writer::stands(
                sb,
                (head + mux::clusters_bytes(done)).len() as int,
                ids::CUES,
                cb,
            ) && (head + mux::clusters_bytes(done)).len() + writer::element_len(
                ids::CUES,
                cb.len(),
            ) == sb.len(),
        },
        mux::clusters_bytes(done).len() < writer::size_limit(),
        forall|k: int| 0 <= k < done.len() ==> readable_cluster(#[trigger] done[k]),
    ensures
        cluster::all_frames(walker(s, s.len() - sb.len() + head.len(), 0, None)) == Ok::<
            Seq<FrameView>,
            Error,
        >(read_of(done)),
{
    let at = s.len() - sb.len();
    let clusters = mux::clusters_bytes(done);
    let base = at + head.len();
    lemma_middle(s, at, head, clusters, sb);
    assert forall|u: u64|
        #[trigger] cluster::next_of(walker(s, base + clusters.len(), u, None)).0 == Ok::<
            Option<FrameView>,
            Error,
        >(None) by {
        match index {
            Some(cb) => {
                lemma_stands_in(s, at, sb, (head + clusters).len() as int, ids::CUES, cb);
                lemma_last_element(s, base + clusters.len(), ids::CUES, cb, u);
            },
            None => {
                reveal(cluster::next_of);
            },
        }
    }
    lemma_clusters(s, base, done, 0, 0);
    assert(mux::clusters_items(done).take(0) =~= Seq::<(u64, Seq<u8>)>::empty());
    assert(done.skip(0) =~= done);
}

/// A finished file ends with the Segment's children.
proof fn lemma_segment_tail(m: mux::MuxView, duration: Option<u64>)
    ensures
        ({
            let s = mux::file_bytes(m, duration);
            let sb = writer::items_bytes(mux::segment_items(m, duration));
            s.len() >= sb.len() && s.subrange(s.len() - sb.len(), s.len() as int) == sb
        }),
{
    reveal(mux::file_bytes);
    let s = mux::file_bytes(m, duration);
    let sb = writer::items_bytes(mux::segment_items(m, duration));
    writer::lemma_element_longer(ids::SEGMENT, sb);
    assert(s.subrange(s.len() - sb.len(), s.len() as int) =~= sb);
}

/// The Segment's children are its head, its Clusters and, if there is an index,
/// Cues.
proof fn lemma_segment_parts(m: mux::MuxView, duration: Option<u64>)
    requires
        mux::file_bytes(m, duration).len() < writer::size_limit(),
        mux::file_bytes(m, duration).len() <= usize::MAX,
    ensures
        ({
            let sb = writer::items_bytes(mux::segment_items(m, duration));
            let hc = writer::items_bytes(mux::head_items(m, duration)) + mux::clusters_bytes(
                m.done,
            );
            &&& hc.len() <= sb.len()
            &&& sb.take(hc.len() as int) == hc
            &&& mux::clusters_bytes(m.done).len() < writer::size_limit()
            &&& match index_of(m, duration) {
                Some(cb) => writer::stands(sb, hc.len() as int, ids::CUES, cb) && hc.len()
                    + writer::element_len(ids::CUES, cb.len()) == sb.len(),
                None => sb == hc,
            }
        }),
{
    let items = mux::segment_items(m, duration);
    let hi = mux::head_items(m, duration);
    let ci = mux::clusters_items(m.done);
    let has = mux::cues(m.done).len() > 0;
    let cb = writer::items_bytes(mux::cues_items(mux::cues(m.done), mux::clusters_at(m, duration)));
    let hc = writer::items_bytes(hi) + mux::clusters_bytes(m.done);
    writer::lemma_items_concat(hi, ci);
    assert(items == mux::with(hi + ci, has, ids::CUES, cb)) by {
        reveal(mux::segment_items);
    }
    mux::lemma_layout(m, duration);
    if has {
        file::lemma_segment_writable(m, duration);
        lemma_last_stands(hi + ci, ids::CUES, cb);
    } else {
        assert(writer::items_bytes(items).take(hc.len() as int) =~= hc);
    }
}

/// Where the last item stands.
proof fn lemma_last_stands(items: Seq<(u64, Seq<u8>)>, id: u64, p: Seq<u8>)
    requires
        writer::items_bytes(items.push((id, p))).len() <= usize::MAX,
        writer::writable(items.push((id, p))),
    ensures
        writer::stands(
            writer::items_bytes(items.push((id, p))),
            writer::items_bytes(items).len() as int,
            id,
            p,
        ),
        writer::items_bytes(items.push((id, p))).len() == writer::items_bytes(items).len()
            + writer::element_len(id, p.len()),
        writer::items_bytes(items.push((id, p))).take(writer::items_bytes(items).len() as int)
            == writer::items_bytes(items),
{
    let all = items.push((id, p));
    assert(all.take(items.len() as int) =~= items);
    assert(all.take(all.len() as int) =~= all);
    writer::lemma_item_stands(all, items.len() as int);
    writer::lemma_items_push(items, id, p);
    assert(writer::items_bytes(all).take(writer::items_bytes(items).len() as int)
        =~= writer::items_bytes(items));
}

/// A part of the tail of a stream.
proof fn lemma_middle(s: Seq<u8>, at: int, head: Seq<u8>, mid: Seq<u8>, tail: Seq<u8>)
    requires
        0 <= at,
        at + tail.len() == s.len(),
        s.subrange(at, s.len() as int) == tail,
        head.len() + mid.len() <= tail.len(),
        tail.take((head + mid).len() as int) == head + mid,
    ensures
        s.subrange(at + head.len(), at + head.len() + mid.len()) == mid,
{
    let r = s.subrange(at + head.len(), at + head.len() + mid.len());
    assert forall|i: int| 0 <= i < mid.len() implies r[i] == mid[i] by {
        assert(s.subrange(at, s.len() as int)[head.len() + i] == s[at + head.len() + i]);
        assert(tail.take((head + mid).len() as int)[head.len() + i] == tail[head.len() + i]);
    }
    assert(r =~= mid);
}

/// An element that is no Cluster and ends the stream ends the walk.
proof fn lemma_last_element(s: Seq<u8>, pos: int, id: u64, p: Seq<u8>, u: u64)
    requires
        writer::stands(s, pos, id, p),
        id != ids::CLUSTER,
        pos + writer::element_len(id, p.len()) == s.len(),
    ensures
        cluster::next_of(walker(s, pos, u, None)).0 == Ok::<Option<FrameView>, Error>(None),
{
    reveal(cluster::next_of);
    reveal(writer::stands);
    writer::lemma_element_len(id, p);
    writer::law_element_reads_back(s, pos, id, p);
    element::lemma_header_at(s, pos);
    let f = walker(s, s.len() as int, u, None);
    assert(cluster::next_of(f).0 == Ok::<Option<FrameView>, Error>(None));
}

/// The frames that a finished file gives are those of its blocks, in order.
pub proof fn law_file_frames_read_back(m: mux::MuxView, duration: Option<u64>)
    requires
        mux::file_bytes(m, duration).len() < writer::size_limit(),
        mux::file_bytes(m, duration).len() <= usize::MAX,
        forall|k: int| 0 <= k < m.done.len() ==> readable_cluster(#[trigger] m.done[k]),
    ensures
        cluster::all_frames(
            cluster::walk_of(mux::file_bytes(m, duration), file::written_file(m, duration)),
        ) == Ok::<Seq<FrameView>, Error>(read_of(m.done)),
{
    lemma_file_walk(m, duration);
    let s = mux::file_bytes(m, duration);
    let sb = writer::items_bytes(mux::segment_items(m, duration));
    let head = writer::items_bytes(mux::head_items(m, duration));
    let index = index_of(m, duration);
    if m.done.len() > 0 {
        lemma_segment_tail(m, duration);
        lemma_segment_parts(m, duration);
        lemma_tail_frames(s, head, m.done, sb, index);
    } else {
        lemma_past_end(s, s.len() as int);
        assert(read_of(m.done) =~= Seq::<FrameView>::empty());
    }
}

/// Cues of a finished file, if it has one.
spec fn index_of(m: mux::MuxView, duration: Option<u64>) -> Option<Seq<u8>> {
    if mux::cues(m.done).len() > 0 {
        Some(
            writer::items_bytes(
                mux::cues_items(mux::cues(m.done), mux::clusters_at(m, duration)),
            ),
        )
    } else {
        None
    }
}

/// A walk that starts at the end finds no frame.
pub proof fn lemma_past_end(s: Seq<u8>, pos: int)
    requires
        pos >= s.len(),
    ensures
        cluster::all_frames(walker(s, pos, 0, None)) == Ok::<Seq<FrameView>, Error>(Seq::empty()),
{
    reveal(cluster::next_of);
    lemma_no_more(walker(s, pos, 0, None));
}

/// Where the walk over a finished file starts.
proof fn lemma_file_walk(m: mux::MuxView, duration: Option<u64>)
    ensures
        ({
            let s = mux::file_bytes(m, duration);
            let sb = writer::items_bytes(mux::segment_items(m, duration));
            let head = writer::items_bytes(mux::head_items(m, duration));
            cluster::walk_of(s, file::written_file(m, duration)) == walker(
                s,
                if m.done.len() > 0 {
                    s.len() - sb.len() + head.len()
                } else {
                    s.len() as int
                },
                0,
                None,
            )
        }),
{
    mux::lemma_layout(m, duration);
}

/// A Cluster of a finished file stands where its offset among the Clusters says.
pub proof fn lemma_cluster_stands(m: mux::MuxView, duration: Option<u64>, k: int)
    requires
        mux::file_bytes(m, duration).len() < writer::size_limit(),
        mux::file_bytes(m, duration).len() <= usize::MAX,
        0 <= k < m.done.len(),
    ensures
        writer::stands(
            mux::file_bytes(m, duration),
            file::written_file(m, duration).segment_payload_start + mux::clusters_at(m, duration)
                + mux::clusters_bytes(m.done.take(k)).len(),
            ids::CLUSTER,
            mux::cluster_payload(m.done[k]),
        ),
        mux::clusters_at(m, duration) + mux::clusters_bytes(m.done.take(k)).len()
            < mux::file_bytes(m, duration).len(),
{
    let s = mux::file_bytes(m, duration);
    let sb = writer::items_bytes(mux::segment_items(m, duration));
    let head = writer::items_bytes(mux::head_items(m, duration));
    let done = m.done;
    let items = mux::clusters_items(done);
    let p = mux::cluster_payload(done[k]);
    lemma_segment_tail(m, duration);
    lemma_segment_parts(m, duration);
    mux::lemma_layout(m, duration);
    lemma_middle(s, s.len() - sb.len(), head, mux::clusters_bytes(done), sb);
    assert(items[k] == (ids::CLUSTER, p));
    assert forall|j: int| 0 <= j < items.len() implies writer::is_id((#[trigger] items[j]).0) by {
        assert(items[j].0 == ids::CLUSTER);
    }
    writer::lemma_writable(items);
    writer::lemma_item_stands(items, k);
    assert(items.take(k) =~= mux::clusters_items(done.take(k)));
    lemma_stands_in(
        s,
        s.len() - sb.len() + head.len(),
        mux::clusters_bytes(done),
        cluster_at(done, k),
        ids::CLUSTER,
        p,
    );
    writer::lemma_items_prefix(items, k);
}

} // verus!
