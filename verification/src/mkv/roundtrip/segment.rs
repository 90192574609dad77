//! What the children of a Segment and of the EBML header mean for what is read of a file.

use crate::mkv::demux;
use crate::mkv::demux::{CuePoint, InfoView, SegmentView, TrackView};
use crate::mkv::ebml::element;
use crate::mkv::ebml::writer;
use crate::mkv::ebml::writer::items_bytes;
use crate::mkv::roundtrip;
use crate::mkv::roundtrip::children::{
    before_zero, last_of, lemma_alone_says, lemma_short, num, short, text, Items,
};
use crate::mkv::roundtrip::file;
use crate::mkv::roundtrip::item_of;
use crate::mkv::streaming::walk;
use crate::mkv::streaming::walk::WalkView;
use crate::mkv::Error;
use vstd::prelude::*;
use vstd::utf8::*;

verus! {

/// Whether the payload of a child of the EBML header has the form that its ID asks for.
pub open spec fn header_child_fits(id: u64, p: Seq<u8>) -> bool {
    &&& id == 0x4282 ==> valid_utf8(before_zero(p))
    &&& id == 0x4287 ==> p.len() <= 8
}

/// What the children of the EBML header say: the DocType, if it is there, and its version,
/// one if that is not there.
pub open spec fn header_says(items: Items, v: (Option<Seq<char>>, u32)) -> bool {
    &&& v.0 == text(last_of(items, 0x4282))
    &&& v.1 == num(last_of(items, 0x4287), 1) % 0x1_0000_0000
}

proof fn lemma_header_fold(items: Items)
    requires
        short(items),
        forall|i: int|
            0 <= i < items.len() ==> header_child_fits((#[trigger] items[i]).0, items[i].1),
    ensures
        writer::fold(items, (None::<Seq<char>>, 1u32), item_of(demux::ebml_step())) matches Ok(v)
            && header_says(items, v),
    decreases items.len(),
{
    if items.len() > 0 {
        let rest = items.drop_last();
        lemma_short(items);
        assert forall|i: int| 0 <= i < rest.len() implies header_child_fits(
            (#[trigger] rest[i]).0,
            rest[i].1,
        ) by {
            assert(rest[i] == items[i]);
        }
        assert(items[items.len() - 1] == items.last());
        lemma_header_fold(rest);
        lemma_alone_says(items.last().0, items.last().1);
    }
}

/// The EBML header names the DocType of a file and its version. Without a DocType it is no
/// Matroska.
pub proof fn law_header_is_read(items: Items)
    requires
        short(items),
        forall|i: int|
            0 <= i < items.len() ==> header_child_fits((#[trigger] items[i]).0, items[i].1),
    ensures
        match text(last_of(items, 0x4282)) {
            Some(t) => demux::ebml_header_of(items_bytes(items)) matches Ok(v) && v.0 == t && v.1
                == num(last_of(items, 0x4287), 1) % 0x1_0000_0000,
            None => demux::ebml_header_of(items_bytes(items)) == Err::<(Seq<char>, u32), Error>(
                Error::NotMatroska,
            ),
        },
{
    reveal(demux::ebml_header_of);
    lemma_header_fold(items);
    roundtrip::lemma_agree_ebml();
    writer::law_walk_reads_items(
        items,
        (None::<Seq<char>>, 1u32),
        demux::ebml_step(),
        item_of(demux::ebml_step()),
    );
}

/// The child with number `k` is the only one with its ID.
pub open spec fn lone(items: Items, k: int, id: u64) -> bool {
    &&& 0 <= k < items.len()
    &&& items[k].0 == id
    &&& forall|j: int| 0 <= j < items.len() && j != k ==> (#[trigger] items[j]).0 != id
}

/// The child with number `k` is the first Cluster; there is none if `k` is their number.
pub open spec fn first_cluster(items: Items, k: int) -> bool {
    &&& 0 <= k <= items.len()
    &&& k < items.len() ==> items[k].0 == 0x1F43B675
    &&& forall|j: int| 0 <= j < k ==> (#[trigger] items[j]).0 != 0x1F43B675
}

/// A Segment with one Info, one Tracks and, behind the Info, one Cues, or none if `c` is the
/// number of children; and what they say.
pub open spec fn furnished(
    items: Items,
    a: int,
    b: int,
    c: int,
    info: InfoView,
    tracks: Seq<TrackView>,
    cues: Seq<CuePoint>,
) -> bool {
    &&& lone(items, a, 0x1549A966)
    &&& lone(items, b, 0x1654AE6B)
    &&& a < c <= items.len()
    &&& c < items.len() ==> lone(items, c, 0x1C53BB6B)
    &&& c == items.len() ==> cues.len() == 0 && forall|j: int|
        0 <= j < items.len() ==> (#[trigger] items[j]).0 != 0x1C53BB6B
    &&& info_reads(items[a].1, info)
    &&& tracks_read(items[b].1, tracks)
    &&& c < items.len() ==> cues_read(items[c].1, info.timestamp_scale_ns, cues)
}

/// What an Info is read as.
#[verifier::opaque]
pub open spec fn info_reads(p: Seq<u8>, info: InfoView) -> bool {
    element::walk(p, 0, demux::default_info(), demux::info_step()) == Ok::<InfoView, Error>(info)
}

/// What a Tracks is read as.
#[verifier::opaque]
pub open spec fn tracks_read(p: Seq<u8>, tracks: Seq<TrackView>) -> bool {
    element::walk(p, 0, Seq::empty(), demux::tracks_step()) == Ok::<Seq<TrackView>, Error>(tracks)
}

/// What a Cues is read as, in ticks of this length.
#[verifier::opaque]
pub open spec fn cues_read(p: Seq<u8>, scale: u64, cues: Seq<CuePoint>) -> bool {
    element::walk(p, 0, Seq::empty(), demux::cues_step(scale)) == Ok::<Seq<CuePoint>, Error>(cues)
}

/// What a child makes of a Segment.
#[verifier::opaque]
spec fn becomes(pos: int, id: u64, p: Seq<u8>, st: SegmentView, next: SegmentView) -> bool {
    file::segment_item()(pos, id, p, st) == Ok::<SegmentView, Error>(next)
}

proof fn lemma_info_child(pos: int, p: Seq<u8>, st: SegmentView, info: InfoView)
    requires
        info_reads(p, info),
        st.info == demux::default_info(),
        p.len() < writer::size_limit(),
        writer::element_bytes(0x1549A966, p).len() <= usize::MAX,
    ensures
        becomes(pos, 0x1549A966, p, st, (SegmentView { info, ..st })),
{
    reveal(info_reads);
    reveal(becomes);
    lemma_alone_says(0x1549A966, p);
}

proof fn lemma_tracks_child(pos: int, p: Seq<u8>, st: SegmentView, tracks: Seq<TrackView>)
    requires
        tracks_read(p, tracks),
        st.tracks == Seq::<TrackView>::empty(),
        p.len() < writer::size_limit(),
        writer::element_bytes(0x1654AE6B, p).len() <= usize::MAX,
    ensures
        becomes(pos, 0x1654AE6B, p, st, (SegmentView { tracks, ..st })),
{
    reveal(tracks_read);
    reveal(becomes);
    lemma_alone_says(0x1654AE6B, p);
}

proof fn lemma_cues_child(pos: int, p: Seq<u8>, st: SegmentView, cues: Seq<CuePoint>)
    requires
        cues_read(p, st.info.timestamp_scale_ns, cues),
        st.cues == Seq::<CuePoint>::empty(),
        p.len() < writer::size_limit(),
        writer::element_bytes(0x1C53BB6B, p).len() <= usize::MAX,
    ensures
        becomes(pos, 0x1C53BB6B, p, st, (SegmentView { cues, ..st })),
{
    reveal(cues_read);
    reveal(becomes);
    lemma_alone_says(0x1C53BB6B, p);
}

proof fn lemma_other_child(pos: int, id: u64, p: Seq<u8>, st: SegmentView)
    requires
        id != 0x1549A966,
        id != 0x1654AE6B,
        id != 0x1C53BB6B,
        writer::is_id(id),
        p.len() < writer::size_limit(),
        writer::element_bytes(id, p).len() <= usize::MAX,
    ensures
        becomes(
            pos,
            id,
            p,
            st,
            if id == 0x1F43B675 && st.cluster is None {
                SegmentView { cluster: Some(pos), ..st }
            } else {
                st
            },
        ),
{
    reveal(becomes);
    lemma_alone_says(id, p);
}

/// One child more.
proof fn lemma_fold_step(n: Items, st: SegmentView, next: SegmentView)
    requires
        n.len() > 0,
        writer::fold(n.drop_last(), demux::empty_segment(), file::segment_item()) == Ok::<
            SegmentView,
            Error,
        >(st),
        becomes(items_bytes(n.drop_last()).len() as int, n.last().0, n.last().1, st, next),
    ensures
        writer::fold(n, demux::empty_segment(), file::segment_item()) == Ok::<SegmentView, Error>(
            next,
        ),
{
    reveal(becomes);
}

/// What is known of a Segment behind its first `k` children.
spec fn known(
    items: Items,
    a: int,
    b: int,
    c: int,
    f: int,
    info: InfoView,
    tracks: Seq<TrackView>,
    cues: Seq<CuePoint>,
    k: int,
) -> SegmentView {
    SegmentView {
        info: if a < k {
            info
        } else {
            demux::default_info()
        },
        tracks: if b < k {
            tracks
        } else {
            Seq::empty()
        },
        cluster: if f < k {
            Some(items_bytes(items.take(f)).len() as int)
        } else {
            None
        },
        cues: if c < k {
            cues
        } else {
            Seq::empty()
        },
    }
}

#[verifier::spinoff_prover]
proof fn lemma_segment(
    items: Items,
    a: int,
    b: int,
    c: int,
    f: int,
    info: InfoView,
    tracks: Seq<TrackView>,
    cues: Seq<CuePoint>,
    k: int,
)
    requires
        short(items),
        furnished(items, a, b, c, info, tracks, cues),
        first_cluster(items, f),
        0 <= k <= items.len(),
    ensures
        short(items.take(k)),
        writer::fold(items.take(k), demux::empty_segment(), file::segment_item()) == Ok::<
            SegmentView,
            Error,
        >(known(items, a, b, c, f, info, tracks, cues, k)),
    decreases k,
{
    writer::lemma_items_prefix(items, k);
    assert forall|i: int| #![trigger items.take(k)[i]] 0 <= i < k implies writer::is_id(
        items.take(k)[i].0,
    ) && items.take(k)[i].1.len() < writer::size_limit() by {
        assert(items.take(k)[i] == items[i]);
    }
    if k == 0 {
        assert(items.take(0) =~= Seq::<(u64, Seq<u8>)>::empty());
    } else {
        lemma_segment(items, a, b, c, f, info, tracks, cues, k - 1);
        let n = items.take(k);
        assert(n.drop_last() =~= items.take(k - 1));
        assert(n.last() == items[k - 1]);
        lemma_short(n);
        let (id, p) = items[k - 1];
        let pos = items_bytes(items.take(k - 1)).len() as int;
        let st = known(items, a, b, c, f, info, tracks, cues, k - 1);
        let next = known(items, a, b, c, f, info, tracks, cues, k);
        if id == 0x1549A966 {
            assert(k - 1 == a);
            lemma_info_child(pos, p, st, info);
            assert(next == (SegmentView { info, ..st }));
        } else if id == 0x1654AE6B {
            assert(k - 1 == b);
            lemma_tracks_child(pos, p, st, tracks);
            assert(next == (SegmentView { tracks, ..st }));
        } else if id == 0x1C53BB6B {
            assert(k - 1 == c);
            lemma_cues_child(pos, p, st, cues);
            assert(next == (SegmentView { cues, ..st }));
        } else {
            lemma_other_child(pos, id, p, st);
            if id == 0x1F43B675 && st.cluster is None {
                assert(f == k - 1);
                assert(next == (SegmentView { cluster: Some(pos), ..st }));
            } else {
                assert(next == st);
            }
        }
        lemma_fold_step(n, st, next);
    }
}

/// A Segment is read from its children: what the Info, the Tracks and the Cues say, with the
/// times of the Cues in the ticks of the Info, and where the first Cluster stands.
pub proof fn law_segment_is_read(
    items: Items,
    a: int,
    b: int,
    c: int,
    f: int,
    info: InfoView,
    tracks: Seq<TrackView>,
    cues: Seq<CuePoint>,
)
    requires
        short(items),
        furnished(items, a, b, c, info, tracks, cues),
        first_cluster(items, f),
    ensures
        demux::segment_meta(items_bytes(items)) matches Ok(v) && {
            &&& v.info == info
            &&& v.tracks == tracks
            &&& v.cues == cues
            &&& v.cluster == if f < items.len() {
                Some(items_bytes(items.take(f)).len() as int)
            } else {
                None
            }
        },
{
    reveal(demux::segment_meta);
    lemma_segment(items, a, b, c, f, info, tracks, cues, items.len() as int);
    assert(items.take(items.len() as int) =~= items);
    file::lemma_agree_segment();
    writer::law_walk_reads_items(
        items,
        demux::empty_segment(),
        demux::segment_step(),
        file::segment_item(),
    );
    if c == items.len() {
        assert(cues =~= Seq::empty());
    }
}

/// A search for a time goes to the Cluster of the last index entry at or before it, of the
/// given track if there is one; of entries at one time the last counts. Without such an entry
/// it goes to the first Cluster.
pub proof fn law_search_finds_cluster(v: WalkView, ts_ns: u64, track: Option<u64>, b: int)
    requires
        0 <= b <= v.cues.len(),
        b < v.cues.len() ==> v.cues[b].ts_ns <= ts_ns && (track matches Some(t)
            ==> v.cues[b].track_number == t),
        forall|i: int|
            0 <= i < v.cues.len() && i != b && (#[trigger] v.cues[i]).ts_ns <= ts_ns && (
            track matches Some(t) ==> v.cues[i].track_number == t) ==> b < v.cues.len() && (
            v.cues[i].ts_ns < v.cues[b].ts_ns || v.cues[i].ts_ns == v.cues[b].ts_ns && i < b),
        b < v.cues.len() ==> v.segment_start + v.cues[b].cluster_position < v.segment_end,
    ensures
        walk::target_of(v, ts_ns, track) matches Ok(p) && p == if b < v.cues.len() {
            v.segment_start + v.cues[b].cluster_position
        } else {
            v.clusters_offset as int
        },
{
    lemma_search(v.cues, ts_ns, track, b, v.cues.len() as int);
}

proof fn lemma_search(cues: Seq<CuePoint>, ts_ns: u64, track: Option<u64>, b: int, n: int)
    requires
        0 <= n <= cues.len(),
        0 <= b <= cues.len(),
        b < cues.len() ==> cues[b].ts_ns <= ts_ns && (track matches Some(t)
            ==> cues[b].track_number == t),
        forall|i: int|
            0 <= i < cues.len() && i != b && (#[trigger] cues[i]).ts_ns <= ts_ns && (
            track matches Some(t) ==> cues[i].track_number == t) ==> b < cues.len() && (
            cues[i].ts_ns < cues[b].ts_ns || cues[i].ts_ns == cues[b].ts_ns && i < b),
    ensures
        match walk::cue_before(cues, ts_ns, track, n) {
            Some(x) => 0 <= x < n && b < cues.len() && (b < n ==> x == b) && (x == b
                || cues[x].ts_ns < cues[b].ts_ns || cues[x].ts_ns == cues[b].ts_ns && x < b),
            None => b >= n,
        },
    decreases n,
{
    if n > 0 {
        lemma_search(cues, ts_ns, track, b, n - 1);
    }
}

} // verus!
