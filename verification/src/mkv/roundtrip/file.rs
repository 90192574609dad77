//! The metadata that the demuxer reads of a file that the muxer finished, or of
//! a stream that it began.

use crate::mkv::demux;
use crate::mkv::demux::TrackView;
use crate::mkv::ebml::element;
use crate::mkv::ebml::schema::ids;
use crate::mkv::ebml::writer;
use crate::mkv::mux;
use crate::mkv::profile;
use crate::mkv::roundtrip;
use crate::mkv::Error;
use vstd::prelude::*;

verus! {

/// What one child of the Segment, alone but at offset `pos`, makes of `st`.
pub open spec fn segment_item() -> spec_fn(int, u64, Seq<u8>, demux::SegmentView) -> Result<
    demux::SegmentView,
    Error,
> {
    |pos: int, id: u64, p: Seq<u8>, st: demux::SegmentView|
        if id == ids::CLUSTER {
            Ok(
                demux::SegmentView {
                    cluster: if st.cluster is Some {
                        st.cluster
                    } else {
                        Some(pos)
                    },
                    ..st
                },
            )
        } else {
            demux::segment_field(
                writer::element_bytes(id, p),
                writer::header_of(0, id, p.len()),
                st,
            )
        }
}

pub proof fn lemma_agree_segment()
    ensures
        writer::agree(demux::segment_step(), segment_item()),
{
    assert forall|s: Seq<u8>, pos: int, id: u64, p: Seq<u8>, st: demux::SegmentView|
        #![trigger demux::segment_step()(s, writer::header_of(pos, id, p.len()), st), writer::stands(s, pos, id, p)]
        writer::stands(s, pos, id, p) implies demux::segment_step()(
        s,
        writer::header_of(pos, id, p.len()),
        st,
    ) == segment_item()(pos, id, p, st) by {
        reveal(writer::stands);
        roundtrip::lemma_both(s, pos, id, p);
        writer::lemma_element_len(id, p);
    }
}

/// A reader accepts a muxer's tracks, and its index entries' times fit 64 bits.
#[verifier::opaque]
pub open spec fn readable(m: mux::MuxView) -> bool {
    &&& roundtrip::readable_tracks(m.tracks)
    &&& forall|i: int|
        0 <= i < mux::cues(m.done).len() ==> (#[trigger] mux::cues(m.done)[i]).ticks
            * mux::TIMESTAMP_SCALE_NS <= u64::MAX
}

/// The Segment up to Tracks.
spec fn head_state(m: mux::MuxView, duration: Option<u64>) -> demux::SegmentView {
    demux::SegmentView {
        info: roundtrip::written_info(m, duration),
        tracks: roundtrip::written_tracks(m.tracks),
        cluster: None,
        cues: Seq::empty(),
    }
}

/// What Info alone makes of an empty Segment.
pub proof fn lemma_info_item(pos: int, m: mux::MuxView, duration: Option<u64>)
    requires
        readable(m),
        mux::info_body(m, duration).len() < writer::size_limit(),
        writer::element_bytes(ids::INFO, mux::info_body(m, duration)).len() <= usize::MAX,
    ensures
        segment_item()(pos, ids::INFO, mux::info_body(m, duration), demux::empty_segment()) == Ok::<
            demux::SegmentView,
            Error,
        >(
            (demux::SegmentView {
                info: roundtrip::written_info(m, duration),
                ..demux::empty_segment()
            }),
        ),
{
    reveal(readable);
    let b = mux::info_body(m, duration);
    writer::lemma_element_longer(ids::INFO, b);
    roundtrip::lemma_alone(ids::INFO, b);
    roundtrip::law_info_reads_back(m, duration);
}

/// What Tracks alone makes of a Segment without tracks.
pub proof fn lemma_tracks_item(pos: int, m: mux::MuxView, st: demux::SegmentView)
    requires
        readable(m),
        st.tracks == Seq::<TrackView>::empty(),
        mux::tracks_body(m).len() < writer::size_limit(),
        writer::element_bytes(ids::TRACKS, mux::tracks_body(m)).len() <= usize::MAX,
    ensures
        segment_item()(pos, ids::TRACKS, mux::tracks_body(m), st) == Ok::<
            demux::SegmentView,
            Error,
        >((demux::SegmentView { tracks: roundtrip::written_tracks(m.tracks), ..st })),
{
    reveal(readable);
    let b = mux::tracks_body(m);
    writer::lemma_element_longer(ids::TRACKS, b);
    roundtrip::lemma_alone(ids::TRACKS, b);
    roundtrip::law_tracks_read_back(m);
}

/// What Cues alone makes of a Segment without an index.
proof fn lemma_cues_item(pos: int, m: mux::MuxView, base: int, st: demux::SegmentView)
    requires
        readable(m),
        st.cues == Seq::<demux::CuePoint>::empty(),
        st.info.timestamp_scale_ns == mux::TIMESTAMP_SCALE_NS,
        writer::items_bytes(mux::cues_items(mux::cues(m.done), base)).len() < writer::size_limit(),
        writer::element_bytes(
            ids::CUES,
            writer::items_bytes(mux::cues_items(mux::cues(m.done), base)),
        ).len() <= usize::MAX,
    ensures
        segment_item()(
            pos,
            ids::CUES,
            writer::items_bytes(mux::cues_items(mux::cues(m.done), base)),
            st,
        ) == Ok::<demux::SegmentView, Error>(
            (demux::SegmentView { cues: roundtrip::written_cues(mux::cues(m.done), base), ..st }),
        ),
{
    reveal(readable);
    let b = writer::items_bytes(mux::cues_items(mux::cues(m.done), base));
    writer::lemma_element_longer(ids::CUES, b);
    roundtrip::lemma_alone(ids::CUES, b);
    roundtrip::law_cues_read_back(mux::cues(m.done), base);
}

/// Clusters only mark where the first of them stands.
pub proof fn lemma_clusters_fold(
    head: Seq<(u64, Seq<u8>)>,
    done: Seq<mux::ClusterLog>,
    st: demux::SegmentView,
    h: demux::SegmentView,
)
    requires
        writer::fold(head, st, segment_item()) == Ok::<demux::SegmentView, Error>(h),
        h.cluster is None,
    ensures
        writer::fold(head + mux::clusters_items(done), st, segment_item()) == Ok::<
            demux::SegmentView,
            Error,
        >(
            (demux::SegmentView {
                cluster: if done.len() > 0 {
                    Some(writer::items_bytes(head).len() as int)
                } else {
                    None
                },
                ..h
            }),
        ),
    decreases done.len(),
{
    let items = head + mux::clusters_items(done);
    if done.len() == 0 {
        assert(items =~= head);
    } else {
        let prev = done.drop_last();
        lemma_clusters_fold(head, prev, st, h);
        assert(items.drop_last() =~= head + mux::clusters_items(prev));
        assert(items.last() == (ids::CLUSTER, mux::cluster_payload(done.last())));
        if prev.len() == 0 {
            assert(head + mux::clusters_items(prev) =~= head);
        }
    }
}

/// The Segment's children fold to its metadata.
proof fn lemma_segment_fold(m: mux::MuxView, duration: Option<u64>)
    requires
        readable(m),
        mux::file_bytes(m, duration).len() < writer::size_limit(),
        mux::file_bytes(m, duration).len() <= usize::MAX,
    ensures
        writer::fold(mux::segment_items(m, duration), demux::empty_segment(), segment_item())
            == Ok::<demux::SegmentView, Error>(written_segment(m, duration)),
{
    reveal(mux::file_bytes);
    reveal(mux::segment_items);
    let st = demux::empty_segment();
    let g = segment_item();
    let e = Seq::<(u64, Seq<u8>)>::empty();
    let sh = writer::items_bytes(mux::seek_head_items(m, duration));
    let ib = mux::info_body(m, duration);
    let tb = mux::tracks_body(m);
    let i1 = e.push((ids::SEEK_HEAD, sh));
    let i2 = i1.push((ids::INFO, ib));
    let i3 = mux::head_items(m, duration);
    let base = mux::clusters_at(m, duration);
    let cb = writer::items_bytes(mux::cues_items(mux::cues(m.done), base));
    let i4 = i3 + mux::clusters_items(m.done);
    reveal(mux::file_bytes);
    reveal(mux::segment_items);
    let all = mux::segment_items(m, duration);
    mux::lemma_layout(m, duration);
    lemma_parts_fit(m, duration);
    let s1 = demux::SegmentView { info: roundtrip::written_info(m, duration), ..st };
    assert(writer::fold(i1, st, g) == Ok::<demux::SegmentView, Error>(st)) by {
        writer::lemma_fold_push(e, ids::SEEK_HEAD, sh, st, g);
    }
    assert(writer::fold(i2, st, g) == Ok::<demux::SegmentView, Error>(s1)) by {
        writer::lemma_fold_push(i1, ids::INFO, ib, st, g);
        lemma_info_item(writer::items_bytes(i1).len() as int, m, duration);
    }
    assert(writer::fold(i3, st, g) == Ok::<demux::SegmentView, Error>(head_state(m, duration))) by {
        writer::lemma_fold_push(i2, ids::TRACKS, tb, st, g);
        lemma_tracks_item(writer::items_bytes(i2).len() as int, m, s1);
    }
    lemma_clusters_fold(i3, m.done, st, head_state(m, duration));
    let s4 = demux::SegmentView {
        cluster: if m.done.len() > 0 {
            Some(base)
        } else {
            None
        },
        ..head_state(m, duration)
    };
    assert(writer::fold(i4, st, g) == Ok::<demux::SegmentView, Error>(s4));
    if mux::cues(m.done).len() > 0 {
        writer::lemma_fold_push(i4, ids::CUES, cb, st, g);
        lemma_cues_item(writer::items_bytes(i4).len() as int, m, base, s4);
    } else {
        assert(roundtrip::written_cues(mux::cues(m.done), base) =~= Seq::empty());
    }
}

/// The Segment's larger children, as elements, are no longer than the file.
proof fn lemma_parts_fit(m: mux::MuxView, duration: Option<u64>)
    ensures
        writer::element_bytes(ids::INFO, mux::info_body(m, duration)).len() <= mux::file_bytes(
            m,
            duration,
        ).len(),
        writer::element_bytes(ids::TRACKS, mux::tracks_body(m)).len() <= mux::file_bytes(
            m,
            duration,
        ).len(),
        mux::cues(m.done).len() > 0 ==> writer::element_bytes(
            ids::CUES,
            writer::items_bytes(mux::cues_items(mux::cues(m.done), mux::clusters_at(m, duration))),
        ).len() <= mux::file_bytes(m, duration).len(),
{
    reveal(mux::file_bytes);
    reveal(mux::segment_items);
    let head = mux::head_items(m, duration);
    let all = mux::segment_items(m, duration);
    assert(head[1] == (ids::INFO, mux::info_body(m, duration)));
    assert(head[2] == (ids::TRACKS, mux::tracks_body(m)));
    assert(all[1] == head[1]);
    assert(all[2] == head[2]);
    writer::lemma_item_fits(all, 1);
    writer::lemma_item_fits(all, 2);
    if mux::cues(m.done).len() > 0 {
        writer::lemma_item_fits(all, all.len() - 1);
    }
    writer::lemma_element_longer(ids::SEGMENT, writer::items_bytes(all));
}

/// The Segment of a finished file.
pub open spec fn written_segment(m: mux::MuxView, duration: Option<u64>) -> demux::SegmentView {
    demux::SegmentView {
        info: roundtrip::written_info(m, duration),
        tracks: roundtrip::written_tracks(m.tracks),
        cluster: if m.done.len() > 0 {
            Some(mux::clusters_at(m, duration))
        } else {
            None
        },
        cues: roundtrip::written_cues(mux::cues(m.done), mux::clusters_at(m, duration)),
    }
}

/// The metadata of a stream of `total` bytes whose last `body` bytes are the
/// children of its Segment.
pub open spec fn placed(d: profile::DocType, seg: demux::SegmentView, total: int, body: int) ->
    demux::DemuxView {
    demux::DemuxView {
        doc_type: d,
        doc_type_version: 4,
        info: seg.info,
        tracks: seg.tracks,
        clusters_offset: match seg.cluster {
            Some(c) => total - body + c,
            None => total,
        },
        segment_end: total,
        segment_payload_start: total - body,
        cues: seg.cues,
    }
}

/// The metadata of a finished file.
pub open spec fn written_file(m: mux::MuxView, duration: Option<u64>) -> demux::DemuxView {
    placed(
        m.doc_type,
        written_segment(m, duration),
        mux::file_bytes(m, duration).len() as int,
        writer::items_bytes(mux::segment_items(m, duration)).len() as int,
    )
}

/// All IDs are proper.
spec fn ids_ok(items: Seq<(u64, Seq<u8>)>) -> bool {
    forall|i: int| 0 <= i < items.len() ==> writer::is_id((#[trigger] items[i]).0)
}

proof fn lemma_ids_concat(a: Seq<(u64, Seq<u8>)>, b: Seq<(u64, Seq<u8>)>)
    requires
        ids_ok(a),
        ids_ok(b),
    ensures
        ids_ok(a + b),
{
    assert forall|i: int| 0 <= i < (a + b).len() implies writer::is_id((#[trigger] (a + b)[i]).0) by {
        if i < a.len() {
            assert((a + b)[i] == a[i]);
        } else {
            assert((a + b)[i] == b[i - a.len()]);
        }
    }
}

proof fn lemma_ids_with(a: Seq<(u64, Seq<u8>)>, cond: bool, id: u64, p: Seq<u8>)
    requires
        ids_ok(a),
        writer::is_id(id),
    ensures
        ids_ok(mux::with(a, cond, id, p)),
{
}

/// The Segment's children can be written.
pub proof fn lemma_segment_writable(m: mux::MuxView, duration: Option<u64>)
    requires
        mux::file_bytes(m, duration).len() < writer::size_limit(),
    ensures
        writer::writable(mux::segment_items(m, duration)),
{
    let head = mux::head_items(m, duration);
    let clusters = mux::clusters_items(m.done);
    let base = mux::clusters_at(m, duration);
    let cb = writer::items_bytes(mux::cues_items(mux::cues(m.done), base));
    assert(ids_ok(head)) by {
        assert(head.len() == 3);
    }
    assert(ids_ok(clusters)) by {
        assert forall|i: int| 0 <= i < clusters.len() implies writer::is_id(
            (#[trigger] clusters[i]).0,
        ) by {
            assert(clusters[i].0 == ids::CLUSTER);
        }
    }
    lemma_ids_concat(head, clusters);
    lemma_ids_with(head + clusters, mux::cues(m.done).len() > 0, ids::CUES, cb);
    assert(ids_ok(mux::segment_items(m, duration))) by {
        reveal(mux::segment_items);
    }
    lemma_segment_shorter(m, duration);
    writer::lemma_writable(mux::segment_items(m, duration));
}

proof fn lemma_segment_shorter(m: mux::MuxView, duration: Option<u64>)
    ensures
        writer::items_bytes(mux::segment_items(m, duration)).len() < mux::file_bytes(
            m,
            duration,
        ).len(),
{
    mux::lemma_layout(m, duration);
}

/// Where the EBML header and the Segment stand in a finished file.
proof fn lemma_file_stands(m: mux::MuxView, duration: Option<u64>)
    requires
        mux::file_bytes(m, duration).len() < writer::size_limit(),
        mux::file_bytes(m, duration).len() <= usize::MAX,
    ensures
        writer::stands(
            mux::file_bytes(m, duration),
            0,
            ids::EBML,
            writer::items_bytes(mux::ebml_items(m.doc_type)),
        ),
        writer::element_len(ids::EBML, writer::items_bytes(mux::ebml_items(m.doc_type)).len())
            == mux::ebml_bytes(m.doc_type).len(),
        writer::stands(
            mux::file_bytes(m, duration),
            mux::ebml_bytes(m.doc_type).len() as int,
            ids::SEGMENT,
            writer::items_bytes(mux::segment_items(m, duration)),
        ),
        mux::ebml_bytes(m.doc_type).len() + writer::element_len(
            ids::SEGMENT,
            writer::items_bytes(mux::segment_items(m, duration)).len(),
        ) == mux::file_bytes(m, duration).len(),
        mux::ebml_bytes(m.doc_type).len() < writer::size_limit(),
        mux::ebml_bytes(m.doc_type).len() <= usize::MAX,
{
    reveal(mux::file_bytes);
    reveal(mux::segment_items);
    reveal(writer::stands);
    let s = mux::file_bytes(m, duration);
    let eb = writer::items_bytes(mux::ebml_items(m.doc_type));
    let sb = writer::items_bytes(mux::segment_items(m, duration));
    mux::lemma_layout(m, duration);
    writer::lemma_element_longer(ids::EBML, eb);
    writer::lemma_element_len(ids::EBML, eb);
    writer::lemma_element_len(ids::SEGMENT, sb);
    let e = mux::ebml_bytes(m.doc_type);
    assert(s.subrange(0, e.len() as int) =~= e);
    assert(s.subrange(e.len() as int, s.len() as int) =~= writer::element_bytes(ids::SEGMENT, sb));
}

proof fn lemma_segment_walk(m: mux::MuxView, duration: Option<u64>)
    requires
        readable(m),
        mux::file_bytes(m, duration).len() < writer::size_limit(),
        mux::file_bytes(m, duration).len() <= usize::MAX,
    ensures
        demux::segment_meta(writer::items_bytes(mux::segment_items(m, duration))) == Ok::<demux::SegmentView, Error>(written_segment(m, duration)),
{
    reveal(demux::segment_meta);
    mux::lemma_layout(m, duration);
    lemma_segment_fold(m, duration);
    lemma_segment_writable(m, duration);
    lemma_agree_segment();
    writer::law_walk_reads_items(
        mux::segment_items(m, duration),
        demux::empty_segment(),
        demux::segment_step(),
        segment_item(),
    );
}

/// An EBML header followed by a Segment that fills the rest.
proof fn lemma_demux_parts(
    s: Seq<u8>,
    eb: Seq<u8>,
    sb: Seq<u8>,
    d: profile::DocType,
    seg: demux::SegmentView,
)
    requires
        writer::stands(s, 0, ids::EBML, eb),
        writer::stands(s, writer::element_len(ids::EBML, eb.len()) as int, ids::SEGMENT, sb),
        writer::element_len(ids::EBML, eb.len()) + writer::element_len(ids::SEGMENT, sb.len())
            == s.len(),
        demux::ebml_header_of(eb) == Ok::<(Seq<char>, u32), Error>((d.name(), 4u32)),
        demux::segment_meta(sb) == Ok::<demux::SegmentView, Error>(seg),
    ensures
        demux::demux_of(s) == Ok::<demux::DemuxView, Error>(
            placed(d, seg, s.len() as int, sb.len() as int),
        ),
{
    reveal(demux::demux_of);
    reveal(writer::stands);
    let p = writer::element_len(ids::EBML, eb.len()) as int;
    writer::law_element_reads_back(s, 0, ids::EBML, eb);
    writer::law_element_reads_back(s, p, ids::SEGMENT, sb);
    profile::law_doc_type_names(d);
    let h = writer::header_of(p, ids::SEGMENT, sb.len());
    assert(demux::find_segment(s, p) == Ok::<element::ElementHeader, Error>(h));
    writer::lemma_size_width(sb.len());
    assert(h.payload_start == s.len() - sb.len());
    assert(h.end() == Some(s.len() as int));
    assert(demux::segment_bytes(s, h) == Ok::<Seq<u8>, Error>(sb));
}

/// A finished file demuxes to what was muxed: the profile, the tracks as
/// described, the declared duration, and an index whose positions are those of
/// the Clusters.
pub proof fn law_file_reads_back(m: mux::MuxView, duration: Option<u64>)
    requires
        readable(m),
        mux::file_bytes(m, duration).len() < writer::size_limit(),
        mux::file_bytes(m, duration).len() <= usize::MAX,
    ensures
        demux::demux_of(mux::file_bytes(m, duration)) == Ok::<demux::DemuxView, Error>(
            written_file(m, duration),
        ),
{
    let eb = writer::items_bytes(mux::ebml_items(m.doc_type));
    let sb = writer::items_bytes(mux::segment_items(m, duration));
    lemma_file_stands(m, duration);
    roundtrip::law_ebml_header_reads_back(m.doc_type);
    lemma_segment_walk(m, duration);
    lemma_demux_parts(
        mux::file_bytes(m, duration),
        eb,
        sb,
        m.doc_type,
        written_segment(m, duration),
    );
}

} // verus!
