//! The metadata and the frames that a reader gets of a stream: an init segment
//! followed by finished Clusters.

use crate::bytes;
use crate::mkv::cluster;
use crate::mkv::cluster::FrameView;
use crate::mkv::demux;
use crate::mkv::ebml::element;
use crate::mkv::ebml::schema::ids;
use crate::mkv::ebml::writer;
use crate::mkv::mux;
use crate::mkv::mux::MuxView;
use crate::mkv::profile;
use crate::mkv::roundtrip;
use crate::mkv::roundtrip::file;
use crate::mkv::roundtrip::frames;
use crate::mkv::roundtrip::log;
use crate::mkv::Error;
use vstd::prelude::*;

verus! {

/// What a consumer of a stream has received: the init segment and all finished
/// Clusters.
#[verifier::opaque]
pub open spec fn stream_bytes(m: MuxView) -> Seq<u8> {
    mux::init_bytes(m) + mux::clusters_bytes(m.done)
}

/// The Segment's children before the Clusters.
pub open spec fn stream_head(m: MuxView) -> Seq<(u64, Seq<u8>)> {
    Seq::<(u64, Seq<u8>)>::empty().push((ids::INFO, mux::info_body(m, None))).push(
        (ids::TRACKS, mux::tracks_body(m)),
    )
}

/// The Segment's children.
#[verifier::opaque]
pub open spec fn stream_items(m: MuxView) -> Seq<(u64, Seq<u8>)> {
    stream_head(m) + mux::clusters_items(m.done)
}

/// What the Segment's children say.
pub open spec fn stream_segment(m: MuxView) -> demux::SegmentView {
    demux::SegmentView {
        info: roundtrip::written_info(m, None),
        tracks: roundtrip::written_tracks(m.tracks),
        cluster: if m.done.len() > 0 {
            Some(writer::items_bytes(stream_head(m)).len() as int)
        } else {
            None
        },
        cues: Seq::empty(),
    }
}

/// The metadata of a stream.
pub open spec fn written_stream(m: MuxView) -> demux::DemuxView {
    file::placed(
        m.doc_type,
        stream_segment(m),
        stream_bytes(m).len() as int,
        writer::items_bytes(stream_items(m)).len() as int,
    )
}

/// The Segment's children fold to its metadata.
proof fn lemma_stream_fold(m: MuxView)
    requires
        roundtrip::readable_tracks(m.tracks),
        writer::items_bytes(stream_items(m)).len() < writer::size_limit(),
        writer::items_bytes(stream_items(m)).len() <= usize::MAX,
    ensures
        writer::fold(stream_items(m), demux::empty_segment(), file::segment_item()) == Ok::<
            demux::SegmentView,
            Error,
        >(
            stream_segment(m),
        ),
{
    let st = demux::empty_segment();
    let g = file::segment_item();
    let e = Seq::<(u64, Seq<u8>)>::empty();
    let ib = mux::info_body(m, None);
    let tb = mux::tracks_body(m);
    let i1 = e.push((ids::INFO, ib));
    let i2 = stream_head(m);
    reveal(stream_items);
    let all = stream_items(m);
    assert(all[0] == (ids::INFO, ib));
    assert(all[1] == (ids::TRACKS, tb));
    writer::lemma_item_fits(all, 0);
    writer::lemma_item_fits(all, 1);
    writer::lemma_element_longer(ids::INFO, ib);
    writer::lemma_element_longer(ids::TRACKS, tb);
    let bare = MuxView { done: Seq::empty(), ..m };
    assert(file::readable(bare)) by {
        reveal(file::readable);
    }
    assert(mux::info_body(bare, None) == ib);
    assert(mux::tracks_body(bare) == tb);
    assert(roundtrip::written_info(bare, None) == roundtrip::written_info(m, None));
    let s1 = demux::SegmentView { info: roundtrip::written_info(m, None), ..st };
    let s2 = demux::SegmentView { tracks: roundtrip::written_tracks(m.tracks), ..s1 };
    assert(writer::fold(i1, st, g) == Ok::<demux::SegmentView, Error>(s1)) by {
        writer::lemma_fold_push(e, ids::INFO, ib, st, g);
        file::lemma_info_item(0, bare, None);
    }
    assert(writer::fold(i2, st, g) == Ok::<demux::SegmentView, Error>(s2)) by {
        writer::lemma_fold_push(i1, ids::TRACKS, tb, st, g);
        file::lemma_tracks_item(writer::items_bytes(i1).len() as int, bare, s1);
    }
    file::lemma_clusters_fold(i2, m.done, st, s2);
}

/// The Segment's children can be written.
proof fn lemma_stream_writable(m: MuxView)
    requires
        writer::items_bytes(stream_items(m)).len() < writer::size_limit(),
    ensures
        writer::writable(stream_items(m)),
{
    reveal(stream_items);
    let all = stream_items(m);
    assert forall|i: int| 0 <= i < all.len() implies writer::is_id((#[trigger] all[i]).0) by {
        if i >= 2 {
            assert(all[i] == mux::clusters_items(m.done)[i - 2]);
        } else {
            assert(all[i] == stream_head(m)[i]);
        }
    }
    writer::lemma_writable(all);
}

/// How a stream is laid out.
proof fn lemma_stream_layout(m: MuxView)
    ensures
        ({
            let s = stream_bytes(m);
            let sb = writer::items_bytes(stream_items(m));
            let p = mux::ebml_bytes(m.doc_type).len() as int;
            &&& s.len() == p + 5 + sb.len()
            &&& s.take(p) == mux::ebml_bytes(m.doc_type)
            &&& s.subrange(p, p + 5) == writer::id_bytes(ids::SEGMENT).push(0xFF)
            &&& s.subrange(p + 5, s.len() as int) == sb
            &&& sb == writer::items_bytes(stream_head(m)) + mux::clusters_bytes(m.done)
        }),
{
    reveal(stream_bytes);
    reveal(stream_items);
    let s = stream_bytes(m);
    let sb = writer::items_bytes(stream_items(m));
    let p = mux::ebml_bytes(m.doc_type).len() as int;
    let e = Seq::<(u64, Seq<u8>)>::empty();
    let i1 = e.push((ids::INFO, mux::info_body(m, None)));
    writer::lemma_items_push(e, ids::INFO, mux::info_body(m, None));
    writer::lemma_items_push(i1, ids::TRACKS, mux::tracks_body(m));
    writer::lemma_items_concat(stream_head(m), mux::clusters_items(m.done));
    bytes::lemma_fixed_len(ids::SEGMENT as nat, 4);
    assert(writer::id_bytes(ids::SEGMENT).len() == 4);
    assert(s =~= mux::ebml_bytes(m.doc_type) + writer::id_bytes(ids::SEGMENT).push(0xFF) + sb);
    assert(s.take(p) =~= mux::ebml_bytes(m.doc_type));
    assert(s.subrange(p, p + 5) =~= writer::id_bytes(ids::SEGMENT).push(0xFF));
    assert(s.subrange(p + 5, s.len() as int) =~= sb);
}

/// An opening of an unknown-size element reads back.
proof fn lemma_open_reads_back(s: Seq<u8>, pos: int)
    requires
        0 <= pos,
        pos + 5 <= s.len() <= usize::MAX,
        s.subrange(pos, pos + 5) == writer::id_bytes(ids::SEGMENT).push(0xFF),
    ensures
        element::header_at(s, pos) matches Ok(h) && h.id.value == ids::SEGMENT && h.size is None
            && h.payload_start == pos + 5,
{
    let b = writer::id_bytes(ids::SEGMENT);
    bytes::lemma_fixed_len(ids::SEGMENT as nat, 4);
    assert(b.len() == 4);
    assert(s.subrange(pos, pos + 4) =~= b) by {
        assert forall|i: int| 0 <= i < 4 implies s.subrange(pos, pos + 4)[i] == b[i] by {
            assert(s.subrange(pos, pos + 5)[i] == b.push(0xFF)[i]);
        }
    }
    writer::lemma_id_reads_back(s, pos, ids::SEGMENT);
    assert(s.subrange(pos, pos + 5)[4] == 0xFFu8);
    assert(s[pos + 4] == 0xFFu8);
    let v = s.subrange(pos + 4, pos + 5);
    assert(v.last() == 0xFFu8);
    assert(v.drop_last() =~= Seq::<u8>::empty());
    reveal_with_fuel(bytes::uint, 2);
    assert(bytes::uint(v) == 0xFF);
}

/// An EBML header, an opened Segment and its children.
proof fn lemma_demux_stream(
    s: Seq<u8>,
    eb: Seq<u8>,
    sb: Seq<u8>,
    d: profile::DocType,
    seg: demux::SegmentView,
)
    requires
        writer::stands(s, 0, ids::EBML, eb),
        writer::element_len(ids::EBML, eb.len()) + 5 + sb.len() == s.len(),
        ({
            let p = writer::element_len(ids::EBML, eb.len()) as int;
            &&& s.subrange(p, p + 5) == writer::id_bytes(ids::SEGMENT).push(0xFF)
            &&& s.subrange(p + 5, s.len() as int) == sb
        }),
        demux::ebml_header_of(eb) == Ok::<(Seq<char>, u32), Error>((d.name(), 4u32)),
        demux::segment_meta(sb) == Ok::<demux::SegmentView, Error>(seg),
    ensures
        demux::demux_of(s) == Ok::<demux::DemuxView, Error>(
            file::placed(d, seg, s.len() as int, sb.len() as int),
        ),
{
    reveal(demux::demux_of);
    reveal(writer::stands);
    let p = writer::element_len(ids::EBML, eb.len()) as int;
    writer::law_element_reads_back(s, 0, ids::EBML, eb);
    lemma_open_reads_back(s, p);
    profile::law_doc_type_names(d);
    let h = element::header_at(s, p)->Ok_0;
    assert(demux::find_segment(s, p) == Ok::<element::ElementHeader, Error>(h));
    assert(demux::segment_bytes(s, h) == Ok::<Seq<u8>, Error>(sb));
}

/// The Segment of a stream, read from its children.
proof fn lemma_stream_walk(m: MuxView)
    requires
        roundtrip::readable_tracks(m.tracks),
        writer::items_bytes(stream_items(m)).len() < writer::size_limit(),
        writer::items_bytes(stream_items(m)).len() <= usize::MAX,
    ensures
        demux::segment_meta(writer::items_bytes(stream_items(m))) == Ok::<
            demux::SegmentView,
            Error,
        >(stream_segment(m)),
{
    reveal(demux::segment_meta);
    lemma_stream_fold(m);
    lemma_stream_writable(m);
    file::lemma_agree_segment();
    writer::law_walk_reads_items(
        stream_items(m),
        demux::empty_segment(),
        demux::segment_step(),
        file::segment_item(),
    );
}

/// Where the EBML header of a stream stands.
proof fn lemma_stream_header(m: MuxView)
    requires
        stream_bytes(m).len() < writer::size_limit(),
        stream_bytes(m).len() <= usize::MAX,
    ensures
        ({
            let eb = writer::items_bytes(mux::ebml_items(m.doc_type));
            &&& writer::stands(stream_bytes(m), 0, ids::EBML, eb)
            &&& writer::element_len(ids::EBML, eb.len()) == mux::ebml_bytes(m.doc_type).len()
            &&& mux::ebml_bytes(m.doc_type).len() < writer::size_limit()
            &&& mux::ebml_bytes(m.doc_type).len() <= usize::MAX
        }),
{
    reveal(writer::stands);
    let eb = writer::items_bytes(mux::ebml_items(m.doc_type));
    lemma_stream_layout(m);
    writer::lemma_element_longer(ids::EBML, eb);
    writer::lemma_element_len(ids::EBML, eb);
    let s = stream_bytes(m);
    let p = mux::ebml_bytes(m.doc_type).len() as int;
    assert(s.subrange(0, p) =~= s.take(p));
}

/// A stream demuxes to the tracks that were registered when it began.
pub proof fn law_stream_reads_back(m: MuxView)
    requires
        roundtrip::readable_tracks(m.tracks),
        stream_bytes(m).len() < writer::size_limit(),
        stream_bytes(m).len() <= usize::MAX,
    ensures
        demux::demux_of(stream_bytes(m)) == Ok::<demux::DemuxView, Error>(written_stream(m)),
{
    let eb = writer::items_bytes(mux::ebml_items(m.doc_type));
    let sb = writer::items_bytes(stream_items(m));
    lemma_stream_layout(m);
    lemma_stream_header(m);
    roundtrip::law_ebml_header_reads_back(m.doc_type);
    lemma_stream_walk(m);
    lemma_demux_stream(stream_bytes(m), eb, sb, m.doc_type, stream_segment(m));
}

/// The frames that a stream gives are those of its finished Clusters' blocks, in order.
pub proof fn law_stream_frames_read_back(m: MuxView)
    requires
        stream_bytes(m).len() < writer::size_limit(),
        stream_bytes(m).len() <= usize::MAX,
        forall|k: int| 0 <= k < m.done.len() ==> frames::readable_cluster(#[trigger] m.done[k]),
    ensures
        cluster::all_frames(cluster::walk_of(stream_bytes(m), written_stream(m))) == Ok::<
            Seq<FrameView>,
            Error,
        >(frames::read_of(m.done)),
{
    let s = stream_bytes(m);
    let sb = writer::items_bytes(stream_items(m));
    let head = writer::items_bytes(stream_head(m));
    lemma_stream_layout(m);
    assert(s.subrange(s.len() - sb.len(), s.len() as int) == sb);
    let f = cluster::walk_of(s, written_stream(m));
    if m.done.len() > 0 {
        assert(sb.take((head + mux::clusters_bytes(m.done)).len() as int) =~= sb);
        frames::lemma_tail_frames(s, head, m.done, sb, None);
        assert(f == frames::walker(s, s.len() - sb.len() + head.len(), 0, None));
    } else {
        frames::lemma_past_end(s, s.len() as int);
        assert(frames::read_of(m.done) =~= Seq::<FrameView>::empty());
        assert(f == frames::walker(s, s.len() as int, 0, None));
    }
}

/// A stream that was finished gives back every packet that was appended, each with its
/// time if all times fit signed 64-bit numbers.
pub proof fn law_finished_stream_reads_back(m: MuxView)
    requires
        log::sound(m),
        roundtrip::readable_tracks(m.tracks),
        stream_bytes(mux::flushed(m)).len() < writer::size_limit(),
        stream_bytes(mux::flushed(m)).len() <= usize::MAX,
    ensures
        demux::demux_of(stream_bytes(mux::flushed(m))) == Ok::<demux::DemuxView, Error>(
            written_stream(mux::flushed(m)),
        ),
        cluster::all_frames(
            cluster::walk_of(stream_bytes(mux::flushed(m)), written_stream(mux::flushed(m))),
        ) == Ok::<Seq<FrameView>, Error>(log::frames_read(m)),
        frames::told(log::frames_read(m), log::frames_logged(m)),
{
    log::lemma_readable_log(m);
    law_stream_reads_back(mux::flushed(m));
    law_stream_frames_read_back(mux::flushed(m));
}

/// What is handed out piece by piece is what would be handed out at once: the
/// pieces taken before and after more Clusters were finished make up the stream.
pub proof fn law_stream_pieces(done: Seq<mux::ClusterLog>, more: Seq<mux::ClusterLog>, drained: int)
    requires
        0 <= drained <= mux::clusters_bytes(done).len(),
    ensures
        mux::clusters_bytes(done).skip(drained) + mux::clusters_bytes(done + more).skip(
            mux::clusters_bytes(done).len() as int,
        ) == mux::clusters_bytes(done + more).skip(drained),
{
    let a = mux::clusters_items(done);
    let b = mux::clusters_items(more);
    assert(mux::clusters_items(done + more) =~= a + b);
    writer::lemma_items_concat(a, b);
    assert(mux::clusters_bytes(done).skip(drained) + mux::clusters_bytes(done + more).skip(
        mux::clusters_bytes(done).len() as int,
    ) =~= mux::clusters_bytes(done + more).skip(drained));
}

} // verus!
