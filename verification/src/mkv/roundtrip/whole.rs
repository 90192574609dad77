//! A finished file as a whole, from the packets appended to what a reader is told.

use crate::bytes;
use crate::mkv::cluster;
use crate::mkv::cluster::{FrameView, FramesView};
use crate::mkv::demux;
use crate::mkv::demux::{CuePoint, TrackKind};
use crate::mkv::ebml::element::FloatBits;
use crate::mkv::ebml::schema::{ids, track_type};
use crate::mkv::ebml::writer;
use crate::mkv::mux;
use crate::mkv::mux::{BlockLog, ClusterLog, CueView, DescriptorView, MuxView};
use crate::mkv::profile::DocType;
use crate::mkv::roundtrip;
use crate::mkv::roundtrip::file;
use crate::mkv::roundtrip::frames;
use crate::mkv::roundtrip::log;
use crate::mkv::roundtrip::stream;
use crate::mkv::Error;
use vstd::prelude::*;

verus! {

/// The track and the time of each keyframe among `fs`, in order.
pub open spec fn key_times(fs: Seq<FrameView>) -> Seq<(u64, u64)>
    decreases fs.len(),
{
    if fs.len() == 0 {
        Seq::empty()
    } else {
        let rest = key_times(fs.drop_last());
        let f = fs.last();
        if f.is_keyframe == Some(true) {
            rest.push((f.track, f.timestamp_ns))
        } else {
            rest
        }
    }
}

/// The track and the time of each index entry, in order.
pub open spec fn entry_times(cs: Seq<CuePoint>) -> Seq<(u64, u64)> {
    cs.map_values(|c: CuePoint| (c.track_number, c.ts_ns))
}

proof fn lemma_key_times(a: Seq<FrameView>, b: Seq<FrameView>)
    ensures
        key_times(a + b) == key_times(a) + key_times(b),
    decreases b.len(),
{
    if b.len() == 0 {
        assert(a + b =~= a);
        assert(key_times(a) + key_times(b) =~= key_times(a));
    } else {
        assert((a + b).drop_last() =~= a + b.drop_last());
        lemma_key_times(a, b.drop_last());
        assert(key_times(a + b) =~= key_times(a) + key_times(b));
    }
}

/// A time in ticks, in nanoseconds.
spec fn in_ns(k: (u64, u64)) -> (u64, u64) {
    (k.0, (k.1 * mux::TIMESTAMP_SCALE_NS) as u64)
}

proof fn lemma_cluster_keys(start: u64, blocks: Seq<BlockLog>)
    requires
        forall|i: int|
            0 <= i < blocks.len() ==> 0 <= frames::block_ns(start, #[trigger] blocks[i])
                <= u64::MAX,
    ensures
        key_times(frames::cluster_frames(ClusterLog { start, blocks })) == mux::keyframes(
            start,
            blocks,
        ).map_values(|k: (u64, u64)| in_ns(k)),
    decreases blocks.len(),
{
    let fs = frames::cluster_frames(ClusterLog { start, blocks });
    let g = |k: (u64, u64)| in_ns(k);
    if blocks.len() == 0 {
        assert(key_times(fs) =~= mux::keyframes(start, blocks).map_values(g));
    } else {
        let rest = blocks.drop_last();
        let b = blocks[blocks.len() - 1];
        assert forall|i: int| 0 <= i < rest.len() implies 0 <= frames::block_ns(
            start,
            #[trigger] rest[i],
        ) <= u64::MAX by {
            assert(rest[i] == blocks[i]);
        }
        lemma_cluster_keys(start, rest);
        assert(fs.drop_last() =~= frames::cluster_frames(ClusterLog { start, blocks: rest }));
        assert(0 <= frames::block_ns(start, b) <= u64::MAX);
        assert(fs.last() == frames::block_frame(start, b));
        assert(0 <= start + b.delta <= u64::MAX) by (nonlinear_arith)
            requires
                0 <= (start + b.delta) * 1_000_000 <= u64::MAX,
        ;
        assert(key_times(fs) =~= mux::keyframes(start, blocks).map_values(g));
    }
}

/// What an index entry says, in nanoseconds.
spec fn said(c: CueView) -> (u64, u64) {
    (c.track, (c.ticks * mux::TIMESTAMP_SCALE_NS) as u64)
}

proof fn lemma_cues_are_keys(done: Seq<ClusterLog>, tracks: nat)
    requires
        forall|i: int| 0 <= i < done.len() ==> log::sound_cluster(#[trigger] done[i], tracks),
    ensures
        mux::cues(done).map_values(|c: CueView| said(c)) == key_times(frames::frames_of(done)),
    decreases done.len(),
{
    let g = |c: CueView| said(c);
    if done.len() == 0 {
        assert(mux::cues(done).map_values(g) =~= key_times(frames::frames_of(done)));
    } else {
        let rest = done.drop_last();
        let c = done[done.len() - 1];
        assert forall|i: int| 0 <= i < rest.len() implies log::sound_cluster(
            #[trigger] rest[i],
            tracks,
        ) by {
            assert(rest[i] == done[i]);
        }
        lemma_cues_are_keys(rest, tracks);
        assert(rest.push(c) =~= done);
        log::lemma_frames_push(rest, c);
        lemma_key_times(frames::frames_of(rest), frames::cluster_frames(c));
        assert(log::sound_cluster(c, tracks));
        lemma_cluster_keys(c.start, c.blocks);
        assert(ClusterLog { start: c.start, blocks: c.blocks } == c);
        let own = mux::cluster_cues(c, mux::clusters_bytes(rest).len() as int);
        assert(own.map_values(g) =~= mux::keyframes(c.start, c.blocks).map_values(
            |k: (u64, u64)| in_ns(k),
        ));
        assert(mux::cues(done).map_values(g) =~= mux::cues(rest).map_values(g) + own.map_values(g));
    }
}

/// Whether the ID of a Cluster stands at `p`.
pub open spec fn at_cluster(s: Seq<u8>, p: int) -> bool {
    0 <= p && p + 4 <= s.len() && s.subrange(p, p + 4) == seq![0x1Fu8, 0x43, 0xB6, 0x75]
}

proof fn lemma_at_cluster(s: Seq<u8>, p: int, payload: Seq<u8>)
    requires
        writer::stands(s, p, ids::CLUSTER, payload),
    ensures
        at_cluster(s, p),
{
    reveal(writer::stands);
    let e = writer::element_bytes(ids::CLUSTER, payload);
    writer::lemma_element_len(ids::CLUSTER, payload);
    let id = writer::id_bytes(ids::CLUSTER);
    reveal_with_fuel(bytes::fixed, 5);
    assert(id =~= seq![0x1Fu8, 0x43, 0xB6, 0x75]);
    assert(s.subrange(p, p + 4) =~= id);
}

/// Calls one after the other return these frames, and then that there is none.
pub open spec fn in_turn(w: FramesView, fs: Seq<FrameView>) -> bool {
    forall|i: nat|
        i <= fs.len() ==> cluster::next_of(#[trigger] cluster::walked(w, i)).0 == if i < fs.len() {
            Ok::<Option<FrameView>, Error>(Some(fs[i as int]))
        } else {
            Ok::<Option<FrameView>, Error>(None)
        }
}

/// A reader of `s`, whose metadata is `x`, gets the frames that were logged, call by call:
/// their times too if all of them fit signed 64-bit numbers.
pub open spec fn reads_back(s: Seq<u8>, x: demux::DemuxView, logged: Seq<FrameView>) -> bool {
    &&& cluster::all_frames(cluster::walk_of(s, x)) matches Ok(fs)
    &&& frames::told(fs, logged)
    &&& in_turn(cluster::walk_of(s, x), fs)
}

proof fn lemma_in_turn(w: FramesView)
    requires
        cluster::all_frames(w) is Ok,
    ensures
        in_turn(w, cluster::all_frames(w)->Ok_0),
{
    let fs = cluster::all_frames(w)->Ok_0;
    assert forall|i: nat| i <= fs.len() implies cluster::next_of(
        #[trigger] cluster::walked(w, i),
    ).0 == if i < fs.len() {
        Ok::<Option<FrameView>, Error>(Some(fs[i as int]))
    } else {
        Ok::<Option<FrameView>, Error>(None)
    } by {
        cluster::law_frames_come_in_turn(w, i);
    }
}

/// A finished file tells its reader what was muxed: the profile and its version, the
/// length of a tick, the names of the programs, the Duration if time has passed, the
/// tracks as described and numbered in the order of registration, one index entry for
/// each keyframe in the order appended, with its track, its time cut to whole ticks and
/// the position of a Cluster, and the frames appended, in order, with their times if all
/// of them fit signed 64-bit numbers. The Cluster is that of the keyframe: see [`law_index_leads_to_keyframes`](log::law_index_leads_to_keyframes).
pub proof fn law_finished_file(m: MuxView, bits: u64)
    requires
        log::sound(m),
        roundtrip::readable_tracks(m.tracks),
        mux::file_bytes(mux::flushed(m), mux::declared_duration(m, bits)).len()
            < writer::size_limit(),
        mux::file_bytes(mux::flushed(m), mux::declared_duration(m, bits)).len() <= usize::MAX,
    ensures
        ({
            let s = mux::file_bytes(mux::flushed(m), mux::declared_duration(m, bits));
            &&& demux::demux_of(s) matches Ok(x)
            &&& x.doc_type == m.doc_type
            &&& x.doc_type_version == 4
            &&& x.info.timestamp_scale_ns == 1_000_000
            &&& x.info.muxing_app == Some(writer::before_nul(m.muxing_app))
            &&& x.info.writing_app == Some(writer::before_nul(m.writing_app))
            &&& x.info.duration_ticks == if m.max_end_ns > 0 {
                Some(FloatBits::Double(bits))
            } else {
                None
            }
            &&& x.tracks.len() == m.tracks.len()
            &&& forall|i: int|
                0 <= i < m.tracks.len() ==> #[trigger] x.tracks[i] == roundtrip::written_track(
                    (i + 1) as u64,
                    m.tracks[i],
                )
            &&& entry_times(x.cues) == key_times(log::frames_logged(m))
            &&& forall|i: int|
                0 <= i < x.cues.len() ==> at_cluster(
                    s,
                    x.segment_payload_start + (#[trigger] x.cues[i]).cluster_position,
                )
            &&& reads_back(s, x, log::frames_logged(m))
        }),
{
    let d = mux::declared_duration(m, bits);
    let f = mux::flushed(m);
    log::law_muxed_file_reads_back(m, d);
    log::law_flush_keeps_log(m);
    lemma_cues_are_keys(f.done, f.tracks.len());
    let x = file::written_file(f, d);
    lemma_in_turn(cluster::walk_of(mux::file_bytes(f, d), x));
    assert(entry_times(x.cues) =~= mux::cues(f.done).map_values(|c: CueView| said(c)));
    let s = mux::file_bytes(f, d);
    assert forall|i: int| 0 <= i < x.cues.len() implies at_cluster(
        s,
        x.segment_payload_start + (#[trigger] x.cues[i]).cluster_position,
    ) by {
        log::law_index_leads_to_keyframes(m, d, i);
        let (k, j) = choose|k: int, j: int| #[trigger] log::leads(s, x, i, f.done, k, j);
        lemma_at_cluster(
            s,
            x.segment_payload_start + x.cues[i].cluster_position,
            mux::cluster_payload(f.done[k]),
        );
    }
}

/// A packet that is to be appended.
pub struct Call {
    pub track: u64,
    pub packet: Seq<u8>,
    pub ts_ns: u64,
    pub keyframe: bool,
}

/// A muxer after packets were handed to it, of which it may have refused some.
pub open spec fn after(m: MuxView, calls: Seq<Call>) -> MuxView
    decreases calls.len(),
{
    if calls.len() == 0 {
        m
    } else {
        let p = after(m, calls.drop_last());
        let c = calls.last();
        match mux::appended(p, c.track, c.packet, c.ts_ns, c.keyframe) {
            Ok(n) => n,
            Err(_) => p,
        }
    }
}

/// Whether a packet is accepted.
pub open spec fn accepted(m: MuxView, c: Call) -> bool {
    mux::appended(m, c.track, c.packet, c.ts_ns, c.keyframe) is Ok
}

/// The frames of the packets that were accepted, in order.
pub open spec fn accepted_frames(m: MuxView, calls: Seq<Call>) -> Seq<FrameView>
    decreases calls.len(),
{
    if calls.len() == 0 {
        Seq::empty()
    } else {
        let before = accepted_frames(m, calls.drop_last());
        let c = calls.last();
        if accepted(after(m, calls.drop_last()), c) {
            before.push(log::appended_frame(c.track, c.packet, c.ts_ns, c.keyframe))
        } else {
            before
        }
    }
}

/// A muxer keeps a frame for each packet that it accepted, in order, so that is what a
/// reader of its file gets: see [`law_finished_file`].
pub proof fn law_accepted_packets_are_logged(m: MuxView, calls: Seq<Call>)
    requires
        log::sound(m),
    ensures
        log::sound(after(m, calls)),
        log::frames_logged(after(m, calls)) == log::frames_logged(m) + accepted_frames(m, calls),
    decreases calls.len(),
{
    if calls.len() > 0 {
        let rest = calls.drop_last();
        let c = calls.last();
        law_accepted_packets_are_logged(m, rest);
        if accepted(after(m, rest), c) {
            log::law_append_logs_frame(after(m, rest), c.track, c.packet, c.ts_ns, c.keyframe);
        }
    }
    assert(log::frames_logged(after(m, calls)) =~= log::frames_logged(m) + accepted_frames(
        m,
        calls,
    ));
}

/// When a packet on a track ends: after the track's default duration, if it has one, and
/// not behind the last time there is.
pub open spec fn end_of(d: DescriptorView, ts_ns: u64) -> u64 {
    let end = ts_ns + match d.default_duration_ns {
        Some(n) => n as int,
        None => 0,
    };
    if end > u64::MAX {
        u64::MAX
    } else {
        end as u64
    }
}

/// The latest end of the packets that were accepted; zero without any.
pub open spec fn latest_end(m: MuxView, calls: Seq<Call>) -> u64
    decreases calls.len(),
{
    if calls.len() == 0 {
        0
    } else {
        let before = latest_end(m, calls.drop_last());
        let c = calls.last();
        let end = end_of(m.tracks[c.track - 1], c.ts_ns);
        if accepted(after(m, calls.drop_last()), c) && end > before {
            end
        } else {
            before
        }
    }
}

/// The end that a muxer keeps is the latest end of the packets it accepted, so its file
/// declares a Duration if and only if one of them ends behind the start.
pub proof fn law_duration_covers_accepted_packets(m: MuxView, calls: Seq<Call>, bits: u64)
    requires
        m.max_end_ns == 0,
    ensures
        after(m, calls).max_end_ns == latest_end(m, calls),
        after(m, calls).tracks == m.tracks,
        mux::declared_duration(after(m, calls), bits) == if latest_end(m, calls) > 0 {
            Some(bits)
        } else {
            None
        },
    decreases calls.len(),
{
    if calls.len() > 0 {
        law_duration_covers_accepted_packets(m, calls.drop_last(), bits);
    }
}

/// A muxer with its tracks, to which nothing was appended yet, is handed packets, and its
/// file is read. The reader finds the tracks, exactly the packets that were accepted, in
/// order and, if all times fit signed 64-bit numbers, with their times cut to whole ticks,
/// an index entry for each keyframe among
/// them, which leads to a Cluster, and a Duration if and only if one of them ends behind
/// the start.
pub proof fn law_packets_read_back(m: MuxView, calls: Seq<Call>, bits: u64)
    requires
        log::sound(m),
        log::frames_logged(m).len() == 0,
        m.max_end_ns == 0,
        !m.streaming,
        roundtrip::readable_tracks(m.tracks),
        mux::finished_file(after(m, calls), bits) matches Ok(s) && s.len() < writer::size_limit()
            && s.len() <= usize::MAX,
    ensures
        ({
            let s = mux::finished_file(after(m, calls), bits)->Ok_0;
            &&& demux::demux_of(s) matches Ok(x)
            &&& x.doc_type == m.doc_type
            &&& x.info.timestamp_scale_ns == 1_000_000
            &&& x.info.duration_ticks == if latest_end(m, calls) > 0 {
                Some(FloatBits::Double(bits))
            } else {
                None
            }
            &&& x.tracks == roundtrip::written_tracks(m.tracks)
            &&& entry_times(x.cues) == key_times(accepted_frames(m, calls))
            &&& forall|i: int|
                0 <= i < x.cues.len() ==> at_cluster(
                    s,
                    x.segment_payload_start + (#[trigger] x.cues[i]).cluster_position,
                )
            &&& reads_back(s, x, accepted_frames(m, calls))
        }),
{
    let n = after(m, calls);
    law_accepted_packets_are_logged(m, calls);
    law_duration_covers_accepted_packets(m, calls, bits);
    lemma_same_profile(m, calls);
    assert(log::frames_logged(n) =~= accepted_frames(m, calls));
    law_finished_file(n, bits);
    log::law_muxed_file_reads_back(n, mux::declared_duration(n, bits));
}

/// Packets change neither the profile of a muxer nor how it works.
proof fn lemma_same_profile(m: MuxView, calls: Seq<Call>)
    ensures
        after(m, calls).doc_type == m.doc_type,
        after(m, calls).streaming == m.streaming,
        after(m, calls).initialized == m.initialized,
    decreases calls.len(),
{
    if calls.len() > 0 {
        lemma_same_profile(m, calls.drop_last());
    }
}

/// A muxer after tracks were registered one after the other.
pub open spec fn registered_all(m: MuxView, ds: Seq<DescriptorView>) -> Result<MuxView, Error>
    decreases ds.len(),
{
    if ds.len() == 0 {
        Ok(m)
    } else {
        match registered_all(m, ds.drop_last()) {
            Err(e) => Err(e),
            Ok(n) => mux::registered(n, ds.last()),
        }
    }
}

/// Tracks are kept in the order of their registration, and nothing else changes.
pub proof fn law_tracks_are_kept_in_order(m: MuxView, ds: Seq<DescriptorView>)
    ensures
        registered_all(m, ds) matches Ok(n) ==> n == (MuxView { tracks: m.tracks + ds, ..m }) && (
        forall|i: int|
            0 <= i < ds.len() ==> demux::prefix_ok((#[trigger] ds[i]).kind, ds[i].codec_id)),
    decreases ds.len(),
{
    if ds.len() == 0 {
        assert(m.tracks + ds =~= m.tracks);
    } else {
        let rest = ds.drop_last();
        law_tracks_are_kept_in_order(m, rest);
        if let Ok(n) = registered_all(m, ds) {
            assert((m.tracks + rest).push(ds.last()) =~= m.tracks + ds);
            assert forall|i: int| 0 <= i < ds.len() implies demux::prefix_ok(
                (#[trigger] ds[i]).kind,
                ds[i].codec_id,
            ) by {
                if i < rest.len() {
                    assert(rest[i] == ds[i]);
                }
            }
        }
    }
}

/// A track whose kind its number tells: none of another kind by the number of one of the
/// three.
pub open spec fn named_kind(d: DescriptorView) -> bool {
    d.kind matches TrackKind::Other(v) ==> v != track_type::VIDEO && v != track_type::AUDIO && v
        != track_type::SUBTITLE
}

/// From an empty muxer to the reader of its file: tracks are registered, packets are
/// handed over, the file is finished and read. The reader finds the profile, the tracks
/// in order, numbered from one, each as it was described with its texts up to their first
/// NUL, an index entry for each keyframe that was accepted, which leads to a Cluster, and
/// the accepted packets call by call, with their times if all of them fit signed 64-bit
/// numbers.
pub proof fn law_file_from_the_start(
    doc_type: DocType,
    ds: Seq<DescriptorView>,
    calls: Seq<Call>,
    bits: u64,
)
    requires
        registered_all(mux::fresh(doc_type), ds) is Ok,
        ds.len() < writer::size_limit(),
        forall|i: int| 0 <= i < ds.len() ==> named_kind(#[trigger] ds[i]),
        ({
            let m = registered_all(mux::fresh(doc_type), ds)->Ok_0;
            mux::finished_file(after(m, calls), bits) matches Ok(s) ==> s.len()
                < writer::size_limit() && s.len() <= usize::MAX
        }),
    ensures
        ({
            let m = registered_all(mux::fresh(doc_type), ds)->Ok_0;
            &&& mux::finished_file(after(m, calls), bits) matches Ok(s)
            &&& demux::demux_of(s) matches Ok(x)
            &&& x.doc_type == doc_type
            &&& x.info.timestamp_scale_ns == 1_000_000
            &&& x.info.duration_ticks == if latest_end(m, calls) > 0 {
                Some(FloatBits::Double(bits))
            } else {
                None
            }
            &&& x.tracks.len() == ds.len()
            &&& forall|i: int|
                0 <= i < ds.len() ==> {
                    &&& (#[trigger] x.tracks[i]).number == i + 1
                    &&& x.tracks[i].kind == ds[i].kind
                    &&& x.tracks[i].codec_id == writer::before_nul(ds[i].codec_id)
                    &&& x.tracks[i].codec_private == ds[i].codec_private
                    &&& x.tracks[i].language == roundtrip::kept(ds[i].language)
                    &&& x.tracks[i].name == roundtrip::kept(ds[i].name)
                    &&& x.tracks[i].default_duration_ns == ds[i].default_duration_ns
                }
            &&& entry_times(x.cues) == key_times(accepted_frames(m, calls))
            &&& forall|i: int|
                0 <= i < x.cues.len() ==> at_cluster(
                    s,
                    x.segment_payload_start + (#[trigger] x.cues[i]).cluster_position,
                )
            &&& reads_back(s, x, accepted_frames(m, calls))
        }),
{
    let m = registered_all(mux::fresh(doc_type), ds)->Ok_0;
    law_tracks_are_kept_in_order(mux::fresh(doc_type), ds);
    assert(m.tracks =~= ds);
    assert forall|i: int| 0 <= i < m.tracks.len() implies roundtrip::readable_track(
        #[trigger] m.tracks[i],
    ) && roundtrip::written_kind(m.tracks[i].kind) == m.tracks[i].kind by {
        assert(named_kind(ds[i]));
        roundtrip::law_registered_track_is_readable(ds[i]);
    }
    assert(mux::flushed(m).done =~= Seq::empty());
    lemma_same_profile(m, calls);
    law_packets_read_back(m, calls, bits);
}

/// What is done with a stream between its beginning and its end.
pub enum Event {
    /// A packet is handed to the muxer.
    Append(Call),
    /// What is finished is taken out.
    Take,
}

/// A muxer after an event.
pub open spec fn stepped(m: MuxView, e: Event) -> MuxView {
    match e {
        Event::Append(c) => after(m, seq![c]),
        Event::Take => mux::drained(m).1,
    }
}

/// A muxer after events.
pub open spec fn ran(m: MuxView, events: Seq<Event>) -> MuxView
    decreases events.len(),
{
    if events.len() == 0 {
        m
    } else {
        stepped(ran(m, events.drop_last()), events.last())
    }
}

/// All bytes that were taken out, in order.
pub open spec fn taken(m: MuxView, events: Seq<Event>) -> Seq<u8>
    decreases events.len(),
{
    if events.len() == 0 {
        Seq::empty()
    } else {
        let p = ran(m, events.drop_last());
        taken(m, events.drop_last()) + match events.last() {
            Event::Append(_) => Seq::empty(),
            Event::Take => mux::drained(p).0,
        }
    }
}

/// The frames of the packets that were accepted, in order.
pub open spec fn streamed_frames(m: MuxView, events: Seq<Event>) -> Seq<FrameView>
    decreases events.len(),
{
    if events.len() == 0 {
        Seq::empty()
    } else {
        let p = ran(m, events.drop_last());
        streamed_frames(m, events.drop_last()) + match events.last() {
            Event::Append(c) => accepted_frames(p, seq![c]),
            Event::Take => Seq::empty(),
        }
    }
}

/// All bytes of a stream: what it begins with, what is taken out as it goes on, and what
/// is left at its end.
pub open spec fn received(m: MuxView, events: Seq<Event>) -> Seq<u8> {
    let (head, b) = mux::begun(m)->Ok_0;
    head + taken(b, events) + mux::finished_stream(ran(b, events))->Ok_0
}

/// Closing a Cluster adds bytes behind those of the Clusters before it.
proof fn lemma_flushed_bytes(m: MuxView)
    ensures
        mux::clusters_bytes(m.done).len() <= mux::clusters_bytes(mux::flushed(m).done).len(),
        mux::clusters_bytes(mux::flushed(m).done).take(mux::clusters_bytes(m.done).len() as int)
            == mux::clusters_bytes(m.done),
{
    let more = if m.open.len() == 0 {
        Seq::<ClusterLog>::empty()
    } else {
        seq![ClusterLog { start: m.start->Some_0, blocks: m.open }]
    };
    assert(mux::flushed(m).done =~= m.done + more);
    let a = mux::clusters_items(m.done);
    let b = mux::clusters_items(more);
    assert(mux::clusters_items(m.done + more) =~= a + b);
    writer::lemma_items_concat(a, b);
    assert(mux::clusters_bytes(m.done + more).take(mux::clusters_bytes(m.done).len() as int)
        =~= mux::clusters_bytes(m.done));
}

/// The same stream goes on, and what was taken out is what its Clusters begin with.
spec fn in_step(m: MuxView, n: MuxView, out: Seq<u8>) -> bool {
    &&& n.doc_type == m.doc_type
    &&& n.tracks == m.tracks
    &&& n.muxing_app == m.muxing_app
    &&& n.writing_app == m.writing_app
    &&& n.streaming
    &&& n.initialized
    &&& 0 <= n.drained <= mux::clusters_bytes(n.done).len()
    &&& out == mux::clusters_bytes(n.done).take(n.drained)
}

proof fn lemma_in_step(m: MuxView, events: Seq<Event>)
    requires
        log::sound(m),
        m.streaming,
        m.initialized,
        m.drained == 0,
    ensures
        in_step(m, ran(m, events), taken(m, events)),
        log::sound(ran(m, events)),
        log::frames_logged(ran(m, events)) == log::frames_logged(m) + streamed_frames(m, events),
    decreases events.len(),
{
    if events.len() == 0 {
        assert(mux::clusters_bytes(m.done).take(0) =~= Seq::empty());
        assert(log::frames_logged(m) + Seq::<FrameView>::empty() =~= log::frames_logged(m));
    } else {
        let rest = events.drop_last();
        lemma_in_step(m, rest);
        let p = ran(m, rest);
        let out = taken(m, rest);
        let n = ran(m, events);
        match events.last() {
            Event::Append(c) => {
                law_accepted_packets_are_logged(p, seq![c]);
                assert(seq![c].drop_last() =~= Seq::<Call>::empty());
                assert(after(p, Seq::<Call>::empty()) == p);
                lemma_flushed_bytes(p);
                assert(n.done == p.done || n.done == mux::flushed(p).done);
                assert(mux::clusters_bytes(n.done).take(n.drained) =~= mux::clusters_bytes(
                    p.done,
                ).take(p.drained)) by {
                    let k = mux::clusters_bytes(p.done).len() as int;
                    assert(mux::clusters_bytes(n.done).take(k) =~= mux::clusters_bytes(p.done));
                    assert(mux::clusters_bytes(n.done).take(k).take(p.drained)
                        =~= mux::clusters_bytes(n.done).take(p.drained));
                }
                assert(taken(m, events) =~= out);
            },
            Event::Take => {
                let all = mux::clusters_bytes(p.done);
                assert(all.take(p.drained) + all.skip(p.drained) =~= all);
                assert(all.take(all.len() as int) =~= all);
                assert(mux::flushed(n).done == mux::flushed(p).done);
            },
        }
        assert(log::frames_logged(n) =~= log::frames_logged(m) + streamed_frames(m, events));
    }
}

/// However often and whenever the finished bytes are taken out of a stream, all that came
/// out makes up one stream, and its reader finds the tracks, and exactly the packets that
/// were accepted, in order and, if all times fit signed 64-bit numbers, with their times
/// cut to whole ticks.
pub proof fn law_streamed_packets_read_back(m: MuxView, events: Seq<Event>)
    requires
        log::sound(m),
        m.streaming,
        !m.initialized,
        m.drained == 0,
        log::frames_logged(m).len() == 0,
        roundtrip::readable_tracks(m.tracks),
        received(m, events).len() < writer::size_limit(),
        received(m, events).len() <= usize::MAX,
    ensures
        mux::begun(m) is Ok,
        ({
            let b = mux::begun(m)->Ok_0.1;
            let s = received(m, events);
            &&& mux::finished_stream(ran(b, events)) is Ok
            &&& demux::demux_of(s) matches Ok(x)
            &&& x.doc_type == m.doc_type
            &&& x.info.timestamp_scale_ns == 1_000_000
            &&& x.info.duration_ticks is None
            &&& x.tracks == roundtrip::written_tracks(m.tracks)
            &&& x.cues.len() == 0
            &&& reads_back(s, x, streamed_frames(b, events))
        }),
{
    let b = MuxView { initialized: true, ..m };
    assert(mux::flushed(b).done == mux::flushed(m).done);
    assert(log::sound(b));
    lemma_in_step(b, events);
    let n = ran(b, events);
    let f = mux::flushed(n);
    lemma_flushed_bytes(n);
    let all = mux::clusters_bytes(f.done);
    let k = mux::clusters_bytes(n.done).len() as int;
    assert(all.take(k).take(n.drained) =~= all.take(n.drained));
    assert(taken(b, events) + all.skip(n.drained) =~= all);
    reveal(stream::stream_bytes);
    assert(mux::init_bytes(f) == mux::init_bytes(m));
    assert(received(m, events) =~= stream::stream_bytes(f));
    assert(log::frames_logged(n) =~= streamed_frames(b, events));
    stream::law_finished_stream_reads_back(n);
    lemma_in_turn(cluster::walk_of(stream::stream_bytes(f), stream::written_stream(f)));
}

/// Once all output was taken out of a stream, a packet that is accepted brings new output
/// if and only if it comes a Cluster duration behind the start of the Cluster in progress,
/// or is a keyframe of a video track behind it. The output is then that one Cluster, as it
/// was before the packet.
pub proof fn law_output_comes_by_clusters(m: MuxView, c: Call)
    requires
        log::sound(m),
        m.streaming,
        m.initialized,
        m.drained == mux::clusters_bytes(m.done).len(),
        accepted(m, c),
    ensures
        ({
            let n = after(m, seq![c]);
            let open = seq![ClusterLog { start: m.start->Some_0, blocks: m.open }];
            let behind = c.ts_ns - m.start->Some_0 * mux::TIMESTAMP_SCALE_NS;
            let cut = m.start is Some && (behind >= m.cluster_duration_ns || (m.tracks[c.track
                - 1].kind == TrackKind::Video && c.keyframe && behind > 0));
            &&& mux::drained(n).0 == if cut {
                mux::clusters_bytes(open)
            } else {
                Seq::empty()
            }
            &&& cut <==> mux::drained(n).0.len() > 0
        }),
{
    let n = after(m, seq![c]);
    assert(seq![c].drop_last() =~= Seq::<Call>::empty());
    assert(after(m, Seq::<Call>::empty()) == m);
    let open = seq![ClusterLog { start: m.start->Some_0, blocks: m.open }];
    let a = mux::clusters_items(m.done);
    let b = mux::clusters_items(open);
    if m.start is Some && n.done != m.done {
        assert(n.done =~= m.done + open);
        assert(mux::clusters_items(m.done + open) =~= a + b);
        writer::lemma_items_concat(a, b);
        assert(mux::clusters_bytes(n.done).skip(m.drained) =~= mux::clusters_bytes(open));
    } else {
        assert(mux::clusters_bytes(m.done).skip(m.drained) =~= Seq::empty());
    }
    let p = mux::cluster_payload(open[0]);
    assert(b =~= Seq::empty().push((ids::CLUSTER, p)));
    writer::lemma_items_push(Seq::empty(), ids::CLUSTER, p);
    writer::lemma_element_longer(ids::CLUSTER, p);
}

/// A stream begins once, and only where streaming was enabled. It begins with an EBML
/// header and the ID of a Segment without a size. From then on no track is registered.
/// Before it no packet is accepted, and no streaming muxer makes a file.
pub proof fn law_streams_begin_once(m: MuxView, d: DescriptorView, c: Call, bits: u64)
    ensures
        mux::begun(m) is Err <==> !m.streaming || m.initialized,
        mux::begun(m) matches Err(e) ==> e is Unsupported,
        mux::begun(m) matches Ok((b, n)) ==> {
            let at = mux::ebml_bytes(m.doc_type).len() as int;
            &&& b.take(at) == mux::ebml_bytes(m.doc_type)
            &&& b.subrange(at, at + 5) == seq![0x18u8, 0x53, 0x80, 0x67, 0xFF]
            &&& n.initialized
            &&& mux::begun(n) matches Err(e) && e is Unsupported
        },
        m.initialized ==> (mux::registered(m, d) matches Err(e) && e is Unsupported),
        m.streaming && !m.initialized ==> (mux::appended(m, c.track, c.packet, c.ts_ns, c.keyframe)
            matches Err(e) && e is Unsupported),
        m.streaming ==> (mux::finished_file(m, bits) matches Err(e) && e is Unsupported),
        !m.streaming || !m.initialized ==> (mux::finished_stream(m) matches Err(e)
            && e is Unsupported),
{
    if let Ok((b, n)) = mux::begun(m) {
        lemma_segment_id();
        let head = mux::ebml_bytes(m.doc_type);
        let info = writer::element_bytes(ids::INFO, mux::info_body(m, None));
        let tracks = writer::element_bytes(ids::TRACKS, mux::tracks_body(m));
        lemma_opening(head, writer::id_bytes(ids::SEGMENT).push(0xFF), info, tracks);
    }
}

proof fn lemma_segment_id()
    ensures
        writer::id_bytes(ids::SEGMENT).push(0xFF) == seq![0x18u8, 0x53, 0x80, 0x67, 0xFF],
{
    reveal_with_fuel(bytes::fixed, 5);
    assert(writer::id_bytes(ids::SEGMENT) =~= seq![0x18u8, 0x53, 0x80, 0x67]);
}

proof fn lemma_opening(a: Seq<u8>, b: Seq<u8>, c: Seq<u8>, d: Seq<u8>)
    ensures
        (a + b + c + d).take(a.len() as int) == a,
        (a + b + c + d).subrange(a.len() as int, (a.len() + b.len()) as int) == b,
{
    assert((a + b + c + d).take(a.len() as int) =~= a);
    assert((a + b + c + d).subrange(a.len() as int, (a.len() + b.len()) as int) =~= b);
}

} // verus!
