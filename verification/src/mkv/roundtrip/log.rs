//! What a muxer keeps of the frames appended to it, and that a reader gets them
//! back.

use crate::mkv::cluster;
use crate::mkv::cluster::FrameView;
use crate::mkv::demux;
use crate::mkv::ebml::schema::ids;
use crate::mkv::ebml::writer;
use crate::mkv::mux;
use crate::mkv::mux::{BlockLog, ClusterLog, MuxView};
use crate::mkv::profile;
use crate::mkv::profile::DocType;
use crate::mkv::roundtrip;
use crate::mkv::roundtrip::file;
use crate::mkv::roundtrip::frames;
use crate::mkv::Error;
use vstd::prelude::*;

verus! {

/// A Cluster of blocks on `tracks` registered tracks, timed from its first block.
pub open spec fn sound_cluster(c: ClusterLog, tracks: nat) -> bool {
    &&& c.start * mux::TIMESTAMP_SCALE_NS <= u64::MAX
    &&& c.blocks.len() > 0
    &&& c.blocks[0].delta == 0
    &&& forall|i: int|
        0 <= i < c.blocks.len() ==> 1 <= (#[trigger] c.blocks[i]).track <= tracks && 0
            <= frames::block_ns(c.start, c.blocks[i]) <= u64::MAX
}

/// What holds of every muxer: its Clusters, the one in progress among them, carry
/// blocks of registered tracks at times that fit.
pub open spec fn sound(m: MuxView) -> bool {
    &&& m.tracks.len() < writer::size_limit()
    &&& (m.start is Some <==> m.open.len() > 0)
    &&& forall|i: int|
        0 <= i < m.done.len() ==> sound_cluster(#[trigger] m.done[i], m.tracks.len())
    &&& m.start matches Some(s) ==> sound_cluster(
        ClusterLog { start: s, blocks: m.open },
        m.tracks.len(),
    )
}

/// The frames appended so far.
pub open spec fn frames_logged(m: MuxView) -> Seq<FrameView> {
    frames::frames_of(mux::flushed(m).done)
}

/// The frame that an appended packet becomes: its time is cut to whole ticks.
pub open spec fn appended_frame(track: u64, packet: Seq<u8>, ts_ns: u64, keyframe: bool) ->
    FrameView {
    FrameView {
        track,
        timestamp_ns: (ts_ns / mux::TIMESTAMP_SCALE_NS * mux::TIMESTAMP_SCALE_NS) as u64,
        is_keyframe: Some(keyframe),
        is_invisible: false,
        is_discardable: Some(false),
        data: packet,
    }
}

/// One more Cluster adds its frames at the end.
pub(crate) proof fn lemma_frames_push(done: Seq<ClusterLog>, c: ClusterLog)
    ensures
        frames::frames_of(done.push(c)) == frames::frames_of(done) + frames::cluster_frames(c),
    decreases done.len(),
{
    let all = done.push(c);
    if done.len() == 0 {
        assert(all.skip(1) =~= done);
        assert(frames::frames_of(all) =~= frames::frames_of(done) + frames::cluster_frames(c));
    } else {
        lemma_frames_push(done.skip(1), c);
        assert(all.skip(1) =~= done.skip(1).push(c));
        assert(frames::frames_of(all) =~= frames::frames_of(done) + frames::cluster_frames(c));
    }
}

/// A muxer on which nothing was done holds no frame.
pub proof fn law_fresh_log(d: DocType)
    ensures
        sound(mux::fresh(d)),
        frames_logged(mux::fresh(d)) == Seq::<FrameView>::empty(),
{
}

/// Registering a track keeps the log.
pub proof fn law_register_keeps_log(m: MuxView, d: mux::DescriptorView)
    requires
        sound(m),
        m.tracks.len() + 1 < writer::size_limit(),
    ensures
        ({
            let n = MuxView { tracks: m.tracks.push(d), ..m };
            sound(n) && frames_logged(n) == frames_logged(m)
        }),
{
    let n = MuxView { tracks: m.tracks.push(d), ..m };
    assert(mux::flushed(n).done == mux::flushed(m).done);
}

/// Closing the Cluster in progress keeps the log.
pub proof fn law_flush_keeps_log(m: MuxView)
    requires
        sound(m),
    ensures
        sound(mux::flushed(m)),
        frames_logged(mux::flushed(m)) == frames_logged(m),
{
}

/// An accepted packet is logged as one frame behind those before it.
pub proof fn law_append_logs_frame(
    m: MuxView,
    track: u64,
    packet: Seq<u8>,
    ts_ns: u64,
    keyframe: bool,
)
    requires
        sound(m),
        mux::appended(m, track, packet, ts_ns, keyframe) is Ok,
    ensures
        ({
            let n = mux::appended(m, track, packet, ts_ns, keyframe)->Ok_0;
            &&& sound(n)
            &&& frames_logged(n) == frames_logged(m).push(
                appended_frame(track, packet, ts_ns, keyframe),
            )
        }),
{
    let n = mux::appended(m, track, packet, ts_ns, keyframe)->Ok_0;
    let d = m.tracks[track - 1];
    let f = if mux::must_flush(m, d.kind, ts_ns, keyframe) {
        mux::flushed(m)
    } else {
        m
    };
    law_flush_keeps_log(m);
    let ticks = (ts_ns / mux::TIMESTAMP_SCALE_NS) as u64;
    let start = n.start->Some_0;
    let b = BlockLog { track, delta: (ticks - start) as i16, keyframe, data: packet };
    assert(n.open == f.open.push(b));
    assert(frames::block_frame(start, b) == appended_frame(track, packet, ts_ns, keyframe));
    let after = ClusterLog { start, blocks: n.open };
    assert(mux::flushed(n).done == f.done.push(after));
    assert(n.open.drop_last() =~= f.open);
    lemma_frames_push(f.done, after);
    assert(sound_cluster(after, m.tracks.len())) by {
        assert forall|i: int| 0 <= i < after.blocks.len() implies 1 <= (
        #[trigger] after.blocks[i]).track <= m.tracks.len() && 0 <= frames::block_ns(
            start,
            after.blocks[i],
        ) <= u64::MAX by {
            if i < f.open.len() {
                assert(after.blocks[i] == f.open[i]);
                let before = ClusterLog { start, blocks: f.open };
                assert(sound_cluster(before, m.tracks.len()));
                assert(before.blocks[i] == f.open[i]);
            } else {
                assert(after.blocks[i] == b);
            }
        }
        if f.open.len() > 0 {
            assert(after.blocks[0] == f.open[0]);
        } else {
            assert(after.blocks[0] == b);
        }
    }
    if f.open.len() == 0 {
        assert(frames::cluster_frames(after) =~= seq![frames::block_frame(start, b)]);
        assert(frames_logged(n) =~= frames_logged(m).push(frames::block_frame(start, b)));
    } else {
        let before = ClusterLog { start, blocks: f.open };
        lemma_frames_push(f.done, before);
        assert(frames::cluster_frames(after) =~= frames::cluster_frames(before).push(
            frames::block_frame(start, b),
        ));
        assert(frames_logged(n) =~= frames_logged(m).push(frames::block_frame(start, b)));
    }
}

/// The times of a Cluster's keyframes fit.
proof fn lemma_keyframe_times(start: u64, blocks: Seq<BlockLog>)
    requires
        forall|i: int|
            0 <= i < blocks.len() ==> 0 <= frames::block_ns(start, #[trigger] blocks[i])
                <= u64::MAX,
    ensures
        forall|i: int|
            0 <= i < mux::keyframes(start, blocks).len() ==> (#[trigger] mux::keyframes(
                start,
                blocks,
            )[i]).1 * mux::TIMESTAMP_SCALE_NS <= u64::MAX,
    decreases blocks.len(),
{
    if blocks.len() > 0 {
        let rest = blocks.drop_last();
        assert forall|i: int| 0 <= i < rest.len() implies 0 <= frames::block_ns(
            start,
            #[trigger] rest[i],
        ) <= u64::MAX by {
            assert(rest[i] == blocks[i]);
        }
        lemma_keyframe_times(start, rest);
        let b = blocks[blocks.len() - 1];
        assert(0 <= frames::block_ns(start, b) <= u64::MAX);
        assert(0 <= start + b.delta <= u64::MAX);
        let keys = mux::keyframes(start, blocks);
        assert forall|i: int| 0 <= i < keys.len() implies (#[trigger] keys[i]).1
            * mux::TIMESTAMP_SCALE_NS <= u64::MAX by {
            if i < mux::keyframes(start, rest).len() {
                assert(keys[i] == mux::keyframes(start, rest)[i]);
            } else {
                assert(keys[i] == (b.track, (start + b.delta) as u64));
            }
        }
    }
}

/// The times of the index fit.
proof fn lemma_cue_times(done: Seq<ClusterLog>, tracks: nat)
    requires
        forall|i: int| 0 <= i < done.len() ==> sound_cluster(#[trigger] done[i], tracks),
    ensures
        forall|i: int|
            0 <= i < mux::cues(done).len() ==> (#[trigger] mux::cues(done)[i]).ticks
                * mux::TIMESTAMP_SCALE_NS <= u64::MAX,
    decreases done.len(),
{
    if done.len() > 0 {
        let rest = done.drop_last();
        let c = done.last();
        assert(sound_cluster(done[done.len() - 1], tracks));
        assert forall|i: int| 0 <= i < rest.len() implies sound_cluster(
            #[trigger] rest[i],
            tracks,
        ) by {
            assert(rest[i] == done[i]);
        }
        lemma_cue_times(rest, tracks);
        lemma_keyframe_times(c.start, c.blocks);
        let own = mux::cluster_cues(c, mux::clusters_bytes(rest).len() as int);
        assert forall|i: int| 0 <= i < mux::cues(done).len() implies (#[trigger] mux::cues(
            done,
        )[i]).ticks * mux::TIMESTAMP_SCALE_NS <= u64::MAX by {
            if i < mux::cues(rest).len() {
                assert(mux::cues(done)[i] == mux::cues(rest)[i]);
            } else {
                let j = i - mux::cues(rest).len();
                assert(mux::cues(done)[i] == own[j]);
                assert(own[j].ticks == mux::keyframes(c.start, c.blocks)[j].1);
            }
        }
    }
}

/// The frames that a reader makes of what was appended so far.
pub open spec fn frames_read(m: MuxView) -> Seq<FrameView> {
    frames::read_of(mux::flushed(m).done)
}

/// Every log can be read.
pub(crate) proof fn lemma_readable_log(m: MuxView)
    requires
        sound(m),
    ensures
        forall|k: int|
            0 <= k < mux::flushed(m).done.len() ==> frames::readable_cluster(
                #[trigger] mux::flushed(m).done[k],
            ),
        forall|i: int|
            0 <= i < mux::cues(mux::flushed(m).done).len() ==> (#[trigger] mux::cues(
                mux::flushed(m).done,
            )[i]).ticks * mux::TIMESTAMP_SCALE_NS <= u64::MAX,
        frames::told(frames_read(m), frames_logged(m)),
{
    law_flush_keeps_log(m);
    let done = mux::flushed(m).done;
    assert forall|k: int| 0 <= k < done.len() implies frames::readable_cluster(
        #[trigger] done[k],
    ) by {
        assert(sound_cluster(done[k], m.tracks.len()));
    }
    assert forall|k: int, j: int|
        0 <= k < done.len() && 0 <= j < done[k].blocks.len() implies 0 <= frames::block_ns(
        done[k].start,
        #[trigger] done[k].blocks[j],
    ) <= u64::MAX by {
        assert(sound_cluster(done[k], m.tracks.len()));
    }
    assert forall|k: int| 0 <= k < done.len() implies (#[trigger] done[k]).blocks.len() > 0
        && done[k].blocks[0].delta == 0 && done[k].start * mux::TIMESTAMP_SCALE_NS
        <= u64::MAX by {
        assert(sound_cluster(done[k], m.tracks.len()));
    }
    frames::lemma_told(done);
    lemma_cue_times(done, m.tracks.len());
}

/// A finished file demuxes to the tracks that were registered, and its frames are
/// the packets that were appended, in order, each with its time if all times fit signed
/// 64-bit numbers.
pub proof fn law_muxed_file_reads_back(m: MuxView, duration: Option<u64>)
    requires
        sound(m),
        roundtrip::readable_tracks(m.tracks),
        mux::file_bytes(mux::flushed(m), duration).len() < writer::size_limit(),
        mux::file_bytes(mux::flushed(m), duration).len() <= usize::MAX,
    ensures
        ({
            let s = mux::file_bytes(mux::flushed(m), duration);
            &&& demux::demux_of(s) == Ok::<demux::DemuxView, Error>(
                file::written_file(mux::flushed(m), duration),
            )
            &&& cluster::all_frames(
                cluster::walk_of(s, file::written_file(mux::flushed(m), duration)),
            ) == Ok::<Seq<FrameView>, Error>(frames_read(m))
            &&& frames::told(frames_read(m), frames_logged(m))
        }),
{
    let f = mux::flushed(m);
    lemma_readable_log(m);
    assert(file::readable(f)) by {
        reveal(file::readable);
    }
    file::law_file_reads_back(f, duration);
    frames::law_file_frames_read_back(f, duration);
}

/// A keyframe among the blocks of a Cluster.
pub open spec fn keyframe_at(c: ClusterLog, j: int) -> bool {
    0 <= j < c.blocks.len() && c.blocks[j].keyframe
}

/// The track and the time of a block.
spec fn key_of(start: u64, b: BlockLog) -> (u64, u64) {
    (b.track, (start + b.delta) as u64)
}

/// Which block the `i`th keyframe is.
proof fn lemma_key_block(c: ClusterLog, i: int) -> (j: int)
    requires
        0 <= i < mux::keyframes(c.start, c.blocks).len(),
    ensures
        keyframe_at(c, j),
        mux::keyframes(c.start, c.blocks)[i] == key_of(c.start, c.blocks[j]),
    decreases c.blocks.len(),
{
    let r = ClusterLog { start: c.start, blocks: c.blocks.drop_last() };
    if i < mux::keyframes(r.start, r.blocks).len() {
        let j = lemma_key_block(r, i);
        assert(r.blocks[j] == c.blocks[j]);
        j
    } else {
        c.blocks.len() - 1
    }
}

/// Which keyframe a block is.
proof fn lemma_block_key(c: ClusterLog, j: int) -> (i: int)
    requires
        keyframe_at(c, j),
    ensures
        0 <= i < mux::keyframes(c.start, c.blocks).len(),
        mux::keyframes(c.start, c.blocks)[i] == key_of(c.start, c.blocks[j]),
    decreases c.blocks.len(),
{
    let r = ClusterLog { start: c.start, blocks: c.blocks.drop_last() };
    if j < c.blocks.len() - 1 {
        assert(r.blocks[j] == c.blocks[j]);
        lemma_block_key(r, j)
    } else {
        mux::keyframes(r.start, r.blocks).len() as int
    }
}

/// An index entry is that of keyframe `j` of Cluster `k`.
pub open spec fn indexes(c: mux::CueView, done: Seq<ClusterLog>, k: int, j: int) -> bool {
    &&& 0 <= k < done.len()
    &&& keyframe_at(done[k], j)
    &&& c.track == done[k].blocks[j].track
    &&& c.ticks == (done[k].start + done[k].blocks[j].delta) as u64
    &&& c.offset == mux::clusters_bytes(done.take(k)).len()
}

/// An entry for the earlier Clusters is one for all of them.
proof fn lemma_earlier(c: mux::CueView, done: Seq<ClusterLog>, k: int, j: int)
    requires
        done.len() > 0,
        0 <= k < done.len() - 1,
    ensures
        indexes(c, done.drop_last(), k, j) <==> indexes(c, done, k, j),
{
    assert(done.drop_last()[k] == done[k]);
    assert(done.drop_last().take(k) =~= done.take(k));
}

/// Which keyframe the `i`th entry is for.
proof fn lemma_entry_source(done: Seq<ClusterLog>, i: int) -> (r: (int, int))
    requires
        0 <= i < mux::cues(done).len(),
    ensures
        indexes(mux::cues(done)[i], done, r.0, r.1),
    decreases done.len(),
{
    let rest = done.drop_last();
    let n = done.len() - 1;
    let before = mux::cues(rest);
    if i < before.len() {
        assert(mux::cues(done)[i] == before[i]);
        let r = lemma_entry_source(rest, i);
        lemma_earlier(before[i], done, r.0, r.1);
        r
    } else {
        let c = done[n];
        let x = i - before.len();
        let j = lemma_key_block(c, x);
        assert(done.take(n) =~= rest);
        assert(mux::cues(done)[i] == mux::cluster_cues(
            c,
            mux::clusters_bytes(rest).len() as int,
        )[x]);
        (n, j)
    }
}

/// Which entry is for a keyframe.
proof fn lemma_source_entry(done: Seq<ClusterLog>, k: int, j: int) -> (i: int)
    requires
        0 <= k < done.len(),
        keyframe_at(done[k], j),
    ensures
        0 <= i < mux::cues(done).len(),
        indexes(mux::cues(done)[i], done, k, j),
    decreases done.len(),
{
    let rest = done.drop_last();
    let n = done.len() - 1;
    let before = mux::cues(rest);
    if k < n {
        assert(rest[k] == done[k]);
        let i = lemma_source_entry(rest, k, j);
        assert(mux::cues(done)[i] == before[i]);
        lemma_earlier(before[i], done, k, j);
        i
    } else {
        let c = done[n];
        let x = lemma_block_key(c, j);
        let i = before.len() + x;
        assert(done.take(n) =~= rest);
        assert(mux::cues(done)[i] == mux::cluster_cues(
            c,
            mux::clusters_bytes(rest).len() as int,
        )[x]);
        i
    }
}

/// An index entry of a finished file leads to Cluster `k`, and its track and time are
/// those of the keyframe `j` in it.
pub open spec fn leads(
    s: Seq<u8>,
    d: demux::DemuxView,
    i: int,
    done: Seq<ClusterLog>,
    k: int,
    j: int,
) -> bool {
    &&& 0 <= k < done.len()
    &&& keyframe_at(done[k], j)
    &&& d.cues[i].track_number == done[k].blocks[j].track
    &&& d.cues[i].ts_ns == frames::block_ns(done[k].start, done[k].blocks[j])
    &&& writer::stands(
        s,
        d.segment_payload_start + d.cues[i].cluster_position,
        ids::CLUSTER,
        mux::cluster_payload(done[k]),
    )
}

/// An entry leads to the Cluster that it is for.
proof fn lemma_leads(m: MuxView, duration: Option<u64>, i: int, k: int, j: int)
    requires
        mux::file_bytes(m, duration).len() < writer::size_limit(),
        mux::file_bytes(m, duration).len() <= usize::MAX,
        0 <= i < mux::cues(m.done).len(),
        indexes(mux::cues(m.done)[i], m.done, k, j),
        sound_cluster(m.done[k], m.tracks.len()),
    ensures
        leads(
            mux::file_bytes(m, duration),
            file::written_file(m, duration),
            i,
            m.done,
            k,
            j,
        ),
{
    frames::lemma_cluster_stands(m, duration, k);
    let c = m.done[k];
    assert(0 <= frames::block_ns(c.start, c.blocks[j]) <= u64::MAX);
    assert(file::written_file(m, duration).cues[i] == roundtrip::written_cue(
        mux::cues(m.done)[i],
        mux::clusters_at(m, duration),
    ));
}

/// Every index entry of a finished file leads to the Cluster of a keyframe.
pub proof fn law_index_leads_to_keyframes(m: MuxView, duration: Option<u64>, i: int)
    requires
        sound(m),
        mux::file_bytes(mux::flushed(m), duration).len() < writer::size_limit(),
        mux::file_bytes(mux::flushed(m), duration).len() <= usize::MAX,
        0 <= i < file::written_file(mux::flushed(m), duration).cues.len(),
    ensures
        exists|k: int, j: int|
            #[trigger] leads(
                mux::file_bytes(mux::flushed(m), duration),
                file::written_file(mux::flushed(m), duration),
                i,
                mux::flushed(m).done,
                k,
                j,
            ),
{
    law_flush_keeps_log(m);
    let f = mux::flushed(m);
    let (k, j) = lemma_entry_source(f.done, i);
    lemma_leads(f, duration, i, k, j);
}

/// Every keyframe of a finished file has an index entry that leads to its Cluster.
pub proof fn law_keyframes_are_indexed(m: MuxView, duration: Option<u64>, k: int, j: int)
    requires
        sound(m),
        mux::file_bytes(mux::flushed(m), duration).len() < writer::size_limit(),
        mux::file_bytes(mux::flushed(m), duration).len() <= usize::MAX,
        0 <= k < mux::flushed(m).done.len(),
        keyframe_at(mux::flushed(m).done[k], j),
    ensures
        exists|i: int|
            0 <= i < file::written_file(mux::flushed(m), duration).cues.len()
                && #[trigger] leads(
                mux::file_bytes(mux::flushed(m), duration),
                file::written_file(mux::flushed(m), duration),
                i,
                mux::flushed(m).done,
                k,
                j,
            ),
{
    law_flush_keeps_log(m);
    let f = mux::flushed(m);
    let i = lemma_source_entry(f.done, k, j);
    lemma_leads(f, duration, i, k, j);
}

/// What the end of the timeline is after a packet was accepted: no earlier than before,
/// and no earlier than the end of the packet.
pub proof fn law_end_covers_frames(
    m: MuxView,
    track: u64,
    packet: Seq<u8>,
    ts_ns: u64,
    keyframe: bool,
)
    requires
        mux::appended(m, track, packet, ts_ns, keyframe) is Ok,
    ensures
        ({
            let n = mux::appended(m, track, packet, ts_ns, keyframe)->Ok_0;
            let length: u64 = match m.tracks[track - 1].default_duration_ns {
                Some(d) => d,
                None => 0,
            };
            &&& n.max_end_ns >= m.max_end_ns
            &&& n.max_end_ns >= ts_ns
            &&& n.max_end_ns == u64::MAX || n.max_end_ns >= ts_ns + length
        }),
{
}

/// A video keyframe behind the start of the Cluster in progress starts a new one, and so
/// does every packet that comes a Cluster duration behind it.
pub proof fn law_clusters_are_cut(
    m: MuxView,
    track: u64,
    packet: Seq<u8>,
    ts_ns: u64,
    keyframe: bool,
)
    requires
        sound(m),
        mux::appended(m, track, packet, ts_ns, keyframe) is Ok,
        m.start is Some,
        ({
            let behind = ts_ns - m.start->Some_0 * mux::TIMESTAMP_SCALE_NS;
            ||| behind >= m.cluster_duration_ns
            ||| m.tracks[track - 1].kind == demux::TrackKind::Video && keyframe && behind > 0
        }),
    ensures
        ({
            let n = mux::appended(m, track, packet, ts_ns, keyframe)->Ok_0;
            &&& n.done == m.done.push(ClusterLog { start: m.start->Some_0, blocks: m.open })
            &&& n.open.len() == 1
            &&& n.open[0].delta == 0
        }),
{
}

/// A WebM muxer holds tracks of codecs that WebM allows only.
pub open spec fn whitelisted(m: MuxView) -> bool {
    m.doc_type == DocType::Webm ==> forall|i: int|
        0 <= i < m.tracks.len() ==> profile::codec_allowed(
            DocType::Webm,
            (#[trigger] m.tracks[i]).codec_id,
        )
}

/// The whitelist holds at the start, and registering a track that the profile allows and
/// appending a packet keep it.
pub proof fn law_webm_stays_whitelisted(
    doc_type: DocType,
    m: MuxView,
    d: mux::DescriptorView,
    track: u64,
    packet: Seq<u8>,
    ts_ns: u64,
    keyframe: bool,
)
    requires
        whitelisted(m),
    ensures
        whitelisted(mux::fresh(doc_type)),
        m.doc_type != DocType::Webm || profile::codec_allowed(DocType::Webm, d.codec_id)
            ==> whitelisted(MuxView { tracks: m.tracks.push(d), ..m }),
        mux::appended(m, track, packet, ts_ns, keyframe) matches Ok(n) ==> whitelisted(n),
        whitelisted(mux::flushed(m)),
{
}

} // verus!
