//! Where the SeekHead of a finished file leads.

use crate::bytes;
use crate::mkv::ebml::schema::ids;
use crate::mkv::ebml::writer;
use crate::mkv::ebml::writer::{items_bytes, stands};
use crate::mkv::mux;
use crate::mkv::mux::MuxView;
use crate::mkv::roundtrip::children::number;
use crate::mkv::roundtrip::file;
use vstd::prelude::*;

verus! {

proof fn lemma_number(b: Seq<u8>)
    ensures
        number(b) == bytes::uint(b),
    decreases b.len(),
{
    if b.len() > 0 {
        lemma_number(b.drop_last());
    }
}

/// An entry of a SeekHead names an element by its ID, and says at which place of the Segment
/// it stands.
pub open spec fn leads(segment: Seq<u8>, entry: (u64, Seq<u8>), id: u64, payload: Seq<u8>) -> bool {
    exists|name: Seq<u8>, place: Seq<u8>| #[trigger]
        names(segment, entry, id, payload, name, place)
}

/// The same, given the bytes of the ID and of the place.
pub open spec fn names(
    segment: Seq<u8>,
    entry: (u64, Seq<u8>),
    id: u64,
    payload: Seq<u8>,
    name: Seq<u8>,
    place: Seq<u8>,
) -> bool {
    &&& entry.0 == 0x4DBB
    &&& entry.1 == items_bytes(seq![(0x53ABu64, name), (0x53ACu64, place)])
    &&& number(name) == id
    &&& place.len() == 8
    &&& stands(segment, number(place), id, payload)
}

proof fn lemma_leads(segment: Seq<u8>, id: u64, at: int, payload: Seq<u8>)
    requires
        writer::is_id(id),
        0 <= at <= u64::MAX,
        stands(segment, at, id, payload),
    ensures
        leads(
            segment,
            (ids::SEEK, items_bytes(mux::seek_items(id, at as u64))),
            id,
            payload,
        ),
{
    let name = writer::id_bytes(id);
    let place = bytes::fixed(at as nat, 8);
    bytes::lemma_pow256();
    bytes::lemma_uint_fixed(at as nat, 8);
    bytes::lemma_uint_fixed(id as nat, writer::id_width_spec(id) as nat);
    lemma_number(name);
    lemma_number(place);
    assert(mux::seek_items(id, at as u64) =~= seq![(0x53ABu64, name), (0x53ACu64, place)]);
    assert(names(
        segment,
        (ids::SEEK, items_bytes(mux::seek_items(id, at as u64))),
        id,
        payload,
        name,
        place,
    ));
}

/// Where the Segment's children start.
proof fn lemma_places(m: MuxView, duration: Option<u64>)
    ensures
        ({
            let all = mux::segment_items(m, duration);
            &&& all.len() >= 3
            &&& all[0] == (ids::SEEK_HEAD, items_bytes(mux::seek_head_items(m, duration)))
            &&& all[1] == (ids::INFO, mux::info_body(m, duration))
            &&& all[2] == (ids::TRACKS, mux::tracks_body(m))
            &&& items_bytes(all.take(1)).len() == mux::info_at(m)
            &&& items_bytes(all.take(2)).len() == mux::tracks_at(m, duration)
            &&& mux::cues(m.done).len() > 0 ==> {
                let n = all.len() - 1;
                &&& n >= 3
                &&& all[n] == (
                    ids::CUES,
                    items_bytes(
                        mux::cues_items(mux::cues(m.done), mux::clusters_at(m, duration)),
                    ),
                )
                &&& items_bytes(all.take(n)).len() == mux::cues_at(m, duration)
            }
        }),
{
    reveal(mux::segment_items);
    let all = mux::segment_items(m, duration);
    let head = mux::head_items(m, duration);
    let e = Seq::<(u64, Seq<u8>)>::empty();
    let sh = items_bytes(mux::seek_head_items(m, duration));
    let h1 = e.push((ids::SEEK_HEAD, sh));
    let h2 = h1.push((ids::INFO, mux::info_body(m, duration)));
    mux::lemma_layout(m, duration);
    writer::lemma_items_push(h1, ids::INFO, mux::info_body(m, duration));
    writer::lemma_items_push(h2, ids::TRACKS, mux::tracks_body(m));
    assert(head == h2.push((ids::TRACKS, mux::tracks_body(m))));
    assert(all.take(1) =~= h1);
    assert(all.take(2) =~= h2);
    if mux::cues(m.done).len() > 0 {
        let n = all.len() - 1;
        assert(all.take(n) =~= head + mux::clusters_items(m.done));
        writer::lemma_items_concat(head, mux::clusters_items(m.done));
    }
}

/// The SeekHead of a finished file stands first in the Segment. It leads to the Info and the
/// Tracks, and to the Cues if there are any: each entry names one of them, and the element
/// with that ID stands at the place that the entry gives.
pub proof fn law_seek_head_leads(m: MuxView, duration: Option<u64>)
    requires
        mux::file_bytes(m, duration).len() < writer::size_limit(),
        mux::file_bytes(m, duration).len() <= usize::MAX,
    ensures
        ({
            let all = mux::segment_items(m, duration);
            let b = items_bytes(all);
            let entries = mux::seek_head_items(m, duration);
            let has = mux::cues(m.done).len() > 0;
            &&& all[0] == (0x114D9B74u64, items_bytes(entries))
            &&& entries.len() == if has {
                3int
            } else {
                2
            }
            &&& leads(b, entries[0], 0x1549A966, mux::info_body(m, duration))
            &&& leads(b, entries[1], 0x1654AE6B, mux::tracks_body(m))
            &&& has ==> leads(b, entries[2], 0x1C53BB6B, all.last().1)
        }),
{
    let all = mux::segment_items(m, duration);
    let b = items_bytes(all);
    file::lemma_segment_writable(m, duration);
    mux::lemma_layout(m, duration);
    lemma_places(m, duration);
    assert(writer::size_limit() <= u64::MAX);
    writer::lemma_items_prefix(all, 1);
    writer::lemma_items_prefix(all, 2);
    writer::lemma_item_stands(all, 1);
    writer::lemma_item_stands(all, 2);
    lemma_leads(b, ids::INFO, mux::info_at(m), mux::info_body(m, duration));
    lemma_leads(b, ids::TRACKS, mux::tracks_at(m, duration), mux::tracks_body(m));
    if mux::cues(m.done).len() > 0 {
        let n = all.len() - 1;
        writer::lemma_item_stands(all, n);
        lemma_leads(b, ids::CUES, mux::cues_at(m, duration), all[n].1);
    }
}

/// A packet that is no keyframe of video, or comes no later than the start of the Cluster in
/// progress, stays in it as long as it comes less than a Cluster duration behind that start;
/// the log of finished Clusters stays as it was.
pub proof fn law_cluster_goes_on(
    m: MuxView,
    track: u64,
    packet: Seq<u8>,
    ts_ns: u64,
    keyframe: bool,
)
    requires
        mux::appended(m, track, packet, ts_ns, keyframe) is Ok,
        m.start is Some,
        ts_ns - m.start->0 * 1_000_000 < m.cluster_duration_ns,
        !keyframe || !(m.tracks[track - 1].kind is Video) || ts_ns <= m.start->0 * 1_000_000,
    ensures
        ({
            let n = mux::appended(m, track, packet, ts_ns, keyframe)->Ok_0;
            &&& n.done == m.done
            &&& n.start == m.start
            &&& n.open.len() == m.open.len() + 1
            &&& n.open.drop_last() == m.open
            &&& n.open.last().track == track
            &&& n.open.last().data == packet
            &&& n.open.last().keyframe == keyframe
            &&& n.open.last().delta == ts_ns / 1_000_000 - m.start->0
        }),
{
    let n = mux::appended(m, track, packet, ts_ns, keyframe)->Ok_0;
    assert(n.open.drop_last() =~= m.open);
}

} // verus!
