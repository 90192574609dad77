//! What the bytes of a track's boxes mean for what is known of the track.

use crate::bytes;
use crate::isobmff::boxes::kinds;
use crate::isobmff::demux;
use crate::isobmff::demux::listed::{absent, alone, lemma_alone, lemma_none};
use crate::isobmff::demux::track;
use crate::isobmff::demux::track::TrackView;
use crate::isobmff::demux::{Child, Fault};
use crate::isobmff::parse::boxed::{code, n16};
use crate::isobmff::parse::listed::{n32, n64};
use vstd::prelude::*;

verus! {

/// These boxes are in a body.
pub open spec fn holds(b: Seq<u8>, s: Seq<Child>) -> bool {
    demux::boxes_of(b, 0).0 == Ok::<Seq<Child>, Fault>(s)
}

/// How many boxes were looked at before does not change what is found.
proof fn lemma_same_boxes(b: Seq<u8>, v: nat, w: nat)
    requires
        demux::boxes_of(b, v).0 is Ok,
        demux::boxes_of(b, w).0 is Ok,
    ensures
        demux::boxes_of(b, v).0 == demux::boxes_of(b, w).0,
    decreases b.len(),
{
    if b.len() > 0 {
        let (header, size) = demux::extent_of(b)->Ok_0;
        lemma_same_boxes(b.skip(size), v + 1, w + 1);
    }
}

/// Where the fields behind the two times at the start of a header are: the times have 32
/// bits in the first version of the header and 64 in the second.
pub open spec fn behind_times(b: Seq<u8>) -> int {
    if b[0] == 0 {
        12
    } else {
        20
    }
}

/// The duration behind a number of 32 bits at `i`.
pub open spec fn duration_at(b: Seq<u8>, i: int) -> int {
    if b[0] == 0 {
        n32(b, i)
    } else {
        n64(b, i)
    }
}

/// The language that a number stands for: three letters behind an unused bit.
pub open spec fn means(v: int, l: Option<Seq<char>>) -> bool {
    match l {
        Some(t) => {
            &&& t.len() == 3
            &&& forall|i: int| 0 <= i < 3 ==> 'a' <= #[trigger] t[i] <= 'z'
            &&& v == (t[0] as int - 0x60) * 0x400 + (t[1] as int - 0x60) * 0x20 + (t[2] as int
                - 0x60)
        },
        None => forall|a: int, b: int, c: int|
            1 <= a <= 26 && 1 <= b <= 26 && 1 <= c <= 26 ==> v != #[trigger] letters(a, b, c),
    }
}

/// Three letters of five bits as a number.
pub open spec fn letters(a: int, b: int, c: int) -> int {
    a * 0x400 + b * 0x20 + c
}

proof fn lemma_packed(v: u16)
    ensures
        means(v as int, track::packed_language(v)),
{
    let a = v / 1024 % 32;
    let b = v / 32 % 32;
    let c = v % 32;
    match track::packed_language(v) {
        Some(t) => {
            assert(t[0] as int == a + 0x60);
            assert(t[1] as int == b + 0x60);
            assert(t[2] as int == c + 0x60);
        },
        None => {
            assert forall|x: int, y: int, z: int|
                1 <= x <= 26 && 1 <= y <= 26 && 1 <= z <= 26 implies v != #[trigger] letters(
                x,
                y,
                z,
            ) by {
                if v == letters(x, y, z) {
                    assert(v % 32 == z);
                    assert(v / 32 % 32 == y);
                    assert(v / 1024 % 32 == x);
                }
            }
        },
    }
}

/// A text of ASCII bytes, perhaps with a zero behind it.
pub open spec fn spells(b: Seq<u8>, t: Seq<char>) -> bool {
    &&& b.len() == t.len() || (b.len() == t.len() + 1 && b.last() == 0)
    &&& t.len() > 0
    &&& forall|i: int| 0 <= i < t.len() ==> (#[trigger] t[i]) as int == b[i] && b[i] != 0
}

/// What the boxes of a track are: its header, and its media with a handler, a header and
/// the tables with their sample entries.
pub struct TrackTree {
    pub tkhd: Seq<u8>,
    pub mdia: Seq<u8>,
    pub media: Seq<Child>,
    pub mdhd: Seq<u8>,
    pub hdlr: Seq<u8>,
    pub minf: Seq<u8>,
    pub info: Seq<Child>,
    pub stbl: Seq<u8>,
    pub tables: Seq<Child>,
    pub stsd: Seq<u8>,
    pub entries: Seq<Child>,
}

/// These boxes are in the body of a track.
pub open spec fn grown(data: Seq<u8>, top: Seq<Child>, t: TrackTree) -> bool {
    &&& holds(data, top)
    &&& alone(top, code('t', 'k', 'h', 'd'), t.tkhd)
    &&& alone(top, code('m', 'd', 'i', 'a'), t.mdia)
    &&& holds(t.mdia, t.media)
    &&& alone(t.media, code('m', 'd', 'h', 'd'), t.mdhd)
    &&& alone(t.media, code('h', 'd', 'l', 'r'), t.hdlr)
    &&& alone(t.media, code('m', 'i', 'n', 'f'), t.minf)
    &&& holds(t.minf, t.info)
    &&& alone(t.info, code('s', 't', 'b', 'l'), t.stbl)
    &&& holds(t.stbl, t.tables)
    &&& alone(t.tables, code('s', 't', 's', 'd'), t.stsd)
    &&& holds(t.stsd.skip(8), t.entries)
}

proof fn lemma_codes()
    ensures
        kinds::TKHD@ == code('t', 'k', 'h', 'd'),
        kinds::MDIA@ == code('m', 'd', 'i', 'a'),
        kinds::MDHD@ == code('m', 'd', 'h', 'd'),
        kinds::HDLR@ == code('h', 'd', 'l', 'r'),
        kinds::MINF@ == code('m', 'i', 'n', 'f'),
        kinds::STBL@ == code('s', 't', 'b', 'l'),
        kinds::STSD@ == code('s', 't', 's', 'd'),
        kinds::ELNG@ == code('e', 'l', 'n', 'g'),
        kinds::EDTS@ == code('e', 'd', 't', 's'),
        kinds::ELST@ == code('e', 'l', 's', 't'),
{
    assert(kinds::TKHD@ =~= code('t', 'k', 'h', 'd'));
    assert(kinds::MDIA@ =~= code('m', 'd', 'i', 'a'));
    assert(kinds::MDHD@ =~= code('m', 'd', 'h', 'd'));
    assert(kinds::HDLR@ =~= code('h', 'd', 'l', 'r'));
    assert(kinds::MINF@ =~= code('m', 'i', 'n', 'f'));
    assert(kinds::STBL@ =~= code('s', 't', 'b', 'l'));
    assert(kinds::STSD@ =~= code('s', 't', 's', 'd'));
    assert(kinds::ELNG@ =~= code('e', 'l', 'n', 'g'));
    assert(kinds::EDTS@ =~= code('e', 'd', 't', 's'));
    assert(kinds::ELST@ =~= code('e', 'l', 's', 't'));
}

proof fn lemma_descriptions(s: Seq<Child>)
    requires
        track::descriptions_of(s) is Ok,
    ensures
        ({
            let d = track::descriptions_of(s)->Ok_0;
            &&& d.len() == s.len()
            &&& forall|i: int|
                0 <= i < s.len() ==> (#[trigger] d[i]).format == s[i].kind
                    && d[i].data_reference_index == n16(s[i].data, 6) && d[i].configuration
                    == s[i].data.skip(8)
        }),
    decreases s.len(),
{
    if s.len() > 0 {
        lemma_descriptions(s.drop_last());
        let d = track::descriptions_of(s)->Ok_0;
        assert forall|i: int| 0 <= i < s.len() implies (#[trigger] d[i]).format == s[i].kind
            && d[i].data_reference_index == n16(s[i].data, 6) && d[i].configuration
            == s[i].data.skip(8) by {
            if i < s.len() - 1 {
                assert(s.drop_last()[i] == s[i]);
                assert(track::descriptions_of(s.drop_last())->Ok_0[i] == d[i]);
            }
        }
    }
}

/// A track's number, whether it is enabled, its time scale, its duration and its handler,
/// as its headers say.
pub open spec fn headed(v: TrackView, t: TrackTree) -> bool {
    &&& v.id == n32(t.tkhd, behind_times(t.tkhd))
    &&& v.enabled == (t.tkhd[3] % 2 == 1)
    &&& v.handler == t.hdlr.subrange(8, 12)
    &&& v.timescale == n32(t.mdhd, behind_times(t.mdhd))
    &&& v.duration == duration_at(t.mdhd, behind_times(t.mdhd) + 4)
}

/// A track's language: that of the extended language box if there is one, else that of the
/// media header.
pub open spec fn spoken(v: TrackView, t: TrackTree) -> bool {
    &&& absent(t.media, code('e', 'l', 'n', 'g')) ==> means(
        n16(
            t.mdhd,
            if t.mdhd[0] == 0 {
                20
            } else {
                32
            },
        ),
        v.language,
    )
    &&& forall|e: Seq<u8>|
        #[trigger] alone(t.media, code('e', 'l', 'n', 'g'), e) ==> v.language is Some && spells(
            e.skip(4),
            v.language->0,
        )
}

/// The sample entries of a track, each with its code, its data reference and the rest.
pub open spec fn coded(v: TrackView, t: TrackTree) -> bool {
    &&& v.table == t.stbl
    &&& v.descriptions.len() == t.entries.len()
    &&& forall|i: int|
        0 <= i < t.entries.len() ==> (#[trigger] v.descriptions[i]).format == t.entries[i].kind
            && v.descriptions[i].data_reference_index == n16(t.entries[i].data, 6)
            && v.descriptions[i].configuration == t.entries[i].data.skip(8)
}

/// A track whose samples can be read has one sample entry, its data in the file itself, and
/// tables that are understood. Its edit is that of its edit list, if it has one.
pub open spec fn readable(v: TrackView, top: Seq<Child>, t: TrackTree) -> bool {
    &&& absent(top, code('e', 'd', 't', 's')) ==> v.edit is None
    &&& v.unsupported_reason is None ==> {
        &&& t.entries.len() == 1
        &&& n16(t.entries[0].data, 6) == 1
        &&& forall|i: int| 0 <= i < t.tables.len() ==> understood((#[trigger] t.tables[i]).kind)
        &&& forall|d: Seq<u8>, s: Seq<Child>, e: Seq<u8>|
            #[trigger] alone(top, code('e', 'd', 't', 's'), d) && #[trigger] holds(d, s)
                && #[trigger] alone(s, code('e', 'l', 's', 't'), e) ==> v.edit is Some
                && track::edit_in(e) == Ok::<track::Edit, Fault>(v.edit->0)
    }
}

/// The tables that are understood.
pub open spec fn understood(kind: Seq<u8>) -> bool {
    ||| kind == code('s', 't', 's', 'd')
    ||| kind == code('s', 't', 't', 's')
    ||| kind == code('s', 't', 's', 'c')
    ||| kind == code('s', 't', 's', 'z')
    ||| kind == code('s', 't', 'c', 'o')
    ||| kind == code('c', 'o', '6', '4')
    ||| kind == code('s', 't', 's', 's')
    ||| kind == code('f', 'r', 'e', 'e')
}

proof fn lemma_understood(kind: Seq<u8>)
    requires
        track::known_table(kind),
    ensures
        understood(kind),
{
    assert(kinds::STSD@ =~= code('s', 't', 's', 'd'));
    assert(kinds::STTS@ =~= code('s', 't', 't', 's'));
    assert(kinds::STSC@ =~= code('s', 't', 's', 'c'));
    assert(kinds::STSZ@ =~= code('s', 't', 's', 'z'));
    assert(kinds::STCO@ =~= code('s', 't', 'c', 'o'));
    assert(kinds::CO64@ =~= code('c', 'o', '6', '4'));
    assert(kinds::STSS@ =~= code('s', 't', 's', 's'));
    assert(kinds::FREE@ =~= code('f', 'r', 'e', 'e'));
}

proof fn lemma_media(t: TrackTree, m: track::MediaView)
    requires
        alone(t.media, code('m', 'd', 'h', 'd'), t.mdhd),
        alone(t.media, code('h', 'd', 'l', 'r'), t.hdlr),
        track::media_of(t.media) == Ok::<track::MediaView, Fault>(m),
    ensures
        m.handler == t.hdlr.subrange(8, 12),
        m.timescale == n32(t.mdhd, behind_times(t.mdhd)),
        m.duration == duration_at(t.mdhd, behind_times(t.mdhd) + 4),
        absent(t.media, code('e', 'l', 'n', 'g')) ==> means(
            n16(
                t.mdhd,
                if t.mdhd[0] == 0 {
                    20
                } else {
                    32
                },
            ),
            m.language,
        ),
        forall|e: Seq<u8>|
            #[trigger] alone(t.media, code('e', 'l', 'n', 'g'), e) ==> m.language is Some && spells(
                e.skip(4),
                m.language->0,
            ),
{
    lemma_codes();
    lemma_alone(t.media, code('m', 'd', 'h', 'd'), t.mdhd);
    lemma_alone(t.media, code('h', 'd', 'l', 'r'), t.hdlr);
    let at = if t.mdhd[0] == 0 {
        20int
    } else {
        32
    };
    assert(track::time_of(t.mdhd, false)->Ok_0.2 == at);
    lemma_packed(bytes::get16(t.mdhd, at));
    if absent(t.media, code('e', 'l', 'n', 'g')) {
        lemma_none(t.media, code('e', 'l', 'n', 'g'));
    }
    assert forall|e: Seq<u8>| #[trigger]
        alone(t.media, code('e', 'l', 'n', 'g'), e) implies m.language is Some && spells(
        e.skip(4),
        m.language->0,
    ) by {
        lemma_alone(t.media, code('e', 'l', 'n', 'g'), e);
        let b = e.skip(4);
        let v = track::tag_bytes(b);
        assert(m.language == Some(crate::text::ascii_text(v)));
        let l = m.language->0;
        assert forall|i: int| 0 <= i < l.len() implies (#[trigger] l[i]) as int == b[i] && b[i]
            != 0 by {
            assert(track::tag_byte(v[i]));
        }
    }
}

/// What is known of a track is what its boxes say.
#[verifier::spinoff_prover]
pub proof fn law_track_is_described(
    data: Seq<u8>,
    prior: Seq<TrackView>,
    work: nat,
    top: Seq<Child>,
    t: TrackTree,
)
    requires
        grown(data, top, t),
        track::track_of(data, prior, work) is Ok,
    ensures
        headed(track::track_of(data, prior, work)->Ok_0.0, t),
        spoken(track::track_of(data, prior, work)->Ok_0.0, t),
        coded(track::track_of(data, prior, work)->Ok_0.0, t),
        readable(track::track_of(data, prior, work)->Ok_0.0, top, t),
{
    lemma_codes();
    lemma_same_boxes(data, 0, work);
    lemma_alone(top, code('t', 'k', 'h', 'd'), t.tkhd);
    lemma_alone(top, code('m', 'd', 'i', 'a'), t.mdia);
    let w1 = demux::boxes_of(data, work).1;
    lemma_same_boxes(t.mdia, 0, w1);
    let w2 = demux::boxes_of(t.mdia, w1).1;
    let m = track::media_of(t.media)->Ok_0;
    lemma_media(t, m);
    lemma_alone(t.media, code('m', 'i', 'n', 'f'), t.minf);
    lemma_same_boxes(t.minf, 0, w2);
    let w3 = demux::boxes_of(t.minf, w2).1;
    lemma_alone(t.info, code('s', 't', 'b', 'l'), t.stbl);
    lemma_same_boxes(t.stbl, 0, w3);
    let w4 = demux::boxes_of(t.stbl, w3).1;
    lemma_alone(t.tables, code('s', 't', 's', 'd'), t.stsd);
    lemma_same_boxes(t.stsd.skip(8), 0, w4);
    lemma_descriptions(t.entries);
    if absent(top, code('e', 'd', 't', 's')) {
        lemma_none(top, code('e', 'd', 't', 's'));
    }
    let v = track::track_of(data, prior, work)->Ok_0.0;
    if v.unsupported_reason is None {
        assert forall|i: int| 0 <= i < t.tables.len() implies understood(
            (#[trigger] t.tables[i]).kind,
        ) by {
            lemma_understood(t.tables[i].kind);
        }
        assert(v.descriptions[0].data_reference_index == 1);
        let w5 = track::listing_of(t.media, w2)->Ok_0.1;
        assert forall|d: Seq<u8>, s: Seq<Child>, e: Seq<u8>|
            #[trigger] alone(top, code('e', 'd', 't', 's'), d) && #[trigger] holds(d, s)
                && #[trigger] alone(s, code('e', 'l', 's', 't'), e) implies v.edit is Some
            && track::edit_in(e) == Ok::<track::Edit, Fault>(v.edit->0) by {
            lemma_alone(top, code('e', 'd', 't', 's'), d);
            lemma_same_boxes(d, 0, w5);
            lemma_alone(s, code('e', 'l', 's', 't'), e);
        }
    }
}

/// An edit list of one entry shows the media from its time on, for its duration. With two
/// the first is empty and its duration a delay. Other edit lists are refused.
#[verifier::spinoff_prover]
pub proof fn law_edit_is_read(b: Seq<u8>)
    requires
        track::edit_in(b) is Ok,
    ensures
        ({
            let (delay, media, length) = track::edit_in(b)->Ok_0;
            let last = n32(b, 4) - 1;
            let at = if b[0] == 0 {
                8 + 12 * last
            } else {
                8 + 20 * last
            };
            let wide = b[0] == 1;
            &&& b[0] <= 1
            &&& 0 <= last <= 1
            &&& length == duration_at(b, at)
            &&& media == duration_at(
                b,
                if wide {
                    at + 8
                } else {
                    at + 4
                },
            )
            &&& delay == if last == 0 {
                0
            } else {
                duration_at(b, 8)
            }
            &&& length > 0
            &&& last == 1 ==> delay > 0 && if wide {
                n64(b, 16) == 0xFFFF_FFFF_FFFF_FFFF
            } else {
                n32(b, 12) == 0xFFFF_FFFF
            }
            &&& n32(
                b,
                if wide {
                    at + 16
                } else {
                    at + 8
                },
            ) == 0x1_0000
        }),
{
    lemma_agree(b, 4);
    lemma_agree(b, 8);
    lemma_agree(b, 12);
    lemma_agree(b, 16);
    lemma_agree(b, 20);
    lemma_agree(b, 24);
    lemma_agree(b, 28);
    lemma_agree(b, 36);
    lemma_agree(b, 44);
}

proof fn lemma_agree(b: Seq<u8>, i: int)
    ensures
        bytes::get32(b, i) == n32(b, i),
        bytes::get64(b, i) == n64(b, i),
{
}

} // verus!
