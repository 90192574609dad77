//! What nested boxes mean for the tracks that are read from them.

use crate::bytes;
use crate::isobmff::boxes::kinds;
use crate::isobmff::parse;
use crate::isobmff::parse::cursor;
use crate::isobmff::parse::listed::{n32, n64};
use crate::isobmff::parse::table;
use crate::isobmff::parse::table::SampleRef;
use crate::isobmff::parse::{AudioCodec, AudioView, VideoCodec, VideoView};
use vstd::prelude::*;

verus! {

/// Boxes: their codes and their bodies.
pub type Boxes = Seq<(Seq<u8>, Seq<u8>)>;

/// The four characters of a code.
pub open spec fn code(a: char, b: char, c: char, d: char) -> Seq<u8> {
    seq![a as u8, b as u8, c as u8, d as u8]
}

/// A box on the wire: the length of all of it, its code and its body.
pub open spec fn box_bytes(kind: Seq<u8>, body: Seq<u8>) -> Seq<u8> {
    bytes::be32((body.len() + 8) as u32) + kind + body
}

/// Boxes on the wire, one after the other.
pub open spec fn pack(list: Boxes) -> Seq<u8>
    decreases list.len(),
{
    if list.len() == 0 {
        Seq::empty()
    } else {
        box_bytes(list[0].0, list[0].1) + pack(list.skip(1))
    }
}

/// Boxes that can be written.
pub open spec fn writable(list: Boxes) -> bool {
    forall|i: int|
        0 <= i < list.len() ==> (#[trigger] list[i]).0.len() == 4 && list[i].1.len() + 8
            <= u32::MAX
}

/// The body of the first box of a kind.
pub open spec fn first_of(list: Boxes, kind: Seq<u8>) -> Option<Seq<u8>>
    decreases list.len(),
{
    if list.len() == 0 {
        None
    } else if list[0].0 == kind {
        Some(list[0].1)
    } else {
        first_of(list.skip(1), kind)
    }
}

/// The codes of boxes are what their names say.
proof fn lemma_codes()
    ensures
        kinds::AV01@ == code('a', 'v', '0', '1'),
        kinds::AV1C@ == code('a', 'v', '1', 'C'),
        kinds::AVC1@ == code('a', 'v', 'c', '1'),
        kinds::AVC3@ == code('a', 'v', 'c', '3'),
        kinds::AVCC@ == code('a', 'v', 'c', 'C'),
        kinds::CO64@ == code('c', 'o', '6', '4'),
        kinds::CTTS@ == code('c', 't', 't', 's'),
        kinds::DFLA@ == code('d', 'f', 'L', 'a'),
        kinds::ESDS@ == code('e', 's', 'd', 's'),
        kinds::FLAC@ == code('f', 'L', 'a', 'C'),
        kinds::FLAC_LOWER@ == code('f', 'l', 'a', 'c'),
        kinds::HDLR@ == code('h', 'd', 'l', 'r'),
        kinds::HEV1@ == code('h', 'e', 'v', '1'),
        kinds::HVC1@ == code('h', 'v', 'c', '1'),
        kinds::HVCC@ == code('h', 'v', 'c', 'C'),
        kinds::MDHD@ == code('m', 'd', 'h', 'd'),
        kinds::MDIA@ == code('m', 'd', 'i', 'a'),
        kinds::MINF@ == code('m', 'i', 'n', 'f'),
        kinds::MOOV@ == code('m', 'o', 'o', 'v'),
        kinds::MP3@ == code('.', 'm', 'p', '3'),
        kinds::MP4A@ == code('m', 'p', '4', 'a'),
        kinds::SOUN@ == code('s', 'o', 'u', 'n'),
        kinds::STBL@ == code('s', 't', 'b', 'l'),
        kinds::STCO@ == code('s', 't', 'c', 'o'),
        kinds::STSC@ == code('s', 't', 's', 'c'),
        kinds::STSD@ == code('s', 't', 's', 'd'),
        kinds::STSS@ == code('s', 't', 's', 's'),
        kinds::STSZ@ == code('s', 't', 's', 'z'),
        kinds::STTS@ == code('s', 't', 't', 's'),
        kinds::TKHD@ == code('t', 'k', 'h', 'd'),
        kinds::TRAK@ == code('t', 'r', 'a', 'k'),
        kinds::VIDE@ == code('v', 'i', 'd', 'e'),
{
    assert(kinds::AV01@ =~= code('a', 'v', '0', '1'));
    assert(kinds::AV1C@ =~= code('a', 'v', '1', 'C'));
    assert(kinds::AVC1@ =~= code('a', 'v', 'c', '1'));
    assert(kinds::AVC3@ =~= code('a', 'v', 'c', '3'));
    assert(kinds::AVCC@ =~= code('a', 'v', 'c', 'C'));
    assert(kinds::CO64@ =~= code('c', 'o', '6', '4'));
    assert(kinds::CTTS@ =~= code('c', 't', 't', 's'));
    assert(kinds::DFLA@ =~= code('d', 'f', 'L', 'a'));
    assert(kinds::ESDS@ =~= code('e', 's', 'd', 's'));
    assert(kinds::FLAC@ =~= code('f', 'L', 'a', 'C'));
    assert(kinds::FLAC_LOWER@ =~= code('f', 'l', 'a', 'c'));
    assert(kinds::HDLR@ =~= code('h', 'd', 'l', 'r'));
    assert(kinds::HEV1@ =~= code('h', 'e', 'v', '1'));
    assert(kinds::HVC1@ =~= code('h', 'v', 'c', '1'));
    assert(kinds::HVCC@ =~= code('h', 'v', 'c', 'C'));
    assert(kinds::MDHD@ =~= code('m', 'd', 'h', 'd'));
    assert(kinds::MDIA@ =~= code('m', 'd', 'i', 'a'));
    assert(kinds::MINF@ =~= code('m', 'i', 'n', 'f'));
    assert(kinds::MOOV@ =~= code('m', 'o', 'o', 'v'));
    assert(kinds::MP3@ =~= code('.', 'm', 'p', '3'));
    assert(kinds::MP4A@ =~= code('m', 'p', '4', 'a'));
    assert(kinds::SOUN@ =~= code('s', 'o', 'u', 'n'));
    assert(kinds::STBL@ =~= code('s', 't', 'b', 'l'));
    assert(kinds::STCO@ =~= code('s', 't', 'c', 'o'));
    assert(kinds::STSC@ =~= code('s', 't', 's', 'c'));
    assert(kinds::STSD@ =~= code('s', 't', 's', 'd'));
    assert(kinds::STSS@ =~= code('s', 't', 's', 's'));
    assert(kinds::STSZ@ =~= code('s', 't', 's', 'z'));
    assert(kinds::STTS@ =~= code('s', 't', 't', 's'));
    assert(kinds::TKHD@ =~= code('t', 'k', 'h', 'd'));
    assert(kinds::TRAK@ =~= code('t', 'r', 'a', 'k'));
    assert(kinds::VIDE@ =~= code('v', 'i', 'd', 'e'));
}

/// The box at the front of what is left.
proof fn lemma_front(b: Seq<u8>, at: int, kind: Seq<u8>, body: Seq<u8>, rest: Seq<u8>)
    requires
        0 <= at <= b.len(),
        kind.len() == 4,
        body.len() + 8 <= u32::MAX,
        b.skip(at) == box_bytes(kind, body) + rest,
    ensures
        cursor::box_at(b, at) == Ok::<(Seq<u8>, int, int), Seq<char>>(
            (kind, at + 8, at + 8 + body.len()),
        ),
        at + 8 + body.len() <= b.len(),
        b.subrange(at + 8, at + 8 + body.len()) == body,
        b.skip(at + 8 + body.len()) == rest,
{
    let n = (body.len() + 8) as u32;
    let tail = b.skip(at);
    let head = bytes::be32(n);
    let w = box_bytes(kind, body);
    bytes::lemma_be32(n);
    assert(w.len() == 8 + body.len());
    assert(tail.len() == w.len() + rest.len());
    assert forall|i: int| 0 <= i < w.len() implies #[trigger] b[at + i] == w[i] by {
        assert(tail[i] == (w + rest)[i]);
    }
    assert forall|i: int| 0 <= i < rest.len() implies #[trigger] b[at + w.len() + i] == rest[i] by {
        assert(tail[w.len() + i] == (w + rest)[w.len() + i]);
    }
    assert(bytes::get32(b, at) == n) by {
        assert(b[at + 0] == w[0] && b[at + 1] == w[1] && b[at + 2] == w[2] && b[at + 3] == w[3]);
        assert(w[0] == head[0] && w[1] == head[1] && w[2] == head[2] && w[3] == head[3]);
    }
    assert(b.subrange(at + 4, at + 8) =~= kind) by {
        assert forall|i: int| 0 <= i < 4 implies #[trigger] b.subrange(at + 4, at + 8)[i]
            == kind[i] by {
            assert(b[at + (4 + i)] == w[4 + i]);
            assert(w[4 + i] == kind[i]);
        }
    }
    assert(b.subrange(at + 8, at + 8 + body.len()) =~= body) by {
        assert forall|i: int| 0 <= i < body.len() implies #[trigger] b.subrange(
            at + 8,
            at + 8 + body.len(),
        )[i] == body[i] by {
            assert(b[at + (8 + i)] == w[8 + i]);
            assert(w[8 + i] == body[i]);
        }
    }
    assert(b.skip(at + 8 + body.len()) =~= rest) by {
        assert forall|i: int| 0 <= i < rest.len() implies #[trigger] b.skip(at + 8 + body.len())[i]
            == rest[i] by {
            assert(b[at + w.len() + i] == rest[i]);
        }
    }
    reveal_with_fuel(cursor::lack, 3);
}

proof fn lemma_find(b: Seq<u8>, at: int, list: Boxes, kind: Seq<u8>)
    requires
        0 <= at <= b.len(),
        writable(list),
        b.skip(at) == pack(list),
    ensures
        cursor::find_from(b, at, kind) == Ok::<Option<Seq<u8>>, Seq<char>>(first_of(list, kind)),
    decreases list.len(),
{
    if list.len() == 0 {
        assert(b.skip(at).len() == 0);
    } else {
        let (k, body) = list[0];
        lemma_front(b, at, k, body, pack(list.skip(1)));
        if k != kind {
            lemma_tail(list);
            lemma_find(b, at + 8 + body.len(), list.skip(1), kind);
        }
    }
}

proof fn lemma_tail(list: Boxes)
    requires
        writable(list),
        list.len() > 0,
    ensures
        writable(list.skip(1)),
{
    let rest = list.skip(1);
    assert forall|i: int| 0 <= i < rest.len() implies (#[trigger] rest[i]).0.len() == 4
        && rest[i].1.len() + 8 <= u32::MAX by {
        assert(rest[i] == list[i + 1]);
    }
}

/// A child is found by its code: the first of its kind counts, and others are passed over.
pub proof fn law_child_is_found(list: Boxes, kind: Seq<u8>)
    requires
        writable(list),
    ensures
        cursor::find_from(pack(list), 0, kind) == Ok::<Option<Seq<u8>>, Seq<char>>(
            first_of(list, kind),
        ),
{
    assert(pack(list).skip(0) =~= pack(list));
    lemma_find(pack(list), 0, list, kind);
}

/// The tables that a sample table holds, each known by its code.
pub proof fn law_tables_are_found(list: Boxes)
    requires
        writable(list),
        first_of(list, code('s', 't', 't', 's')) is Some,
        first_of(list, code('s', 't', 's', 'c')) is Some,
        first_of(list, code('s', 't', 's', 'z')) is Some,
    ensures
        table::tables_of(pack(list)) matches Ok(t) && {
            &&& first_of(list, code('s', 't', 't', 's')) == Some(t.stts)
            &&& first_of(list, code('s', 't', 's', 'c')) == Some(t.stsc)
            &&& first_of(list, code('s', 't', 's', 'z')) == Some(t.stsz)
            &&& first_of(list, code('s', 't', 'c', 'o')) == t.stco
            &&& first_of(list, code('c', 'o', '6', '4')) == t.co64
            &&& first_of(list, code('s', 't', 's', 's')) == t.stss
            &&& first_of(list, code('c', 't', 't', 's')) == t.ctts
        },
{
    lemma_codes();
    law_child_is_found(list, kinds::STTS@);
    law_child_is_found(list, kinds::STSC@);
    law_child_is_found(list, kinds::STSZ@);
    law_child_is_found(list, kinds::STCO@);
    law_child_is_found(list, kinds::CO64@);
    law_child_is_found(list, kinds::STSS@);
    law_child_is_found(list, kinds::CTTS@);
}

/// The boxes of a track down to its sample table.
pub struct TrackBoxes {
    pub trak: Boxes,
    pub mdia: Boxes,
    pub minf: Boxes,
    pub stbl: Boxes,
    pub mdhd: Seq<u8>,
    pub hdlr: Seq<u8>,
    /// The code and the body of the first sample entry, and what is behind it.
    pub entry: (Seq<u8>, Seq<u8>),
    pub behind: Seq<u8>,
    pub stsd: Seq<u8>,
}

/// They lie in each other as their codes say, and the short ones are long enough.
pub open spec fn nested(t: TrackBoxes) -> bool {
    &&& writable(t.trak)
    &&& writable(t.mdia)
    &&& writable(t.minf)
    &&& writable(t.stbl)
    &&& first_of(t.trak, code('m', 'd', 'i', 'a')) == Some(pack(t.mdia))
    &&& first_of(t.mdia, code('m', 'd', 'h', 'd')) == Some(t.mdhd)
    &&& first_of(t.mdia, code('h', 'd', 'l', 'r')) == Some(t.hdlr)
    &&& first_of(t.mdia, code('m', 'i', 'n', 'f')) == Some(pack(t.minf))
    &&& first_of(t.minf, code('s', 't', 'b', 'l')) == Some(pack(t.stbl))
    &&& first_of(t.stbl, code('s', 't', 's', 'd')) == Some(t.stsd)
    &&& t.mdhd.len() >= 1
    &&& t.mdhd.len() >= if t.mdhd[0] == 1 {
        32int
    } else {
        20int
    }
    &&& t.hdlr.len() >= 12
    &&& t.stsd.len() >= 8
    &&& n32(t.stsd, 4) > 0
    &&& t.entry.0.len() == 4
    &&& t.entry.1.len() + 8 <= u32::MAX
    &&& t.stsd.skip(8) == box_bytes(t.entry.0, t.entry.1) + t.behind
}

/// The ticks per second that the media header gives.
pub open spec fn ticks(t: TrackBoxes) -> int {
    if t.mdhd[0] == 1 {
        n32(t.mdhd, 20)
    } else {
        n32(t.mdhd, 12)
    }
}

/// The duration that the media header gives.
pub open spec fn length(t: TrackBoxes) -> int {
    if t.mdhd[0] == 1 {
        n64(t.mdhd, 24)
    } else {
        n32(t.mdhd, 16)
    }
}

/// Whether a body is what a list has under a code. It only hides how it is looked for.
#[verifier::opaque]
spec fn gives(b: Seq<u8>, kind: Seq<u8>, body: Seq<u8>) -> bool {
    cursor::need(b, kind) == Ok::<Seq<u8>, Seq<char>>(body)
}

proof fn lemma_need(list: Boxes, kind: Seq<u8>, body: Seq<u8>)
    requires
        writable(list),
        first_of(list, kind) == Some(body),
    ensures
        gives(pack(list), kind, body),
{
    reveal(gives);
    law_child_is_found(list, kind);
}

proof fn lemma_clock(t: TrackBoxes)
    requires
        nested(t),
    ensures
        parse::clock_of(t.mdhd) matches Ok((a, b)) && a == ticks(t) && b == length(t),
{
    reveal_with_fuel(cursor::lack, 5);
}

proof fn lemma_carried_by(trak: Seq<u8>, mdia: Seq<u8>, hdlr: Seq<u8>)
    requires
        gives(trak, kinds::MDIA@, mdia),
        gives(mdia, kinds::HDLR@, hdlr),
        hdlr.len() >= 12,
    ensures
        parse::carried_by(trak) == Ok::<(Seq<u8>, Seq<u8>), Seq<char>>(
            (mdia, hdlr.subrange(8, 12)),
        ),
{
    reveal(gives);
    assert(cursor::lack(hdlr, 0, seq![4nat, 4, 4]) is None) by {
        reveal_with_fuel(cursor::lack, 4);
    }
}

proof fn lemma_media_of(mdia: Seq<u8>, mdhd: Seq<u8>, minf: Seq<u8>, stbl: Seq<u8>)
    requires
        gives(mdia, kinds::MDHD@, mdhd),
        gives(mdia, kinds::MINF@, minf),
        gives(minf, kinds::STBL@, stbl),
        parse::clock_of(mdhd) is Ok,
    ensures
        parse::media_of(mdia) == Ok::<(u32, u64, Seq<u8>), Seq<char>>(
            (parse::clock_of(mdhd)->Ok_0.0, parse::clock_of(mdhd)->Ok_0.1, stbl),
        ),
{
    reveal(gives);
}

proof fn lemma_nested_gives(t: TrackBoxes)
    requires
        nested(t),
    ensures
        gives(pack(t.trak), kinds::MDIA@, pack(t.mdia)),
        gives(pack(t.mdia), kinds::MDHD@, t.mdhd),
        gives(pack(t.mdia), kinds::HDLR@, t.hdlr),
        gives(pack(t.mdia), kinds::MINF@, pack(t.minf)),
        gives(pack(t.minf), kinds::STBL@, pack(t.stbl)),
        gives(pack(t.stbl), kinds::STSD@, t.stsd),
{
    lemma_codes();
    lemma_need(t.trak, kinds::MDIA@, pack(t.mdia));
    lemma_need(t.mdia, kinds::MDHD@, t.mdhd);
    lemma_need(t.mdia, kinds::HDLR@, t.hdlr);
    lemma_need(t.mdia, kinds::MINF@, pack(t.minf));
    lemma_need(t.minf, kinds::STBL@, pack(t.stbl));
    lemma_need(t.stbl, kinds::STSD@, t.stsd);
}

proof fn lemma_entry(t: TrackBoxes)
    requires
        nested(t),
    ensures
        cursor::box_at(t.stsd, 8) == Ok::<(Seq<u8>, int, int), Seq<char>>(
            (t.entry.0, 16, 16int + t.entry.1.len()),
        ),
        t.stsd.subrange(16, 16int + t.entry.1.len()) == t.entry.1,
        cursor::lack(t.stsd, 0, seq![4nat, 4]) is None,
        bytes::get32(t.stsd, 4) == n32(t.stsd, 4),
{
    lemma_front(t.stsd, 8, t.entry.0, t.entry.1, t.behind);
    reveal_with_fuel(cursor::lack, 3);
}

/// The first box of a list that is a track which carries video.
proof fn lemma_movie(b: Seq<u8>, at: int, list: Boxes, i: int, v: VideoView)
    requires
        0 <= at <= b.len(),
        writable(list),
        b.skip(at) == pack(list),
        0 <= i < list.len(),
        list[i].0 == code('t', 'r', 'a', 'k'),
        parse::video_of(list[i].1) == Ok::<Option<VideoView>, Seq<char>>(Some(v)),
        forall|j: int|
            0 <= j < i ==> (#[trigger] list[j]).0 == code('t', 'r', 'a', 'k') ==> parse::video_of(
                list[j].1,
            ) == Ok::<Option<VideoView>, Seq<char>>(None),
    ensures
        parse::movie_video(b, at) == Ok::<VideoView, Seq<char>>(v),
    decreases list.len(),
{
    lemma_codes();
    let (k, body) = list[0];
    lemma_front(b, at, k, body, pack(list.skip(1)));
    if i > 0 {
        lemma_tail(list);
        let rest = list.skip(1);
        assert forall|j: int| 0 <= j < i - 1 implies (#[trigger] rest[j]).0 == code(
            't',
            'r',
            'a',
            'k',
        ) ==> parse::video_of(rest[j].1) == Ok::<Option<VideoView>, Seq<char>>(None) by {
            assert(rest[j] == list[j + 1]);
        }
        assert(rest[i - 1] == list[i]);
        lemma_movie(b, at + 8 + body.len(), rest, i - 1, v);
    }
}

/// The first box of a list that is a track which carries audio.
proof fn lemma_movie_audio(b: Seq<u8>, at: int, list: Boxes, i: int, v: AudioView)
    requires
        0 <= at <= b.len(),
        writable(list),
        b.skip(at) == pack(list),
        0 <= i < list.len(),
        list[i].0 == code('t', 'r', 'a', 'k'),
        parse::audio_of(list[i].1) == Ok::<Option<AudioView>, Seq<char>>(Some(v)),
        forall|j: int|
            0 <= j < i ==> (#[trigger] list[j]).0 == code('t', 'r', 'a', 'k') ==> parse::audio_of(
                list[j].1,
            ) == Ok::<Option<AudioView>, Seq<char>>(None),
    ensures
        parse::movie_audio(b, at) == Ok::<Option<AudioView>, Seq<char>>(Some(v)),
    decreases list.len(),
{
    lemma_codes();
    let (k, body) = list[0];
    lemma_front(b, at, k, body, pack(list.skip(1)));
    if i > 0 {
        lemma_tail(list);
        let rest = list.skip(1);
        assert forall|j: int| 0 <= j < i - 1 implies (#[trigger] rest[j]).0 == code(
            't',
            'r',
            'a',
            'k',
        ) ==> parse::audio_of(rest[j].1) == Ok::<Option<AudioView>, Seq<char>>(None) by {
            assert(rest[j] == list[j + 1]);
        }
        assert(rest[i - 1] == list[i]);
        lemma_movie_audio(b, at + 8 + body.len(), rest, i - 1, v);
    }
}

/// The codec that the code of a video sample entry stands for, and the code of the box that
/// configures it.
pub open spec fn video_form(kind: Seq<u8>) -> Option<(VideoCodec, Seq<u8>)> {
    if kind == code('a', 'v', 'c', '1') || kind == code('a', 'v', 'c', '3') {
        Some((VideoCodec::Avc, code('a', 'v', 'c', 'C')))
    } else if kind == code('h', 'v', 'c', '1') || kind == code('h', 'e', 'v', '1') {
        Some((VideoCodec::Hevc, code('h', 'v', 'c', 'C')))
    } else if kind == code('a', 'v', '0', '1') {
        Some((VideoCodec::Av1, code('a', 'v', '1', 'C')))
    } else {
        None
    }
}

/// A number of 16 bits, most significant byte first.
pub open spec fn n16(b: Seq<u8>, i: int) -> int {
    b[i] * 256 + b[i + 1]
}

/// Where the size at which a track is shown stands in its header.
pub open spec fn size_at(tkhd: Seq<u8>) -> int {
    if tkhd[0] == 1 {
        88
    } else {
        76
    }
}

proof fn lemma_video_kinds(kind: Seq<u8>)
    ensures
        match video_form(kind) {
            Some((c, k)) => parse::video_codec(kind) == Some(c) && parse::config_box(c).0 == k,
            None => parse::video_codec(kind) is None,
        },
{
    lemma_codes();
}

/// A video track is read from its boxes: the codec is that of its sample entry, its
/// configuration is the body of the box for that, its size stands in the entry, or in the
/// track header if the entry has none, and its ticks, its duration and its samples are
/// those of its media.
#[verifier::spinoff_prover]
proof fn lemma_video_track(t: TrackBoxes, tkhd: Seq<u8>, inner: Boxes, samples: Seq<SampleRef>)
    requires
        nested(t),
        first_of(t.trak, code('t', 'k', 'h', 'd')) == Some(tkhd),
        tkhd.len() >= 1,
        tkhd.len() >= size_at(tkhd) + 8,
        t.hdlr.subrange(8, 12) == code('v', 'i', 'd', 'e'),
        video_form(t.entry.0) is Some,
        t.entry.1.len() >= 78,
        writable(inner),
        t.entry.1.skip(78) == pack(inner),
        first_of(inner, video_form(t.entry.0)->Some_0.1) is Some,
        table::samples_of(pack(t.stbl)) == Ok::<Seq<SampleRef>, Seq<char>>(samples),
    ensures
        parse::video_of(pack(t.trak)) matches Ok(Some(v)) && {
            &&& v.codec == video_form(t.entry.0)->Some_0.0
            &&& first_of(inner, video_form(t.entry.0)->Some_0.1) == Some(v.codec_config)
            &&& v.width == if n16(t.entry.1, 24) > 0 {
                n16(t.entry.1, 24)
            } else {
                n16(tkhd, size_at(tkhd))
            }
            &&& v.height == if n16(t.entry.1, 26) > 0 {
                n16(t.entry.1, 26)
            } else {
                n16(tkhd, size_at(tkhd) + 4)
            }
            &&& v.timescale == ticks(t)
            &&& v.duration == length(t)
            &&& v.samples == samples
        },
{
    lemma_codes();
    lemma_nested_gives(t);
    lemma_need(t.trak, kinds::TKHD@, tkhd);
    lemma_carried_by(pack(t.trak), pack(t.mdia), t.hdlr);
    lemma_clock(t);
    lemma_media_of(pack(t.mdia), t.mdhd, pack(t.minf), pack(t.stbl));
    lemma_video_entry(t, inner);
    lemma_shown(tkhd);
    lemma_video_media(tkhd, pack(t.mdia), pack(t.stbl), t.stsd);
    lemma_video_of(pack(t.trak), tkhd, pack(t.mdia), t.hdlr.subrange(8, 12));
}

proof fn lemma_shown(tkhd: Seq<u8>)
    requires
        tkhd.len() >= 1,
        tkhd.len() >= size_at(tkhd) + 8,
    ensures
        parse::shown_size(tkhd) matches Ok((w, h)) && w == n16(tkhd, size_at(tkhd)) && h == n16(
            tkhd,
            size_at(tkhd) + 4,
        ),
{
    reveal_with_fuel(cursor::lack, 8);
}

#[verifier::spinoff_prover]
proof fn lemma_video_entry(t: TrackBoxes, inner: Boxes)
    requires
        nested(t),
        video_form(t.entry.0) is Some,
        t.entry.1.len() >= 78,
        writable(inner),
        t.entry.1.skip(78) == pack(inner),
        first_of(inner, video_form(t.entry.0)->Some_0.1) is Some,
    ensures
        parse::video_entry_in(t.stsd) matches Ok((codec, config, w, h)) && codec == video_form(
            t.entry.0,
        )->Some_0.0 && first_of(inner, video_form(t.entry.0)->Some_0.1) == Some(config) && w
            == n16(t.entry.1, 24) && h == n16(t.entry.1, 26),
{
    lemma_entry(t);
    lemma_video_kinds(t.entry.0);
    lemma_find(t.entry.1, 78, inner, video_form(t.entry.0)->Some_0.1);
    assert(parse::visual_head(t.entry.1) is Ok) by {
        reveal_with_fuel(cursor::lack, 6);
    }
}

proof fn lemma_video_media(tkhd: Seq<u8>, mdia: Seq<u8>, stbl: Seq<u8>, stsd: Seq<u8>)
    requires
        parse::shown_size(tkhd) is Ok,
        parse::media_of(mdia) is Ok,
        parse::media_of(mdia)->Ok_0.2 == stbl,
        gives(stbl, kinds::STSD@, stsd),
        parse::video_entry_in(stsd) is Ok,
        table::samples_of(stbl) is Ok,
    ensures
        parse::video_media(tkhd, mdia) matches Ok(v) && {
            let e = parse::video_entry_in(stsd)->Ok_0;
            &&& v.codec == e.0
            &&& v.codec_config == e.1
            &&& v.width == if e.2 > 0 {
                e.2
            } else {
                parse::shown_size(tkhd)->Ok_0.0
            }
            &&& v.height == if e.3 > 0 {
                e.3
            } else {
                parse::shown_size(tkhd)->Ok_0.1
            }
            &&& v.timescale == parse::media_of(mdia)->Ok_0.0
            &&& v.duration == parse::media_of(mdia)->Ok_0.1
            &&& v.samples == table::samples_of(stbl)->Ok_0
        },
{
    reveal(gives);
}

proof fn lemma_video_of(trak: Seq<u8>, tkhd: Seq<u8>, mdia: Seq<u8>, handler: Seq<u8>)
    requires
        gives(trak, kinds::TKHD@, tkhd),
        parse::carried_by(trak) == Ok::<(Seq<u8>, Seq<u8>), Seq<char>>((mdia, handler)),
        handler == kinds::VIDE@,
        parse::video_media(tkhd, mdia) is Ok,
    ensures
        parse::video_of(trak) == Ok::<Option<VideoView>, Seq<char>>(
            Some(parse::video_media(tkhd, mdia)->Ok_0),
        ),
{
    reveal(gives);
}

/// The first video track of a file is read from its boxes: the codec is that of its sample
/// entry, its configuration is the body of the box for that, its size stands in the entry,
/// or in the track header if the entry has none, and its ticks, its duration and its
/// samples are those of its media.
pub proof fn law_video_track_is_read(
    file: Boxes,
    moov: Boxes,
    i: int,
    t: TrackBoxes,
    tkhd: Seq<u8>,
    inner: Boxes,
    samples: Seq<SampleRef>,
)
    requires
        writable(file),
        writable(moov),
        first_of(file, code('m', 'o', 'o', 'v')) == Some(pack(moov)),
        0 <= i < moov.len(),
        moov[i] == (code('t', 'r', 'a', 'k'), pack(t.trak)),
        forall|j: int|
            0 <= j < i ==> (#[trigger] moov[j]).0 == code('t', 'r', 'a', 'k') ==> parse::video_of(
                moov[j].1,
            ) == Ok::<Option<VideoView>, Seq<char>>(None),
        nested(t),
        first_of(t.trak, code('t', 'k', 'h', 'd')) == Some(tkhd),
        tkhd.len() >= 1,
        tkhd.len() >= size_at(tkhd) + 8,
        t.hdlr.subrange(8, 12) == code('v', 'i', 'd', 'e'),
        video_form(t.entry.0) is Some,
        t.entry.1.len() >= 78,
        writable(inner),
        t.entry.1.skip(78) == pack(inner),
        first_of(inner, video_form(t.entry.0)->Some_0.1) is Some,
        table::samples_of(pack(t.stbl)) == Ok::<Seq<SampleRef>, Seq<char>>(samples),
    ensures
        parse::movie_of(pack(file)) matches Ok(m) && parse::movie_video(m, 0) matches Ok(v) && {
            &&& v.codec == video_form(t.entry.0)->Some_0.0
            &&& first_of(inner, video_form(t.entry.0)->Some_0.1) == Some(v.codec_config)
            &&& v.width == if n16(t.entry.1, 24) > 0 {
                n16(t.entry.1, 24)
            } else {
                n16(tkhd, size_at(tkhd))
            }
            &&& v.height == if n16(t.entry.1, 26) > 0 {
                n16(t.entry.1, 26)
            } else {
                n16(tkhd, size_at(tkhd) + 4)
            }
            &&& v.timescale == ticks(t)
            &&& v.duration == length(t)
            &&& v.samples == samples
        },
{
    lemma_codes();
    law_child_is_found(file, kinds::MOOV@);
    lemma_video_track(t, tkhd, inner, samples);
    assert(pack(moov).skip(0) =~= pack(moov));
    lemma_movie(
        pack(moov),
        0,
        moov,
        i,
        parse::video_of(pack(t.trak))->Ok_0->Some_0,
    );
}

/// The number that `k` bytes from `at` on stand for, seven bits each.
pub open spec fn digits(b: Seq<u8>, at: int, k: int) -> int
    decreases k,
{
    if k <= 0 {
        0
    } else {
        digits(b, at, k - 1) * 128 + b[at + k - 1] % 128
    }
}

/// A length of a descriptor takes the `k` bytes from `at` on: all but the last have their
/// high bit set.
pub open spec fn length_takes(b: Seq<u8>, at: int, k: int) -> bool {
    &&& 1 <= k <= 4
    &&& at + k <= b.len()
    &&& b[at + k - 1] < 128
    &&& forall|i: int| at <= i < at + k - 1 ==> #[trigger] b[i] >= 128
}

proof fn lemma_length(b: Seq<u8>, at: int, k: int, j: int)
    requires
        0 <= at,
        length_takes(b, at, k),
        0 <= j < k,
    ensures
        digits(b, at, j) >= 0,
        parse::length_at(b, at + j, digits(b, at, j) as nat, (4 - j) as nat) == Ok::<
            (nat, int),
            Seq<char>,
        >((digits(b, at, k) as nat, at + k)),
        digits(b, at, k) >= 0,
    decreases k - j,
{
    lemma_digits(b, at, j);
    lemma_digits(b, at, k);
    lemma_digits(b, at, j + 1);
    if j + 1 < k {
        assert(b[at + j] >= 128);
        lemma_length(b, at, k, j + 1);
    }
}

proof fn lemma_digits(b: Seq<u8>, at: int, j: int)
    ensures
        digits(b, at, j) >= 0,
    decreases j,
{
    if j > 0 {
        lemma_digits(b, at, j - 1);
    }
}

/// The object type and the configuration in the descriptors of an `esds`: that of a stream
/// without options, in it that of its decoder, and in that the configuration. Their lengths
/// take `k1`, `k2` and `k3` bytes.
pub open spec fn describes(
    e: Seq<u8>,
    k1: int,
    k2: int,
    k3: int,
    object_type: u8,
    config: Seq<u8>,
) -> bool {
    let p = 5 + k1 + 4 + k2;
    let q = p + 14 + k3;
    &&& e.len() >= 5
    &&& e[4] == 0x03
    &&& length_takes(e, 5, k1)
    &&& length_takes(e, 5 + k1 + 4, k2)
    &&& length_takes(e, p + 14, k3)
    &&& e[5 + k1 + 2] == 0
    &&& e[5 + k1 + 3] == 0x04
    &&& e[p] == object_type
    &&& e[p + 13] == 0x05
    &&& digits(e, p + 14, k3) == config.len()
    &&& q + config.len() <= e.len()
    &&& e.subrange(q, q + config.len()) == config
}

/// Descriptors are read by their tags and lengths.
pub proof fn law_descriptors_are_read(
    e: Seq<u8>,
    k1: int,
    k2: int,
    k3: int,
    object_type: u8,
    config: Seq<u8>,
)
    requires
        describes(e, k1, k2, k3, object_type, config),
    ensures
        parse::esds_of(e) == Ok::<(u8, Seq<u8>), Seq<char>>((object_type, config)),
{
    let p = 5 + k1 + 4 + k2;
    reveal_with_fuel(cursor::lack, 7);
    lemma_length(e, 5, k1, 0);
    lemma_length(e, 5 + k1 + 4, k2, 0);
    lemma_length(e, p + 14, k3, 0);
    assert(parse::options_end(e, 5 + k1 + 3, e[5 + k1 + 2]) == Ok::<int, Seq<char>>(5 + k1 + 3));
    assert(parse::decoder_at(e) == Ok::<int, Seq<char>>(5 + k1 + 3));
    assert(cursor::lack(e, p, seq![1nat, 1, 3, 4, 4, 1]) is None);
}

/// The codec and the configuration in an audio sample entry: AAC has its configuration in
/// the descriptors of the `esds`, FLAC in its box, and MP3 has none.
pub open spec fn audio_form(
    kind: Seq<u8>,
    inner: Boxes,
    ks: (int, int, int),
    object_type: u8,
    codec: AudioCodec,
    config: Seq<u8>,
) -> bool {
    if kind == code('m', 'p', '4', 'a') {
        first_of(inner, code('e', 's', 'd', 's')) matches Some(e) && exists|c: Seq<u8>| #[trigger]
            describes(e, ks.0, ks.1, ks.2, object_type, c) && {
                ||| object_type == 0x40 && codec == AudioCodec::Aac && config == c
                ||| (object_type == 0x69 || object_type == 0x6B) && codec == AudioCodec::Mp3
                    && config.len() == 0
            }
    } else if kind == code('f', 'L', 'a', 'C') || kind == code('f', 'l', 'a', 'c') {
        codec == AudioCodec::Flac && first_of(inner, code('d', 'f', 'L', 'a')) == Some(config)
    } else {
        kind == code('.', 'm', 'p', '3') && codec == AudioCodec::Mp3 && config.len() == 0
    }
}

proof fn lemma_audio_form(
    b: Seq<u8>,
    kind: Seq<u8>,
    inner: Boxes,
    ks: (int, int, int),
    object_type: u8,
    codec: AudioCodec,
    config: Seq<u8>,
)
    requires
        b.len() >= 28,
        writable(inner),
        b.skip(28) == pack(inner),
        audio_form(kind, inner, ks, object_type, codec, config),
    ensures
        parse::audio_entry(kind, b) == Ok::<(AudioCodec, Seq<u8>), Seq<char>>((codec, config)),
{
    lemma_codes();
    lemma_find(b, 28, inner, kinds::ESDS@);
    lemma_find(b, 28, inner, kinds::DFLA@);
    if kind == code('m', 'p', '4', 'a') {
        let e = first_of(inner, code('e', 's', 'd', 's'))->Some_0;
        let c = choose|c: Seq<u8>| #[trigger]
            describes(e, ks.0, ks.1, ks.2, object_type, c) && {
                ||| object_type == 0x40 && codec == AudioCodec::Aac && config == c
                ||| (object_type == 0x69 || object_type == 0x6B) && codec == AudioCodec::Mp3
                    && config.len() == 0
            };
        law_descriptors_are_read(e, ks.0, ks.1, ks.2, object_type, c);
    }
    if config.len() == 0 {
        assert(config =~= Seq::empty());
    }
}

/// The first audio track of a file is read from its boxes: the codec and its configuration
/// are those of its sample entry, and so are its channels and its samples per second; its
/// ticks, its duration and its samples are those of its media.
#[verifier::spinoff_prover]
pub proof fn law_audio_track_is_read(
    file: Boxes,
    moov: Boxes,
    i: int,
    t: TrackBoxes,
    inner: Boxes,
    ks: (int, int, int),
    object_type: u8,
    codec: AudioCodec,
    config: Seq<u8>,
    samples: Seq<SampleRef>,
)
    requires
        writable(file),
        writable(moov),
        first_of(file, code('m', 'o', 'o', 'v')) == Some(pack(moov)),
        0 <= i < moov.len(),
        moov[i] == (code('t', 'r', 'a', 'k'), pack(t.trak)),
        forall|j: int|
            0 <= j < i ==> (#[trigger] moov[j]).0 == code('t', 'r', 'a', 'k') ==> parse::audio_of(
                moov[j].1,
            ) == Ok::<Option<AudioView>, Seq<char>>(None),
        nested(t),
        t.hdlr.subrange(8, 12) == code('s', 'o', 'u', 'n'),
        t.entry.1.len() >= 28,
        writable(inner),
        t.entry.1.skip(28) == pack(inner),
        audio_form(t.entry.0, inner, ks, object_type, codec, config),
        table::samples_of(pack(t.stbl)) == Ok::<Seq<SampleRef>, Seq<char>>(samples),
    ensures
        parse::movie_of(pack(file)) matches Ok(m) && parse::movie_audio(m, 0) matches Ok(Some(v))
            && {
            &&& v.codec == codec
            &&& v.codec_config == config
            &&& v.channel_count == n16(t.entry.1, 16)
            &&& v.sample_rate == n16(t.entry.1, 24)
            &&& v.timescale == ticks(t)
            &&& v.duration == length(t)
            &&& v.samples == samples
        },
{
    lemma_codes();
    law_child_is_found(file, kinds::MOOV@);
    lemma_audio_track(t, inner, ks, object_type, codec, config, samples);
    assert(pack(moov).skip(0) =~= pack(moov));
    lemma_movie_audio(
        pack(moov),
        0,
        moov,
        i,
        parse::audio_of(pack(t.trak))->Ok_0->Some_0,
    );
}

#[verifier::spinoff_prover]
proof fn lemma_audio_track(
    t: TrackBoxes,
    inner: Boxes,
    ks: (int, int, int),
    object_type: u8,
    codec: AudioCodec,
    config: Seq<u8>,
    samples: Seq<SampleRef>,
)
    requires
        nested(t),
        t.hdlr.subrange(8, 12) == code('s', 'o', 'u', 'n'),
        t.entry.1.len() >= 28,
        writable(inner),
        t.entry.1.skip(28) == pack(inner),
        audio_form(t.entry.0, inner, ks, object_type, codec, config),
        table::samples_of(pack(t.stbl)) == Ok::<Seq<SampleRef>, Seq<char>>(samples),
    ensures
        parse::audio_of(pack(t.trak)) matches Ok(Some(v)) && {
            &&& v.codec == codec
            &&& v.codec_config == config
            &&& v.channel_count == n16(t.entry.1, 16)
            &&& v.sample_rate == n16(t.entry.1, 24)
            &&& v.timescale == ticks(t)
            &&& v.duration == length(t)
            &&& v.samples == samples
        },
{
    lemma_codes();
    lemma_nested_gives(t);
    lemma_carried_by(pack(t.trak), pack(t.mdia), t.hdlr);
    lemma_clock(t);
    lemma_media_of(pack(t.mdia), t.mdhd, pack(t.minf), pack(t.stbl));
    lemma_audio_entry(t, inner, ks, object_type, codec, config);
    lemma_audio_media(pack(t.mdia), pack(t.stbl), t.stsd);
}

#[verifier::spinoff_prover]
proof fn lemma_audio_entry(
    t: TrackBoxes,
    inner: Boxes,
    ks: (int, int, int),
    object_type: u8,
    codec: AudioCodec,
    config: Seq<u8>,
)
    requires
        nested(t),
        t.entry.1.len() >= 28,
        writable(inner),
        t.entry.1.skip(28) == pack(inner),
        audio_form(t.entry.0, inner, ks, object_type, codec, config),
    ensures
        parse::audio_entry_in(t.stsd) matches Ok((a, b, c, d)) && a == codec && b == config && c
            == n16(t.entry.1, 16) && d == n16(t.entry.1, 24),
{
    lemma_entry(t);
    lemma_audio_form(t.entry.1, t.entry.0, inner, ks, object_type, codec, config);
    assert(parse::audio_head(t.entry.1) is Ok) by {
        reveal_with_fuel(cursor::lack, 9);
    }
}

proof fn lemma_audio_media(mdia: Seq<u8>, stbl: Seq<u8>, stsd: Seq<u8>)
    requires
        parse::media_of(mdia) is Ok,
        parse::media_of(mdia)->Ok_0.2 == stbl,
        gives(stbl, kinds::STSD@, stsd),
        parse::audio_entry_in(stsd) is Ok,
        table::samples_of(stbl) is Ok,
    ensures
        parse::audio_media(mdia) matches Ok(v) && {
            let e = parse::audio_entry_in(stsd)->Ok_0;
            &&& v.codec == e.0
            &&& v.codec_config == e.1
            &&& v.channel_count == e.2
            &&& v.sample_rate == e.3
            &&& v.timescale == parse::media_of(mdia)->Ok_0.0
            &&& v.duration == parse::media_of(mdia)->Ok_0.1
            &&& v.samples == table::samples_of(stbl)->Ok_0
        },
{
    reveal(gives);
}

/// A track that carries something else is no video track, and no audio track.
pub proof fn law_other_tracks_are_passed_over(t: TrackBoxes, tkhd: Seq<u8>)
    requires
        nested(t),
        first_of(t.trak, code('t', 'k', 'h', 'd')) == Some(tkhd),
    ensures
        t.hdlr.subrange(8, 12) != code('v', 'i', 'd', 'e') ==> parse::video_of(pack(t.trak))
            == Ok::<Option<VideoView>, Seq<char>>(None),
        t.hdlr.subrange(8, 12) != code('s', 'o', 'u', 'n') ==> parse::audio_of(pack(t.trak))
            == Ok::<Option<AudioView>, Seq<char>>(None),
{
    lemma_codes();
    lemma_nested_gives(t);
    lemma_need(t.trak, kinds::TKHD@, tkhd);
    lemma_carried_by(pack(t.trak), pack(t.mdia), t.hdlr);
    reveal(gives);
}

} // verus!
