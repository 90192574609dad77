//! What initialization segments hold, box by box.

use crate::bytes;
use crate::isobmff::boxes;
use crate::isobmff::boxes::codec;
use crate::isobmff::boxes::header;
use crate::isobmff::boxes::{
    kinds, Encode, FixedPoint, FourCC, FullBox, Mehd, Pasp, Smhd, Tkhd, Visual, Wire,
};
use crate::isobmff::demux;
use crate::isobmff::demux::{Child, MAX_BOXES};
use crate::isobmff::fmp4;
use crate::isobmff::fmp4::{AudioInitCodec, AudioTrackParams, InitCodec, VideoTrackParams};
use crate::isobmff::parse;
use crate::isobmff::parse::boxed;
use vstd::prelude::*;

verus! {

/// The boxes that bytes consist of, if they do.
#[verifier::opaque]
pub open spec fn listed(b: Seq<u8>) -> Option<Seq<Child>> {
    match demux::boxes_of(b, 0).0 {
        Ok(s) => Some(s),
        Err(_) => None,
    }
}

/// The codes of the boxes that bytes consist of, if they do.
pub open spec fn codes(b: Seq<u8>) -> Option<Seq<Seq<u8>>> {
    match listed(b) {
        Some(s) => Some(s.map_values(|c: Child| c.kind)),
        None => None,
    }
}

/// What is inside of the box with the given index.
pub open spec fn inside(b: Seq<u8>, i: int) -> Seq<u8> {
    listed(b)->Some_0[i].data
}

/// The bytes of a box.
#[verifier::opaque]
pub open spec fn box_bytes(c: Child) -> Seq<u8> {
    bytes::be32((c.data.len() + 8) as u32) + c.kind + c.data
}

/// A box whose length fits its field.
pub open spec fn sized(c: Child) -> bool {
    c.kind.len() == 4 && c.data.len() + 8 <= u32::MAX
}

/// Boxes one after the other.
#[verifier::opaque]
pub open spec fn strung(s: Seq<Child>) -> Seq<u8>
    decreases s.len(),
{
    if s.len() == 0 {
        Seq::empty()
    } else {
        box_bytes(s[0]) + strung(s.skip(1))
    }
}

/// The box at the start is found again.
proof fn lemma_front(c: Child, rest: Seq<u8>)
    requires
        sized(c),
    ensures
        ({
            let b = box_bytes(c) + rest;
            let n = c.data.len() + 8;
            &&& b.len() > 0
            &&& demux::extent_of(b) == Ok::<(int, int), demux::Fault>((8, n as int))
            &&& b.skip(n as int) == rest
            &&& b.subrange(4, 8) == c.kind
            &&& b.subrange(8, n as int) == c.data
        }),
{
    reveal(box_bytes);
    let b = box_bytes(c) + rest;
    let n = (c.data.len() + 8) as u32;
    bytes::lemma_be32(n);
    assert forall|k: int| 0 <= k < 4 implies b[0 + k] == #[trigger] bytes::be32(n)[k] by {}
    bytes::lemma_get32_in(b, 0, n);
    assert(b.skip(n as int) =~= rest);
    assert(b.subrange(4, 8) =~= c.kind);
    assert(b.subrange(8, n as int) =~= c.data);
}

/// Boxes one after the other are found again.
#[verifier::spinoff_prover]
proof fn lemma_listed(s: Seq<Child>, work: nat)
    requires
        work + s.len() <= MAX_BOXES,
        forall|i: int| 0 <= i < s.len() ==> sized(#[trigger] s[i]),
    ensures
        demux::boxes_of(strung(s), work).0 == Ok::<Seq<Child>, demux::Fault>(s),
    decreases s.len(),
{
    reveal(strung);
    if s.len() == 0 {
        assert(s =~= Seq::empty());
    } else {
        let c = s[0];
        let rest = s.skip(1);
        assert forall|i: int| 0 <= i < rest.len() implies sized(#[trigger] rest[i]) by {
            assert(rest[i] == s[i + 1]);
        }
        lemma_listed(rest, work + 1);
        lemma_front(c, strung(rest));
        assert(strung(s) == box_bytes(c) + strung(rest));
        assert(Child { kind: c.kind, data: c.data } == c);
        assert(seq![c] + rest =~= s);
    }
}

/// One box more.
proof fn lemma_strung(s: Seq<Child>, c: Child)
    ensures
        strung(s.push(c)) == strung(s) + box_bytes(c),
    decreases s.len(),
{
    reveal_with_fuel(strung, 2);
    if s.len() == 0 {
        assert(s.push(c).skip(1) =~= Seq::empty());
        assert(strung(s.push(c)) =~= strung(s) + box_bytes(c));
    } else {
        assert(s.push(c).skip(1) =~= s.skip(1).push(c));
        lemma_strung(s.skip(1), c);
        assert(strung(s.push(c)) =~= strung(s) + box_bytes(c));
    }
}

proof fn lemma_found(s: Seq<Child>)
    requires
        s.len() <= 5,
        forall|i: int| 0 <= i < s.len() ==> sized(#[trigger] s[i]),
    ensures
        listed(strung(s)) == Some(s),
{
    reveal(listed);
    lemma_listed(s, 0);
}

/// A box that could be written is its bytes.
proof fn lemma_boxed(kind: Seq<u8>, body: Wire)
    requires
        kind.len() == 4,
        boxes::boxed(kind, body) is Ok,
    ensures
        body is Ok,
        sized((Child { kind, data: body->Ok_0 })),
        boxes::boxed(kind, body)->Ok_0 == box_bytes((Child { kind, data: body->Ok_0 })),
{
    reveal(box_bytes);
}

/// What is inside of a full box.
pub open spec fn full_data(version: u8, flags: u32, body: Seq<u8>) -> Seq<u8> {
    seq![version] + bytes::be24(flags) + body
}

/// A full box that could be written is its bytes.
proof fn lemma_full_boxed(kind: Seq<u8>, version: u8, flags: u32, body: Wire)
    requires
        kind.len() == 4,
        boxes::full_boxed(kind, version, flags, body) is Ok,
    ensures
        body is Ok,
        sized((Child { kind, data: full_data(version, flags, body->Ok_0) })),
        boxes::full_boxed(kind, version, flags, body)->Ok_0 == box_bytes(
            (Child { kind, data: full_data(version, flags, body->Ok_0) }),
        ),
{
    reveal(box_bytes);
    let d = full_data(version, flags, body->Ok_0);
    assert(boxes::full_boxed(kind, version, flags, body)->Ok_0 =~= box_bytes(
        (Child { kind, data: d }),
    ));
}

proof fn lemma_one(a: Child)
    requires
        sized(a),
    ensures
        listed(box_bytes(a)) == Some(seq![a]),
{
    let s0 = Seq::<Child>::empty();
    lemma_strung(s0, a);
    assert(strung(s0) =~= Seq::empty()) by {
        reveal(strung);
    }
    assert(s0.push(a) =~= seq![a]);
    assert(strung(seq![a]) =~= box_bytes(a));
    lemma_found(seq![a]);
}

proof fn lemma_two(a: Child, b: Child)
    requires
        sized(a),
        sized(b),
    ensures
        listed(box_bytes(a) + box_bytes(b)) == Some(seq![a, b]),
{
    let s0 = Seq::<Child>::empty();
    assert(strung(s0) =~= Seq::empty()) by {
        reveal(strung);
    }
    let s1 = s0.push(a);
    lemma_strung(s0, a);
    assert(strung(s1) =~= box_bytes(a));
    let s2 = s1.push(b);
    lemma_strung(s1, b);
    lemma_found(s2);
    assert(s2 =~= seq![a, b]);
}

proof fn lemma_three(a: Child, b: Child, c: Child)
    requires
        sized(a),
        sized(b),
        sized(c),
    ensures
        listed(box_bytes(a) + box_bytes(b) + box_bytes(c)) == Some(seq![a, b, c]),
{
    let s0 = Seq::<Child>::empty();
    assert(strung(s0) =~= Seq::empty()) by {
        reveal(strung);
    }
    let s1 = s0.push(a);
    lemma_strung(s0, a);
    assert(strung(s1) =~= box_bytes(a));
    let s2 = s1.push(b);
    lemma_strung(s1, b);
    let s3 = s2.push(c);
    lemma_strung(s2, c);
    lemma_found(s3);
    assert(s3 =~= seq![a, b, c]);
}

proof fn lemma_four(a: Child, b: Child, c: Child, d: Child)
    requires
        sized(a),
        sized(b),
        sized(c),
        sized(d),
    ensures
        listed(box_bytes(a) + box_bytes(b) + box_bytes(c) + box_bytes(d)) == Some(seq![a, b, c, d]),
{
    let s0 = Seq::<Child>::empty();
    assert(strung(s0) =~= Seq::empty()) by {
        reveal(strung);
    }
    let s1 = s0.push(a);
    lemma_strung(s0, a);
    assert(strung(s1) =~= box_bytes(a));
    let s2 = s1.push(b);
    lemma_strung(s1, b);
    let s3 = s2.push(c);
    lemma_strung(s2, c);
    let s4 = s3.push(d);
    lemma_strung(s3, d);
    lemma_found(s4);
    assert(s4 =~= seq![a, b, c, d]);
}

proof fn lemma_five(a: Child, b: Child, c: Child, d: Child, e: Child)
    requires
        sized(a),
        sized(b),
        sized(c),
        sized(d),
        sized(e),
    ensures
        listed(box_bytes(a) + box_bytes(b) + box_bytes(c) + box_bytes(d) + box_bytes(e)) == Some(seq![a, b, c, d, e]),
{
    let s0 = Seq::<Child>::empty();
    assert(strung(s0) =~= Seq::empty()) by {
        reveal(strung);
    }
    let s1 = s0.push(a);
    lemma_strung(s0, a);
    assert(strung(s1) =~= box_bytes(a));
    let s2 = s1.push(b);
    lemma_strung(s1, b);
    let s3 = s2.push(c);
    lemma_strung(s2, c);
    let s4 = s3.push(d);
    lemma_strung(s3, d);
    let s5 = s4.push(e);
    lemma_strung(s4, e);
    lemma_found(s5);
    assert(s5 =~= seq![a, b, c, d, e]);
}

/// Where what follows the two times at the start of a header is: its version tells how
/// wide times are.
pub open spec fn behind_times(b: Seq<u8>) -> int {
    if b[0] == 0 {
        12
    } else {
        20
    }
}

/// The time at `i` of a header.
pub open spec fn time_at(b: Seq<u8>, i: int) -> int {
    if b[0] == 0 {
        bytes::get32(b, i) as int
    } else {
        bytes::get64(b, i) as int
    }
}

/// What a movie header says: how many ticks a second has, how many the movie takes and
/// which track comes next.
pub open spec fn movie_says(mvhd: Seq<u8>, scale: u32, duration: u64, next: u32) -> bool {
    let i = behind_times(mvhd);
    &&& bytes::get32(mvhd, i) == scale
    &&& time_at(mvhd, i + 4) == duration
    &&& bytes::get32(mvhd, mvhd.len() - 4) == next
}

/// What a track header says: the track's number and duration.
pub open spec fn track_says(tkhd: Seq<u8>, id: u32, duration: u64) -> bool {
    let i = behind_times(tkhd);
    &&& bytes::get32(tkhd, i) == id
    &&& time_at(tkhd, i + 8) == duration
}

/// What a track header says of the picture: its width and height in pixels, and that the
/// track is enabled and part of what is shown.
#[verifier::opaque]
pub open spec fn picture_says(tkhd: Seq<u8>, width: u16, height: u16) -> bool {
    let i = tkhd.len() - 8;
    &&& i >= 76
    &&& tkhd[3] == 3
    &&& tkhd[i] * 0x100 + tkhd[i + 1] == width
    &&& tkhd[i + 2] == 0
    &&& tkhd[i + 3] == 0
    &&& tkhd[i + 4] * 0x100 + tkhd[i + 5] == height
    &&& tkhd[i + 6] == 0
    &&& tkhd[i + 7] == 0
}

/// What a media header says: how many ticks a second has and how many the media takes.
pub open spec fn media_says(mdhd: Seq<u8>, scale: u32, duration: u64) -> bool {
    let i = behind_times(mdhd);
    &&& bytes::get32(mdhd, i) == scale
    &&& time_at(mdhd, i + 4) == duration
}

proof fn lemma_number(a: Seq<u8>, v: u32, c: Seq<u8>)
    ensures
        bytes::get32(a + bytes::be32(v) + c, a.len() as int) == v,
{
    let b = a + bytes::be32(v) + c;
    bytes::lemma_be32(v);
    assert forall|k: int| 0 <= k < 4 implies b[a.len() + k] == #[trigger] bytes::be32(v)[k] by {}
    bytes::lemma_get32_in(b, a.len() as int, v);
}

proof fn lemma_time(a: Seq<u8>, short: bool, t: u64, c: Seq<u8>)
    requires
        a.len() > 0,
        short == (t <= u32::MAX),
        a[0] == if short {
            0u8
        } else {
            1u8
        },
    ensures
        time_at(a + header::time_bytes(short, t) + c, a.len() as int) == t,
{
    let b = a + header::time_bytes(short, t) + c;
    assert(b[0] == a[0]);
    if short {
        lemma_number(a, t as u32, c);
    } else {
        let hi = (t / 0x1_0000_0000) as u32;
        let lo = (t % 0x1_0000_0000) as u32;
        assert(b =~= a + bytes::be32(hi) + (bytes::be32(lo) + c));
        assert(b =~= (a + bytes::be32(hi)) + bytes::be32(lo) + c);
        bytes::lemma_be32(hi);
        lemma_number(a, hi, bytes::be32(lo) + c);
        lemma_number(a + bytes::be32(hi), lo, c);
    }
}

/// The start of a header up to behind its two times, both zero.
spec fn header_start(short: bool, flags: u32) -> Seq<u8> {
    seq![
        if short {
            0u8
        } else {
            1u8
        },
    ] + bytes::be24(flags) + header::time_bytes(short, 0) + header::time_bytes(short, 0)
}

proof fn lemma_header_start(short: bool, flags: u32)
    ensures
        header_start(short, flags).len() == if short {
            12int
        } else {
            20
        },
        header_start(short, flags)[0] == if short {
            0u8
        } else {
            1u8
        },
{
    bytes::lemma_be32(0);
    bytes::lemma_be64(0);
}

/// A movie header says what it was made from.
#[verifier::spinoff_prover]
#[verifier::rlimit(40)]
proof fn lemma_movie_head(scale: u32, duration: u64, next: u32)
    ensures
        ({
            let m = fmp4::movie_head(scale, duration, next);
            movie_says(
                full_data(m.version_of(), m.flags_of(), m.full_body()->Ok_0),
                scale,
                duration,
                next,
            )
        }),
{
    let m = fmp4::movie_head(scale, duration, next);
    let d = full_data(m.version_of(), m.flags_of(), m.full_body()->Ok_0);
    let short = duration <= u32::MAX;
    let start = header_start(short, 0);
    let tail = header::playback_bytes(m.rate, m.volume) + header::matrix_bytes(m.matrix)
        + bytes::zeros(24);
    let t = header::time_bytes(short, duration);
    lemma_header_start(short, 0);
    assert(d =~= start + bytes::be32(scale) + (t + tail + bytes::be32(next)));
    assert(d =~= (start + bytes::be32(scale)) + t + (tail + bytes::be32(next)));
    let front = start + bytes::be32(scale) + t + tail;
    assert(d =~= front + bytes::be32(next) + Seq::<u8>::empty());
    lemma_number(start, scale, t + tail + bytes::be32(next));
    lemma_time(start + bytes::be32(scale), short, duration, tail + bytes::be32(next));
    lemma_number(front, next, Seq::empty());
    bytes::lemma_be32(scale);
    bytes::lemma_be32(next);
}

/// The end of a track header says how large the picture is.
proof fn lemma_picture(start: Seq<u8>, front: Seq<u8>, w: Seq<u8>, h: Tkhd)
    requires
        start.len() >= 12,
        front.len() >= 76,
        start.len() <= front.len(),
        start[3] == 3,
        front.take(start.len() as int) == start,
        w == bytes::be16(h.width.whole) + bytes::be16(h.width.fraction) + bytes::be16(
            h.height.whole,
        ) + bytes::be16(h.height.fraction),
    ensures
        h.width.fraction == 0 && h.height.fraction == 0 ==> picture_says(
            front + w,
            h.width.whole,
            h.height.whole,
        ),
{
    reveal(picture_says);
    let d = front + w;
    assert(d[3] == front.take(start.len() as int)[3]);
    assert(w.len() == 8);
    let n = front.len() as int;
    assert forall|k: int| 0 <= k < 8 implies #[trigger] d[n + k] == w[k] by {}
    assert(d[n + 0] == w[0] && d[n + 1] == w[1]);
    assert(d[n + 2] == w[2] && d[n + 3] == w[3]);
    assert(d[n + 4] == w[4] && d[n + 5] == w[5]);
    assert(d[n + 6] == w[6] && d[n + 7] == w[7]);
}

/// A track header says what it was made from.
#[verifier::spinoff_prover]
#[verifier::rlimit(40)]
proof fn lemma_track_head(h: Tkhd)
    requires
        h.creation_time == 0,
        h.modification_time == 0,
    ensures
        track_says(
            full_data(h.version_of(), h.flags_of(), h.full_body()->Ok_0),
            h.track_id,
            h.duration,
        ),
{
    let d = full_data(h.version_of(), h.flags_of(), h.full_body()->Ok_0);
    let short = h.duration <= u32::MAX;
    let start = header_start(short, 3);
    let t = header::time_bytes(short, h.duration);
    let tail = bytes::zeros(8) + bytes::be16(h.layer) + bytes::be16(h.alternate_group) + seq![
        h.volume.whole,
    ] + seq![h.volume.fraction] + bytes::zeros(2) + header::matrix_bytes(h.matrix) + bytes::be16(
        h.width.whole,
    ) + bytes::be16(h.width.fraction) + bytes::be16(h.height.whole) + bytes::be16(
        h.height.fraction,
    );
    lemma_header_start(short, 3);
    assert(d =~= start + bytes::be32(h.track_id) + (bytes::zeros(4) + t + tail));
    assert(d =~= (start + bytes::be32(h.track_id) + bytes::zeros(4)) + t + tail);
    lemma_number(start, h.track_id, bytes::zeros(4) + t + tail);
    lemma_time(start + bytes::be32(h.track_id) + bytes::zeros(4), short, h.duration, tail);
    bytes::lemma_be32(h.track_id);
}

/// A track header says how large the picture is.
#[verifier::spinoff_prover]
#[verifier::rlimit(40)]
proof fn lemma_track_picture(h: Tkhd)
    requires
        h.creation_time == 0,
        h.modification_time == 0,
    ensures
        h.width.fraction == 0 && h.height.fraction == 0 ==> picture_says(
            full_data(h.version_of(), h.flags_of(), h.full_body()->Ok_0),
            h.width.whole,
            h.height.whole,
        ),
{
    let d = full_data(h.version_of(), h.flags_of(), h.full_body()->Ok_0);
    let short = h.duration <= u32::MAX;
    let start = header_start(short, 3);
    let t = header::time_bytes(short, h.duration);
    lemma_header_start(short, 3);
    let w = bytes::be16(h.width.whole) + bytes::be16(h.width.fraction) + bytes::be16(
        h.height.whole,
    ) + bytes::be16(h.height.fraction);
    let front = start + bytes::be32(h.track_id) + bytes::zeros(4) + t + bytes::zeros(8)
        + bytes::be16(h.layer) + bytes::be16(h.alternate_group) + seq![h.volume.whole] + seq![
        h.volume.fraction,
    ] + bytes::zeros(2) + header::matrix_bytes(h.matrix);
    assert(d =~= front + w);
    assert(front.take(start.len() as int) =~= start);
    lemma_picture(start, front, w, h);
}

/// A media header that could be written says what it was made from.
proof fn lemma_media_head(scale: u32, duration: u64) -> (c: Child)
    requires
        fmp4::media_head(scale, duration) is Ok,
    ensures
        c.kind == kinds::MDHD@,
        sized(c),
        fmp4::media_head(scale, duration)->Ok_0 == box_bytes(c),
        media_says(c.data, scale, duration),
{
    reveal(fmp4::media_head);
    let short = duration <= u32::MAX;
    let start = header_start(short, 0);
    let t = header::time_bytes(short, duration);
    let tail = bytes::be16(header::language_of("und"@)) + bytes::zeros(2);
    let body = header::time_bytes(short, 0) + header::time_bytes(short, 0) + bytes::be32(scale) + t
        + bytes::be16(header::language_of("und"@)) + bytes::zeros(2);
    let v: u8 = if short {
        0
    } else {
        1
    };
    lemma_full_boxed(kinds::MDHD@, v, 0, Ok(body));
    let d = full_data(v, 0, body);
    lemma_header_start(short, 0);
    assert(d =~= start + bytes::be32(scale) + (t + tail));
    assert(d =~= (start + bytes::be32(scale)) + t + tail);
    lemma_number(start, scale, t + tail);
    lemma_time(start + bytes::be32(scale), short, duration, tail);
    bytes::lemma_be32(scale);
    Child { kind: kinds::MDHD@, data: d }
}

proof fn lemma_codes(b: Seq<u8>, s: Seq<Child>, k: Seq<Seq<u8>>)
    requires
        listed(b) == Some(s),
        s.len() == k.len(),
        forall|i: int| 0 <= i < s.len() ==> (#[trigger] s[i]).kind == k[i],
    ensures
        codes(b) == Some(k),
{
    assert(s.map_values(|c: Child| c.kind) =~= k);
}

/// What the tables of a track without samples hold: one sample entry and nothing else.
pub open spec fn is_empty_tables(stbl: Seq<u8>, entry: Child) -> bool {
    let stsd = inside(stbl, 0);
    &&& codes(stbl) == Some(
        seq![kinds::STSD@, kinds::STTS@, kinds::STSC@, kinds::STSZ@, kinds::STCO@],
    )
    &&& bytes::get32(stsd, 4) == 1
    &&& listed(stsd.skip(8)) == Some(seq![entry])
    &&& bytes::get32(inside(stbl, 1), 4) == 0
    &&& bytes::get32(inside(stbl, 2), 4) == 0
    &&& bytes::get32(inside(stbl, 3), 8) == 0
    &&& bytes::get32(inside(stbl, 4), 4) == 0
}

/// What the media information of a track holds: its header, where the data is and the
/// tables.
pub open spec fn is_info(minf: Seq<u8>, media: Seq<u8>, entry: Child) -> bool {
    &&& codes(minf) == Some(seq![media, kinds::DINF@, kinds::STBL@])
    &&& is_empty_tables(inside(minf, 2), entry)
}

/// What a track holds: its header, and its media with a header, a handler and the media
/// information.
#[verifier::opaque]
pub open spec fn is_track(
    trak: Seq<u8>,
    id: u32,
    scale: u32,
    duration: u64,
    handler: Seq<u8>,
    media: Seq<u8>,
    entry: Child,
) -> bool {
    let mdia = inside(trak, 1);
    &&& codes(trak) == Some(seq![kinds::TKHD@, kinds::MDIA@])
    &&& track_says(inside(trak, 0), id, duration)
    &&& codes(mdia) == Some(seq![kinds::MDHD@, kinds::HDLR@, kinds::MINF@])
    &&& media_says(inside(mdia, 0), scale, duration)
    &&& inside(mdia, 1).subrange(8, 12) == handler
    &&& is_info(inside(mdia, 2), media, entry)
}

#[verifier::spinoff_prover]
#[verifier::rlimit(40)]
proof fn lemma_tables(stsd: Wire, entry: Child) -> (c: Child)
    requires
        sized(entry),
        stsd == boxes::full_boxed(
            kinds::STSD@,
            0,
            0,
            boxes::joined(Ok(bytes::be32(1)), Ok(box_bytes(entry))),
        ),
        fmp4::tables_wire(stsd) is Ok,
    ensures
        c.kind == kinds::STBL@,
        sized(c),
        fmp4::tables_wire(stsd)->Ok_0 == box_bytes(c),
        is_empty_tables(c.data, entry),
{
    let e = bytes::be32(1) + box_bytes(entry);
    let n = bytes::be32(0);
    lemma_full_boxed(kinds::STSD@, 0, 0, Ok(e));
    bytes::lemma_be32(0);
    bytes::lemma_be32(1);
    let c0 = Child { kind: kinds::STSD@, data: full_data(0, 0, e) };
    let c1 = Child { kind: kinds::STTS@, data: full_data(0, 0, n) };
    let c2 = Child { kind: kinds::STSC@, data: full_data(0, 0, n) };
    let c3 = Child { kind: kinds::STSZ@, data: full_data(0, 0, n + n) };
    let c4 = Child { kind: kinds::STCO@, data: full_data(0, 0, n) };
    lemma_full_boxed(kinds::STTS@, 0, 0, Ok(n));
    lemma_full_boxed(kinds::STSC@, 0, 0, Ok(n));
    lemma_full_boxed(kinds::STSZ@, 0, 0, Ok(n + n));
    lemma_full_boxed(kinds::STCO@, 0, 0, Ok(n));
    let body = box_bytes(c0) + box_bytes(c1) + box_bytes(c2) + box_bytes(c3) + box_bytes(c4);
    lemma_boxed(kinds::STBL@, Ok(body));
    lemma_five(c0, c1, c2, c3, c4);
    lemma_codes(
        body,
        seq![c0, c1, c2, c3, c4],
        seq![kinds::STSD@, kinds::STTS@, kinds::STSC@, kinds::STSZ@, kinds::STCO@],
    );
    let front = seq![0u8] + bytes::be24(0);
    assert(c0.data =~= front + bytes::be32(1) + box_bytes(entry));
    lemma_number(front, 1, box_bytes(entry));
    assert(c0.data.skip(8) =~= box_bytes(entry));
    lemma_one(entry);
    assert(c1.data =~= front + n + Seq::<u8>::empty());
    lemma_number(front, 0, Seq::empty());
    assert(c3.data =~= (front + n) + n + Seq::<u8>::empty());
    lemma_number(front + n, 0, Seq::empty());
    Child { kind: kinds::STBL@, data: body }
}

#[verifier::spinoff_prover]
#[verifier::rlimit(40)]
proof fn lemma_info(sound: Wire, video: Wire, media: Child, entry: Child) -> (c: Child)
    requires
        sized(media),
        sized(entry),
        boxes::joined(sound, video) == Ok::<Seq<u8>, Seq<char>>(box_bytes(media)),
        fmp4::info_wire(sound, video, Ok(box_bytes(entry))) is Ok,
    ensures
        c.kind == kinds::MINF@,
        sized(c),
        fmp4::info_wire(sound, video, Ok(box_bytes(entry)))->Ok_0 == box_bytes(c),
        is_info(c.data, media.kind, entry),
{
    reveal(fmp4::info_wire);
    let stsd = boxes::full_boxed(
        kinds::STSD@,
        0,
        0,
        boxes::joined(Ok(bytes::be32(1)), Ok(box_bytes(entry))),
    );
    let url = boxes::full_boxed(kinds::URL@, 0, 1, Ok(Seq::empty()));
    let dref = boxes::full_boxed(kinds::DREF@, 0, 0, boxes::joined(Ok(bytes::be32(1)), url));
    assert(fmp4::place_wire() == boxes::boxed(kinds::DINF@, dref));
    lemma_boxed(kinds::DINF@, dref);
    let place = Child { kind: kinds::DINF@, data: dref->Ok_0 };
    let tables = lemma_tables(stsd, entry);
    let body = box_bytes(media) + box_bytes(place) + box_bytes(tables);
    lemma_boxed(kinds::MINF@, Ok(body));
    lemma_three(media, place, tables);
    lemma_codes(
        body,
        seq![media, place, tables],
        seq![media.kind, kinds::DINF@, kinds::STBL@],
    );
    Child { kind: kinds::MINF@, data: body }
}

proof fn lemma_handler(handler: [u8; 4], name: Seq<char>) -> (c: Child)
    requires
        fmp4::handler_wire(handler, name) is Ok,
    ensures
        c.kind == kinds::HDLR@,
        sized(c),
        fmp4::handler_wire(handler, name)->Ok_0 == box_bytes(c),
        c.data.subrange(8, 12) == handler@,
{
    reveal(fmp4::handler_wire);
    let body = bytes::zeros(4) + handler@ + bytes::zeros(12) + vstd::utf8::encode_utf8(name) + seq![
        0u8,
    ];
    lemma_full_boxed(kinds::HDLR@, 0, 0, Ok(body));
    let d = full_data(0, 0, body);
    assert(d.subrange(8, 12) =~= handler@);
    Child { kind: kinds::HDLR@, data: d }
}

#[verifier::spinoff_prover]
#[verifier::rlimit(40)]
proof fn lemma_track(
    h: Tkhd,
    scale: u32,
    handler: [u8; 4],
    name: Seq<char>,
    sound: Wire,
    video: Wire,
    media: Child,
    entry: Child,
) -> (c: Child)
    requires
        h.creation_time == 0,
        h.modification_time == 0,
        sized(media),
        sized(entry),
        boxes::joined(sound, video) == Ok::<Seq<u8>, Seq<char>>(box_bytes(media)),
        fmp4::track_wire(
            h,
            fmp4::media_head(scale, h.duration),
            fmp4::handler_wire(handler, name),
            fmp4::info_wire(sound, video, Ok(box_bytes(entry))),
        ) is Ok,
    ensures
        c.kind == kinds::TRAK@,
        sized(c),
        fmp4::track_wire(
            h,
            fmp4::media_head(scale, h.duration),
            fmp4::handler_wire(handler, name),
            fmp4::info_wire(sound, video, Ok(box_bytes(entry))),
        )->Ok_0 == box_bytes(c),
        is_track(c.data, h.track_id, scale, h.duration, handler@, media.kind, entry),
        h.width.fraction == 0 && h.height.fraction == 0 ==> picture_says(
            inside(c.data, 0),
            h.width.whole,
            h.height.whole,
        ),
{
    reveal(fmp4::track_wire);
    reveal(is_track);
    let info = fmp4::info_wire(sound, video, Ok(box_bytes(entry)));
    let mh = fmp4::media_head(scale, h.duration);
    let hw = fmp4::handler_wire(handler, name);
    let inner = boxes::joined(boxes::joined(mh, hw), info);
    lemma_boxed(kinds::MDIA@, inner);
    let c0 = lemma_media_head(scale, h.duration);
    let c1 = lemma_handler(handler, name);
    let c2 = lemma_info(sound, video, media, entry);
    lemma_three(c0, c1, c2);
    let mdia = Child { kind: kinds::MDIA@, data: box_bytes(c0) + box_bytes(c1) + box_bytes(c2) };
    lemma_codes(
        mdia.data,
        seq![c0, c1, c2],
        seq![kinds::MDHD@, kinds::HDLR@, kinds::MINF@],
    );
    lemma_full_boxed(kinds::TKHD@, h.version_of(), h.flags_of(), h.full_body());
    let tkhd = Child {
        kind: kinds::TKHD@,
        data: full_data(h.version_of(), h.flags_of(), h.full_body()->Ok_0),
    };
    lemma_track_head(h);
    lemma_track_picture(h);
    let body = box_bytes(tkhd) + box_bytes(mdia);
    assert(box_bytes(tkhd) + Seq::<u8>::empty() =~= box_bytes(tkhd));
    lemma_boxed(kinds::TRAK@, Ok(body));
    lemma_two(tkhd, mdia);
    lemma_codes(body, seq![tkhd, mdia], seq![kinds::TKHD@, kinds::MDIA@]);
    Child { kind: kinds::TRAK@, data: body }
}

/// The code of a video track's sample entry and that of its configuration box.
pub open spec fn entry_codes(codec: InitCodec) -> (Seq<u8>, Seq<u8>) {
    match codec {
        InitCodec::Avc => (kinds::AVC1@, kinds::AVCC@),
        InitCodec::Hevc => (kinds::HVC1@, kinds::HVCC@),
        InitCodec::HevcInband => (kinds::HEV1@, kinds::HVCC@),
        InitCodec::AvcInband => (kinds::AVC3@, kinds::AVCC@),
        InitCodec::Av1 => (kinds::AV01@, kinds::AV1C@),
    }
}

/// What a video sample entry holds behind its fixed fields: the decoder's configuration
/// as it was given, and that pixels are square.
#[verifier::opaque]
pub open spec fn is_video_entry(c: Child, codec: InitCodec, config: Seq<u8>) -> bool {
    let inner = c.data.skip(78);
    &&& c.kind == entry_codes(codec).0
    &&& codes(inner) == Some(seq![entry_codes(codec).1, kinds::PASP@])
    &&& inside(inner, 0) == config
    &&& inside(inner, 1) == bytes::be32(1) + bytes::be32(1)
}

/// What the fixed fields of a video sample entry say: that its data is in the file itself,
/// and the picture's width and height in pixels.
#[verifier::opaque]
pub open spec fn entry_says(c: Child, width: u16, height: u16) -> bool {
    &&& c.data.len() >= 78
    &&& c.data[6] == 0
    &&& c.data[7] == 1
    &&& c.data[24] * 0x100 + c.data[25] == width
    &&& c.data[26] * 0x100 + c.data[27] == height
}

#[verifier::spinoff_prover]
#[verifier::rlimit(40)]
proof fn lemma_video_entry(codec: InitCodec, width: u16, height: u16, config: Seq<u8>) -> (c: Child)
    requires
        fmp4::video_entry(codec, width, height, config) is Ok,
    ensures
        sized(c),
        fmp4::video_entry(codec, width, height, config)->Ok_0 == box_bytes(c),
        is_video_entry(c, codec, config),
        entry_says(c, width, height),
{
    reveal(fmp4::video_entry);
    reveal(is_video_entry);
    reveal(entry_says);
    let (kind, record) = entry_codes(codec);
    let visual = (Visual { data_reference_index: 1, width, height }).bytes();
    let square = bytes::be32(1) + bytes::be32(1);
    let pasp = (Pasp { h_spacing: 1, v_spacing: 1 }).wire();
    let body = codec::video_entry(
        visual,
        boxes::boxed(record, Ok(config)),
        pasp,
        Ok(Seq::empty()),
    );
    lemma_boxed(kind, body);
    lemma_boxed(record, Ok(config));
    bytes::lemma_be32(1);
    bytes::lemma_be32(0x0048_0000);
    bytes::lemma_be32(0);
    assert(pasp == boxes::boxed(kinds::PASP@, Ok(square)));
    lemma_boxed(kinds::PASP@, Ok(square));
    let c0 = Child { kind: record, data: config };
    let c1 = Child { kind: kinds::PASP@, data: square };
    assert(visual.len() == 78);
    let b = body->Ok_0;
    assert(b =~= visual + (box_bytes(c0) + box_bytes(c1)));
    assert(b.skip(78) =~= box_bytes(c0) + box_bytes(c1));
    lemma_two(c0, c1);
    lemma_codes(b.skip(78), seq![c0, c1], seq![record, kinds::PASP@]);
    Child { kind, data: b }
}

/// A box with the defaults of a track.
pub open spec fn is_defaults(c: Child, id: u32) -> bool {
    c.kind == kinds::TREX@ && bytes::get32(c.data, 4) == id
}

/// The boxes behind the duration, if that is known.
pub open spec fn behind_duration(all: Seq<Child>, duration: u64) -> Seq<Child> {
    if duration > 0 {
        all.skip(1)
    } else {
        all
    }
}

/// What the `mvex` of a movie holds: the movie's duration, if it is known, and then the
/// defaults of each track.
#[verifier::opaque]
pub open spec fn is_extension(mvex: Seq<u8>, duration: u64, tracks: Seq<u32>) -> bool {
    let all = listed(mvex)->Some_0;
    let defaults = behind_duration(all, duration);
    &&& listed(mvex) is Some
    &&& duration > 0 ==> all.len() > 0 && all[0].kind == kinds::MEHD@ && time_at(all[0].data, 4)
        == duration
    &&& defaults.len() == tracks.len()
    &&& forall|i: int| 0 <= i < tracks.len() ==> is_defaults(defaults[i], #[trigger] tracks[i])
}

proof fn lemma_defaults(id: u32) -> (c: Child)
    ensures
        is_defaults(c, id),
        sized(c),
        fmp4::sample_defaults(id).wire() == Ok::<Seq<u8>, Seq<char>>(box_bytes(c)),
{
    let t = fmp4::sample_defaults(id);
    bytes::lemma_be32(id);
    bytes::lemma_be32(1);
    bytes::lemma_be32(0);
    lemma_full_boxed(kinds::TREX@, 0, 0, t.full_body());
    let d = full_data(0, 0, t.full_body()->Ok_0);
    let front = seq![0u8] + bytes::be24(0);
    let tail = bytes::be32(1) + bytes::be32(0) + bytes::be32(0) + bytes::be32(0);
    assert(d =~= front + bytes::be32(id) + tail);
    lemma_number(front, id, tail);
    Child { kind: kinds::TREX@, data: d }
}

proof fn lemma_length(duration: u64) -> (c: Child)
    ensures
        c.kind == kinds::MEHD@,
        sized(c),
        (Mehd { fragment_duration: duration }).wire() == Ok::<Seq<u8>, Seq<char>>(box_bytes(c)),
        time_at(c.data, 4) == duration,
{
    let m = Mehd { fragment_duration: duration };
    let short = duration <= u32::MAX;
    let t = header::time_bytes(short, duration);
    bytes::lemma_be32(duration as u32);
    bytes::lemma_be64(duration);
    lemma_full_boxed(kinds::MEHD@, m.version_of(), 0, Ok(t));
    let front = seq![m.version_of()] + bytes::be24(0);
    let d = full_data(m.version_of(), 0, t);
    assert(d =~= front + t + Seq::<u8>::empty());
    lemma_time(front, short, duration, Seq::empty());
    Child { kind: kinds::MEHD@, data: d }
}

/// The only sample entry of a track.
pub open spec fn entry_of(trak: Seq<u8>) -> Child {
    listed(inside(inside(inside(inside(trak, 1), 2), 2), 0).skip(8))->Some_0[0]
}

/// What an initialization segment starts with.
proof fn lemma_brands() -> (c: Child)
    ensures
        c.kind == kinds::FTYP@,
        sized(c),
        fmp4::init_brands() == Ok::<Seq<u8>, Seq<char>>(box_bytes(c)),
        c.data == boxes::fragment::brands_body(
            FourCC(kinds::ISO5),
            0,
            seq![FourCC(kinds::ISO6), FourCC(kinds::MSDH), FourCC(kinds::DASH)],
        ),
{
    let d = boxes::fragment::brands_body(
        FourCC(kinds::ISO5),
        0,
        seq![FourCC(kinds::ISO6), FourCC(kinds::MSDH), FourCC(kinds::DASH)],
    );
    reveal_with_fuel(boxes::run, 4);
    bytes::lemma_be32(0);
    assert(d.len() == 20);
    lemma_boxed(kinds::FTYP@, Ok(d));
    Child { kind: kinds::FTYP@, data: d }
}

/// A track that could be written has a sample entry whose length fits its field.
proof fn lemma_entry_fits(h: Tkhd, media: Wire, handler: Wire, sound: Wire, video: Wire, entry: Wire)
    requires
        fmp4::track_wire(h, media, handler, fmp4::info_wire(sound, video, entry)) is Ok,
    ensures
        entry is Ok,
        entry->Ok_0.len() <= u32::MAX,
{
    reveal(fmp4::track_wire);
    reveal(fmp4::info_wire);
}

proof fn lemma_video_track(p: VideoTrackParams, duration: u64) -> (c: Child)
    requires
        fmp4::video_track(p, duration) is Ok,
    ensures
        c.kind == kinds::TRAK@,
        sized(c),
        fmp4::video_track(p, duration)->Ok_0 == box_bytes(c),
        is_track(
            c.data,
            1,
            p.timescale,
            duration,
            kinds::VIDE@,
            kinds::VMHD@,
            entry_of(c.data),
        ),
        is_video_entry(entry_of(c.data), p.codec, p.configuration_record@),
        picture_says(inside(c.data, 0), p.width, p.height),
        entry_says(entry_of(c.data), p.width, p.height),
{
    reveal(is_track);
    let entry = fmp4::video_entry(p.codec, p.width, p.height, p.configuration_record@);
    lemma_entry_fits(
        fmp4::video_head(p.width, p.height, duration),
        fmp4::media_head(p.timescale, duration),
        fmp4::handler_wire(kinds::VIDE, "VideoHandler"@),
        Ok(Seq::empty()),
        fmp4::plain_video(),
        entry,
    );
    let e = lemma_video_entry(p.codec, p.width, p.height, p.configuration_record@);
    let body = bytes::be16(0) + bytes::be16(0) + bytes::be16(0) + bytes::be16(0);
    reveal(fmp4::plain_video);
    lemma_full_boxed(kinds::VMHD@, 0, 1, Ok(body));
    let media = Child { kind: kinds::VMHD@, data: full_data(0, 1, body) };
    assert(Seq::<u8>::empty() + box_bytes(media) =~= box_bytes(media));
    lemma_track(
        fmp4::video_head(p.width, p.height, duration),
        p.timescale,
        kinds::VIDE,
        "VideoHandler"@,
        Ok(Seq::empty()),
        fmp4::plain_video(),
        media,
        e,
    )
}

/// An audio track's sample entry.
pub open spec fn audio_entry(p: AudioTrackParams) -> Child {
    let (kind, data) = fmp4::audio_body(
        p.codec,
        p.channel_count,
        p.sample_rate,
        p.sample_size,
        p.configuration_record@,
    );
    Child { kind, data }
}

/// A box of descriptors, in which a reader finds an AAC stream with this configuration, if
/// its length fits its field.
#[verifier::opaque]
pub open spec fn aac_says(b: Seq<u8>, config: Seq<u8>) -> bool {
    config.len() < 128 ==> {
        &&& listed(b) matches Some(s) && s.len() == 1 && s[0].kind == seq![0x65u8, 0x73, 0x64, 0x73]
            && parse::esds_of(s[0].data) == Ok::<(u8, Seq<u8>), Seq<char>>((0x40, config))
    }
}

#[verifier::spinoff_prover]
#[verifier::rlimit(40)]
proof fn lemma_aac(config: Seq<u8>)
    ensures
        aac_says(fmp4::child(kinds::ESDS@, fmp4::aac_descriptor(config)), config),
{
    reveal(aac_says);
    if config.len() < 128 {
        let e = fmp4::aac_descriptor(config);
        let n = config.len() as int;
        bytes::lemma_be32(0);
        assert(e.len() == 46 - 5 + n);
        assert(e[4] == 0x03 && e[5] == 0x80 && e[6] == 0x80 && e[7] == 0x80 && e[8] < 128);
        assert(e[11] == 0 && e[12] == 0x04);
        assert(e[13] == 0x80 && e[14] == 0x80 && e[15] == 0x80 && e[16] < 128);
        assert(e[17] == 0x40);
        assert(e[30] == 0x05);
        assert(e[31] == 0x80 && e[32] == 0x80 && e[33] == 0x80 && e[34] == n);
        assert(e.subrange(35, 35 + n) =~= config);
        reveal_with_fuel(boxed::digits, 5);
        assert(boxed::digits(e, 31, 4) == n);
        assert(boxed::describes(e, 4, 4, 4, 0x40, config));
        boxed::law_descriptors_are_read(e, 4, 4, 4, 0x40, config);
        assert(kinds::ESDS@ =~= seq![0x65u8, 0x73, 0x64, 0x73]);
        let c = Child { kind: kinds::ESDS@, data: e };
        reveal(box_bytes);
        lemma_one(c);
        assert(fmp4::child(kinds::ESDS@, e) == box_bytes(c));
    }
}

/// An audio track's sample entry says that its data is in the file itself, how many
/// channels there are, how large a sample is, 16 bits if that is not given, and the low 16
/// bits of the sample rate.
#[verifier::spinoff_prover]
pub proof fn law_audio_entry_says(p: AudioTrackParams)
    ensures
        ({
            let d = audio_entry(p).data;
            &&& d.len() >= 28
            &&& d[6] == 0
            &&& d[7] == 1
            &&& d[16] * 0x100 + d[17] == p.channel_count
            &&& d[18] * 0x100 + d[19] == if p.sample_size == 0 {
                16
            } else {
                p.sample_size
            }
            &&& d[24] * 0x100 + d[25] == p.sample_rate % 0x1_0000
            &&& d[26] == 0
            &&& d[27] == 0
        }),
{
    let size = if p.sample_size == 0 {
        16u16
    } else {
        p.sample_size
    };
    let rate = (p.sample_rate % 0x1_0000 * 0x1_0000) as u32;
    let head = fmp4::audio_head(p.channel_count, p.sample_rate, size);
    bytes::lemma_be32(rate);
    let d = audio_entry(p).data;
    assert(head.len() == 28);
    assert(d.take(28) =~= head);
    assert forall|i: int| 0 <= i < 28 implies d[i] == #[trigger] head[i] by {
        assert(d.take(28)[i] == d[i]);
    }
    assert(head[24] == bytes::be32(rate)[0] && head[25] == bytes::be32(rate)[1]);
    assert(head[26] == bytes::be32(rate)[2] && head[27] == bytes::be32(rate)[3]);
}

/// Behind the fixed fields of an audio track's sample entry stands the decoder's
/// configuration as it was given, in the box of its codec; for AAC it is in a descriptor, and
/// MP3 has none.
#[verifier::spinoff_prover]
pub proof fn law_audio_configuration_is_kept(p: AudioTrackParams)
    requires
        p.configuration_record@.len() + 8 <= u32::MAX,
    ensures
        ({
            let inner = audio_entry(p).data.skip(28);
            let kind = audio_entry(p).kind;
            let c = p.configuration_record@;
            match p.codec {
                AudioInitCodec::Aac => kind == seq![0x6Du8, 0x70, 0x34, 0x61] && aac_says(inner, c),
                AudioInitCodec::Mp3 => kind == seq![0x2Eu8, 0x6D, 0x70, 0x33] && inner.len() == 0,
                AudioInitCodec::Flac => kind == seq![0x66u8, 0x4C, 0x61, 0x43] && listed(inner)
                    == Some(seq![Child { kind: seq![0x64u8, 0x66, 0x4C, 0x61], data: c }]),
                AudioInitCodec::Opus => kind == seq![0x4Fu8, 0x70, 0x75, 0x73] && listed(inner)
                    == Some(seq![Child { kind: seq![0x64u8, 0x4F, 0x70, 0x73], data: c }]),
            }
        }),
{
    let c = p.configuration_record@;
    let d = audio_entry(p).data;
    let rate = (p.sample_rate % 0x1_0000 * 0x1_0000) as u32;
    bytes::lemma_be32(rate);
    assert(kinds::MP4A@ =~= seq![0x6Du8, 0x70, 0x34, 0x61]);
    assert(kinds::MP3@ =~= seq![0x2Eu8, 0x6D, 0x70, 0x33]);
    assert(kinds::FLAC@ =~= seq![0x66u8, 0x4C, 0x61, 0x43]);
    assert(kinds::OPUS@ =~= seq![0x4Fu8, 0x70, 0x75, 0x73]);
    assert(kinds::DFLA@ =~= seq![0x64u8, 0x66, 0x4C, 0x61]);
    assert(kinds::DOPS@ =~= seq![0x64u8, 0x4F, 0x70, 0x73]);
    match p.codec {
        AudioInitCodec::Aac => {
            lemma_aac(c);
            assert(d.skip(28) =~= fmp4::child(kinds::ESDS@, fmp4::aac_descriptor(c)));
        },
        AudioInitCodec::Mp3 => {},
        AudioInitCodec::Flac => {
            lemma_child(kinds::DFLA@, c);
            assert(d.skip(28) =~= fmp4::child(kinds::DFLA@, c));
        },
        AudioInitCodec::Opus => {
            lemma_child(kinds::DOPS@, c);
            assert(d.skip(28) =~= fmp4::child(kinds::DOPS@, c));
        },
    }
}

proof fn lemma_child(kind: Seq<u8>, body: Seq<u8>)
    requires
        kind.len() == 4,
        body.len() + 8 <= u32::MAX,
    ensures
        listed(fmp4::child(kind, body)) == Some(seq![Child { kind, data: body }]),
{
    let c = Child { kind, data: body };
    reveal(box_bytes);
    lemma_one(c);
}

#[verifier::spinoff_prover]
#[verifier::rlimit(40)]
proof fn lemma_audio_entry(p: AudioTrackParams)
    requires
        fmp4::audio_entry(p)->Ok_0.len() <= u32::MAX,
    ensures
        sized(audio_entry(p)),
        fmp4::audio_entry(p) == Ok::<Seq<u8>, Seq<char>>(box_bytes(audio_entry(p))),
{
    let e = audio_entry(p);
    bytes::lemma_be32(boxes::count32(e.data.len() + 8));
    assert(e.kind.len() == 4);
    assert(fmp4::audio_entry(p)->Ok_0.len() == e.data.len() + 8);
    assert(fmp4::audio_entry(p)->Ok_0 == box_bytes(e)) by {
        reveal(box_bytes);
    }
}

#[verifier::spinoff_prover]
#[verifier::rlimit(40)]
proof fn lemma_audio_track(p: AudioTrackParams) -> (c: Child)
    requires
        fmp4::audio_track(p) is Ok,
    ensures
        c.kind == kinds::TRAK@,
        sized(c),
        fmp4::audio_track(p)->Ok_0 == box_bytes(c),
        is_track(
            c.data,
            2,
            p.timescale,
            0,
            kinds::SOUN@,
            kinds::SMHD@,
            audio_entry(p),
        ),
{
    let e = audio_entry(p);
    let smhd = Smhd { balance: FixedPoint { whole: 0, fraction: 0 } };
    lemma_entry_fits(
        fmp4::audio_track_head(2),
        fmp4::media_head(p.timescale, 0),
        fmp4::handler_wire(kinds::SOUN, "SoundHandler"@),
        smhd.wire(),
        Ok(Seq::empty()),
        fmp4::audio_entry(p),
    );
    lemma_audio_entry(p);
    lemma_full_boxed(kinds::SMHD@, 0, 0, smhd.full_body());
    let media = Child { kind: kinds::SMHD@, data: full_data(0, 0, smhd.full_body()->Ok_0) };
    assert(smhd.wire() == boxes::full_boxed(kinds::SMHD@, 0, 0, smhd.full_body()));
    assert(box_bytes(media) + Seq::<u8>::empty() =~= box_bytes(media));
    lemma_track(
        fmp4::audio_track_head(2),
        p.timescale,
        kinds::SOUN,
        "SoundHandler"@,
        smhd.wire(),
        Ok(Seq::empty()),
        media,
        e,
    )
}

/// An initialization segment of a video track is one `ftyp` and one `moov`. The movie
/// has a header, one track with the given configuration as it is, and the defaults of
/// that track. A duration that is known stands in the headers of the movie, of the track
/// and of its media, and in front of the defaults; one that is not leaves zeros.
#[verifier::spinoff_prover]
#[verifier::rlimit(40)]
pub proof fn law_video_init_layout(p: VideoTrackParams, duration: u64)
    requires
        fmp4::video_init(p, duration) is Ok,
    ensures
        ({
            let f = fmp4::video_init(p, duration)->Ok_0;
            let moov = inside(f, 1);
            let trak = inside(moov, 1);
            &&& codes(f) == Some(seq![kinds::FTYP@, kinds::MOOV@])
            &&& codes(moov) == Some(seq![kinds::MVHD@, kinds::TRAK@, kinds::MVEX@])
            &&& movie_says(inside(moov, 0), p.timescale, duration, 2)
            &&& is_track(
                trak,
                1,
                p.timescale,
                duration,
                kinds::VIDE@,
                kinds::VMHD@,
                entry_of(trak),
            )
            &&& is_video_entry(entry_of(trak), p.codec, p.configuration_record@)
            &&& picture_says(inside(trak, 0), p.width, p.height)
            &&& entry_says(entry_of(trak), p.width, p.height)
            &&& is_extension(inside(moov, 2), duration, seq![1u32])
        }),
{
    let ftyp = lemma_brands();
    let head = fmp4::movie_head(p.timescale, duration, 2);
    lemma_movie_head(p.timescale, duration, 2);
    let trex = lemma_defaults(1);
    let mehd = lemma_length(duration);
    let length: Wire = if duration > 0 {
        Ok(box_bytes(mehd))
    } else {
        Ok(Seq::empty())
    };
    let inner = boxes::joined(length, Ok(box_bytes(trex)));
    let whole = boxes::joined(
        boxes::joined(head.wire(), fmp4::video_track(p, duration)),
        boxes::boxed(kinds::MVEX@, inner),
    );
    assert(fmp4::video_init(p, duration) == boxes::joined(
        fmp4::init_brands(),
        boxes::boxed(kinds::MOOV@, whole),
    ));
    lemma_boxed(kinds::MOOV@, whole);
    lemma_boxed(kinds::MVEX@, inner);
    let mvex = Child { kind: kinds::MVEX@, data: inner->Ok_0 };
    assert(is_extension(mvex.data, duration, seq![1u32])) by {
        reveal(is_extension);
        if duration > 0 {
            lemma_two(mehd, trex);
            assert(seq![mehd, trex].skip(1) =~= seq![trex]);
        } else {
            assert(inner->Ok_0 =~= box_bytes(trex));
            lemma_one(trex);
        }
    }
    let trak = lemma_video_track(p, duration);
    lemma_full_boxed(kinds::MVHD@, head.version_of(), head.flags_of(), head.full_body());
    let mvhd = Child {
        kind: kinds::MVHD@,
        data: full_data(head.version_of(), head.flags_of(), head.full_body()->Ok_0),
    };
    let moov = Child { kind: kinds::MOOV@, data: whole->Ok_0 };
    lemma_three(mvhd, trak, mvex);
    lemma_codes(
        moov.data,
        seq![mvhd, trak, mvex],
        seq![kinds::MVHD@, kinds::TRAK@, kinds::MVEX@],
    );
    lemma_two(ftyp, moov);
    lemma_codes(
        box_bytes(ftyp) + box_bytes(moov),
        seq![ftyp, moov],
        seq![kinds::FTYP@, kinds::MOOV@],
    );
}

/// An initialization segment with an audio track is one `ftyp` and one `moov`. The movie
/// has a header with the ticks of the video track, of no known duration, the video track
/// as number one, the audio track as number two, and the defaults of both.
#[verifier::spinoff_prover]
#[verifier::rlimit(40)]
pub proof fn law_av_init_layout(video: VideoTrackParams, audio: AudioTrackParams)
    requires
        fmp4::av_init(video, Some(audio)) is Ok,
    ensures
        ({
            let f = fmp4::av_init(video, Some(audio))->Ok_0;
            let moov = inside(f, 1);
            let trak = inside(moov, 1);
            &&& codes(f) == Some(seq![kinds::FTYP@, kinds::MOOV@])
            &&& codes(moov) == Some(
                seq![kinds::MVHD@, kinds::TRAK@, kinds::TRAK@, kinds::MVEX@],
            )
            &&& movie_says(inside(moov, 0), video.timescale, 0, 3)
            &&& is_track(
                trak,
                1,
                video.timescale,
                0,
                kinds::VIDE@,
                kinds::VMHD@,
                entry_of(trak),
            )
            &&& is_video_entry(entry_of(trak), video.codec, video.configuration_record@)
            &&& picture_says(inside(trak, 0), video.width, video.height)
            &&& entry_says(entry_of(trak), video.width, video.height)
            &&& is_track(
                inside(moov, 2),
                2,
                audio.timescale,
                0,
                kinds::SOUN@,
                kinds::SMHD@,
                audio_entry(audio),
            )
            &&& is_extension(inside(moov, 3), 0, seq![1u32, 2])
        }),
{
    let ftyp = lemma_brands();
    let head = fmp4::movie_head(video.timescale, 0, 3);
    lemma_movie_head(video.timescale, 0, 3);
    let t1 = lemma_defaults(1);
    let t2 = lemma_defaults(2);
    let inner: Wire = Ok(Seq::<u8>::empty() + (box_bytes(t1) + box_bytes(t2)));
    let tracks = boxes::joined(fmp4::video_track(video, 0), fmp4::audio_track(audio));
    let whole = boxes::joined(
        boxes::joined(head.wire(), tracks),
        boxes::boxed(kinds::MVEX@, inner),
    );
    assert(fmp4::av_init(video, Some(audio)) == boxes::joined(
        fmp4::init_brands(),
        boxes::boxed(kinds::MOOV@, whole),
    ));
    lemma_boxed(kinds::MOOV@, whole);
    lemma_boxed(kinds::MVEX@, inner);
    let mvex = Child { kind: kinds::MVEX@, data: inner->Ok_0 };
    assert(inner->Ok_0 =~= box_bytes(t1) + box_bytes(t2));
    assert(is_extension(mvex.data, 0, seq![1u32, 2])) by {
        reveal(is_extension);
        lemma_two(t1, t2);
    }
    let c1 = lemma_video_track(video, 0);
    let c2 = lemma_audio_track(audio);
    lemma_full_boxed(kinds::MVHD@, head.version_of(), head.flags_of(), head.full_body());
    let mvhd = Child {
        kind: kinds::MVHD@,
        data: full_data(head.version_of(), head.flags_of(), head.full_body()->Ok_0),
    };
    let moov = Child { kind: kinds::MOOV@, data: whole->Ok_0 };
    assert(whole->Ok_0 =~= box_bytes(mvhd) + box_bytes(c1) + box_bytes(c2) + box_bytes(mvex));
    lemma_four(mvhd, c1, c2, mvex);
    lemma_codes(
        moov.data,
        seq![mvhd, c1, c2, mvex],
        seq![kinds::MVHD@, kinds::TRAK@, kinds::TRAK@, kinds::MVEX@],
    );
    lemma_two(ftyp, moov);
    lemma_codes(
        box_bytes(ftyp) + box_bytes(moov),
        seq![ftyp, moov],
        seq![kinds::FTYP@, kinds::MOOV@],
    );
}

/// Two outcomes that differ in one code alone: `x` stands at `at` in the one and `y` in
/// the other. If one cannot be written, the other cannot either, for the same reason.
pub open spec fn recoded(a: Wire, b: Wire, at: int, x: Seq<u8>, y: Seq<u8>) -> bool {
    match (a, b) {
        (Ok(s), Ok(t)) => {
            &&& 0 <= at
            &&& at + 4 <= s.len()
            &&& s.len() == t.len()
            &&& s.subrange(at, at + 4) == x
            &&& t == s.take(at) + y + s.skip(at + 4)
        },
        (Err(e), Err(f)) => e == f,
        _ => false,
    }
}

proof fn lemma_recoded_before(a: Wire, b: Wire, at: int, x: Seq<u8>, y: Seq<u8>, c: Wire)
    requires
        recoded(a, b, at, x, y),
        y.len() == 4,
    ensures
        recoded(boxes::joined(a, c), boxes::joined(b, c), at, x, y),
{
    if let (Ok(s), Ok(t), Ok(u)) = (a, b, c) {
        assert((s + u).subrange(at, at + 4) =~= x);
        assert(t + u =~= (s + u).take(at) + y + (s + u).skip(at + 4));
    }
}

proof fn lemma_recoded_behind(c: Wire, a: Wire, b: Wire, at: int, x: Seq<u8>, y: Seq<u8>)
    requires
        recoded(a, b, at, x, y),
        y.len() == 4,
    ensures
        recoded(boxes::joined(c, a), boxes::joined(c, b), at + c->Ok_0.len(), x, y),
{
    if let (Ok(s), Ok(t), Ok(u)) = (a, b, c) {
        let k = at + u.len();
        assert((u + s).subrange(k, k + 4) =~= x);
        assert(u + t =~= (u + s).take(k) + y + (u + s).skip(k + 4));
    }
}

proof fn lemma_recoded_inside(kind: Seq<u8>, a: Wire, b: Wire, at: int, x: Seq<u8>, y: Seq<u8>)
    requires
        recoded(a, b, at, x, y),
        y.len() == 4,
        kind.len() == 4,
    ensures
        recoded(boxes::boxed(kind, a), boxes::boxed(kind, b), at + 8, x, y),
{
    if let (Ok(s), Ok(t)) = (a, b) {
        let n = bytes::be32((s.len() + 8) as u32);
        bytes::lemma_be32((s.len() + 8) as u32);
        lemma_recoded_behind(Ok(n + kind), a, b, at, x, y);
    }
}

proof fn lemma_recoded_full(
    kind: Seq<u8>,
    a: Wire,
    b: Wire,
    at: int,
    x: Seq<u8>,
    y: Seq<u8>,
)
    requires
        recoded(a, b, at, x, y),
        y.len() == 4,
        kind.len() == 4,
    ensures
        recoded(
            boxes::full_boxed(kind, 0, 0, a),
            boxes::full_boxed(kind, 0, 0, b),
            at + 12,
            x,
            y,
        ),
{
    if let (Ok(s), Ok(t)) = (a, b) {
        let n = bytes::be32((s.len() + 12) as u32);
        bytes::lemma_be32((s.len() + 12) as u32);
        let c = n + kind + seq![0u8] + bytes::be24(0);
        lemma_recoded_behind(Ok(c), a, b, at, x, y);
    }
}

/// The same track with parameter sets in its samples.
pub open spec fn inband_of(p: VideoTrackParams, q: VideoTrackParams) -> bool {
    &&& p.width == q.width
    &&& p.height == q.height
    &&& p.timescale == q.timescale
    &&& p.configuration_record@ == q.configuration_record@
    &&& (p.codec is Avc && q.codec is AvcInband) || (p.codec is Hevc && q.codec is HevcInband)
}

proof fn lemma_recoded_track(p: VideoTrackParams, q: VideoTrackParams, duration: u64) -> (at: int)
    requires
        inband_of(p, q),
    ensures
        recoded(
            fmp4::video_track(p, duration),
            fmp4::video_track(q, duration),
            at,
            entry_codes(p.codec).0,
            entry_codes(q.codec).0,
        ),
{
    reveal(fmp4::video_entry);
    reveal(fmp4::info_wire);
    reveal(fmp4::track_wire);
    let config = p.configuration_record@;
    let (x, record) = entry_codes(p.codec);
    let (y, _) = entry_codes(q.codec);
    let body = codec::video_entry(
        (Visual { data_reference_index: 1, width: p.width, height: p.height }).bytes(),
        boxes::boxed(record, Ok(config)),
        (Pasp { h_spacing: 1, v_spacing: 1 }).wire(),
        Ok(Seq::empty()),
    );
    let a = fmp4::video_entry(p.codec, p.width, p.height, config);
    let b = fmp4::video_entry(q.codec, q.width, q.height, config);
    assert(a == boxes::boxed(x, body));
    assert(b == boxes::boxed(y, body));
    assert(recoded(a, b, 4, x, y)) by {
        if let Ok(s) = body {
            bytes::lemma_be32((s.len() + 8) as u32);
            if a is Ok {
                assert(a->Ok_0.subrange(4, 8) =~= x);
                assert(b->Ok_0 =~= a->Ok_0.take(4) + y + a->Ok_0.skip(8));
            }
        }
    }
    let one: Wire = Ok(bytes::be32(1));
    lemma_recoded_behind(one, a, b, 4, x, y);
    let (a, b, at) = (boxes::joined(one, a), boxes::joined(one, b), 4int + one->Ok_0.len());
    lemma_recoded_full(kinds::STSD@, a, b, at, x, y);
    let (a, b, at) = (
        boxes::full_boxed(kinds::STSD@, 0, 0, a),
        boxes::full_boxed(kinds::STSD@, 0, 0, b),
        at + 12,
    );
    let t1 = boxes::full_boxed(kinds::STTS@, 0, 0, Ok(bytes::be32(0)));
    let t2 = boxes::full_boxed(kinds::STSC@, 0, 0, Ok(bytes::be32(0)));
    let t3 = boxes::full_boxed(kinds::STSZ@, 0, 0, Ok(bytes::be32(0) + bytes::be32(0)));
    let t4 = boxes::full_boxed(kinds::STCO@, 0, 0, Ok(bytes::be32(0)));
    lemma_recoded_before(a, b, at, x, y, t1);
    let (a, b) = (boxes::joined(a, t1), boxes::joined(b, t1));
    lemma_recoded_before(a, b, at, x, y, t2);
    let (a, b) = (boxes::joined(a, t2), boxes::joined(b, t2));
    lemma_recoded_before(a, b, at, x, y, t3);
    let (a, b) = (boxes::joined(a, t3), boxes::joined(b, t3));
    lemma_recoded_before(a, b, at, x, y, t4);
    let (a, b) = (boxes::joined(a, t4), boxes::joined(b, t4));
    lemma_recoded_inside(kinds::STBL@, a, b, at, x, y);
    let (a, b, at) = (boxes::boxed(kinds::STBL@, a), boxes::boxed(kinds::STBL@, b), at + 8);
    let front = boxes::joined(
        boxes::joined(Ok(Seq::empty()), fmp4::plain_video()),
        fmp4::place_wire(),
    );
    lemma_recoded_behind(front, a, b, at, x, y);
    let (a, b, at) = (boxes::joined(front, a), boxes::joined(front, b), at + front->Ok_0.len());
    lemma_recoded_inside(kinds::MINF@, a, b, at, x, y);
    let (a, b, at) = (boxes::boxed(kinds::MINF@, a), boxes::boxed(kinds::MINF@, b), at + 8);
    let front = boxes::joined(
        fmp4::media_head(p.timescale, duration),
        fmp4::handler_wire(kinds::VIDE, "VideoHandler"@),
    );
    lemma_recoded_behind(front, a, b, at, x, y);
    let (a, b, at) = (boxes::joined(front, a), boxes::joined(front, b), at + front->Ok_0.len());
    lemma_recoded_inside(kinds::MDIA@, a, b, at, x, y);
    let (a, b, at) = (boxes::boxed(kinds::MDIA@, a), boxes::boxed(kinds::MDIA@, b), at + 8);
    let front = boxes::joined(
        fmp4::video_head(p.width, p.height, duration).wire(),
        Ok(Seq::empty()),
    );
    lemma_recoded_behind(front, a, b, at, x, y);
    let (a, b, at) = (boxes::joined(front, a), boxes::joined(front, b), at + front->Ok_0.len());
    lemma_recoded_inside(kinds::TRAK@, a, b, at, x, y);
    at + 8
}

/// With the same parameters, the segment of a track with parameter sets in its samples
/// and that of one without have the same length and differ in the code of the sample
/// entry alone.
pub proof fn law_inband_differs_in_code(
    p: VideoTrackParams,
    q: VideoTrackParams,
    duration: u64,
) -> (at: int)
    requires
        inband_of(p, q),
    ensures
        recoded(
            fmp4::video_init(p, duration),
            fmp4::video_init(q, duration),
            at,
            entry_codes(p.codec).0,
            entry_codes(q.codec).0,
        ),
{
    let (x, y) = (entry_codes(p.codec).0, entry_codes(q.codec).0);
    let at = lemma_recoded_track(p, q, duration);
    let (a, b) = (fmp4::video_track(p, duration), fmp4::video_track(q, duration));
    let head = fmp4::movie_head(p.timescale, duration, 2).wire();
    let length: Wire = if duration > 0 {
        (Mehd { fragment_duration: duration }).wire()
    } else {
        Ok(Seq::empty())
    };
    let tail = boxes::boxed(
        kinds::MVEX@,
        boxes::joined(length, fmp4::sample_defaults(1).wire()),
    );
    lemma_recoded_behind(head, a, b, at, x, y);
    let (a, b, at) = (boxes::joined(head, a), boxes::joined(head, b), at + head->Ok_0.len());
    lemma_recoded_before(a, b, at, x, y, tail);
    let (a, b) = (boxes::joined(a, tail), boxes::joined(b, tail));
    lemma_recoded_inside(kinds::MOOV@, a, b, at, x, y);
    let (a, b, at) = (boxes::boxed(kinds::MOOV@, a), boxes::boxed(kinds::MOOV@, b), at + 8);
    lemma_recoded_behind(fmp4::init_brands(), a, b, at, x, y);
    at + fmp4::init_brands()->Ok_0.len()
}

} // verus!
