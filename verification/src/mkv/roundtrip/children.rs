//! What the children of elements mean for the metadata that is read.

use crate::bytes;
use crate::mkv::demux;
use crate::mkv::demux::{AudioParams, EntryView, InfoView, TrackKind, TrackView, VideoParams};
use crate::mkv::ebml::element;
use crate::mkv::ebml::element::FloatBits;
use crate::mkv::ebml::writer;
use crate::mkv::roundtrip;
use crate::mkv::roundtrip::item_of;
use crate::mkv::Error;
use vstd::prelude::*;
use vstd::utf8::*;

verus! {

/// Elements one after the other: their IDs and payloads.
pub type Items = Seq<(u64, Seq<u8>)>;

/// The payload of the last element with an ID.
pub open spec fn last_of(items: Items, id: u64) -> Option<Seq<u8>>
    decreases items.len(),
{
    if items.len() == 0 {
        None
    } else if items.last().0 == id {
        Some(items.last().1)
    } else {
        last_of(items.drop_last(), id)
    }
}

/// The number that bytes stand for, most significant first.
pub open spec fn number(b: Seq<u8>) -> int
    decreases b.len(),
{
    if b.len() == 0 {
        0
    } else {
        number(b.drop_last()) * 256 + b.last()
    }
}

/// A number, and what it is if it is not there.
pub open spec fn num(b: Option<Seq<u8>>, missing: int) -> int {
    match b {
        Some(x) => number(x),
        None => missing,
    }
}

/// The bytes before the first zero.
pub open spec fn before_zero(b: Seq<u8>) -> Seq<u8>
    decreases b.len(),
{
    if b.len() == 0 || b[0] == 0 {
        Seq::empty()
    } else {
        seq![b[0]] + before_zero(b.skip(1))
    }
}

/// A text: it ends before the first zero.
pub open spec fn text(b: Option<Seq<u8>>) -> Option<Seq<char>> {
    match b {
        Some(x) => Some(decode_utf8(before_zero(x))),
        None => None,
    }
}

/// A float, as its bits: four bytes, or eight, or none at all for zero.
pub open spec fn float(b: Option<Seq<u8>>) -> Option<FloatBits> {
    match b {
        Some(x) => Some(
            if x.len() == 4 {
                FloatBits::Single(number(x) as u32)
            } else {
                FloatBits::Double(number(x) as u64)
            },
        ),
        None => None,
    }
}

proof fn lemma_number(b: Seq<u8>)
    ensures
        number(b) == bytes::uint(b),
        number(b) >= 0,
        b.len() <= 8 ==> number(b) <= u64::MAX,
        b.len() <= 4 ==> number(b) <= u32::MAX,
    decreases b.len(),
{
    if b.len() > 0 {
        lemma_number(b.drop_last());
        lemma_number_bound(b);
    }
}

proof fn lemma_number_bound(b: Seq<u8>)
    ensures
        0 <= number(b),
        b.len() <= 1 ==> number(b) < 0x100,
        b.len() <= 2 ==> number(b) < 0x1_0000,
        b.len() <= 3 ==> number(b) < 0x100_0000,
        b.len() <= 4 ==> number(b) < 0x1_0000_0000,
        b.len() <= 5 ==> number(b) < 0x100_0000_0000,
        b.len() <= 6 ==> number(b) < 0x1_0000_0000_0000,
        b.len() <= 7 ==> number(b) < 0x100_0000_0000_0000,
        b.len() <= 8 ==> number(b) < 0x1_0000_0000_0000_0000,
    decreases b.len(),
{
    if b.len() > 0 {
        lemma_number_bound(b.drop_last());
    }
}

proof fn lemma_float(b: Seq<u8>)
    requires
        b.len() == 0 || b.len() == 4 || b.len() == 8,
    ensures
        b.len() == 4 ==> bytes::get32(b, 0) == number(b),
        b.len() == 8 ==> bytes::get64(b, 0) == number(b),
        b.len() == 0 ==> number(b) == 0,
{
    reveal_with_fuel(number, 9);
}

proof fn lemma_text(b: Seq<u8>, i: int)
    requires
        0 <= i <= b.len(),
    ensures
        i <= element::nul_from(b, i) <= b.len(),
        b.subrange(i, element::nul_from(b, i)) == before_zero(b.skip(i)),
    decreases b.len() - i,
{
    let t = b.skip(i);
    if i < b.len() && b[i] != 0 {
        lemma_text(b, i + 1);
        let e = element::nul_from(b, i);
        assert(t.skip(1) =~= b.skip(i + 1));
        assert(b.subrange(i, e) =~= seq![b[i]] + b.subrange(i + 1, e));
    } else {
        assert(b.subrange(i, element::nul_from(b, i)) =~= Seq::empty());
    }
}

proof fn lemma_until(b: Seq<u8>)
    ensures
        element::until_nul(b) == before_zero(b),
{
    lemma_text(b, 0);
    assert(b.skip(0) =~= b);
}

/// What an element that stands alone says, in each of the forms that there are.
pub(crate) proof fn lemma_alone_says(id: u64, p: Seq<u8>)
    requires
        writer::is_id(id),
        p.len() < writer::size_limit(),
        writer::element_bytes(id, p).len() <= usize::MAX,
    ensures
        ({
            let e = writer::element_bytes(id, p);
            let h = writer::header_of(0, id, p.len());
            &&& h.id.value == id
            &&& element::payload_of(e, h) == Ok::<Seq<u8>, Error>(p)
            &&& element::children_of(e, h) == Ok::<Seq<u8>, Error>(p)
            &&& p.len() <= 8 ==> (element::uint_of(e, h) matches Ok(v) && v == number(p))
            &&& p.len() == 0 || p.len() == 4 || p.len() == 8 ==> element::float_of(e, h) == Ok::<
                FloatBits,
                Error,
            >(float(Some(p))->Some_0)
            &&& valid_utf8(before_zero(p)) ==> {
                &&& element::ascii_of(e, h) == Ok::<Seq<char>, Error>(text(Some(p))->Some_0)
                &&& element::utf8_of(e, h) == Ok::<Seq<char>, Error>(text(Some(p))->Some_0)
            }
        }),
{
    roundtrip::lemma_alone(id, p);
    lemma_number(p);
    lemma_until(p);
    if p.len() == 0 || p.len() == 4 || p.len() == 8 {
        lemma_float(p);
    }
}

/// Elements that fit into memory, alone and together.
pub open spec fn short(items: Items) -> bool {
    &&& writer::writable(items)
    &&& writer::items_bytes(items).len() <= usize::MAX
}

pub(crate) proof fn lemma_short(items: Items)
    requires
        short(items),
        items.len() > 0,
    ensures
        short(items.drop_last()),
        writer::is_id(items.last().0),
        items.last().1.len() < writer::size_limit(),
        writer::element_bytes(items.last().0, items.last().1).len() <= usize::MAX,
{
    let rest = items.drop_last();
    assert(items[items.len() - 1] == items.last());
    assert forall|i: int| #![trigger rest[i]] 0 <= i < rest.len() implies writer::is_id(rest[i].0)
        && rest[i].1.len() < writer::size_limit() by {
        assert(rest[i] == items[i]);
    }
}

/// Whether the payload of a child of the Info element has the form that its ID asks for.
pub open spec fn info_child_fits(id: u64, p: Seq<u8>) -> bool {
    &&& id == 0x2AD7B1 ==> p.len() <= 8
    &&& id == 0x7BA9 || id == 0x4D80 || id == 0x5741 ==> valid_utf8(before_zero(p))
    &&& id == 0x4489 ==> p.len() == 0 || p.len() == 4 || p.len() == 8
}

/// Children of the Info element that have the forms that their IDs ask for.
pub open spec fn info_fits(items: Items) -> bool {
    forall|i: int|
        0 <= i < items.len() ==> info_child_fits((#[trigger] items[i]).0, items[i].1)
}

/// The value of the Info element with these children: of each kind the last one counts.
pub open spec fn info_says(items: Items, v: InfoView) -> bool {
    &&& v.timestamp_scale_ns == num(last_of(items, 0x2AD7B1), 1_000_000)
    &&& v.duration_ticks == float(last_of(items, 0x4489))
    &&& v.title == text(last_of(items, 0x7BA9))
    &&& v.muxing_app == text(last_of(items, 0x4D80))
    &&& v.writing_app == text(last_of(items, 0x5741))
}

#[verifier::spinoff_prover]
#[verifier::rlimit(60)]
proof fn lemma_info_step(items: Items, st: InfoView)
    requires
        short(items),
        items.len() > 0,
        info_child_fits(items.last().0, items.last().1),
        info_says(items.drop_last(), st),
    ensures
        item_of(demux::info_step())(0, items.last().0, items.last().1, st) matches Ok(v) && info_says(
            items,
            v,
        ),
{
    lemma_short(items);
    lemma_alone_says(items.last().0, items.last().1);
    lemma_number(items.last().1);
}

proof fn lemma_info_fold(items: Items)
    requires
        short(items),
        info_fits(items),
    ensures
        writer::fold(items, demux::default_info(), item_of(demux::info_step())) matches Ok(v) && info_says(
            items,
            v,
        ),
    decreases items.len(),
{
    if items.len() > 0 {
        let rest = items.drop_last();
        lemma_short(items);
        assert forall|i: int| 0 <= i < rest.len() implies info_child_fits(
            (#[trigger] rest[i]).0,
            rest[i].1,
        ) by {
            assert(rest[i] == items[i]);
        }
        assert(items[items.len() - 1] == items.last());
        lemma_info_fold(rest);
        let st = writer::fold(rest, demux::default_info(), item_of(demux::info_step()))->Ok_0;
        lemma_info_step(items, st);
    }
}

/// Whether the payload of a child of the Video element has the form that its ID asks for.
pub open spec fn video_child_fits(id: u64, p: Seq<u8>) -> bool {
    &&& id == 0xB0 || id == 0xBA || id == 0x54B0 || id == 0x54BA ==> p.len() <= 8
}

/// Children of the Video element that have the forms that their IDs ask for.
pub open spec fn video_fits(items: Items) -> bool {
    forall|i: int|
        0 <= i < items.len() ==> video_child_fits((#[trigger] items[i]).0, items[i].1)
}

/// The value of the Video element with these children: of each kind the last one counts.
pub open spec fn video_says(items: Items, v: VideoParams) -> bool {
    &&& v.pixel_width == num(last_of(items, 0xB0), 0) % 0x1_0000_0000
    &&& v.pixel_height == num(last_of(items, 0xBA), 0) % 0x1_0000_0000
    &&& last_of(items, 0x54B0) is None <==> v.display_width is None
    &&& v.display_width matches Some(w) ==> w == num(last_of(items, 0x54B0), 0) % 0x1_0000_0000
    &&& last_of(items, 0x54BA) is None <==> v.display_height is None
    &&& v.display_height matches Some(h) ==> h == num(last_of(items, 0x54BA), 0) % 0x1_0000_0000
}

#[verifier::spinoff_prover]
#[verifier::rlimit(60)]
proof fn lemma_video_step(items: Items, st: VideoParams)
    requires
        short(items),
        items.len() > 0,
        video_child_fits(items.last().0, items.last().1),
        video_says(items.drop_last(), st),
    ensures
        item_of(demux::video_step())(0, items.last().0, items.last().1, st) matches Ok(v) && video_says(
            items,
            v,
        ),
{
    lemma_short(items);
    lemma_alone_says(items.last().0, items.last().1);
    lemma_number(items.last().1);
}

proof fn lemma_video_fold(items: Items)
    requires
        short(items),
        video_fits(items),
    ensures
        writer::fold(items, demux::default_video(), item_of(demux::video_step())) matches Ok(v) && video_says(
            items,
            v,
        ),
    decreases items.len(),
{
    if items.len() > 0 {
        let rest = items.drop_last();
        lemma_short(items);
        assert forall|i: int| 0 <= i < rest.len() implies video_child_fits(
            (#[trigger] rest[i]).0,
            rest[i].1,
        ) by {
            assert(rest[i] == items[i]);
        }
        assert(items[items.len() - 1] == items.last());
        lemma_video_fold(rest);
        let st = writer::fold(rest, demux::default_video(), item_of(demux::video_step()))->Ok_0;
        lemma_video_step(items, st);
    }
}

/// Whether the payload of a child of the Audio element has the form that its ID asks for.
pub open spec fn audio_child_fits(id: u64, p: Seq<u8>) -> bool {
    &&& id == 0x9F || id == 0x6264 ==> p.len() <= 8
    &&& id == 0xB5 || id == 0x78B5 ==> p.len() == 0 || p.len() == 4 || p.len() == 8
}

/// Children of the Audio element that have the forms that their IDs ask for.
pub open spec fn audio_fits(items: Items) -> bool {
    forall|i: int|
        0 <= i < items.len() ==> audio_child_fits((#[trigger] items[i]).0, items[i].1)
}

/// The value of the Audio element with these children: of each kind the last one counts.
pub open spec fn audio_says(items: Items, v: AudioParams) -> bool {
    &&& v.sampling_frequency == match float(last_of(items, 0xB5)) {
        Some(f) => f,
        None => FloatBits::Double(0x40BF_4000_0000_0000),
    }
    &&& v.output_sampling_frequency == float(last_of(items, 0x78B5))
    &&& v.channels == num(last_of(items, 0x9F), 1) % 0x1_0000_0000
    &&& last_of(items, 0x6264) is None <==> v.bit_depth is None
    &&& v.bit_depth matches Some(d) ==> d == num(last_of(items, 0x6264), 0) % 0x1_0000_0000
}

#[verifier::spinoff_prover]
#[verifier::rlimit(60)]
proof fn lemma_audio_step(items: Items, st: AudioParams)
    requires
        short(items),
        items.len() > 0,
        audio_child_fits(items.last().0, items.last().1),
        audio_says(items.drop_last(), st),
    ensures
        item_of(demux::audio_step())(0, items.last().0, items.last().1, st) matches Ok(v) && audio_says(
            items,
            v,
        ),
{
    lemma_short(items);
    lemma_alone_says(items.last().0, items.last().1);
    lemma_number(items.last().1);
}

proof fn lemma_audio_fold(items: Items)
    requires
        short(items),
        audio_fits(items),
    ensures
        writer::fold(items, demux::default_audio(), item_of(demux::audio_step())) matches Ok(v) && audio_says(
            items,
            v,
        ),
    decreases items.len(),
{
    if items.len() > 0 {
        let rest = items.drop_last();
        lemma_short(items);
        assert forall|i: int| 0 <= i < rest.len() implies audio_child_fits(
            (#[trigger] rest[i]).0,
            rest[i].1,
        ) by {
            assert(rest[i] == items[i]);
        }
        assert(items[items.len() - 1] == items.last());
        lemma_audio_fold(rest);
        let st = writer::fold(rest, demux::default_audio(), item_of(demux::audio_step()))->Ok_0;
        lemma_audio_step(items, st);
    }
}

/// Whether the payload of a child of a TrackEntry has the form that its ID asks for.
pub open spec fn entry_child_fits(id: u64, p: Seq<u8>) -> bool {
    &&& id == 0xD7 || id == 0x73C5 || id == 0x83 || id == 0x23E383 || id == 0x56AA || id == 0x56BB
        || id == 0xB9 || id == 0x88 || id == 0x55AA ==> p.len() <= 8
    &&& id == 0x86 || id == 0x22B59C || id == 0x22B59D || id == 0x536E ==> valid_utf8(before_zero(p))
    &&& id == 0xE0 ==> demux::video_of(p) is Ok
    &&& id == 0xE1 ==> demux::audio_of(p) is Ok
}

/// Children of a TrackEntry that have the forms that their IDs ask for.
pub open spec fn entry_fits(items: Items) -> bool {
    forall|i: int|
        0 <= i < items.len() ==> entry_child_fits((#[trigger] items[i]).0, items[i].1)
}

/// The value of a TrackEntry with these children: of each kind the last one counts.
spec fn entry_says(items: Items, v: EntryView) -> bool {
    &&& v.track.number == num(last_of(items, 0xD7), 0)
    &&& v.track.uid == num(last_of(items, 0x73C5), 0)
    &&& v.track.kind is Video <==> num(last_of(items, 0x83), 0) == 1
    &&& v.track.kind is Audio <==> num(last_of(items, 0x83), 0) == 2
    &&& v.track.kind is Subtitle <==> num(last_of(items, 0x83), 0) == 17
    &&& v.track.kind matches TrackKind::Other(k) ==> k == num(last_of(items, 0x83), 0) % 256
    &&& v.track.codec_id == match text(last_of(items, 0x86)) {
        Some(t) => t,
        None => Seq::empty(),
    }
    &&& v.track.codec_private == last_of(items, 0x63A2)
    &&& last_of(items, 0x23E383) is None <==> v.track.default_duration_ns is None
    &&& v.track.default_duration_ns matches Some(d) ==> d == num(last_of(items, 0x23E383), 0)
    &&& v.track.codec_delay_ns == num(last_of(items, 0x56AA), 0)
    &&& v.track.seek_pre_roll_ns == num(last_of(items, 0x56BB), 0)
    &&& v.track.language == text(last_of(items, 0x22B59C))
    &&& v.language_ietf == text(last_of(items, 0x22B59D))
    &&& v.track.name == text(last_of(items, 0x536E))
    &&& v.track.flag_enabled == (num(last_of(items, 0xB9), 1) != 0)
    &&& v.track.flag_default == (num(last_of(items, 0x88), 1) != 0)
    &&& v.track.flag_forced == (num(last_of(items, 0x55AA), 0) != 0)
    &&& last_of(items, 0xE0) is None <==> v.track.video is None
    &&& last_of(items, 0xE0) matches Some(b) ==> demux::video_of(b) == Ok::<
        VideoParams,
        Error,
    >(v.track.video->Some_0)
    &&& last_of(items, 0xE1) is None <==> v.track.audio is None
    &&& last_of(items, 0xE1) matches Some(b) ==> demux::audio_of(b) == Ok::<
        AudioParams,
        Error,
    >(v.track.audio->Some_0)
}

#[verifier::spinoff_prover]
#[verifier::rlimit(60)]
proof fn lemma_entry_step(items: Items, st: EntryView)
    requires
        short(items),
        items.len() > 0,
        entry_child_fits(items.last().0, items.last().1),
        entry_says(items.drop_last(), st),
    ensures
        item_of(demux::entry_step())(0, items.last().0, items.last().1, st) matches Ok(v) && entry_says(
            items,
            v,
        ),
{
    lemma_short(items);
    lemma_alone_says(items.last().0, items.last().1);
    lemma_number(items.last().1);
}

proof fn lemma_entry_fold(items: Items)
    requires
        short(items),
        entry_fits(items),
    ensures
        writer::fold(items, demux::empty_entry(), item_of(demux::entry_step())) matches Ok(v) && entry_says(
            items,
            v,
        ),
    decreases items.len(),
{
    if items.len() > 0 {
        let rest = items.drop_last();
        lemma_short(items);
        assert forall|i: int| 0 <= i < rest.len() implies entry_child_fits(
            (#[trigger] rest[i]).0,
            rest[i].1,
        ) by {
            assert(rest[i] == items[i]);
        }
        assert(items[items.len() - 1] == items.last());
        lemma_entry_fold(rest);
        let st = writer::fold(rest, demux::empty_entry(), item_of(demux::entry_step()))->Ok_0;
        lemma_entry_step(items, st);
    }
}

/// The Info element is read from its children: of each kind the last one counts, and what
/// is not there has its default.
pub proof fn law_info_is_read(items: Items)
    requires
        short(items),
        info_fits(items),
    ensures
        element::walk(
            writer::items_bytes(items),
            0,
            demux::default_info(),
            demux::info_step(),
        ) matches Ok(v) && info_says(items, v),
{
    lemma_info_fold(items);
    roundtrip::lemma_agree_info();
    writer::law_walk_reads_items(
        items,
        demux::default_info(),
        demux::info_step(),
        item_of(demux::info_step()),
    );
}

/// The Video element is read from its children: of each kind the last one counts, and what
/// is not there has its default.
pub proof fn law_video_is_read(items: Items)
    requires
        short(items),
        video_fits(items),
    ensures
        demux::video_of(writer::items_bytes(items)) matches Ok(v) && video_says(items, v),
{
    lemma_video_fold(items);
    roundtrip::lemma_agree_video();
    writer::law_walk_reads_items(
        items,
        demux::default_video(),
        demux::video_step(),
        item_of(demux::video_step()),
    );
}

/// The Audio element is read from its children: of each kind the last one counts, and what
/// is not there has its default.
pub proof fn law_audio_is_read(items: Items)
    requires
        short(items),
        audio_fits(items),
    ensures
        demux::audio_of(writer::items_bytes(items)) matches Ok(v) && audio_says(items, v),
{
    lemma_audio_fold(items);
    roundtrip::lemma_agree_audio();
    writer::law_walk_reads_items(
        items,
        demux::default_audio(),
        demux::audio_step(),
        item_of(demux::audio_step()),
    );
}

/// A TrackEntry with these children: of each kind the last one counts, and what is not
/// there has its default. The IETF language counts wherever it stands, and the old one only
/// without it.
pub open spec fn track_says(items: Items, v: TrackView) -> bool {
    &&& v.number == num(last_of(items, 0xD7), 0)
    &&& v.uid == num(last_of(items, 0x73C5), 0)
    &&& v.kind is Video <==> num(last_of(items, 0x83), 0) == 1
    &&& v.kind is Audio <==> num(last_of(items, 0x83), 0) == 2
    &&& v.kind is Subtitle <==> num(last_of(items, 0x83), 0) == 17
    &&& v.kind matches TrackKind::Other(k) ==> k == num(last_of(items, 0x83), 0) % 256
    &&& v.codec_id == match text(last_of(items, 0x86)) {
        Some(t) => t,
        None => Seq::empty(),
    }
    &&& v.codec_private == last_of(items, 0x63A2)
    &&& last_of(items, 0x23E383) is None <==> v.default_duration_ns is None
    &&& v.default_duration_ns matches Some(d) ==> d == num(last_of(items, 0x23E383), 0)
    &&& v.codec_delay_ns == num(last_of(items, 0x56AA), 0)
    &&& v.seek_pre_roll_ns == num(last_of(items, 0x56BB), 0)
    &&& v.name == text(last_of(items, 0x536E))
    &&& v.flag_enabled == (num(last_of(items, 0xB9), 1) != 0)
    &&& v.flag_default == (num(last_of(items, 0x88), 1) != 0)
    &&& v.flag_forced == (num(last_of(items, 0x55AA), 0) != 0)
    &&& last_of(items, 0xE0) is None <==> v.video is None
    &&& last_of(items, 0xE0) matches Some(b) ==> demux::video_of(b) == Ok::<
        VideoParams,
        Error,
    >(v.video->Some_0)
    &&& last_of(items, 0xE1) is None <==> v.audio is None
    &&& last_of(items, 0xE1) matches Some(b) ==> demux::audio_of(b) == Ok::<
        AudioParams,
        Error,
    >(v.audio->Some_0)
    &&& last_of(items, 0x22B59D) is Some ==> v.language == text(last_of(items, 0x22B59D))
    &&& last_of(items, 0x22B59D) is None ==> v.language == text(last_of(items, 0x22B59C))
}

/// The codec's name starts as the type of the track asks for.
pub open spec fn prefix_agrees(items: Items) -> bool {
    let kind = num(last_of(items, 0x83), 0);
    let codec = match text(last_of(items, 0x86)) {
        Some(t) => t,
        None => Seq::empty(),
    };
    let first = if kind == 1 {
        'V'
    } else if kind == 2 {
        'A'
    } else {
        'S'
    };
    kind == 1 || kind == 2 || kind == 17 ==> codec.len() >= 2 && codec[0] == first && codec[1] == '_'
}

proof fn lemma_prefix(items: Items, v: EntryView)
    requires
        entry_says(items, v),
    ensures
        demux::prefix_ok(v.track.kind, v.track.codec_id) == prefix_agrees(items),
{
    reveal_strlit("V_");
    reveal_strlit("A_");
    reveal_strlit("S_");
    let c = v.track.codec_id;
    if c.len() >= 2 {
        let d = c.subrange(0, 2);
        assert(d[0] == c[0] && d[1] == c[1]);
        assert(c[0] == 'V' && c[1] == '_' ==> d =~= "V_"@);
        assert(c[0] == 'A' && c[1] == '_' ==> d =~= "A_"@);
        assert(c[0] == 'S' && c[1] == '_' ==> d =~= "S_"@);
    }
}

/// The track of an entry.
spec fn finished(v: EntryView) -> TrackView {
    TrackView {
        language: if v.language_ietf is Some {
            v.language_ietf
        } else {
            v.track.language
        },
        ..v.track
    }
}

proof fn lemma_track_says(items: Items, v: EntryView)
    requires
        entry_says(items, v),
    ensures
        track_says(items, finished(v)),
{
}

proof fn lemma_track_of(b: Seq<u8>, v: EntryView)
    requires
        element::walk(b, 0, demux::empty_entry(), demux::entry_step()) == Ok::<EntryView, Error>(v),
    ensures
        demux::track_of(b) == if demux::prefix_ok(v.track.kind, v.track.codec_id) {
            Ok::<TrackView, Error>(finished(v))
        } else {
            Err::<TrackView, Error>(Error::Malformed("CodecID prefix doesn't match TrackType"))
        },
{
}

proof fn lemma_entry_walk(items: Items) -> (v: EntryView)
    requires
        short(items),
        entry_fits(items),
    ensures
        element::walk(
            writer::items_bytes(items),
            0,
            demux::empty_entry(),
            demux::entry_step(),
        ) == Ok::<EntryView, Error>(v),
        entry_says(items, v),
{
    lemma_entry_fold(items);
    roundtrip::lemma_agree_entry();
    writer::law_walk_reads_items(
        items,
        demux::empty_entry(),
        demux::entry_step(),
        item_of(demux::entry_step()),
    );
    writer::fold(items, demux::empty_entry(), item_of(demux::entry_step()))->Ok_0
}

/// A TrackEntry is read from its children, and refused if the name of its codec is not one
/// for its type.
pub proof fn law_track_entry_is_read(items: Items)
    requires
        short(items),
        entry_fits(items),
    ensures
        prefix_agrees(items) ==> (demux::track_of(writer::items_bytes(items)) matches Ok(t)
            && track_says(items, t)),
        !prefix_agrees(items) ==> demux::track_of(writer::items_bytes(items)) == Err::<
            TrackView,
            Error,
        >(Error::Malformed("CodecID prefix doesn't match TrackType")),
{
    let v = lemma_entry_walk(items);
    lemma_prefix(items, v);
    lemma_track_says(items, v);
    lemma_track_of(writer::items_bytes(items), v);
}

/// The payloads of the elements with an ID, in order.
pub open spec fn all_of(items: Items, id: u64) -> Seq<Seq<u8>>
    decreases items.len(),
{
    if items.len() == 0 {
        Seq::empty()
    } else if items.last().0 == id {
        all_of(items.drop_last(), id).push(items.last().1)
    } else {
        all_of(items.drop_last(), id)
    }
}

/// All entries of Tracks can be read.
pub open spec fn entries_fit(items: Items) -> bool {
    forall|i: int|
        0 <= i < items.len() && (#[trigger] items[i]).0 == 0xAE ==> demux::track_of(items[i].1)
            is Ok
}

/// These are the tracks of the entries, in order.
pub open spec fn tracks_say(entries: Seq<Seq<u8>>, v: Seq<TrackView>) -> bool {
    &&& v.len() == entries.len()
    &&& forall|k: int|
        0 <= k < v.len() ==> demux::track_of(entries[k]) == Ok::<TrackView, Error>(#[trigger] v[k])
}

proof fn lemma_tracks_fold(items: Items)
    requires
        short(items),
        entries_fit(items),
    ensures
        writer::fold(items, Seq::empty(), item_of(demux::tracks_step())) matches Ok(v)
            && tracks_say(all_of(items, 0xAE), v),
    decreases items.len(),
{
    if items.len() > 0 {
        let rest = items.drop_last();
        lemma_short(items);
        assert forall|i: int| 0 <= i < rest.len() && (#[trigger] rest[i]).0 == 0xAE implies
            demux::track_of(rest[i].1) is Ok by {
            assert(rest[i] == items[i]);
        }
        assert(items[items.len() - 1] == items.last());
        lemma_tracks_fold(rest);
        lemma_alone_says(items.last().0, items.last().1);
    }
}

/// Tracks is read from its entries, all of them and in order.
pub proof fn law_tracks_are_read(items: Items)
    requires
        short(items),
        entries_fit(items),
    ensures
        element::walk(writer::items_bytes(items), 0, Seq::empty(), demux::tracks_step()) matches Ok(
            v,
        ) && tracks_say(all_of(items, 0xAE), v),
{
    lemma_tracks_fold(items);
    roundtrip::lemma_agree_tracks();
    writer::law_walk_reads_items(
        items,
        Seq::empty(),
        demux::tracks_step(),
        item_of(demux::tracks_step()),
    );
}

/// The track and the place of the Cluster in the positions of a CuePoint can be read.
pub open spec fn positions_fit(items: Items) -> bool {
    forall|i: int|
        0 <= i < items.len() && ((#[trigger] items[i]).0 == 0xF7 || items[i].0 == 0xF1)
            ==> items[i].1.len() <= 8
}

proof fn lemma_positions_fold(items: Items)
    requires
        short(items),
        positions_fit(items),
    ensures
        writer::fold(items, (0u64, 0u64), item_of(demux::positions_step())) matches Ok(v) && v.0
            == num(last_of(items, 0xF7), 0) && v.1 == num(last_of(items, 0xF1), 0),
    decreases items.len(),
{
    if items.len() > 0 {
        let rest = items.drop_last();
        lemma_short(items);
        assert forall|i: int|
            0 <= i < rest.len() && ((#[trigger] rest[i]).0 == 0xF7 || rest[i].0 == 0xF1) implies
            rest[i].1.len() <= 8 by {
            assert(rest[i] == items[i]);
        }
        assert(items[items.len() - 1] == items.last());
        lemma_positions_fold(rest);
        lemma_alone_says(items.last().0, items.last().1);
    }
}

/// The positions of a CuePoint give a track and the place of a Cluster.
pub proof fn law_positions_are_read(items: Items)
    requires
        short(items),
        positions_fit(items),
    ensures
        element::walk(
            writer::items_bytes(items),
            0,
            (0u64, 0u64),
            demux::positions_step(),
        ) matches Ok(v) && v.0 == num(last_of(items, 0xF7), 0) && v.1 == num(
            last_of(items, 0xF1),
            0,
        ),
{
    lemma_positions_fold(items);
    roundtrip::lemma_agree_positions();
    writer::law_walk_reads_items(
        items,
        (0u64, 0u64),
        demux::positions_step(),
        item_of(demux::positions_step()),
    );
}

/// What the positions in an element say.
pub open spec fn positions_in(b: Seq<u8>) -> Result<(u64, u64), Error> {
    element::walk(b, 0, (0u64, 0u64), demux::positions_step())
}

/// The children of a CuePoint can be read.
pub open spec fn cue_fits(items: Items) -> bool {
    forall|i: int|
        0 <= i < items.len() ==> ((#[trigger] items[i]).0 == 0xB3 ==> items[i].1.len() <= 8) && (
        items[i].0 == 0xB7 ==> positions_in(items[i].1) is Ok)
}

spec fn cue_says(items: Items, v: demux::CueView) -> bool {
    let all = all_of(items, 0xB7);
    &&& v.ticks == num(last_of(items, 0xB3), 0)
    &&& v.positions.len() == all.len()
    &&& forall|k: int|
        0 <= k < all.len() ==> positions_in(#[trigger] all[k]) == Ok::<(u64, u64), Error>(
            v.positions[k],
        )
}

proof fn lemma_cue_fold(items: Items)
    requires
        short(items),
        cue_fits(items),
    ensures
        writer::fold(items, demux::empty_cue(), item_of(demux::cue_step())) matches Ok(v)
            && cue_says(items, v),
    decreases items.len(),
{
    if items.len() > 0 {
        let rest = items.drop_last();
        lemma_short(items);
        assert forall|i: int| 0 <= i < rest.len() implies ((#[trigger] rest[i]).0 == 0xB3
            ==> rest[i].1.len() <= 8) && (rest[i].0 == 0xB7 ==> positions_in(rest[i].1) is Ok) by {
            assert(rest[i] == items[i]);
        }
        assert(items[items.len() - 1] == items.last());
        lemma_cue_fold(rest);
        lemma_alone_says(items.last().0, items.last().1);
    }
}

/// A CuePoint stands for one entry for each of its positions, all at its time.
pub proof fn law_cue_point_is_read(items: Items, scale: u64)
    requires
        short(items),
        cue_fits(items),
        num(last_of(items, 0xB3), 0) * scale <= u64::MAX,
    ensures
        demux::cue_points_of(writer::items_bytes(items), scale) matches Ok(v) && v.len() == all_of(
            items,
            0xB7,
        ).len() && forall|k: int|
            0 <= k < v.len() ==> (#[trigger] v[k]).ts_ns == num(last_of(items, 0xB3), 0) * scale
                && positions_in(all_of(items, 0xB7)[k]) == Ok::<(u64, u64), Error>(
                (v[k].track_number, v[k].cluster_position),
            ),
{
    lemma_cue_fold(items);
    roundtrip::lemma_agree_cue();
    writer::law_walk_reads_items(
        items,
        demux::empty_cue(),
        demux::cue_step(),
        item_of(demux::cue_step()),
    );
    let c = writer::fold(items, demux::empty_cue(), item_of(demux::cue_step()))->Ok_0;
    let all = all_of(items, 0xB7);
    assert forall|k: int| 0 <= k < all.len() implies positions_in(#[trigger] all[k]) == Ok::<
        (u64, u64),
        Error,
    >((c.positions[k].0, c.positions[k].1)) by {}
}

} // verus!
