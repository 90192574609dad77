//! What the demuxer reads of what the muxer wrote.

pub mod blocks;
pub mod children;
pub mod file;
pub mod frames;
pub mod log;
pub mod seek;
pub mod segment;
pub mod stream;
pub mod whole;

use crate::bytes;
use crate::mkv::demux;
use crate::mkv::demux::{AudioParams, TrackKind, TrackView, VideoParams};
use crate::mkv::ebml::element;
use crate::mkv::ebml::element::{ElementHeader, FloatBits};
use crate::mkv::ebml::schema::{ids, track_type};
use crate::mkv::ebml::writer;
use crate::mkv::mux;
use crate::mkv::profile::DocType;
use crate::mkv::Error;
use vstd::prelude::*;
use vstd::utf8::*;

verus! {

/// What `f` makes of an element that stands alone.
pub open spec fn item_of<S>(
    f: spec_fn(Seq<u8>, ElementHeader, S) -> Result<S, Error>,
) -> spec_fn(int, u64, Seq<u8>, S) -> Result<S, Error> {
    |pos: int, id: u64, p: Seq<u8>, st: S|
        f(writer::element_bytes(id, p), writer::header_of(0, id, p.len()), st)
}

/// An element that stands alone.
pub proof fn lemma_alone(id: u64, p: Seq<u8>)
    requires
        writer::is_id(id),
        p.len() < writer::size_limit(),
        writer::element_bytes(id, p).len() <= usize::MAX,
    ensures
        writer::stands(writer::element_bytes(id, p), 0, id, p),
        element::payload_of(writer::element_bytes(id, p), writer::header_of(0, id, p.len())) == Ok::<
            Seq<u8>,
            Error,
        >(p),
        element::children_of(writer::element_bytes(id, p), writer::header_of(0, id, p.len()))
            == Ok::<Seq<u8>, Error>(p),
{
    reveal(writer::stands);
    let e = writer::element_bytes(id, p);
    writer::lemma_element_len(id, p);
    assert(e.subrange(0, e.len() as int) =~= e);
    writer::law_element_reads_back(e, 0, id, p);
}

/// Both an element in place and the same element alone give the payload.
pub proof fn lemma_both(s: Seq<u8>, pos: int, id: u64, p: Seq<u8>)
    requires
        writer::stands(s, pos, id, p),
    ensures
        element::payload_of(s, writer::header_of(pos, id, p.len())) == Ok::<Seq<u8>, Error>(p),
        element::children_of(s, writer::header_of(pos, id, p.len())) == Ok::<Seq<u8>, Error>(p),
        element::payload_of(writer::element_bytes(id, p), writer::header_of(0, id, p.len())) == Ok::<
            Seq<u8>,
            Error,
        >(p),
        element::children_of(writer::element_bytes(id, p), writer::header_of(0, id, p.len()))
            == Ok::<Seq<u8>, Error>(p),
{
    reveal(writer::stands);
    writer::lemma_element_len(id, p);
    writer::law_element_reads_back(s, pos, id, p);
    lemma_alone(id, p);
}

proof fn lemma_agree_info()
    ensures
        writer::agree(demux::info_step(), item_of(demux::info_step())),
{
    assert forall|s: Seq<u8>, pos: int, id: u64, p: Seq<u8>, st: demux::InfoView|
        #![trigger demux::info_step()(s, writer::header_of(pos, id, p.len()), st), writer::stands(s, pos, id, p)]
        writer::stands(s, pos, id, p) implies demux::info_step()(
        s,
        writer::header_of(pos, id, p.len()),
        st,
    ) == item_of(demux::info_step())(pos, id, p, st) by {
        lemma_both(s, pos, id, p);
    }
}

proof fn lemma_agree_video()
    ensures
        writer::agree(demux::video_step(), item_of(demux::video_step())),
{
    assert forall|s: Seq<u8>, pos: int, id: u64, p: Seq<u8>, st: VideoParams|
        #![trigger demux::video_step()(s, writer::header_of(pos, id, p.len()), st), writer::stands(s, pos, id, p)]
        writer::stands(s, pos, id, p) implies demux::video_step()(
        s,
        writer::header_of(pos, id, p.len()),
        st,
    ) == item_of(demux::video_step())(pos, id, p, st) by {
        lemma_both(s, pos, id, p);
    }
}

proof fn lemma_agree_audio()
    ensures
        writer::agree(demux::audio_step(), item_of(demux::audio_step())),
{
    assert forall|s: Seq<u8>, pos: int, id: u64, p: Seq<u8>, st: AudioParams|
        #![trigger demux::audio_step()(s, writer::header_of(pos, id, p.len()), st), writer::stands(s, pos, id, p)]
        writer::stands(s, pos, id, p) implies demux::audio_step()(
        s,
        writer::header_of(pos, id, p.len()),
        st,
    ) == item_of(demux::audio_step())(pos, id, p, st) by {
        lemma_both(s, pos, id, p);
    }
}

proof fn lemma_agree_entry()
    ensures
        writer::agree(demux::entry_step(), item_of(demux::entry_step())),
{
    assert forall|s: Seq<u8>, pos: int, id: u64, p: Seq<u8>, st: demux::EntryView|
        #![trigger demux::entry_step()(s, writer::header_of(pos, id, p.len()), st), writer::stands(s, pos, id, p)]
        writer::stands(s, pos, id, p) implies demux::entry_step()(
        s,
        writer::header_of(pos, id, p.len()),
        st,
    ) == item_of(demux::entry_step())(pos, id, p, st) by {
        lemma_both(s, pos, id, p);
    }
}

proof fn lemma_agree_tracks()
    ensures
        writer::agree(demux::tracks_step(), item_of(demux::tracks_step())),
{
    assert forall|s: Seq<u8>, pos: int, id: u64, p: Seq<u8>, st: Seq<TrackView>|
        #![trigger demux::tracks_step()(s, writer::header_of(pos, id, p.len()), st), writer::stands(s, pos, id, p)]
        writer::stands(s, pos, id, p) implies demux::tracks_step()(
        s,
        writer::header_of(pos, id, p.len()),
        st,
    ) == item_of(demux::tracks_step())(pos, id, p, st) by {
        lemma_both(s, pos, id, p);
    }
}

proof fn lemma_agree_ebml()
    ensures
        writer::agree(demux::ebml_step(), item_of(demux::ebml_step())),
{
    assert forall|s: Seq<u8>, pos: int, id: u64, p: Seq<u8>, st: (Option<Seq<char>>, u32)|
        #![trigger demux::ebml_step()(s, writer::header_of(pos, id, p.len()), st), writer::stands(s, pos, id, p)]
        writer::stands(s, pos, id, p) implies demux::ebml_step()(
        s,
        writer::header_of(pos, id, p.len()),
        st,
    ) == item_of(demux::ebml_step())(pos, id, p, st) by {
        lemma_both(s, pos, id, p);
    }
}

proof fn lemma_agree_positions()
    ensures
        writer::agree(demux::positions_step(), item_of(demux::positions_step())),
{
    assert forall|s: Seq<u8>, pos: int, id: u64, p: Seq<u8>, st: (u64, u64)|
        #![trigger demux::positions_step()(s, writer::header_of(pos, id, p.len()), st), writer::stands(s, pos, id, p)]
        writer::stands(s, pos, id, p) implies demux::positions_step()(
        s,
        writer::header_of(pos, id, p.len()),
        st,
    ) == item_of(demux::positions_step())(pos, id, p, st) by {
        lemma_both(s, pos, id, p);
    }
}

proof fn lemma_agree_cue()
    ensures
        writer::agree(demux::cue_step(), item_of(demux::cue_step())),
{
    assert forall|s: Seq<u8>, pos: int, id: u64, p: Seq<u8>, st: demux::CueView|
        #![trigger demux::cue_step()(s, writer::header_of(pos, id, p.len()), st), writer::stands(s, pos, id, p)]
        writer::stands(s, pos, id, p) implies demux::cue_step()(
        s,
        writer::header_of(pos, id, p.len()),
        st,
    ) == item_of(demux::cue_step())(pos, id, p, st) by {
        lemma_both(s, pos, id, p);
    }
}

proof fn lemma_agree_cues(scale: u64)
    ensures
        writer::agree(demux::cues_step(scale), item_of(demux::cues_step(scale))),
{
    assert forall|s: Seq<u8>, pos: int, id: u64, p: Seq<u8>, st: Seq<demux::CuePoint>|
        #![trigger demux::cues_step(scale)(s, writer::header_of(pos, id, p.len()), st), writer::stands(s, pos, id, p)]
        writer::stands(s, pos, id, p) implies demux::cues_step(scale)(
        s,
        writer::header_of(pos, id, p.len()),
        st,
    ) == item_of(demux::cues_step(scale))(pos, id, p, st) by {
        lemma_both(s, pos, id, p);
    }
}

/// An integer element alone.
proof fn lemma_alone_uint(id: u64, v: u64)
    requires
        writer::is_id(id),
    ensures
        element::uint_of(
            writer::element_bytes(id, writer::uint_bytes(v)),
            writer::header_of(0, id, writer::uint_bytes(v).len()),
        ) == Ok::<u64, Error>(v),
        writer::uint_bytes(v).len() < writer::size_limit(),
{
    writer::law_uint_reads_back(v);
    writer::lemma_element_len(id, writer::uint_bytes(v));
    lemma_alone(id, writer::uint_bytes(v));
}

/// A text element alone.
proof fn lemma_alone_text(id: u64, t: Seq<char>)
    requires
        writer::is_id(id),
        encode_utf8(t).len() < writer::size_limit(),
        writer::element_bytes(id, encode_utf8(t)).len() <= usize::MAX,
    ensures
        element::ascii_of(
            writer::element_bytes(id, encode_utf8(t)),
            writer::header_of(0, id, encode_utf8(t).len()),
        ) == Ok::<Seq<char>, Error>(writer::before_nul(t)),
        element::utf8_of(
            writer::element_bytes(id, encode_utf8(t)),
            writer::header_of(0, id, encode_utf8(t).len()),
        ) == Ok::<Seq<char>, Error>(writer::before_nul(t)),
{
    writer::law_text_reads_back(t);
    lemma_alone(id, encode_utf8(t));
}

/// A float element alone.
proof fn lemma_alone_float(id: u64, f: FloatBits)
    requires
        writer::is_id(id),
    ensures
        element::float_of(
            writer::element_bytes(id, mux::float_bytes(f)),
            writer::header_of(0, id, mux::float_bytes(f).len()),
        ) == Ok::<FloatBits, Error>(FloatBits::Double(f.wide())),
        mux::float_bytes(f).len() < writer::size_limit(),
{
    bytes::lemma_be64(f.wide());
    writer::lemma_element_len(id, mux::float_bytes(f));
    reveal(writer::size_width);
    reveal_with_fuel(writer::size_width_from, 3);
    lemma_alone(id, mux::float_bytes(f));
}

proof fn lemma_video_fold(v: VideoParams)
    ensures
        writer::fold(mux::video_items(v), demux::default_video(), item_of(demux::video_step()))
            == Ok::<VideoParams, Error>(v),
{
    let g = item_of(demux::video_step());
    let st = demux::default_video();
    let e = Seq::<(u64, Seq<u8>)>::empty();
    let i1 = e.push((ids::PIXEL_WIDTH, writer::uint_bytes(v.pixel_width as u64)));
    let i2 = i1.push((ids::PIXEL_HEIGHT, writer::uint_bytes(v.pixel_height as u64)));
    let dw = v.display_width->Some_0 as u64;
    let dh = v.display_height->Some_0 as u64;
    let i3 = mux::with(i2, v.display_width is Some, ids::DISPLAY_WIDTH, writer::uint_bytes(dw));
    let i4 = mux::video_items(v);
    let s1 = VideoParams { pixel_width: v.pixel_width, ..st };
    let s2 = VideoParams { pixel_height: v.pixel_height, ..s1 };
    let s3 = VideoParams { display_width: v.display_width, ..s2 };
    assert(writer::fold(e, st, g) == Ok::<VideoParams, Error>(st));
    assert(writer::fold(i1, st, g) == Ok::<VideoParams, Error>(s1)) by {
        lemma_alone_uint(ids::PIXEL_WIDTH, v.pixel_width as u64);
        writer::lemma_fold_push(e, ids::PIXEL_WIDTH, i1[0].1, st, g);
    }
    assert(writer::fold(i2, st, g) == Ok::<VideoParams, Error>(s2)) by {
        lemma_alone_uint(ids::PIXEL_HEIGHT, v.pixel_height as u64);
        writer::lemma_fold_push(i1, ids::PIXEL_HEIGHT, i2[1].1, st, g);
    }
    assert(writer::fold(i3, st, g) == Ok::<VideoParams, Error>(s3)) by {
        lemma_alone_uint(ids::DISPLAY_WIDTH, dw);
        writer::lemma_fold_push(i2, ids::DISPLAY_WIDTH, writer::uint_bytes(dw), st, g);
    }
    assert(writer::fold(i4, st, g) == Ok::<VideoParams, Error>(v)) by {
        lemma_alone_uint(ids::DISPLAY_HEIGHT, dh);
        writer::lemma_fold_push(i3, ids::DISPLAY_HEIGHT, writer::uint_bytes(dh), st, g);
    }
}

proof fn lemma_video_short(v: VideoParams)
    ensures
        writer::writable(mux::video_items(v)),
        writer::items_bytes(mux::video_items(v)).len() <= 80,
{
    let items = mux::video_items(v);
    assert forall|i: int| 0 <= i < items.len() implies (#[trigger] items[i]).1.len() <= 8
        && writer::is_id(items[i].0) by {
        writer::law_uint_reads_back(v.pixel_width as u64);
        writer::law_uint_reads_back(v.pixel_height as u64);
        writer::law_uint_reads_back(v.display_width->Some_0 as u64);
        writer::law_uint_reads_back(v.display_height->Some_0 as u64);
    }
    lemma_short_items(items);
}

/// Reading back Video's children gives the parameters written.
pub proof fn law_video_reads_back(v: VideoParams)
    ensures
        demux::video_of(writer::items_bytes(mux::video_items(v))) == Ok::<VideoParams, Error>(v),
{
    lemma_video_fold(v);
    lemma_video_short(v);
    lemma_agree_video();
    lemma_read(mux::video_items(v), demux::default_video(), demux::video_step(), v);
}

/// Elements that fold to a value are read as that value.
proof fn lemma_read<S>(
    items: Seq<(u64, Seq<u8>)>,
    st: S,
    f: spec_fn(Seq<u8>, ElementHeader, S) -> Result<S, Error>,
    v: S,
)
    requires
        writer::writable(items),
        writer::items_bytes(items).len() <= usize::MAX,
        writer::agree(f, item_of(f)),
        writer::fold(items, st, item_of(f)) == Ok::<S, Error>(v),
    ensures
        element::walk(writer::items_bytes(items), 0, st, f) == Ok::<S, Error>(v),
{
    writer::law_walk_reads_items(items, st, f, item_of(f));
}

/// A few short elements are short.
proof fn lemma_short_items(items: Seq<(u64, Seq<u8>)>)
    requires
        forall|i: int| 0 <= i < items.len() ==> (#[trigger] items[i]).1.len() <= 8,
        items.len() <= 16,
    ensures
        writer::items_bytes(items).len() <= 20 * items.len(),
    decreases items.len(),
{
    if items.len() > 0 {
        lemma_short_items(items.drop_last());
        writer::lemma_element_longer(items.last().0, items.last().1);
    }
}

/// What Audio says of written parameters: every frequency is stored as a double.
pub open spec fn written_audio(a: AudioParams) -> AudioParams {
    AudioParams {
        sampling_frequency: FloatBits::Double(a.sampling_frequency.wide()),
        output_sampling_frequency: match a.output_sampling_frequency {
            None => None,
            Some(f) => Some(FloatBits::Double(f.wide())),
        },
        ..a
    }
}

#[verifier::rlimit(80)]
#[verifier::spinoff_prover]
proof fn lemma_audio_fold(a: AudioParams)
    ensures
        writer::fold(mux::audio_items(a), demux::default_audio(), item_of(demux::audio_step()))
            == Ok::<AudioParams, Error>(written_audio(a)),
{
    let w = written_audio(a);
    let g = item_of(demux::audio_step());
    let st = demux::default_audio();
    let i0 = Seq::<(u64, Seq<u8>)>::empty();
    let s0 = st;
    assert(writer::fold(i0, st, g) == Ok::<AudioParams, Error>(s0));
    let i1 = i0.push((ids::SAMPLING_FREQUENCY, mux::float_bytes(a.sampling_frequency)));
    let s1 = AudioParams { sampling_frequency: w.sampling_frequency, ..s0 };
    assert(writer::fold(i1, st, g) == Ok::<AudioParams, Error>(s1)) by {
        lemma_alone_float(ids::SAMPLING_FREQUENCY, a.sampling_frequency);
        writer::lemma_fold_push(i0, ids::SAMPLING_FREQUENCY, mux::float_bytes(a.sampling_frequency), st, g);
    }
    let i2 = mux::with(i1, a.output_sampling_frequency is Some, ids::OUTPUT_SAMPLING_FREQUENCY, mux::float_bytes(a.output_sampling_frequency->Some_0));
    let s2 = AudioParams { output_sampling_frequency: w.output_sampling_frequency, ..s1 };
    assert(writer::fold(i2, st, g) == Ok::<AudioParams, Error>(s2)) by {
        if a.output_sampling_frequency is Some {
            lemma_alone_float(ids::OUTPUT_SAMPLING_FREQUENCY, a.output_sampling_frequency->Some_0);
        }
        writer::lemma_fold_push(i1, ids::OUTPUT_SAMPLING_FREQUENCY, mux::float_bytes(a.output_sampling_frequency->Some_0), st, g);
    }
    let i3 = i2.push((ids::CHANNELS, writer::uint_bytes(a.channels as u64)));
    let s3 = AudioParams { channels: a.channels, ..s2 };
    assert(writer::fold(i3, st, g) == Ok::<AudioParams, Error>(s3)) by {
        lemma_alone_uint(ids::CHANNELS, a.channels as u64);
        writer::lemma_fold_push(i2, ids::CHANNELS, writer::uint_bytes(a.channels as u64), st, g);
    }
    let i4 = mux::with(i3, a.bit_depth is Some, ids::BIT_DEPTH, writer::uint_bytes(a.bit_depth->Some_0 as u64));
    let s4 = AudioParams { bit_depth: a.bit_depth, ..s3 };
    assert(writer::fold(i4, st, g) == Ok::<AudioParams, Error>(s4)) by {
        if a.bit_depth is Some {
            lemma_alone_uint(ids::BIT_DEPTH, a.bit_depth->Some_0 as u64);
        }
        writer::lemma_fold_push(i3, ids::BIT_DEPTH, writer::uint_bytes(a.bit_depth->Some_0 as u64), st, g);
    }
    assert(i4 == mux::audio_items(a));
}

proof fn lemma_audio_short(a: AudioParams)
    ensures
        writer::writable(mux::audio_items(a)),
        writer::items_bytes(mux::audio_items(a)).len() <= 80,
{
    let items = mux::audio_items(a);
    assert forall|i: int| 0 <= i < items.len() implies (#[trigger] items[i]).1.len() <= 8
        && writer::is_id(items[i].0) by {
        writer::law_uint_reads_back(a.channels as u64);
        writer::law_uint_reads_back(a.bit_depth->Some_0 as u64);
    }
    lemma_short_items(items);
}

/// Reading back Audio's children gives the parameters written, each frequency as a
/// double of the same value.
pub proof fn law_audio_reads_back(a: AudioParams)
    ensures
        demux::audio_of(writer::items_bytes(mux::audio_items(a))) == Ok::<AudioParams, Error>(
            written_audio(a),
        ),
{
    lemma_audio_fold(a);
    lemma_audio_short(a);
    lemma_agree_audio();
    lemma_read(
        mux::audio_items(a),
        demux::default_audio(),
        demux::audio_step(),
        written_audio(a),
    );
}

/// A text, if there is one, up to its first NUL.
pub open spec fn kept(t: Option<Seq<char>>) -> Option<Seq<char>> {
    match t {
        None => None,
        Some(t) => Some(writer::before_nul(t)),
    }
}

/// What Info says of a written stream. A text ends at its first NUL.
pub open spec fn written_info(m: mux::MuxView, duration: Option<u64>) -> demux::InfoView {
    demux::InfoView {
        timestamp_scale_ns: mux::TIMESTAMP_SCALE_NS,
        duration_ticks: match duration {
            None => None,
            Some(b) => Some(FloatBits::Double(b)),
        },
        title: None,
        muxing_app: Some(writer::before_nul(m.muxing_app)),
        writing_app: Some(writer::before_nul(m.writing_app)),
    }
}

proof fn lemma_info_fold(m: mux::MuxView, duration: Option<u64>)
    requires
        mux::info_body(m, duration).len() < writer::size_limit(),
        mux::info_body(m, duration).len() <= usize::MAX,
    ensures
        writer::fold(
            mux::info_items(duration, m.muxing_app, m.writing_app),
            demux::default_info(),
            item_of(demux::info_step()),
        ) == Ok::<demux::InfoView, Error>(written_info(m, duration)),
{
    let final_items = mux::info_items(duration, m.muxing_app, m.writing_app);
    let k = final_items.len() as int;
    assert(final_items[k - 1] == (ids::WRITING_APP, encode_utf8(m.writing_app)));
    assert(final_items[k - 2] == (ids::MUXING_APP, encode_utf8(m.muxing_app)));
    writer::lemma_item_fits(final_items, k - 1);
    writer::lemma_item_fits(final_items, k - 2);
    let g = item_of(demux::info_step());
    let st = demux::default_info();
    let i0 = Seq::<(u64, Seq<u8>)>::empty();
    let s0 = st;
    assert(writer::fold(i0, st, g) == Ok::<demux::InfoView, Error>(s0));
    let i1 = i0.push((ids::TIMESTAMP_SCALE, writer::uint_bytes(mux::TIMESTAMP_SCALE_NS)));
    let s1 = demux::InfoView { timestamp_scale_ns: mux::TIMESTAMP_SCALE_NS, ..s0 };
    assert(writer::fold(i1, st, g) == Ok::<demux::InfoView, Error>(s1)) by {
        lemma_alone_uint(ids::TIMESTAMP_SCALE, mux::TIMESTAMP_SCALE_NS);
        writer::lemma_fold_push(i0, ids::TIMESTAMP_SCALE, writer::uint_bytes(mux::TIMESTAMP_SCALE_NS), st, g);
    }
    let i2 = mux::with(i1, duration is Some, ids::DURATION, bytes::be64(duration->Some_0));
    let s2 = demux::InfoView { duration_ticks: written_info(m, duration).duration_ticks, ..s1 };
    assert(writer::fold(i2, st, g) == Ok::<demux::InfoView, Error>(s2)) by {
        if duration is Some {
            lemma_alone_float(ids::DURATION, FloatBits::Double(duration->Some_0));
        }
        writer::lemma_fold_push(i1, ids::DURATION, bytes::be64(duration->Some_0), st, g);
    }
    let i3 = i2.push((ids::MUXING_APP, encode_utf8(m.muxing_app)));
    let s3 = demux::InfoView { muxing_app: Some(writer::before_nul(m.muxing_app)), ..s2 };
    assert(writer::fold(i3, st, g) == Ok::<demux::InfoView, Error>(s3)) by {
        lemma_alone_text(ids::MUXING_APP, m.muxing_app);
        writer::lemma_fold_push(i2, ids::MUXING_APP, encode_utf8(m.muxing_app), st, g);
    }
    let i4 = i3.push((ids::WRITING_APP, encode_utf8(m.writing_app)));
    let s4 = demux::InfoView { writing_app: Some(writer::before_nul(m.writing_app)), ..s3 };
    assert(writer::fold(i4, st, g) == Ok::<demux::InfoView, Error>(s4)) by {
        lemma_alone_text(ids::WRITING_APP, m.writing_app);
        writer::lemma_fold_push(i3, ids::WRITING_APP, encode_utf8(m.writing_app), st, g);
    }
    assert(i4 == final_items);
}

/// Reading back Info gives what was written.
pub proof fn law_info_reads_back(m: mux::MuxView, duration: Option<u64>)
    requires
        mux::info_body(m, duration).len() < writer::size_limit(),
        mux::info_body(m, duration).len() <= usize::MAX,
    ensures
        element::walk(
            mux::info_body(m, duration),
            0,
            demux::default_info(),
            demux::info_step(),
        ) == Ok::<demux::InfoView, Error>(written_info(m, duration)),
{
    let items = mux::info_items(duration, m.muxing_app, m.writing_app);
    lemma_info_fold(m, duration);
    assert forall|i: int| 0 <= i < items.len() implies writer::is_id((#[trigger] items[i]).0) by {}
    writer::lemma_writable(items);
    lemma_agree_info();
    lemma_read(items, demux::default_info(), demux::info_step(), written_info(m, duration));
}

proof fn lemma_ebml_fold(d: DocType)
    requires
        mux::ebml_bytes(d).len() <= usize::MAX,
        mux::ebml_bytes(d).len() < writer::size_limit(),
    ensures
        writer::fold(
            mux::ebml_items(d),
            (None::<Seq<char>>, 1u32),
            item_of(demux::ebml_step()),
        ) == Ok::<(Option<Seq<char>>, u32), Error>((Some(d.name()), 4u32)),
{
    let final_items = mux::ebml_items(d);
    assert(final_items[4] == (ids::DOC_TYPE, encode_utf8(d.name())));
    writer::lemma_item_fits(final_items, 4);
    writer::lemma_element_longer(ids::EBML, writer::items_bytes(final_items));
    lemma_name_is_plain(d);
    let g = item_of(demux::ebml_step());
    let st = (None::<Seq<char>>, 1u32);
    let i0 = Seq::<(u64, Seq<u8>)>::empty();
    let s0 = st;
    assert(writer::fold(i0, st, g) == Ok::<(Option<Seq<char>>, u32), Error>(s0));
    let i1 = i0.push((ids::EBML_VERSION, writer::uint_bytes(1)));
    let s1 = s0;
    assert(writer::fold(i1, st, g) == Ok::<(Option<Seq<char>>, u32), Error>(s1)) by {
        lemma_alone_uint(ids::EBML_VERSION, 1);
        writer::lemma_fold_push(i0, ids::EBML_VERSION, writer::uint_bytes(1), st, g);
    }
    let i2 = i1.push((ids::EBML_READ_VERSION, writer::uint_bytes(1)));
    let s2 = s1;
    assert(writer::fold(i2, st, g) == Ok::<(Option<Seq<char>>, u32), Error>(s2)) by {
        lemma_alone_uint(ids::EBML_READ_VERSION, 1);
        writer::lemma_fold_push(i1, ids::EBML_READ_VERSION, writer::uint_bytes(1), st, g);
    }
    let i3 = i2.push((ids::EBML_MAX_ID_LENGTH, writer::uint_bytes(4)));
    let s3 = s2;
    assert(writer::fold(i3, st, g) == Ok::<(Option<Seq<char>>, u32), Error>(s3)) by {
        lemma_alone_uint(ids::EBML_MAX_ID_LENGTH, 4);
        writer::lemma_fold_push(i2, ids::EBML_MAX_ID_LENGTH, writer::uint_bytes(4), st, g);
    }
    let i4 = i3.push((ids::EBML_MAX_SIZE_LENGTH, writer::uint_bytes(8)));
    let s4 = s3;
    assert(writer::fold(i4, st, g) == Ok::<(Option<Seq<char>>, u32), Error>(s4)) by {
        lemma_alone_uint(ids::EBML_MAX_SIZE_LENGTH, 8);
        writer::lemma_fold_push(i3, ids::EBML_MAX_SIZE_LENGTH, writer::uint_bytes(8), st, g);
    }
    let i5 = i4.push((ids::DOC_TYPE, encode_utf8(d.name())));
    let s5 = (Some(d.name()), s4.1);
    assert(writer::fold(i5, st, g) == Ok::<(Option<Seq<char>>, u32), Error>(s5)) by {
        lemma_alone_text(ids::DOC_TYPE, d.name());
        writer::lemma_fold_push(i4, ids::DOC_TYPE, encode_utf8(d.name()), st, g);
    }
    let i6 = i5.push((ids::DOC_TYPE_VERSION, writer::uint_bytes(4)));
    let s6 = (s5.0, 4u32);
    assert(writer::fold(i6, st, g) == Ok::<(Option<Seq<char>>, u32), Error>(s6)) by {
        lemma_alone_uint(ids::DOC_TYPE_VERSION, 4);
        writer::lemma_fold_push(i5, ids::DOC_TYPE_VERSION, writer::uint_bytes(4), st, g);
    }
    let i7 = i6.push((ids::DOC_TYPE_READ_VERSION, writer::uint_bytes(2)));
    let s7 = s6;
    assert(writer::fold(i7, st, g) == Ok::<(Option<Seq<char>>, u32), Error>(s7)) by {
        lemma_alone_uint(ids::DOC_TYPE_READ_VERSION, 2);
        writer::lemma_fold_push(i6, ids::DOC_TYPE_READ_VERSION, writer::uint_bytes(2), st, g);
    }
    assert(i7 == final_items);
}

proof fn lemma_name_is_plain(d: DocType)
    ensures
        writer::before_nul(d.name()) == d.name(),
{
    reveal_strlit("matroska");
    reveal_strlit("webm");
    writer::law_plain_text(d.name());
}

/// Reading back the EBML header gives the profile's name and version 4.
pub proof fn law_ebml_header_reads_back(d: DocType)
    requires
        mux::ebml_bytes(d).len() <= usize::MAX,
        mux::ebml_bytes(d).len() < writer::size_limit(),
    ensures
        demux::ebml_header_of(writer::items_bytes(mux::ebml_items(d))) == Ok::<
            (Seq<char>, u32),
            Error,
        >((d.name(), 4u32)),
{
    reveal(demux::ebml_header_of);
    let items = mux::ebml_items(d);
    writer::lemma_element_longer(ids::EBML, writer::items_bytes(items));
    lemma_ebml_fold(d);
    assert forall|i: int| 0 <= i < items.len() implies writer::is_id((#[trigger] items[i]).0) by {}
    writer::lemma_writable(items);
    lemma_agree_ebml();
    lemma_read(items, (None::<Seq<char>>, 1u32), demux::ebml_step(), (Some(d.name()), 4u32));
}

/// The kind that a reader takes a written kind for: the one that its TrackType
/// value names.
pub open spec fn written_kind(k: TrackKind) -> TrackKind {
    TrackKind::of(mux::kind_value(k))
}

/// A track that a reader accepts: its codec fits the kind that its TrackType value
/// names.
pub open spec fn readable_track(d: mux::DescriptorView) -> bool {
    demux::prefix_ok(written_kind(d.kind), d.codec_id)
}

/// A track that can be registered is one that a reader accepts, and it keeps its
/// kind, unless its kind is another one by a value that names one of the three.
pub proof fn law_registered_track_is_readable(d: mux::DescriptorView)
    requires
        demux::prefix_ok(d.kind, d.codec_id),
        d.kind matches TrackKind::Other(v) ==> v != track_type::VIDEO && v != track_type::AUDIO && v
            != track_type::SUBTITLE,
    ensures
        readable_track(d),
        written_kind(d.kind) == d.kind,
{
}

/// A prefix without a NUL stands before the first one.
proof fn lemma_prefix_kept(k: TrackKind, codec: Seq<char>)
    requires
        demux::prefix_ok(k, codec),
    ensures
        demux::prefix_ok(k, writer::before_nul(codec)),
{
    reveal_strlit("V_");
    reveal_strlit("A_");
    reveal_strlit("S_");
    let cut = writer::before_nul(codec);
    if !(k is Other) {
        let prefix = match k {
            TrackKind::Video => "V_"@,
            TrackKind::Audio => "A_"@,
            _ => "S_"@,
        };
        assert(codec.subrange(0, 2)[0] == prefix[0] && codec.subrange(0, 2)[1] == prefix[1]);
        let rest = codec.drop_first();
        assert(cut == seq![codec[0]] + writer::before_nul(rest));
        assert(writer::before_nul(rest) == seq![rest[0]] + writer::before_nul(rest.drop_first()));
        assert(cut.subrange(0, 2) =~= prefix);
    }
}

/// What a TrackEntry says of a written track. A text ends at its first NUL.
pub open spec fn written_track(number: u64, d: mux::DescriptorView) -> TrackView {
    TrackView {
        number,
        uid: mux::uid_of(number),
        kind: written_kind(d.kind),
        codec_id: writer::before_nul(d.codec_id),
        codec_private: d.codec_private,
        default_duration_ns: d.default_duration_ns,
        codec_delay_ns: d.codec_delay_ns,
        seek_pre_roll_ns: d.seek_pre_roll_ns,
        language: kept(d.language),
        name: kept(d.name),
        flag_enabled: true,
        flag_default: d.flag_default,
        flag_forced: d.flag_forced,
        video: d.video,
        audio: match d.audio {
            None => None,
            Some(a) => Some(written_audio(a)),
        },
    }
}

/// A written TrackEntry up to its codec name.
spec fn head_state(number: u64, d: mux::DescriptorView) -> demux::EntryView {
    demux::EntryView {
        track: TrackView {
            number,
            uid: mux::uid_of(number),
            kind: written_kind(d.kind),
            codec_id: writer::before_nul(d.codec_id),
            flag_default: d.flag_default,
            flag_forced: d.flag_forced,
            ..demux::default_track()
        },
        language_ietf: None,
    }
}

/// A written TrackEntry up to its timing.
spec fn timing_state(number: u64, d: mux::DescriptorView) -> demux::EntryView {
    demux::EntryView {
        track: TrackView {
            language: None,
            name: None,
            video: None,
            audio: None,
            ..written_track(number, d)
        },
        language_ietf: None,
    }
}

#[verifier::rlimit(60)]
#[verifier::spinoff_prover]
proof fn lemma_head_fold(number: u64, d: mux::DescriptorView)
    requires
        writer::items_bytes(mux::track_head_items(number, d)).len() < writer::size_limit(),
        writer::items_bytes(mux::track_head_items(number, d)).len() <= usize::MAX,
    ensures
        writer::fold(
            mux::track_head_items(number, d),
            demux::empty_entry(),
            item_of(demux::entry_step()),
        ) == Ok::<demux::EntryView, Error>(head_state(number, d)),
{
    let final_items = mux::track_head_items(number, d);
    assert(final_items[7] == (ids::CODEC_ID, encode_utf8(d.codec_id)));
    writer::lemma_item_fits(final_items, 7);
    let g = item_of(demux::entry_step());
    let st = demux::empty_entry();
    let i0 = Seq::<(u64, Seq<u8>)>::empty();
    let s0 = st;
    assert(writer::fold(i0, st, g) == Ok::<demux::EntryView, Error>(s0));
    let i1 = i0.push((ids::TRACK_NUMBER, writer::uint_bytes(number)));
    let s1 = demux::EntryView { track: TrackView { number: number, ..s0.track }, ..s0 };
    assert(writer::fold(i1, st, g) == Ok::<demux::EntryView, Error>(s1)) by {
        lemma_alone_uint(ids::TRACK_NUMBER, number);
        writer::lemma_fold_push(i0, ids::TRACK_NUMBER, writer::uint_bytes(number), st, g);
    }
    let i2 = i1.push((ids::TRACK_UID, writer::uint_bytes(mux::uid_of(number))));
    let s2 = demux::EntryView { track: TrackView { uid: mux::uid_of(number), ..s1.track }, ..s1 };
    assert(writer::fold(i2, st, g) == Ok::<demux::EntryView, Error>(s2)) by {
        lemma_alone_uint(ids::TRACK_UID, mux::uid_of(number));
        writer::lemma_fold_push(i1, ids::TRACK_UID, writer::uint_bytes(mux::uid_of(number)), st, g);
    }
    let i3 = i2.push((ids::TRACK_TYPE, writer::uint_bytes(mux::kind_value(d.kind))));
    let s3 = demux::EntryView { track: TrackView { kind: written_kind(d.kind), ..s2.track }, ..s2 };
    assert(writer::fold(i3, st, g) == Ok::<demux::EntryView, Error>(s3)) by {
        lemma_alone_uint(ids::TRACK_TYPE, mux::kind_value(d.kind));
        writer::lemma_fold_push(i2, ids::TRACK_TYPE, writer::uint_bytes(mux::kind_value(d.kind)), st, g);
    }
    let i4 = i3.push((ids::FLAG_ENABLED, writer::uint_bytes(1)));
    let s4 = demux::EntryView { track: TrackView { flag_enabled: true, ..s3.track }, ..s3 };
    assert(writer::fold(i4, st, g) == Ok::<demux::EntryView, Error>(s4)) by {
        lemma_alone_uint(ids::FLAG_ENABLED, 1);
        writer::lemma_fold_push(i3, ids::FLAG_ENABLED, writer::uint_bytes(1), st, g);
    }
    let i5 = i4.push((ids::FLAG_DEFAULT, writer::uint_bytes(d.flag_default as u64)));
    let s5 = demux::EntryView { track: TrackView { flag_default: d.flag_default, ..s4.track }, ..s4 };
    assert(writer::fold(i5, st, g) == Ok::<demux::EntryView, Error>(s5)) by {
        lemma_alone_uint(ids::FLAG_DEFAULT, d.flag_default as u64);
        writer::lemma_fold_push(i4, ids::FLAG_DEFAULT, writer::uint_bytes(d.flag_default as u64), st, g);
    }
    let i6 = i5.push((ids::FLAG_FORCED, writer::uint_bytes(d.flag_forced as u64)));
    let s6 = demux::EntryView { track: TrackView { flag_forced: d.flag_forced, ..s5.track }, ..s5 };
    assert(writer::fold(i6, st, g) == Ok::<demux::EntryView, Error>(s6)) by {
        lemma_alone_uint(ids::FLAG_FORCED, d.flag_forced as u64);
        writer::lemma_fold_push(i5, ids::FLAG_FORCED, writer::uint_bytes(d.flag_forced as u64), st, g);
    }
    let i7 = i6.push((ids::FLAG_LACING, writer::uint_bytes(0)));
    let s7 = s6;
    assert(writer::fold(i7, st, g) == Ok::<demux::EntryView, Error>(s7)) by {
        lemma_alone_uint(ids::FLAG_LACING, 0);
        writer::lemma_fold_push(i6, ids::FLAG_LACING, writer::uint_bytes(0), st, g);
    }
    let i8 = i7.push((ids::CODEC_ID, encode_utf8(d.codec_id)));
    let s8 = demux::EntryView { track: TrackView { codec_id: writer::before_nul(d.codec_id), ..s7.track }, ..s7 };
    assert(writer::fold(i8, st, g) == Ok::<demux::EntryView, Error>(s8)) by {
        lemma_alone_text(ids::CODEC_ID, d.codec_id);
        writer::lemma_fold_push(i7, ids::CODEC_ID, encode_utf8(d.codec_id), st, g);
    }
    assert(i8 == final_items);
}

#[verifier::rlimit(60)]
#[verifier::spinoff_prover]
proof fn lemma_timing_fold(number: u64, d: mux::DescriptorView)
    requires
        writer::items_bytes(mux::track_timing_items(number, d)).len() < writer::size_limit(),
        writer::items_bytes(mux::track_timing_items(number, d)).len() <= usize::MAX,
        writer::fold(
            mux::track_head_items(number, d),
            demux::empty_entry(),
            item_of(demux::entry_step()),
        ) == Ok::<demux::EntryView, Error>(head_state(number, d)),
    ensures
        writer::fold(
            mux::track_timing_items(number, d),
            demux::empty_entry(),
            item_of(demux::entry_step()),
        ) == Ok::<demux::EntryView, Error>(timing_state(number, d)),
{
    let g = item_of(demux::entry_step());
    let st = demux::empty_entry();
    let i0 = mux::track_head_items(number, d);
    let s0 = head_state(number, d);
    let dd = d.default_duration_ns->Some_0;
    let j1 = mux::with(i0, d.codec_private is Some, ids::CODEC_PRIVATE, d.codec_private->Some_0);
    let j2 = mux::with(j1, d.default_duration_ns is Some, ids::DEFAULT_DURATION, writer::uint_bytes(dd));
    let j3 = mux::with(j2, d.codec_delay_ns != 0, ids::CODEC_DELAY, writer::uint_bytes(d.codec_delay_ns));
    mux::lemma_with_longer(j3, d.seek_pre_roll_ns != 0, ids::SEEK_PRE_ROLL, writer::uint_bytes(d.seek_pre_roll_ns));
    mux::lemma_with_longer(j2, d.codec_delay_ns != 0, ids::CODEC_DELAY, writer::uint_bytes(d.codec_delay_ns));
    mux::lemma_with_longer(j1, d.default_duration_ns is Some, ids::DEFAULT_DURATION, writer::uint_bytes(dd));
    mux::lemma_with_longer(i0, d.codec_private is Some, ids::CODEC_PRIVATE, d.codec_private->Some_0);
    let i1 = mux::with(i0, d.codec_private is Some, ids::CODEC_PRIVATE, d.codec_private->Some_0);
    let s1 = demux::EntryView { track: TrackView { codec_private: d.codec_private, ..s0.track }, ..s0 };
    assert(writer::fold(i1, st, g) == Ok::<demux::EntryView, Error>(s1)) by {
        if d.codec_private is Some {
            lemma_alone(ids::CODEC_PRIVATE, d.codec_private->Some_0);
        }
        writer::lemma_fold_push(i0, ids::CODEC_PRIVATE, d.codec_private->Some_0, st, g);
    }
    let i2 = mux::with(i1, d.default_duration_ns is Some, ids::DEFAULT_DURATION, writer::uint_bytes(dd));
    let s2 = demux::EntryView { track: TrackView { default_duration_ns: d.default_duration_ns, ..s1.track }, ..s1 };
    assert(writer::fold(i2, st, g) == Ok::<demux::EntryView, Error>(s2)) by {
        if d.default_duration_ns is Some {
            lemma_alone_uint(ids::DEFAULT_DURATION, dd);
        }
        writer::lemma_fold_push(i1, ids::DEFAULT_DURATION, writer::uint_bytes(dd), st, g);
    }
    let i3 = mux::with(i2, d.codec_delay_ns != 0, ids::CODEC_DELAY, writer::uint_bytes(d.codec_delay_ns));
    let s3 = demux::EntryView { track: TrackView { codec_delay_ns: d.codec_delay_ns, ..s2.track }, ..s2 };
    assert(writer::fold(i3, st, g) == Ok::<demux::EntryView, Error>(s3)) by {
        if d.codec_delay_ns != 0 {
            lemma_alone_uint(ids::CODEC_DELAY, d.codec_delay_ns);
        }
        writer::lemma_fold_push(i2, ids::CODEC_DELAY, writer::uint_bytes(d.codec_delay_ns), st, g);
    }
    let i4 = mux::with(i3, d.seek_pre_roll_ns != 0, ids::SEEK_PRE_ROLL, writer::uint_bytes(d.seek_pre_roll_ns));
    let s4 = demux::EntryView { track: TrackView { seek_pre_roll_ns: d.seek_pre_roll_ns, ..s3.track }, ..s3 };
    assert(writer::fold(i4, st, g) == Ok::<demux::EntryView, Error>(s4)) by {
        if d.seek_pre_roll_ns != 0 {
            lemma_alone_uint(ids::SEEK_PRE_ROLL, d.seek_pre_roll_ns);
        }
        writer::lemma_fold_push(i3, ids::SEEK_PRE_ROLL, writer::uint_bytes(d.seek_pre_roll_ns), st, g);
    }
    assert(i4 == mux::track_timing_items(number, d));
    assert(s4 == timing_state(number, d));
}

/// A TrackEntry's children up to its name.
spec fn named_items(number: u64, d: mux::DescriptorView) -> Seq<(u64, Seq<u8>)> {
    mux::with(
        mux::with(
            mux::track_timing_items(number, d),
            d.language is Some,
            ids::LANGUAGE,
            encode_utf8(d.language->Some_0),
        ),
        d.name is Some,
        ids::NAME,
        encode_utf8(d.name->Some_0),
    )
}

/// A written TrackEntry up to its name.
spec fn named_state(number: u64, d: mux::DescriptorView) -> demux::EntryView {
    demux::EntryView {
        track: TrackView { video: None, audio: None, ..written_track(number, d) },
        language_ietf: None,
    }
}

#[verifier::rlimit(60)]
#[verifier::spinoff_prover]
proof fn lemma_named_fold(number: u64, d: mux::DescriptorView)
    requires
        writer::items_bytes(named_items(number, d)).len() < writer::size_limit(),
        writer::items_bytes(named_items(number, d)).len() <= usize::MAX,
    ensures
        writer::fold(named_items(number, d), demux::empty_entry(), item_of(demux::entry_step()))
            == Ok::<demux::EntryView, Error>(named_state(number, d)),
{
    let g = item_of(demux::entry_step());
    let st = demux::empty_entry();
    let i0 = mux::track_timing_items(number, d);
    let s0 = timing_state(number, d);
    let i1 = mux::with(i0, d.language is Some, ids::LANGUAGE, encode_utf8(d.language->Some_0));
    let i2 = named_items(number, d);
    mux::lemma_with_longer(i1, d.name is Some, ids::NAME, encode_utf8(d.name->Some_0));
    mux::lemma_with_longer(i0, d.language is Some, ids::LANGUAGE, encode_utf8(d.language->Some_0));
    lemma_timing_longer(number, d);
    lemma_head_fold(number, d);
    lemma_timing_fold(number, d);
    let s1 = demux::EntryView { track: TrackView { language: kept(d.language), ..s0.track }, ..s0 };
    assert(writer::fold(i1, st, g) == Ok::<demux::EntryView, Error>(s1)) by {
        if d.language is Some {
            lemma_alone_text(ids::LANGUAGE, d.language->Some_0);
        }
        writer::lemma_fold_push(i0, ids::LANGUAGE, encode_utf8(d.language->Some_0), st, g);
    }
    assert(writer::fold(i2, st, g) == Ok::<demux::EntryView, Error>(named_state(number, d))) by {
        if d.name is Some {
            lemma_alone_text(ids::NAME, d.name->Some_0);
        }
        writer::lemma_fold_push(i1, ids::NAME, encode_utf8(d.name->Some_0), st, g);
    }
}

/// What a Video element alone makes of an entry.
proof fn lemma_video_item(v: VideoParams, st: demux::EntryView)
    ensures
        item_of(demux::entry_step())(
            0,
            ids::VIDEO,
            writer::items_bytes(mux::video_items(v)),
            st,
        ) == Ok::<demux::EntryView, Error>(
            (demux::EntryView { track: TrackView { video: Some(v), ..st.track }, ..st }),
        ),
{
    let b = writer::items_bytes(mux::video_items(v));
    lemma_video_short(v);
    writer::lemma_element_longer(ids::VIDEO, b);
    lemma_alone(ids::VIDEO, b);
    law_video_reads_back(v);
}

/// What an Audio element alone makes of an entry.
proof fn lemma_audio_item(a: AudioParams, st: demux::EntryView)
    ensures
        item_of(demux::entry_step())(
            0,
            ids::AUDIO,
            writer::items_bytes(mux::audio_items(a)),
            st,
        ) == Ok::<demux::EntryView, Error>(
            (demux::EntryView { track: TrackView { audio: Some(written_audio(a)), ..st.track }, ..st }),
        ),
{
    let b = writer::items_bytes(mux::audio_items(a));
    lemma_audio_short(a);
    writer::lemma_element_longer(ids::AUDIO, b);
    lemma_alone(ids::AUDIO, b);
    law_audio_reads_back(a);
}

#[verifier::rlimit(60)]
#[verifier::spinoff_prover]
proof fn lemma_entry_fold(number: u64, d: mux::DescriptorView)
    requires
        writer::items_bytes(mux::track_items(number, d)).len() < writer::size_limit(),
        writer::items_bytes(mux::track_items(number, d)).len() <= usize::MAX,
    ensures
        writer::fold(
            mux::track_items(number, d),
            demux::empty_entry(),
            item_of(demux::entry_step()),
        ) == Ok::<demux::EntryView, Error>(
            (demux::EntryView { track: written_track(number, d), language_ietf: None }),
        ),
{
    let g = item_of(demux::entry_step());
    let st = demux::empty_entry();
    let vb = writer::items_bytes(mux::video_items(d.video->Some_0));
    let ab = writer::items_bytes(mux::audio_items(d.audio->Some_0));
    let i2 = named_items(number, d);
    let s2 = named_state(number, d);
    let i3 = mux::with(i2, d.video is Some, ids::VIDEO, vb);
    let i4 = mux::with(i3, d.audio is Some, ids::AUDIO, ab);
    assert(i4 == mux::track_items(number, d));
    mux::lemma_with_longer(i3, d.audio is Some, ids::AUDIO, ab);
    mux::lemma_with_longer(i2, d.video is Some, ids::VIDEO, vb);
    lemma_named_fold(number, d);
    let s3 = demux::EntryView { track: TrackView { video: d.video, ..s2.track }, ..s2 };
    if d.video is Some {
        lemma_video_item(d.video->Some_0, s2);
        writer::lemma_fold_push(i2, ids::VIDEO, vb, st, g);
    }
    assert(writer::fold(i3, st, g) == Ok::<demux::EntryView, Error>(s3));
    if d.audio is Some {
        lemma_audio_item(d.audio->Some_0, s3);
        writer::lemma_fold_push(i3, ids::AUDIO, ab, st, g);
    }
}

proof fn lemma_timing_longer(number: u64, d: mux::DescriptorView)
    ensures
        writer::items_bytes(mux::track_head_items(number, d)).len() <= writer::items_bytes(
            mux::track_timing_items(number, d),
        ).len(),
{
    let i0 = mux::track_head_items(number, d);
    let dd = d.default_duration_ns->Some_0;
    let j1 = mux::with(i0, d.codec_private is Some, ids::CODEC_PRIVATE, d.codec_private->Some_0);
    let j2 = mux::with(j1, d.default_duration_ns is Some, ids::DEFAULT_DURATION, writer::uint_bytes(dd));
    let j3 = mux::with(j2, d.codec_delay_ns != 0, ids::CODEC_DELAY, writer::uint_bytes(d.codec_delay_ns));
    mux::lemma_with_longer(j3, d.seek_pre_roll_ns != 0, ids::SEEK_PRE_ROLL, writer::uint_bytes(d.seek_pre_roll_ns));
    mux::lemma_with_longer(j2, d.codec_delay_ns != 0, ids::CODEC_DELAY, writer::uint_bytes(d.codec_delay_ns));
    mux::lemma_with_longer(j1, d.default_duration_ns is Some, ids::DEFAULT_DURATION, writer::uint_bytes(dd));
    mux::lemma_with_longer(i0, d.codec_private is Some, ids::CODEC_PRIVATE, d.codec_private->Some_0);
}

/// Reading back a TrackEntry gives the track described, its texts up to their first
/// NUL.
#[verifier::rlimit(40)]
pub proof fn law_track_reads_back(number: u64, d: mux::DescriptorView)
    requires
        readable_track(d),
        writer::items_bytes(mux::track_items(number, d)).len() < writer::size_limit(),
        writer::items_bytes(mux::track_items(number, d)).len() <= usize::MAX,
    ensures
        demux::track_of(writer::items_bytes(mux::track_items(number, d))) == Ok::<TrackView, Error>(
            written_track(number, d),
        ),
{
    let items = mux::track_items(number, d);
    lemma_entry_fold(number, d);
    lemma_prefix_kept(written_kind(d.kind), d.codec_id);
    assert forall|i: int| 0 <= i < items.len() implies writer::is_id((#[trigger] items[i]).0) by {}
    writer::lemma_writable(items);
    lemma_agree_entry();
    lemma_read(
        items,
        demux::empty_entry(),
        demux::entry_step(),
        demux::EntryView { track: written_track(number, d), language_ietf: None },
    );
}

/// What Tracks says of written tracks.
pub open spec fn written_tracks(tracks: Seq<mux::DescriptorView>) -> Seq<TrackView> {
    Seq::new(tracks.len(), |i: int| written_track((i + 1) as u64, tracks[i]))
}

/// A reader accepts every track.
pub open spec fn readable_tracks(tracks: Seq<mux::DescriptorView>) -> bool {
    &&& tracks.len() < writer::size_limit()
    &&& forall|i: int| 0 <= i < tracks.len() ==> readable_track(#[trigger] tracks[i])
}

/// What a TrackEntry alone makes of the tracks before it.
proof fn lemma_track_item(pos: int, number: u64, d: mux::DescriptorView, st: Seq<TrackView>)
    requires
        readable_track(d),
        writer::items_bytes(mux::track_items(number, d)).len() < writer::size_limit(),
        writer::element_bytes(
            ids::TRACK_ENTRY,
            writer::items_bytes(mux::track_items(number, d)),
        ).len() <= usize::MAX,
    ensures
        item_of(demux::tracks_step())(
            pos,
            ids::TRACK_ENTRY,
            writer::items_bytes(mux::track_items(number, d)),
            st,
        ) == Ok::<Seq<TrackView>, Error>(st.push(written_track(number, d))),
{
    let body = writer::items_bytes(mux::track_items(number, d));
    writer::lemma_element_longer(ids::TRACK_ENTRY, body);
    lemma_alone(ids::TRACK_ENTRY, body);
    law_track_reads_back(number, d);
}

#[verifier::rlimit(40)]
#[verifier::spinoff_prover]
proof fn lemma_tracks_fold(tracks: Seq<mux::DescriptorView>)
    requires
        readable_tracks(tracks),
        writer::items_bytes(mux::tracks_items(tracks)).len() < writer::size_limit(),
        writer::items_bytes(mux::tracks_items(tracks)).len() <= usize::MAX,
    ensures
        writer::fold(
            mux::tracks_items(tracks),
            Seq::<TrackView>::empty(),
            item_of(demux::tracks_step()),
        ) == Ok::<Seq<TrackView>, Error>(written_tracks(tracks)),
    decreases tracks.len(),
{
    let items = mux::tracks_items(tracks);
    let g = item_of(demux::tracks_step());
    let st = Seq::<TrackView>::empty();
    if tracks.len() == 0 {
        assert(written_tracks(tracks) =~= st);
    } else {
        let n = (tracks.len() - 1) as int;
        let prev = tracks.drop_last();
        assert(items.drop_last() =~= mux::tracks_items(prev));
        assert(forall|i: int| 0 <= i < prev.len() ==> prev[i] == tracks[i]);
        let body = writer::items_bytes(mux::track_items(tracks.len() as u64, tracks[n]));
        assert(items.last() == (ids::TRACK_ENTRY, body));
        writer::lemma_item_fits(items, n);
        writer::lemma_items_push(items.drop_last(), ids::TRACK_ENTRY, body);
        assert(items.drop_last().push(items.last()) =~= items);
        lemma_tracks_fold(prev);
        lemma_track_item(
            writer::items_bytes(items.drop_last()).len() as int,
            tracks.len() as u64,
            tracks[n],
            written_tracks(prev),
        );
        assert(written_tracks(tracks) =~= written_tracks(prev).push(
            written_track(tracks.len() as u64, tracks[n]),
        ));
    }
}

/// Reading back Tracks gives the tracks described.
pub proof fn law_tracks_read_back(m: mux::MuxView)
    requires
        readable_tracks(m.tracks),
        mux::tracks_body(m).len() < writer::size_limit(),
        mux::tracks_body(m).len() <= usize::MAX,
    ensures
        element::walk(
            mux::tracks_body(m),
            0,
            Seq::<TrackView>::empty(),
            demux::tracks_step(),
        ) == Ok::<Seq<TrackView>, Error>(written_tracks(m.tracks)),
{
    let items = mux::tracks_items(m.tracks);
    lemma_tracks_fold(m.tracks);
    writer::lemma_writable(items);
    lemma_agree_tracks();
    lemma_read(
        items,
        Seq::<TrackView>::empty(),
        demux::tracks_step(),
        written_tracks(m.tracks),
    );
}

/// What Cues says of an index entry, the Clusters standing at `base`.
pub open spec fn written_cue(c: mux::CueView, base: int) -> demux::CuePoint {
    demux::CuePoint {
        ts_ns: (c.ticks * mux::TIMESTAMP_SCALE_NS) as u64,
        track_number: c.track,
        cluster_position: (base + c.offset) as u64,
    }
}

/// What Cues says of the whole index.
pub open spec fn written_cues(cs: Seq<mux::CueView>, base: int) -> Seq<demux::CuePoint> {
    cs.map_values(|c: mux::CueView| written_cue(c, base))
}

proof fn lemma_positions(c: mux::CueView, base: int)
    ensures
        element::walk(
            writer::items_bytes(mux::cue_position_items(c, base)),
            0,
            (0u64, 0u64),
            demux::positions_step(),
        ) == Ok::<(u64, u64), Error>((c.track, (base + c.offset) as u64)),
        writer::items_bytes(mux::cue_position_items(c, base)).len() <= 40,
{
    let at = (base + c.offset) as u64;
    let g = item_of(demux::positions_step());
    let st = (0u64, 0u64);
    let i0 = Seq::<(u64, Seq<u8>)>::empty();
    let i1 = i0.push((ids::CUE_TRACK, writer::uint_bytes(c.track)));
    let i2 = i1.push((ids::CUE_CLUSTER_POSITION, writer::uint_bytes(at)));
    assert(writer::fold(i0, st, g) == Ok::<(u64, u64), Error>(st));
    assert(writer::fold(i1, st, g) == Ok::<(u64, u64), Error>((c.track, 0u64))) by {
        lemma_alone_uint(ids::CUE_TRACK, c.track);
        writer::lemma_fold_push(i0, ids::CUE_TRACK, writer::uint_bytes(c.track), st, g);
    }
    assert(writer::fold(i2, st, g) == Ok::<(u64, u64), Error>((c.track, at))) by {
        lemma_alone_uint(ids::CUE_CLUSTER_POSITION, at);
        writer::lemma_fold_push(i1, ids::CUE_CLUSTER_POSITION, writer::uint_bytes(at), st, g);
    }
    assert forall|i: int| 0 <= i < i2.len() implies (#[trigger] i2[i]).1.len() <= 8
        && writer::is_id(i2[i].0) by {
        writer::law_uint_reads_back(c.track);
        writer::law_uint_reads_back(at);
    }
    lemma_short_items(i2);
    assert(writer::writable(i2));
    lemma_agree_positions();
    lemma_read(i2, st, demux::positions_step(), (c.track, at));
}

proof fn lemma_cue_point(c: mux::CueView, base: int)
    requires
        c.ticks * mux::TIMESTAMP_SCALE_NS <= u64::MAX,
    ensures
        demux::cue_points_of(
            writer::items_bytes(mux::cue_items(c, base)),
            mux::TIMESTAMP_SCALE_NS,
        ) == Ok::<Seq<demux::CuePoint>, Error>(seq![written_cue(c, base)]),
        writer::items_bytes(mux::cue_items(c, base)).len() <= 80,
{
    let pb = writer::items_bytes(mux::cue_position_items(c, base));
    let pair = (c.track, (base + c.offset) as u64);
    let g = item_of(demux::cue_step());
    let st = demux::empty_cue();
    let i0 = Seq::<(u64, Seq<u8>)>::empty();
    let i1 = i0.push((ids::CUE_TIME, writer::uint_bytes(c.ticks)));
    let i2 = i1.push((ids::CUE_TRACK_POSITIONS, pb));
    let s1 = demux::CueView { ticks: c.ticks, ..st };
    let s2 = demux::CueView { positions: seq![pair], ..s1 };
    lemma_positions(c, base);
    writer::law_uint_reads_back(c.ticks);
    writer::lemma_element_longer(ids::CUE_TIME, writer::uint_bytes(c.ticks));
    writer::lemma_element_longer(ids::CUE_TRACK_POSITIONS, pb);
    writer::lemma_items_push(i0, ids::CUE_TIME, writer::uint_bytes(c.ticks));
    writer::lemma_items_push(i1, ids::CUE_TRACK_POSITIONS, pb);
    assert(writer::fold(i0, st, g) == Ok::<demux::CueView, Error>(st));
    assert(writer::fold(i1, st, g) == Ok::<demux::CueView, Error>(s1)) by {
        lemma_alone_uint(ids::CUE_TIME, c.ticks);
        writer::lemma_fold_push(i0, ids::CUE_TIME, writer::uint_bytes(c.ticks), st, g);
    }
    assert(writer::fold(i2, st, g) == Ok::<demux::CueView, Error>(s2)) by {
        lemma_alone(ids::CUE_TRACK_POSITIONS, pb);
        writer::lemma_fold_push(i1, ids::CUE_TRACK_POSITIONS, pb, st, g);
        assert(st.positions.push(pair) =~= seq![pair]);
    }
    assert(writer::writable(i2));
    lemma_agree_cue();
    lemma_read(i2, st, demux::cue_step(), s2);
    assert(demux::cue_points_of(
        writer::items_bytes(i2),
        mux::TIMESTAMP_SCALE_NS,
    )->Ok_0 =~= seq![written_cue(c, base)]);
}

/// What a CuePoint alone makes of the index before it.
proof fn lemma_cue_item(pos: int, c: mux::CueView, base: int, st: Seq<demux::CuePoint>)
    requires
        c.ticks * mux::TIMESTAMP_SCALE_NS <= u64::MAX,
    ensures
        item_of(demux::cues_step(mux::TIMESTAMP_SCALE_NS))(
            pos,
            ids::CUE_POINT,
            writer::items_bytes(mux::cue_items(c, base)),
            st,
        ) == Ok::<Seq<demux::CuePoint>, Error>(st + seq![written_cue(c, base)]),
{
    let body = writer::items_bytes(mux::cue_items(c, base));
    lemma_cue_point(c, base);
    writer::lemma_element_longer(ids::CUE_POINT, body);
    lemma_alone(ids::CUE_POINT, body);
}

#[verifier::rlimit(40)]
proof fn lemma_cues_fold(cs: Seq<mux::CueView>, base: int)
    requires
        forall|i: int|
            0 <= i < cs.len() ==> (#[trigger] cs[i]).ticks * mux::TIMESTAMP_SCALE_NS <= u64::MAX,
    ensures
        writer::fold(
            mux::cues_items(cs, base),
            Seq::<demux::CuePoint>::empty(),
            item_of(demux::cues_step(mux::TIMESTAMP_SCALE_NS)),
        ) == Ok::<Seq<demux::CuePoint>, Error>(written_cues(cs, base)),
    decreases cs.len(),
{
    let items = mux::cues_items(cs, base);
    if cs.len() == 0 {
        assert(written_cues(cs, base) =~= Seq::empty());
    } else {
        let prev = cs.drop_last();
        let c = cs.last();
        assert(items.drop_last() =~= mux::cues_items(prev, base));
        assert(forall|i: int| 0 <= i < prev.len() ==> prev[i] == cs[i]);
        lemma_cues_fold(prev, base);
        let body = writer::items_bytes(mux::cue_items(c, base));
        assert(items.last() == (ids::CUE_POINT, body));
        assert(c == cs[cs.len() - 1]);
        lemma_cue_item(
            writer::items_bytes(items.drop_last()).len() as int,
            c,
            base,
            written_cues(prev, base),
        );
        assert(written_cues(cs, base) =~= written_cues(prev, base) + seq![written_cue(c, base)]);
    }
}

/// Reading back Cues gives the index.
pub proof fn law_cues_read_back(cs: Seq<mux::CueView>, base: int)
    requires
        forall|i: int|
            0 <= i < cs.len() ==> (#[trigger] cs[i]).ticks * mux::TIMESTAMP_SCALE_NS <= u64::MAX,
        writer::items_bytes(mux::cues_items(cs, base)).len() <= usize::MAX,
    ensures
        element::walk(
            writer::items_bytes(mux::cues_items(cs, base)),
            0,
            Seq::<demux::CuePoint>::empty(),
            demux::cues_step(mux::TIMESTAMP_SCALE_NS),
        ) == Ok::<Seq<demux::CuePoint>, Error>(written_cues(cs, base)),
{
    let items = mux::cues_items(cs, base);
    lemma_cues_fold(cs, base);
    assert forall|i: int| 0 <= i < items.len() implies writer::is_id((#[trigger] items[i]).0)
        && items[i].1.len() < writer::size_limit() by {
        lemma_cue_point(cs[i], base);
    }
    lemma_agree_cues(mux::TIMESTAMP_SCALE_NS);
    lemma_read(
        items,
        Seq::<demux::CuePoint>::empty(),
        demux::cues_step(mux::TIMESTAMP_SCALE_NS),
        written_cues(cs, base),
    );
}

} // verus!
