//! Where the fields of boxes stand in the bytes that are written.

use crate::bytes;
use crate::isobmff::boxes;
use crate::isobmff::boxes::codec;
use crate::isobmff::boxes::codec::{Audio, Btrt, Dops, Esds, FlacMetadataBlock, Pasp, Visual};
use crate::isobmff::boxes::esds;
use crate::isobmff::boxes::header;
use crate::isobmff::boxes::header::{Elst, Hdlr, Mdhd, Mvhd, Smhd, Tkhd, Trex, Vmhd};
use crate::isobmff::boxes::table;
use crate::isobmff::boxes::table::{Stco, Stsc, Stsz, StszSamples, Stts};
use crate::isobmff::boxes::{Atom, FullBox};
use crate::isobmff::demux::described::means;
use crate::isobmff::parse;
use crate::isobmff::parse::boxed;
use crate::isobmff::parse::boxed::n16;
use crate::isobmff::parse::listed::{n32, n64};
use vstd::prelude::*;

verus! {

proof fn lemma_16(b: Seq<u8>, i: int, v: u16)
    requires
        0 <= i,
        i + 2 <= b.len(),
        b.subrange(i, i + 2) == bytes::be16(v),
    ensures
        n16(b, i) == v,
{
    let s = b.subrange(i, i + 2);
    assert(s[0] == b[i] && s[1] == b[i + 1]);
}

proof fn lemma_32(b: Seq<u8>, i: int, v: u32)
    requires
        0 <= i,
        i + 4 <= b.len(),
        b.subrange(i, i + 4) == bytes::be32(v),
    ensures
        n32(b, i) == v,
{
    let s = b.subrange(i, i + 4);
    assert(s[0] == b[i] && s[1] == b[i + 1] && s[2] == b[i + 2] && s[3] == b[i + 3]);
    bytes::lemma_be32(v);
}

proof fn lemma_64(b: Seq<u8>, i: int, v: u64)
    requires
        0 <= i,
        i + 8 <= b.len(),
        b.subrange(i, i + 8) == bytes::be64(v),
    ensures
        n64(b, i) == v,
{
    let s = b.subrange(i, i + 8);
    let hi = (v / 0x1_0000_0000) as u32;
    let lo = (v % 0x1_0000_0000) as u32;
    bytes::lemma_be32(hi);
    bytes::lemma_be32(lo);
    assert(b.subrange(i, i + 4) =~= s.subrange(0, 4));
    assert(s.subrange(0, 4) =~= bytes::be32(hi));
    assert(b.subrange(i + 4, i + 8) =~= s.subrange(4, 8));
    assert(s.subrange(4, 8) =~= bytes::be32(lo));
    lemma_32(b, i, hi);
    lemma_32(b, i + 4, lo);
}

/// Numbers in a part are numbers in the whole.
proof fn lemma_within(b: Seq<u8>, at: int, x: Seq<u8>, o: int)
    requires
        0 <= at,
        at + x.len() <= b.len(),
        b.subrange(at, at + x.len()) == x,
        0 <= o,
    ensures
        o + 2 <= x.len() ==> n16(b, at + o) == n16(x, o),
        o + 4 <= x.len() ==> n32(b, at + o) == n32(x, o),
        o + 8 <= x.len() ==> n64(b, at + o) == n64(x, o),
{
    assert forall|k: int| 0 <= k < x.len() implies b[at + k] == #[trigger] x[k] by {
        assert(b.subrange(at, at + x.len())[k] == x[k]);
    }
}

/// Entries of one width stand one after the other.
proof fn lemma_entries<T>(s: Seq<T>, f: spec_fn(T) -> Seq<u8>, k: int, j: int)
    requires
        k > 0,
        forall|x: T| (#[trigger] f(x)).len() == k,
        0 <= j <= s.len(),
    ensures
        boxes::run(s, f).len() == k * s.len(),
        j < s.len() ==> k * j + k <= boxes::run(s, f).len() && boxes::run(s, f).subrange(
            k * j,
            k * j + k,
        ) == f(s[j]),
    decreases s.len(),
{
    let r = boxes::run(s, f);
    if s.len() > 0 {
        let p = s.drop_last();
        let n = p.len() as int;
        let q = boxes::run(p, f);
        assert(k * (n + 1) == k * n + k) by (nonlinear_arith);
        if j < n {
            lemma_entries(p, f, k, j);
            assert(p[j] == s[j]);
            assert(k * j >= 0) by (nonlinear_arith)
                requires
                    k > 0,
                    j >= 0,
            ;
            assert(r.subrange(k * j, k * j + k) =~= q.subrange(k * j, k * j + k));
        } else {
            lemma_entries(p, f, k, n);
            assert(f(s.last()).len() == k);
            if j == n {
                assert(s[j] == s.last());
                assert(r.subrange(k * n, k * n + k) =~= f(s.last()));
            }
        }
    } else {
        assert(k * 0 == 0) by (nonlinear_arith);
    }
}

/// A count and then entries of one width.
proof fn lemma_table<T>(s: Seq<T>, f: spec_fn(T) -> Seq<u8>, k: int, j: int, b: Seq<u8>)
    requires
        k > 0,
        forall|x: T| (#[trigger] f(x)).len() == k,
        0 <= j < s.len() <= u32::MAX,
        b == bytes::be32(boxes::count32(s.len())) + boxes::run(s, f),
    ensures
        b.len() == 4 + k * s.len(),
        n32(b, 0) == s.len(),
        0 <= 4 + k * j,
        4 + k * j + k <= b.len(),
        b.subrange(4 + k * j, 4 + k * j + k) == f(s[j]),
{
    let r = boxes::run(s, f);
    let n = s.len() as u32;
    bytes::lemma_be32(n);
    lemma_entries(s, f, k, j);
    assert(b.subrange(0, 4) =~= bytes::be32(n));
    lemma_32(b, 0, n);
    assert(k * j >= 0) by (nonlinear_arith)
        requires
            k > 0,
            j >= 0,
    ;
    assert(b.subrange(4 + k * j, 4 + k * j + k) =~= r.subrange(k * j, k * j + k));
}

/// A table of decode times lists how many samples a run has and how long each of them lasts.
#[verifier::spinoff_prover]
pub proof fn law_times_are_written(t: Stts, j: int)
    requires
        t.entries@.len() <= u32::MAX,
        0 <= j < t.entries@.len(),
    ensures
        ({
            let b = t.full_body()->Ok_0;
            &&& b.len() == 4 + 8 * t.entries@.len()
            &&& n32(b, 0) == t.entries@.len()
            &&& n32(b, 4 + 8 * j) == t.entries@[j].sample_count
            &&& n32(b, 8 + 8 * j) == t.entries@[j].sample_delta
        }),
{
    let b = t.full_body()->Ok_0;
    let f = table::stts_bytes();
    assert forall|x: table::SttsEntry| (#[trigger] f(x)).len() == 8 by {
        lemma_stts_entry(x);
    }
    lemma_table(t.entries@, f, 8, j, b);
    lemma_stts_entry(t.entries@[j]);
    lemma_within(b, 4 + 8 * j, f(t.entries@[j]), 0);
    lemma_within(b, 4 + 8 * j, f(t.entries@[j]), 4);
}

proof fn lemma_stts_entry(e: table::SttsEntry)
    ensures
        ({
            let x = table::stts_bytes()(e);
            &&& x.len() == 8
            &&& n32(x, 0) == e.sample_count
            &&& n32(x, 4) == e.sample_delta
        }),
{
    let x = table::stts_bytes()(e);
    bytes::lemma_be32(e.sample_count);
    bytes::lemma_be32(e.sample_delta);
    assert(x.subrange(0, 4) =~= bytes::be32(e.sample_count));
    assert(x.subrange(4, 8) =~= bytes::be32(e.sample_delta));
    lemma_32(x, 0, e.sample_count);
    lemma_32(x, 4, e.sample_delta);
}

/// A table of chunks lists the first chunk of a run, how many samples each of its chunks
/// has, and how they are coded.
#[verifier::spinoff_prover]
pub proof fn law_chunks_are_written(t: Stsc, j: int)
    requires
        t.entries@.len() <= u32::MAX,
        0 <= j < t.entries@.len(),
    ensures
        ({
            let b = t.full_body()->Ok_0;
            &&& b.len() == 4 + 12 * t.entries@.len()
            &&& n32(b, 0) == t.entries@.len()
            &&& n32(b, 4 + 12 * j) == t.entries@[j].first_chunk
            &&& n32(b, 8 + 12 * j) == t.entries@[j].samples_per_chunk
            &&& n32(b, 12 + 12 * j) == t.entries@[j].sample_description_index
        }),
{
    let b = t.full_body()->Ok_0;
    let f = table::stsc_bytes();
    assert forall|x: table::StscEntry| (#[trigger] f(x)).len() == 12 by {
        lemma_stsc_entry(x);
    }
    lemma_table(t.entries@, f, 12, j, b);
    lemma_stsc_entry(t.entries@[j]);
    lemma_within(b, 4 + 12 * j, f(t.entries@[j]), 0);
    lemma_within(b, 4 + 12 * j, f(t.entries@[j]), 4);
    lemma_within(b, 4 + 12 * j, f(t.entries@[j]), 8);
}

proof fn lemma_stsc_entry(e: table::StscEntry)
    ensures
        ({
            let x = table::stsc_bytes()(e);
            &&& x.len() == 12
            &&& n32(x, 0) == e.first_chunk
            &&& n32(x, 4) == e.samples_per_chunk
            &&& n32(x, 8) == e.sample_description_index
        }),
{
    let x = table::stsc_bytes()(e);
    bytes::lemma_be32(e.first_chunk);
    bytes::lemma_be32(e.samples_per_chunk);
    bytes::lemma_be32(e.sample_description_index);
    assert(x.subrange(0, 4) =~= bytes::be32(e.first_chunk));
    assert(x.subrange(4, 8) =~= bytes::be32(e.samples_per_chunk));
    assert(x.subrange(8, 12) =~= bytes::be32(e.sample_description_index));
    lemma_32(x, 0, e.first_chunk);
    lemma_32(x, 4, e.samples_per_chunk);
    lemma_32(x, 8, e.sample_description_index);
}

proof fn lemma_numbers(s: Seq<u32>, j: int)
    requires
        0 <= j <= s.len(),
    ensures
        boxes::run(s, table::number_bytes()).len() == 4 * s.len(),
        j < s.len() ==> n32(boxes::run(s, table::number_bytes()), 4 * j) == s[j],
{
    let f = table::number_bytes();
    assert forall|x: u32| (#[trigger] f(x)).len() == 4 by {
        bytes::lemma_be32(x);
    }
    lemma_entries(s, f, 4, j);
    if j < s.len() {
        lemma_32(boxes::run(s, f), 4 * j, s[j]);
    }
}

proof fn lemma_behind(a: Seq<u8>, r: Seq<u8>, i: int)
    requires
        0 <= i,
        i + 4 <= r.len(),
    ensures
        n32(a + r, a.len() + i) == n32(r, i),
{
    let b = a + r;
    assert(b[a.len() + i] == r[i] && b[a.len() + i + 1] == r[i + 1] && b[a.len() + i + 2] == r[i
        + 2] && b[a.len() + i + 3] == r[i + 3]);
}

/// A table of chunk offsets lists where each chunk starts.
pub proof fn law_offsets_are_written(t: Stco, j: int)
    requires
        t.entries@.len() <= u32::MAX,
        0 <= j < t.entries@.len(),
    ensures
        ({
            let b = t.full_body()->Ok_0;
            &&& b.len() == 4 + 4 * t.entries@.len()
            &&& n32(b, 0) == t.entries@.len()
            &&& n32(b, 4 + 4 * j) == t.entries@[j]
        }),
{
    let b = t.full_body()->Ok_0;
    let n = t.entries@.len() as u32;
    bytes::lemma_be32(n);
    lemma_numbers(t.entries@, j);
    assert(b.subrange(0, 4) =~= bytes::be32(n));
    lemma_32(b, 0, n);
    lemma_behind(bytes::be32(n), boxes::run(t.entries@, table::number_bytes()), 4 * j);
}

/// A table of sizes gives the one size that all samples have and their number, or a zero,
/// their number and the size of each.
pub proof fn law_sizes_are_written(t: Stsz, j: int)
    requires
        t.samples matches StszSamples::Different { sizes } ==> sizes@.len() <= u32::MAX && 0 <= j
            < sizes@.len(),
    ensures
        ({
            let b = t.full_body()->Ok_0;
            match t.samples {
                StszSamples::Identical { count, size } => b.len() == 8 && n32(b, 0) == size && n32(
                    b,
                    4,
                ) == count,
                StszSamples::Different { sizes } => {
                    &&& b.len() == 8 + 4 * sizes@.len()
                    &&& n32(b, 0) == 0
                    &&& n32(b, 4) == sizes@.len()
                    &&& n32(b, 8 + 4 * j) == sizes@[j]
                },
            }
        }),
{
    let b = t.full_body()->Ok_0;
    match t.samples {
        StszSamples::Identical { count, size } => {
            bytes::lemma_be32(count);
            bytes::lemma_be32(size);
            assert(b.subrange(0, 4) =~= bytes::be32(size));
            assert(b.subrange(4, 8) =~= bytes::be32(count));
            lemma_32(b, 0, size);
            lemma_32(b, 4, count);
        },
        StszSamples::Different { sizes } => {
            let n = sizes@.len() as u32;
            bytes::lemma_be32(n);
            bytes::lemma_be32(0);
            lemma_numbers(sizes@, j);
            assert(b.subrange(0, 4) =~= bytes::be32(0));
            assert(b.subrange(4, 8) =~= bytes::be32(n));
            lemma_32(b, 0, 0);
            lemma_32(b, 4, n);
            lemma_behind(
                bytes::be32(0) + bytes::be32(n),
                boxes::run(sizes@, table::number_bytes()),
                4 * j,
            );
        },
    }
}

/// An edit list gives for each edit how long it lasts, where in the media it starts, and how
/// fast it plays.
#[verifier::spinoff_prover]
pub proof fn law_edits_are_written(t: Elst, j: int)
    requires
        t.entries@.len() <= u32::MAX,
        0 <= j < t.entries@.len(),
    ensures
        ({
            let b = t.full_body()->Ok_0;
            &&& t.version_of() == 1
            &&& b.len() == 4 + 20 * t.entries@.len()
            &&& n32(b, 0) == t.entries@.len()
            &&& n64(b, 4 + 20 * j) == t.entries@[j].segment_duration
            &&& n64(b, 12 + 20 * j) == t.entries@[j].media_time
            &&& n16(b, 20 + 20 * j) == t.entries@[j].media_rate
            &&& n16(b, 22 + 20 * j) == t.entries@[j].media_rate_fraction
        }),
{
    let b = t.full_body()->Ok_0;
    let f = header::edit_bytes();
    assert forall|x: header::ElstEntry| (#[trigger] f(x)).len() == 20 by {
        lemma_elst_entry(x);
    }
    lemma_table(t.entries@, f, 20, j, b);
    lemma_elst_entry(t.entries@[j]);
    lemma_within(b, 4 + 20 * j, f(t.entries@[j]), 0);
    lemma_within(b, 4 + 20 * j, f(t.entries@[j]), 8);
    lemma_within(b, 4 + 20 * j, f(t.entries@[j]), 16);
    lemma_within(b, 4 + 20 * j, f(t.entries@[j]), 18);
}

proof fn lemma_elst_entry(e: header::ElstEntry)
    ensures
        ({
            let x = header::edit_bytes()(e);
            &&& x.len() == 20
            &&& n64(x, 0) == e.segment_duration
            &&& n64(x, 8) == e.media_time
            &&& n16(x, 16) == e.media_rate
            &&& n16(x, 18) == e.media_rate_fraction
        }),
{
    let x = header::edit_bytes()(e);
    bytes::lemma_be64(e.segment_duration);
    bytes::lemma_be64(e.media_time);
    assert(x.subrange(0, 8) =~= bytes::be64(e.segment_duration));
    assert(x.subrange(8, 16) =~= bytes::be64(e.media_time));
    assert(x.subrange(16, 18) =~= bytes::be16(e.media_rate));
    assert(x.subrange(18, 20) =~= bytes::be16(e.media_rate_fraction));
    lemma_64(x, 0, e.segment_duration);
    lemma_64(x, 8, e.media_time);
    lemma_16(x, 16, e.media_rate);
    lemma_16(x, 18, e.media_rate_fraction);
}

/// The defaults of a track: its number, how its samples are coded, how long they last, how
/// large they are and their flags.
pub proof fn law_defaults_are_written(t: Trex)
    ensures
        ({
            let b = t.full_body()->Ok_0;
            &&& b.len() == 20
            &&& n32(b, 0) == t.track_id
            &&& n32(b, 4) == t.default_sample_description_index
            &&& n32(b, 8) == t.default_sample_duration
            &&& n32(b, 12) == t.default_sample_size
            &&& n32(b, 16) == t.default_sample_flags
        }),
{
    let b = t.full_body()->Ok_0;
    bytes::lemma_be32(t.track_id);
    bytes::lemma_be32(t.default_sample_description_index);
    bytes::lemma_be32(t.default_sample_duration);
    bytes::lemma_be32(t.default_sample_size);
    bytes::lemma_be32(t.default_sample_flags);
    assert(b.subrange(0, 4) =~= bytes::be32(t.track_id));
    assert(b.subrange(4, 8) =~= bytes::be32(t.default_sample_description_index));
    assert(b.subrange(8, 12) =~= bytes::be32(t.default_sample_duration));
    assert(b.subrange(12, 16) =~= bytes::be32(t.default_sample_size));
    assert(b.subrange(16, 20) =~= bytes::be32(t.default_sample_flags));
    lemma_32(b, 0, t.track_id);
    lemma_32(b, 4, t.default_sample_description_index);
    lemma_32(b, 8, t.default_sample_duration);
    lemma_32(b, 12, t.default_sample_size);
    lemma_32(b, 16, t.default_sample_flags);
}

/// The shape of a pixel is its width and then its height; the rates of a stream are the size
/// of its buffer, the largest rate and the mean one.
pub proof fn law_shape_and_rates_are_written(p: Pasp, r: Btrt)
    ensures
        p.body() matches Ok(b) && b.len() == 8 && n32(b, 0) == p.h_spacing && n32(b, 4)
            == p.v_spacing,
        r.body() matches Ok(b) && b.len() == 12 && n32(b, 0) == r.buffer_size_db && n32(b, 4)
            == r.max_bitrate && n32(b, 8) == r.avg_bitrate,
{
    let b = p.body()->Ok_0;
    bytes::lemma_be32(p.h_spacing);
    bytes::lemma_be32(p.v_spacing);
    assert(b.subrange(0, 4) =~= bytes::be32(p.h_spacing));
    assert(b.subrange(4, 8) =~= bytes::be32(p.v_spacing));
    lemma_32(b, 0, p.h_spacing);
    lemma_32(b, 4, p.v_spacing);
    let c = r.body()->Ok_0;
    bytes::lemma_be32(r.buffer_size_db);
    bytes::lemma_be32(r.max_bitrate);
    bytes::lemma_be32(r.avg_bitrate);
    assert(c.subrange(0, 4) =~= bytes::be32(r.buffer_size_db));
    assert(c.subrange(4, 8) =~= bytes::be32(r.max_bitrate));
    assert(c.subrange(8, 12) =~= bytes::be32(r.avg_bitrate));
    lemma_32(c, 0, r.buffer_size_db);
    lemma_32(c, 4, r.max_bitrate);
    lemma_32(c, 8, r.avg_bitrate);
}

/// The fixed fields of an audio sample entry.
pub proof fn law_audio_fields_are_written(a: Audio)
    ensures
        ({
            let b = a.bytes();
            &&& b.len() == 28
            &&& n16(b, 6) == a.data_reference_index
            &&& n16(b, 16) == a.channel_count
            &&& n16(b, 18) == a.sample_size
            &&& n16(b, 24) == a.sample_rate.whole
            &&& n16(b, 26) == a.sample_rate.fraction
        }),
{
    let b = a.bytes();
    assert(b.subrange(6, 8) =~= bytes::be16(a.data_reference_index));
    assert(b.subrange(16, 18) =~= bytes::be16(a.channel_count));
    assert(b.subrange(18, 20) =~= bytes::be16(a.sample_size));
    assert(b.subrange(24, 26) =~= bytes::be16(a.sample_rate.whole));
    assert(b.subrange(26, 28) =~= bytes::be16(a.sample_rate.fraction));
    lemma_16(b, 6, a.data_reference_index);
    lemma_16(b, 16, a.channel_count);
    lemma_16(b, 18, a.sample_size);
    lemma_16(b, 24, a.sample_rate.whole);
    lemma_16(b, 26, a.sample_rate.fraction);
}

/// The fixed fields of a video sample entry: the picture has the given size, 72 pixels to
/// an inch both ways, one frame to a sample and 24 bits of colour.
pub proof fn law_video_fields_are_written(v: Visual)
    ensures
        ({
            let b = v.bytes();
            &&& b.len() == 78
            &&& n16(b, 6) == v.data_reference_index
            &&& n16(b, 24) == v.width
            &&& n16(b, 26) == v.height
            &&& n32(b, 28) == 72 * 0x1_0000
            &&& n32(b, 32) == 72 * 0x1_0000
            &&& n16(b, 40) == 1
            &&& n16(b, 74) == 24
        }),
{
    let b = v.bytes();
    bytes::lemma_be32(0x0048_0000);
    bytes::lemma_be32(0);
    assert(b.len() == 78);
    assert(b.subrange(6, 8) =~= bytes::be16(v.data_reference_index));
    assert(b.subrange(24, 26) =~= bytes::be16(v.width));
    assert(b.subrange(26, 28) =~= bytes::be16(v.height));
    assert(b.subrange(28, 32) =~= bytes::be32(0x0048_0000));
    assert(b.subrange(32, 36) =~= bytes::be32(0x0048_0000));
    assert(b.subrange(40, 42) =~= bytes::be16(1));
    assert(b.subrange(74, 76) =~= bytes::be16(0x0018));
    lemma_16(b, 6, v.data_reference_index);
    lemma_16(b, 24, v.width);
    lemma_16(b, 26, v.height);
    lemma_32(b, 28, 0x0048_0000);
    lemma_32(b, 32, 0x0048_0000);
    lemma_16(b, 40, 1);
    lemma_16(b, 74, 0x0018);
}

/// The configuration of an Opus decoder: a version of zero, its channels, what is skipped at
/// the start, the sample rate of its input, its gain and the default order of channels.
pub proof fn law_opus_is_written(d: Dops)
    ensures
        d.body() matches Ok(b) && {
            &&& b.len() == 11
            &&& b[0] == 0
            &&& b[1] == d.output_channel_count
            &&& n16(b, 2) == d.pre_skip
            &&& n32(b, 4) == d.input_sample_rate
            &&& n16(b, 8) == if d.output_gain < 0 {
                d.output_gain + 0x1_0000
            } else {
                d.output_gain as int
            }
            &&& b[10] == 0
        },
{
    let b = d.body()->Ok_0;
    let g = d.output_gain;
    bytes::lemma_be32(d.input_sample_rate);
    assert(b.subrange(2, 4) =~= bytes::be16(d.pre_skip));
    assert(b.subrange(4, 8) =~= bytes::be32(d.input_sample_rate));
    assert(b.subrange(8, 10) =~= bytes::be16(g as u16));
    lemma_16(b, 2, d.pre_skip);
    lemma_32(b, 4, d.input_sample_rate);
    lemma_16(b, 8, g as u16);
    assert(g < 0 ==> (g as u16) == g + 0x1_0000) by (bit_vector);
    assert(g >= 0 ==> (g as u16) == g) by (bit_vector);
}

/// The descriptors of an AAC stream in its short form are read as its object type and two
/// bytes: five bits of profile, four of frequency and four of channels.
#[verifier::spinoff_prover]
pub proof fn law_stream_is_described(e: Esds)
    requires
        e.es_desc.dec_config.dec_specific.profile < 32,
        e.es_desc.dec_config.dec_specific.freq_index < 16,
        e.es_desc.dec_config.dec_specific.chan_conf < 16,
    ensures
        ({
            let d = e.es_desc.dec_config;
            let s = d.dec_specific;
            let b = seq![0u8, 0, 0, 0] + e.full_body()->Ok_0;
            &&& n16(b, 9) == e.es_desc.es_id
            &&& parse::esds_of(b) matches Ok((kind, config)) && {
                &&& kind == d.object_type_indication
                &&& config.len() == 2
                &&& config[0] * 0x100 + config[1] == s.profile * 0x800 + s.freq_index * 0x80
                    + s.chan_conf * 8
            }
        }),
{
    let d = e.es_desc.dec_config;
    lemma_decoder(d);
    lemma_specific(d.dec_specific);
    lemma_stream(
        e.es_desc.es_id,
        d.body(),
        esds::descriptor(esds::SL_CONFIG_TAG, e.es_desc.sl_config.body()),
    );
}

proof fn lemma_specific(s: esds::DecoderSpecific)
    requires
        s.profile < 32,
        s.freq_index < 16,
        s.chan_conf < 16,
    ensures
        ({
            let b = s.body();
            &&& b.len() == 2
            &&& b[0] * 0x100 + b[1] == s.profile * 0x800 + s.freq_index * 0x80 + s.chan_conf * 8
        }),
{
}

/// A stream's descriptor with that of its decoder in it.
#[verifier::spinoff_prover]
proof fn lemma_stream(id: u16, inner: Seq<u8>, tail: Seq<u8>)
    requires
        inner.len() == 20,
        inner[13] == 0x05,
        inner[14] == 0x80,
        inner[15] == 0x80,
        inner[16] == 0x80,
        inner[17] == 2,
    ensures
        ({
            let b = seq![0u8, 0, 0, 0] + esds::descriptor(
                0x03,
                bytes::be16(id) + seq![0u8] + esds::descriptor(0x04, inner) + tail,
            );
            &&& n16(b, 9) == id
            &&& parse::esds_of(b) == Ok::<(u8, Seq<u8>), Seq<char>>(
                (inner[0], inner.subrange(18, 20)),
            )
        }),
{
    let b = seq![0u8, 0, 0, 0] + esds::descriptor(
        0x03,
        bytes::be16(id) + seq![0u8] + esds::descriptor(0x04, inner) + tail,
    );
    assert(b.subrange(9, 11) =~= bytes::be16(id));
    lemma_16(b, 9, id);
    assert(b[4] == 0x03 && b[5] == 0x80 && b[6] == 0x80 && b[7] == 0x80 && b[8] < 128);
    assert(b[11] == 0 && b[12] == 0x04);
    assert(b[13] == 0x80 && b[14] == 0x80 && b[15] == 0x80 && b[16] < 128);
    assert(b.subrange(17, 37) =~= inner);
    assert forall|k: int| 0 <= k < 20 implies b[17 + k] == #[trigger] inner[k] by {
        assert(b.subrange(17, 37)[k] == inner[k]);
    }
    assert(b[17] == inner[0] && b[30] == inner[13] && b[31] == inner[14] && b[32] == inner[15]
        && b[33] == inner[16] && b[34] == inner[17]);
    let config = inner.subrange(18, 20);
    assert(b.subrange(35, 37) =~= config);
    reveal_with_fuel(boxed::digits, 5);
    assert(boxed::digits(b, 31, 4) == 2);
    assert(boxed::describes(b, 4, 4, 4, inner[0], config));
    boxed::law_descriptors_are_read(b, 4, 4, 4, inner[0], config);
}

proof fn lemma_decoder(d: esds::DecoderConfig)
    ensures
        ({
            let b = d.body();
            &&& b.len() == 20
            &&& b[0] == d.object_type_indication
            &&& b[13] == 0x05
            &&& b[14] == 0x80
            &&& b[15] == 0x80
            &&& b[16] == 0x80
            &&& b[17] == 2
            &&& b.subrange(18, 20) == d.dec_specific.body()
        }),
{
    let b = d.body();
    bytes::lemma_be32(d.max_bitrate);
    bytes::lemma_be32(d.avg_bitrate);
    assert(b.subrange(18, 20) =~= d.dec_specific.body());
}

/// Where the fields behind the two times at the start of a header are, and how wide times
/// are.
pub open spec fn width_of(creation: u64, modification: u64, duration: u64) -> int {
    if creation <= u32::MAX && modification <= u32::MAX && duration <= u32::MAX {
        4
    } else {
        8
    }
}

/// The time of a width at `i`.
pub open spec fn time_at(b: Seq<u8>, i: int, w: int) -> int {
    if w == 4 {
        n32(b, i)
    } else {
        n64(b, i)
    }
}

proof fn lemma_time(b: Seq<u8>, i: int, w: int, t: u64)
    requires
        0 <= i,
        w == 4 || w == 8,
        i + w <= b.len(),
        w == 4 ==> t <= u32::MAX,
        b.subrange(i, i + w) == header::time_bytes(w == 4, t),
    ensures
        time_at(b, i, w) == t,
{
    if w == 4 {
        lemma_32(b, i, t as u32);
    } else {
        lemma_64(b, i, t);
    }
}

proof fn lemma_time_len(w: int, t: u64)
    requires
        w == 4 || w == 8,
    ensures
        header::time_bytes(w == 4, t).len() == w,
{
    bytes::lemma_be32(t as u32);
    bytes::lemma_be64(t);
}

/// A media header says when the media was made and changed, how many ticks a second has, how
/// many it takes and its language, in 32 bits where all times fit.
#[verifier::spinoff_prover]
pub proof fn law_media_header_is_written(h: Mdhd)
    ensures
        ({
            let b = h.full_body()->Ok_0;
            let w = width_of(h.creation_time, h.modification_time, h.duration);
            &&& h.version_of() == (if w == 4 {
                0
            } else {
                1int
            })
            &&& time_at(b, 0, w) == h.creation_time
            &&& time_at(b, w, w) == h.modification_time
            &&& n32(b, 2 * w) == h.timescale
            &&& time_at(b, 2 * w + 4, w) == h.duration
            &&& n16(b, 3 * w + 4) == header::language_of(h.language@)
        }),
{
    let b = h.full_body()->Ok_0;
    let w = width_of(h.creation_time, h.modification_time, h.duration);
    lemma_time_len(w, h.creation_time);
    lemma_time_len(w, h.modification_time);
    lemma_time_len(w, h.duration);
    bytes::lemma_be32(h.timescale);
    assert(b.subrange(0, w) =~= header::time_bytes(w == 4, h.creation_time));
    assert(b.subrange(w, 2 * w) =~= header::time_bytes(w == 4, h.modification_time));
    assert(b.subrange(2 * w, 2 * w + 4) =~= bytes::be32(h.timescale));
    assert(b.subrange(2 * w + 4, 3 * w + 4) =~= header::time_bytes(w == 4, h.duration));
    assert(b.subrange(3 * w + 4, 3 * w + 6) =~= bytes::be16(header::language_of(h.language@)));
    lemma_time(b, 0, w, h.creation_time);
    lemma_time(b, w, w, h.modification_time);
    lemma_32(b, 2 * w, h.timescale);
    lemma_time(b, 2 * w + 4, w, h.duration);
    lemma_16(b, 3 * w + 4, header::language_of(h.language@));
}

/// A movie header says when the movie was made and changed, how many ticks a second has, how
/// many it takes, how fast and how loud it plays, and which track comes next.
#[verifier::spinoff_prover]
pub proof fn law_movie_header_is_written(h: Mvhd)
    ensures
        ({
            let b = h.full_body()->Ok_0;
            let w = width_of(h.creation_time, h.modification_time, h.duration);
            &&& h.version_of() == (if w == 4 {
                0
            } else {
                1int
            })
            &&& b.len() == 3 * w + 84
            &&& time_at(b, 0, w) == h.creation_time
            &&& time_at(b, w, w) == h.modification_time
            &&& n32(b, 2 * w) == h.timescale
            &&& time_at(b, 2 * w + 4, w) == h.duration
            &&& n16(b, 3 * w + 4) == h.rate.whole
            &&& n16(b, 3 * w + 6) == h.rate.fraction
            &&& b[3 * w + 8] == h.volume.whole
            &&& b[3 * w + 9] == h.volume.fraction
            &&& n32(b, 3 * w + 80) == h.next_track_id
        }),
{
    let b = h.full_body()->Ok_0;
    let w = width_of(h.creation_time, h.modification_time, h.duration);
    lemma_time_len(w, h.creation_time);
    lemma_time_len(w, h.modification_time);
    lemma_time_len(w, h.duration);
    lemma_matrix(h.matrix);
    bytes::lemma_be32(h.timescale);
    bytes::lemma_be32(h.next_track_id);
    assert(b.subrange(0, w) =~= header::time_bytes(w == 4, h.creation_time));
    assert(b.subrange(w, 2 * w) =~= header::time_bytes(w == 4, h.modification_time));
    assert(b.subrange(2 * w, 2 * w + 4) =~= bytes::be32(h.timescale));
    assert(b.subrange(2 * w + 4, 3 * w + 4) =~= header::time_bytes(w == 4, h.duration));
    assert(b.subrange(3 * w + 4, 3 * w + 6) =~= bytes::be16(h.rate.whole));
    assert(b.subrange(3 * w + 6, 3 * w + 8) =~= bytes::be16(h.rate.fraction));
    assert(b.subrange(3 * w + 80, 3 * w + 84) =~= bytes::be32(h.next_track_id));
    lemma_time(b, 0, w, h.creation_time);
    lemma_time(b, w, w, h.modification_time);
    lemma_32(b, 2 * w, h.timescale);
    lemma_time(b, 2 * w + 4, w, h.duration);
    lemma_16(b, 3 * w + 4, h.rate.whole);
    lemma_16(b, 3 * w + 6, h.rate.fraction);
    lemma_32(b, 3 * w + 80, h.next_track_id);
}

proof fn lemma_matrix(m: header::Matrix)
    ensures
        header::matrix_bytes(m).len() == 36,
{
    bytes::lemma_be32(m.a as u32);
    bytes::lemma_be32(m.b as u32);
    bytes::lemma_be32(m.u as u32);
    bytes::lemma_be32(m.c as u32);
    bytes::lemma_be32(m.d as u32);
    bytes::lemma_be32(m.v as u32);
    bytes::lemma_be32(m.x as u32);
    bytes::lemma_be32(m.y as u32);
    bytes::lemma_be32(m.w as u32);
}

/// A track header says when the track was made and changed, its number, how long it takes,
/// its layer, its group, its volume and how large it is shown.
#[verifier::spinoff_prover]
#[verifier::rlimit(40)]
pub proof fn law_track_header_is_written(h: Tkhd)
    ensures
        ({
            let b = h.full_body()->Ok_0;
            let w = width_of(h.creation_time, h.modification_time, h.duration);
            &&& h.version_of() == (if w == 4 {
                0
            } else {
                1int
            })
            &&& h.flags_of() == 3
            &&& b.len() == 3 * w + 68
            &&& time_at(b, 0, w) == h.creation_time
            &&& time_at(b, w, w) == h.modification_time
            &&& n32(b, 2 * w) == h.track_id
            &&& time_at(b, 2 * w + 8, w) == h.duration
            &&& n16(b, 3 * w + 16) == h.layer
            &&& n16(b, 3 * w + 18) == h.alternate_group
            &&& b[3 * w + 20] == h.volume.whole
            &&& b[3 * w + 21] == h.volume.fraction
            &&& n16(b, 3 * w + 60) == h.width.whole
            &&& n16(b, 3 * w + 62) == h.width.fraction
            &&& n16(b, 3 * w + 64) == h.height.whole
            &&& n16(b, 3 * w + 66) == h.height.fraction
        }),
{
    let b = h.full_body()->Ok_0;
    let w = width_of(h.creation_time, h.modification_time, h.duration);
    lemma_time_len(w, h.creation_time);
    lemma_time_len(w, h.modification_time);
    lemma_time_len(w, h.duration);
    lemma_matrix(h.matrix);
    bytes::lemma_be32(h.track_id);
    assert(b.subrange(0, w) =~= header::time_bytes(w == 4, h.creation_time));
    assert(b.subrange(w, 2 * w) =~= header::time_bytes(w == 4, h.modification_time));
    assert(b.subrange(2 * w, 2 * w + 4) =~= bytes::be32(h.track_id));
    assert(b.subrange(2 * w + 8, 3 * w + 8) =~= header::time_bytes(w == 4, h.duration));
    assert(b.subrange(3 * w + 16, 3 * w + 18) =~= bytes::be16(h.layer));
    assert(b.subrange(3 * w + 18, 3 * w + 20) =~= bytes::be16(h.alternate_group));
    assert(b.subrange(3 * w + 60, 3 * w + 62) =~= bytes::be16(h.width.whole));
    assert(b.subrange(3 * w + 62, 3 * w + 64) =~= bytes::be16(h.width.fraction));
    assert(b.subrange(3 * w + 64, 3 * w + 66) =~= bytes::be16(h.height.whole));
    assert(b.subrange(3 * w + 66, 3 * w + 68) =~= bytes::be16(h.height.fraction));
    lemma_time(b, 0, w, h.creation_time);
    lemma_time(b, w, w, h.modification_time);
    lemma_32(b, 2 * w, h.track_id);
    lemma_time(b, 2 * w + 8, w, h.duration);
    lemma_16(b, 3 * w + 16, h.layer);
    lemma_16(b, 3 * w + 18, h.alternate_group);
    lemma_16(b, 3 * w + 60, h.width.whole);
    lemma_16(b, 3 * w + 62, h.width.fraction);
    lemma_16(b, 3 * w + 64, h.height.whole);
    lemma_16(b, 3 * w + 66, h.height.fraction);
}

/// A language of three small letters is written so that it reads back.
pub proof fn law_language_is_written(l: Seq<char>)
    requires
        l.len() == 3,
        forall|i: int| 0 <= i < 3 ==> 'a' <= #[trigger] l[i] <= 'z',
    ensures
        means(header::language_of(l) as int, Some(l)),
{
    reveal_with_fuel(header::units_of, 4);
    let a = l[0];
    let b = l[1];
    let c = l[2];
    assert(l.skip(1)[0] == b);
    assert(l.skip(1).skip(1)[0] == c);
    assert(l.skip(1).skip(1).skip(1) =~= Seq::empty());
    let u = header::units_of(l);
    assert(u =~= seq![a as u16, b as u16, c as u16]);
    assert(header::letter(u, 0) == a as int - 0x60);
    assert(header::letter(u, 1) == b as int - 0x60);
    assert(header::letter(u, 2) == c as int - 0x60);
}

/// A handler says what a track carries; the headers of sound and picture say where the sound
/// stands and how the picture is laid over others.
pub proof fn law_media_kinds_are_written(h: Hdlr, s: Smhd, v: Vmhd)
    ensures
        h.full_body() matches Ok(b) && b.len() >= 21 && b.subrange(4, 8) == h.handler.0@
            && b.subrange(20, b.len() - 1) == vstd::utf8::encode_utf8(h.name@) && b.last() == 0,
        s.full_body() matches Ok(b) && b.len() == 4 && b[0] == (if s.balance.whole < 0 {
            s.balance.whole + 0x100
        } else {
            s.balance.whole as int
        }),
        v.full_body() matches Ok(b) && b.len() == 8 && n16(b, 0) == v.graphicsmode && n16(b, 2)
            == v.opcolor[0] && n16(b, 4) == v.opcolor[1] && n16(b, 6) == v.opcolor[2],
{
    let b = h.full_body()->Ok_0;
    assert(b.subrange(4, 8) =~= h.handler.0@);
    assert(b.subrange(20, b.len() - 1) =~= vstd::utf8::encode_utf8(h.name@));
    let x = s.balance.whole;
    assert(x < 0 ==> (x as u8) == x + 0x100) by (bit_vector);
    assert(x >= 0 ==> (x as u8) == x) by (bit_vector);
    let c = v.full_body()->Ok_0;
    assert(c.subrange(0, 2) =~= bytes::be16(v.graphicsmode));
    assert(c.subrange(2, 4) =~= bytes::be16(v.opcolor[0]));
    assert(c.subrange(4, 6) =~= bytes::be16(v.opcolor[1]));
    assert(c.subrange(6, 8) =~= bytes::be16(v.opcolor[2]));
    lemma_16(c, 0, v.graphicsmode);
    lemma_16(c, 2, v.opcolor[0]);
    lemma_16(c, 4, v.opcolor[1]);
    lemma_16(c, 6, v.opcolor[2]);
}

proof fn lemma_word(rate: u32, channels: u8, width: u8, samples: u64)
    requires
        rate < 0x10_0000,
        channels < 8,
        width < 32,
        samples < 0x10_0000_0000,
    ensures
        codec::stream_word(rate, channels, width, samples) == rate * 0x1000_0000_0000 + channels
            * 0x200_0000_0000 + width * 0x10_0000_0000 + samples,
{
    assert((((rate as u64) << 44u64) | ((channels as u64) << 41u64) | ((width as u64) << 36u64)
        | samples) == (rate as u64) * 0x1000_0000_0000u64 + (channels as u64) * 0x200_0000_0000u64
        + (width as u64) * 0x10_0000_0000u64 + samples) by (bit_vector)
        requires
            rate < 0x10_0000,
            channels < 8,
            width < 32,
            samples < 0x10_0000_0000,
    ;
}

/// A block of FLAC metadata says whether it is the last, its kind and its length. That of the
/// stream gives the smallest and the largest block and frame, 20 bits of sample rate, three
/// of channels, five of width, 36 of samples, and a checksum.
#[verifier::spinoff_prover]
pub proof fn law_flac_stream_is_written(
    block: FlacMetadataBlock,
    min_block: u16,
    max_block: u16,
    rate: u32,
    channels: u8,
    width: u8,
    samples: u64,
    is_last: bool,
)
    requires
        block matches FlacMetadataBlock::StreamInfo {
            minimum_block_size,
            maximum_block_size,
            minimum_frame_size,
            maximum_frame_size,
            sample_rate,
            num_channels_minus_one,
            bits_per_sample_minus_one,
            number_of_interchannel_samples,
            md5_checksum,
        } && minimum_block_size == min_block && maximum_block_size == max_block && sample_rate
            == rate && num_channels_minus_one == channels && bits_per_sample_minus_one == width
            && number_of_interchannel_samples == samples && md5_checksum@.len() == 16,
        rate < 0x10_0000,
        channels < 8,
        width < 32,
        samples < 0x10_0000_0000,
    ensures
        block.block_wire(is_last) matches Ok(b) && {
            &&& b.len() == 38
            &&& b[0] == if is_last {
                0x80int
            } else {
                0
            }
            &&& b[1] == 0
            &&& n16(b, 2) == 34
            &&& n16(b, 4) == min_block
            &&& n16(b, 6) == max_block
            &&& n64(b, 14) == rate * 0x1000_0000_0000 + channels * 0x200_0000_0000 + width
                * 0x10_0000_0000 + samples
        },
{
    let b = block.block_wire(is_last)->Ok_0;
    let w = codec::stream_word(rate, channels, width, samples);
    lemma_word(rate, channels, width, samples);
    bytes::lemma_be64(w);
    let body = block.block_body()->Ok_0;
    assert(body.len() == 34);
    assert(b.subrange(4, 6) =~= bytes::be16(min_block));
    assert(b.subrange(6, 8) =~= bytes::be16(max_block));
    assert(b.subrange(14, 22) =~= bytes::be64(w));
    lemma_16(b, 4, min_block);
    lemma_16(b, 6, max_block);
    lemma_64(b, 14, w);
}

} // verus!
