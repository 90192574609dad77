//! Movie fragments.
//!
//! A fragment is a `moof` and the `mdat` with the samples that it lists. Where they are
//! is told by an offset from the start of the `moof`, so its length has to be known
//! before it can be written: it is encoded twice.

use crate::bytes;
use crate::isobmff::boxes;
use crate::isobmff::boxes::fragment;
use crate::isobmff::boxes::{
    kinds, Atom, Encode, FourCC, FullBox, Mdat, Mfhd, Moof, Styp, Tfdt, Tfhd, Traf, Trun, TrunEntry,
    Wire,
};
use crate::isobmff::error;
use crate::isobmff::IsobmffResult;
use vstd::prelude::*;

verus! {

/// The low 32 bits of a length, as a signed number.
pub open spec fn low_i32(n: nat) -> i32 {
    fragment::signed32((n % 0x1_0000_0000) as u32)
}

fn low32(n: usize) -> (r: i32)
    ensures
        r == low_i32(n as nat),
{
    let m: i64 = (n as u64 % 0x1_0000_0000) as i64;
    if m < 0x8000_0000 {
        m as i32
    } else {
        (m - 0x1_0000_0000) as i32
    }
}

/// A call that had to append `w` has done so, or has failed and appended nothing.
pub open spec fn appended(w: Wire, before: Seq<u8>, after: Seq<u8>, r: IsobmffResult<()>) -> bool {
    match w {
        Ok(b) => r is Ok && after == before + b,
        Err(m) => error::malformed(r, m) && after == before,
    }
}

/// The `styp` of a segment.
pub open spec fn segment_brands() -> Wire {
    boxes::boxed(
        kinds::STYP@,
        Ok(
            fragment::brands_body(
                FourCC(kinds::MSDH),
                0,
                seq![FourCC(kinds::MSDH), FourCC(kinds::MSIX)],
            ),
        ),
    )
}

/// The header of a track fragment.
pub open spec fn track_head(track_id: u32, duration: u32) -> Tfhd {
    Tfhd {
        track_id,
        base_data_offset: None,
        sample_description_index: Some(1),
        default_sample_duration: Some(duration),
        default_sample_size: None,
        default_sample_flags: None,
    }
}

/// A run of samples whose data is at an offset.
#[verifier::opaque]
pub open spec fn run_wire(entries: Seq<TrunEntry>, offset: i32) -> Wire {
    let c = fragment::carried(entries);
    boxes::full_boxed(
        kinds::TRUN@,
        if fragment::any_negative(entries) {
            1
        } else {
            0
        },
        (1 + fragment::flag(c.duration, 0x100) + fragment::flag(c.size, 0x200) + fragment::flag(
            c.flags,
            0x400,
        ) + fragment::flag(c.cts, 0x800)) as u32,
        Ok(
            bytes::be32(boxes::count32(entries.len())) + bytes::be32(fragment::bits32(offset))
                + boxes::run(entries, fragment::entry_bytes(c)),
        ),
    )
}

/// A track fragment with one run.
#[verifier::opaque]
pub open spec fn traf_wire(
    track_id: u32,
    duration: u32,
    time: u64,
    entries: Seq<TrunEntry>,
    offset: i32,
) -> Wire {
    boxes::boxed(
        kinds::TRAF@,
        boxes::joined(
            boxes::joined(
                track_head(track_id, duration).wire(),
                (Tfdt { base_media_decode_time: time }).wire(),
            ),
            run_wire(entries, offset),
        ),
    )
}

/// A movie fragment with these track fragments.
pub open spec fn moof_wire(sequence: u32, trafs: Wire) -> Wire {
    boxes::boxed(
        kinds::MOOF@,
        boxes::joined((Mfhd { sequence_number: sequence }).wire(), trafs),
    )
}

/// A box with media data.
pub open spec fn data_wire(data: Seq<u8>) -> Wire {
    boxes::boxed(kinds::MDAT@, Ok(data))
}

/// A copy of a list of entries.
fn copy_entries(v: &Vec<TrunEntry>) -> (r: Vec<TrunEntry>)
    ensures
        r@ == v@,
{
    let mut out: Vec<TrunEntry> = Vec::new();
    let mut i: usize = 0;
    while i < v.len()
        invariant
            i <= v@.len(),
            out@ == v@.take(i as int),
        decreases v@.len() - i,
    {
        let e: &TrunEntry = &v[i];
        out.push(
            TrunEntry { duration: e.duration, size: e.size, flags: e.flags, cts: e.cts },
        );
        assert(v@.take(i + 1) =~= v@.take(i as int).push(v@[i as int]));
        i = i + 1;
    }
    assert(v@.take(i as int) =~= v@);
    out
}

/// One box alone.
pub(crate) proof fn lemma_one<T: Encode>(s: Seq<T>)
    requires
        s.len() == 1,
    ensures
        boxes::all_wire(s) == s[0].wire(),
{
    reveal_with_fuel(boxes::all_wire, 2);
    assert(s.drop_last() =~= Seq::empty());
    if s[0].wire() is Ok {
        assert(Seq::<u8>::empty() + s[0].wire()->Ok_0 =~= s[0].wire()->Ok_0);
    }
}

/// Two boxes.
pub(crate) proof fn lemma_two<T: Encode>(s: Seq<T>)
    requires
        s.len() == 2,
    ensures
        boxes::all_wire(s) == boxes::joined(s[0].wire(), s[1].wire()),
{
    assert(s.drop_last()[0] == s[0]);
    lemma_one(s.drop_last());
}

proof fn lemma_run_wire(t: Trun, offset: i32)
    requires
        t.data_offset == Some(offset),
    ensures
        t.wire() == run_wire(t.entries@, offset),
{
    reveal(run_wire);
    reveal(fragment::opt32);
}

/// Builds a track fragment.
fn build_traf(track_id: u32, duration: u32, time: u64, entries: Vec<TrunEntry>, offset: i32) -> (r:
    Traf)
    ensures
        r.wire() == traf_wire(track_id, duration, time, entries@, offset),
{
    let mut runs: Vec<Trun> = Vec::new();
    runs.push(Trun { data_offset: Some(offset), entries });
    let r = Traf {
        tfhd: Tfhd {
            track_id,
            base_data_offset: None,
            sample_description_index: Some(1),
            default_sample_duration: Some(duration),
            default_sample_size: None,
            default_sample_flags: None,
        },
        tfdt: Some(Tfdt { base_media_decode_time: time }),
        trun: runs,
    };
    proof {
        reveal(traf_wire);
        lemma_one(r.trun@);
        lemma_run_wire(r.trun@[0], offset);
    }
    r
}

/// Encodes a movie fragment.
fn build_moof(sequence: u32, trafs: Vec<Traf>) -> (r: IsobmffResult<Vec<u8>>)
    ensures
        match moof_wire(sequence, boxes::all_wire(trafs@)) {
            Ok(b) => r is Ok && r->Ok_0@ == b,
            Err(m) => error::malformed(r, m),
        },
{
    let moof = Moof { mfhd: Mfhd { sequence_number: sequence }, traf: trafs };
    let mut out: Vec<u8> = Vec::new();
    moof.encode(&mut out)?;
    proof {
        let b = moof_wire(sequence, boxes::all_wire(trafs@))->Ok_0;
        assert(Seq::<u8>::empty() + b =~= b);
    }
    Ok(out)
}

fn put_brands(buf: &mut Vec<u8>)
    ensures
        segment_brands() is Ok,
        final(buf)@ == old(buf)@ + segment_brands()->Ok_0,
{
    let mut compatible: Vec<FourCC> = Vec::new();
    compatible.push(FourCC(kinds::MSDH));
    compatible.push(FourCC(kinds::MSIX));
    let styp = Styp {
        major_brand: FourCC(kinds::MSDH),
        minor_version: 0,
        compatible_brands: compatible,
    };
    assert(styp.compatible_brands@ =~= seq![FourCC(kinds::MSDH), FourCC(kinds::MSIX)]);
    assert(styp.wire() == segment_brands());
    proof {
        reveal_with_fuel(boxes::run, 3);
        assert(styp.body()->Ok_0.len() == 16);
    }
    let r = styp.encode(buf);
}

fn put_data(buf: &mut Vec<u8>, data: Vec<u8>) -> (r: IsobmffResult<()>)
    ensures
        boxes::wrote(data_wire(data@), old(buf)@, final(buf)@, r),
{
    let mdat = Mdat { data };
    mdat.encode(buf)
}

/// The movie fragment of a single track.
pub open spec fn single_moof(
    sequence: u32,
    entries: Seq<TrunEntry>,
    time: u64,
    duration: u32,
    offset: i32,
) -> Wire {
    moof_wire(sequence, traf_wire(1, duration, time, entries, offset))
}

/// A fragment of a single track: the brands of a segment if it starts one, the movie
/// fragment and the data.
pub open spec fn single_fragment(
    data: Seq<u8>,
    entries: Seq<TrunEntry>,
    sequence: u32,
    time: u64,
    duration: u32,
    segment: bool,
) -> Wire {
    match single_moof(sequence, entries, time, duration, 0) {
        Err(m) => Err(m),
        Ok(b) => boxes::joined(
            boxes::joined(
                if segment {
                    segment_brands()
                } else {
                    Ok(Seq::empty())
                },
                single_moof(sequence, entries, time, duration, (low_i32(b.len()) + 8) as i32),
            ),
            data_wire(data),
        ),
    }
}

/// The offset of the data behind a movie fragment can be told.
pub open spec fn offset_fits(moof: Wire) -> bool {
    moof matches Ok(b) ==> low_i32(b.len()) + 8 <= i32::MAX
}

fn build_single(
    sequence: u32,
    entries: Vec<TrunEntry>,
    time: u64,
    duration: u32,
    offset: i32,
) -> (r: IsobmffResult<Vec<u8>>)
    ensures
        match single_moof(sequence, entries@, time, duration, offset) {
            Ok(b) => r is Ok && r->Ok_0@ == b,
            Err(m) => error::malformed(r, m),
        },
{
    let mut trafs: Vec<Traf> = Vec::new();
    trafs.push(build_traf(1, duration, time, entries, offset));
    proof {
        lemma_one(trafs@);
    }
    build_moof(sequence, trafs)
}

/// Says whether a fragment of a single track can be written: whether the offset of its
/// data fits.
pub fn fragment_offset_fits(
    trun_entries: &Vec<TrunEntry>,
    sequence_number: u32,
    base_decode_time: u64,
    default_sample_duration: u32,
) -> (r: bool)
    ensures
        r == offset_fits(
            single_moof(
                sequence_number,
                trun_entries@,
                base_decode_time,
                default_sample_duration,
                0,
            ),
        ),
{
    match build_single(
        sequence_number,
        copy_entries(trun_entries),
        base_decode_time,
        default_sample_duration,
        0,
    ) {
        Ok(measured) => low32(measured.len()) <= i32::MAX - 8,
        Err(_) => true,
    }
}

fn write_fragment_inner(
    out: &mut Vec<u8>,
    encoded_data: &[u8],
    trun_entries: Vec<TrunEntry>,
    sequence_number: u32,
    base_decode_time: u64,
    default_sample_duration: u32,
    segment_header: bool,
) -> (r: IsobmffResult<()>)
    requires
        offset_fits(
            single_moof(
                sequence_number,
                trun_entries@,
                base_decode_time,
                default_sample_duration,
                0,
            ),
        ),
    ensures
        appended(
            single_fragment(
                encoded_data@,
                trun_entries@,
                sequence_number,
                base_decode_time,
                default_sample_duration,
                segment_header,
            ),
            old(out)@,
            final(out)@,
            r,
        ),
{
    broadcast use boxes::group_wire;

    let mut buf: Vec<u8> = Vec::new();
    if segment_header {
        put_brands(&mut buf);
        assert(buf@ =~= segment_brands()->Ok_0);
    } else {
        assert(buf@ =~= Seq::empty());
    }
    let measured = build_single(
        sequence_number,
        copy_entries(&trun_entries),
        base_decode_time,
        default_sample_duration,
        0,
    )?;
    let offset: i32 = low32(measured.len()) + 8;
    let moof = build_single(
        sequence_number,
        trun_entries,
        base_decode_time,
        default_sample_duration,
        offset,
    )?;
    bytes::put_slice(&mut buf, moof.as_slice());
    put_data(&mut buf, bytes::to_vec(encoded_data))?;
    bytes::put_slice(out, buf.as_slice());
    Ok(())
}

/// Appends a segment of one fragment of track 1. `encoded_data` holds the samples of
/// `trun_entries` one after the other.
pub fn write_fragment(
    out: &mut Vec<u8>,
    encoded_data: &[u8],
    trun_entries: Vec<TrunEntry>,
    sequence_number: u32,
    base_decode_time: u64,
    default_sample_duration: u32,
) -> (r: IsobmffResult<()>)
    requires
        offset_fits(
            single_moof(
                sequence_number,
                trun_entries@,
                base_decode_time,
                default_sample_duration,
                0,
            ),
        ),
    ensures
        appended(
            single_fragment(
                encoded_data@,
                trun_entries@,
                sequence_number,
                base_decode_time,
                default_sample_duration,
                true,
            ),
            old(out)@,
            final(out)@,
            r,
        ),
{
    write_fragment_inner(
        out,
        encoded_data,
        trun_entries,
        sequence_number,
        base_decode_time,
        default_sample_duration,
        true,
    )
}

/// Appends a fragment that starts no segment, as a standalone file wants it: a reader
/// may reset its decoder where a segment starts.
pub fn write_media_fragment(
    out: &mut Vec<u8>,
    encoded_data: &[u8],
    trun_entries: Vec<TrunEntry>,
    sequence_number: u32,
    base_decode_time: u64,
    default_sample_duration: u32,
) -> (r: IsobmffResult<()>)
    requires
        offset_fits(
            single_moof(
                sequence_number,
                trun_entries@,
                base_decode_time,
                default_sample_duration,
                0,
            ),
        ),
    ensures
        appended(
            single_fragment(
                encoded_data@,
                trun_entries@,
                sequence_number,
                base_decode_time,
                default_sample_duration,
                false,
            ),
            old(out)@,
            final(out)@,
            r,
        ),
{
    write_fragment_inner(
        out,
        encoded_data,
        trun_entries,
        sequence_number,
        base_decode_time,
        default_sample_duration,
        false,
    )
}

/// What one track has in a fragment.
pub struct FragmentTrack<'a> {
    pub track_id: u32,
    pub trun_entries: Vec<TrunEntry>,
    pub default_sample_duration: u32,
    pub base_decode_time: u64,
    /// The samples of `trun_entries` one after the other.
    pub sample_data: &'a [u8],
}

/// The data of tracks, one after the other.
pub open spec fn data_of(tracks: Seq<FragmentTrack>) -> Seq<u8>
    decreases tracks.len(),
{
    if tracks.len() == 0 {
        Seq::empty()
    } else {
        data_of(tracks.drop_last()) + tracks.last().sample_data@
    }
}

/// How far into the data the track behind these tracks starts.
pub open spec fn data_before(tracks: Seq<FragmentTrack>) -> int
    decreases tracks.len(),
{
    if tracks.len() == 0 {
        0
    } else {
        data_before(tracks.drop_last()) + low_i32(tracks.last().sample_data@.len())
    }
}

/// The track fragments of tracks whose data starts at `base`; without one, all offsets
/// are zero.
pub open spec fn trafs_wire(tracks: Seq<FragmentTrack>, base: Option<i32>) -> Wire
    decreases tracks.len(),
{
    if tracks.len() == 0 {
        Ok(Seq::empty())
    } else {
        let t = tracks.last();
        boxes::joined(
            trafs_wire(tracks.drop_last(), base),
            traf_wire(
                t.track_id,
                t.default_sample_duration,
                t.base_decode_time,
                t.trun_entries@,
                match base {
                    Some(b) => (b + data_before(tracks.drop_last())) as i32,
                    None => 0,
                },
            ),
        )
    }
}

/// The offsets of all tracks, behind a movie fragment of this length, can be told.
pub open spec fn offsets_fit(tracks: Seq<FragmentTrack>, moof: Wire) -> bool {
    moof matches Ok(b) ==> {
        &&& low_i32(b.len()) + 8 <= i32::MAX
        &&& data_before(tracks) >= 0
        &&& forall|i: int|
            0 <= i <= tracks.len() ==> i32::MIN <= #[trigger] data_before(tracks.take(i))
                <= i32::MAX
        &&& forall|i: int|
            0 <= i < tracks.len() ==> i32::MIN <= low_i32(b.len()) + 8 + #[trigger] data_before(
                tracks.take(i),
            ) <= i32::MAX
    }
}

/// A segment of one fragment of several tracks.
pub open spec fn joint_fragment(tracks: Seq<FragmentTrack>, sequence: u32) -> Wire {
    if tracks.len() == 0 {
        Ok(Seq::empty())
    } else {
        match moof_wire(sequence, trafs_wire(tracks, None)) {
            Err(m) => Err(m),
            Ok(b) => boxes::joined(
                boxes::joined(
                    segment_brands(),
                    moof_wire(
                        sequence,
                        trafs_wire(tracks, Some((low_i32(b.len()) + 8) as i32)),
                    ),
                ),
                data_wire(data_of(tracks)),
            ),
        }
    }
}

fn build_trafs(tracks: &[FragmentTrack<'_>], base: Option<i32>) -> (r: Vec<Traf>)
    requires
        base matches Some(b) ==> {
            &&& forall|i: int|
                0 <= i <= tracks@.len() ==> i32::MIN <= #[trigger] data_before(tracks@.take(i))
                    <= i32::MAX
            &&& forall|i: int|
                0 <= i < tracks@.len() ==> i32::MIN <= b + #[trigger] data_before(tracks@.take(i))
                    <= i32::MAX
        },
    ensures
        boxes::all_wire(r@) == trafs_wire(tracks@, base),
{
    let mut out: Vec<Traf> = Vec::new();
    let mut before: i32 = 0;
    let mut i: usize = 0;
    assert(tracks@.len() == tracks.len());
    assert(tracks@.take(0) =~= Seq::empty());
    while i < tracks.len()
        invariant
            tracks@.len() == tracks.len(),
            i <= tracks@.len(),
            base is Some ==> before == data_before(tracks@.take(i as int)),
            base matches Some(b) ==> {
                &&& forall|i: int|
                    0 <= i <= tracks@.len() ==> i32::MIN <= #[trigger] data_before(tracks@.take(i))
                        <= i32::MAX
                &&& forall|i: int|
                    0 <= i < tracks@.len() ==> i32::MIN <= b + #[trigger] data_before(
                        tracks@.take(i),
                    ) <= i32::MAX
            },
            boxes::all_wire(out@) == trafs_wire(tracks@.take(i as int), base),
        decreases tracks@.len() - i,
    {
        let t: &FragmentTrack = &tracks[i];
        proof {
            assert(tracks@.take(i + 1).drop_last() =~= tracks@.take(i as int));
            assert(tracks@.take(i + 1).last() == tracks@[i as int]);
            assert(data_before(tracks@.take(i + 1)) == data_before(tracks@.take(i as int))
                + low_i32(t.sample_data@.len()));
        }
        let offset: i32 = match base {
            Some(b) => b + before,
            None => 0,
        };
        let traf = build_traf(
            t.track_id,
            t.default_sample_duration,
            t.base_decode_time,
            copy_entries(&t.trun_entries),
            offset,
        );
        let ghost done = out@;
        out.push(traf);
        assert(out@.drop_last() =~= done);
        if base.is_some() {
            before = before + low32(t.sample_data.len());
        }
        i = i + 1;
    }
    assert(tracks@.take(i as int) =~= tracks@);
    out
}

fn join_data(tracks: &[FragmentTrack<'_>]) -> (r: Vec<u8>)
    ensures
        r@ == data_of(tracks@),
{
    let mut out: Vec<u8> = Vec::new();
    let mut i: usize = 0;
    assert(tracks@.len() == tracks.len());
    assert(tracks@.take(0) =~= Seq::empty());
    while i < tracks.len()
        invariant
            tracks@.len() == tracks.len(),
            i <= tracks@.len(),
            out@ == data_of(tracks@.take(i as int)),
        decreases tracks@.len() - i,
    {
        assert(tracks@.take(i + 1).drop_last() =~= tracks@.take(i as int));
        bytes::put_slice(&mut out, tracks[i].sample_data);
        i = i + 1;
    }
    assert(tracks@.take(i as int) =~= tracks@);
    out
}

/// Says whether a fragment of several tracks can be written: whether the offsets of their
/// data fit.
pub fn fragment_offsets_fit(tracks: &[FragmentTrack<'_>], sequence_number: u32) -> (r: bool)
    ensures
        r == offsets_fit(tracks@, moof_wire(sequence_number, trafs_wire(tracks@, None))),
{
    let measured = match build_moof(sequence_number, build_trafs(tracks, None)) {
        Ok(b) => b,
        Err(_) => return true,
    };
    let base: i64 = low32(measured.len()) as i64 + 8;
    if base > i32::MAX as i64 {
        return false;
    }
    let mut before: i64 = 0;
    let mut i: usize = 0;
    assert(tracks@.len() == tracks.len());
    assert(tracks@.take(0) =~= Seq::empty());
    while i < tracks.len()
        invariant
            tracks@.len() == tracks.len(),
            i <= tracks@.len(),
            i32::MIN <= base <= i32::MAX,
            moof_wire(sequence_number, trafs_wire(tracks@, None)) == Ok::<Seq<u8>, Seq<char>>(
                measured@,
            ),
            base == low_i32(measured@.len()) + 8,
            before == data_before(tracks@.take(i as int)),
            forall|k: int|
                0 <= k <= i ==> i32::MIN <= #[trigger] data_before(tracks@.take(k)) <= i32::MAX,
            forall|k: int|
                0 <= k < i ==> i32::MIN <= base + #[trigger] data_before(tracks@.take(k))
                    <= i32::MAX,
        decreases tracks@.len() - i,
    {
        let t: &FragmentTrack = &tracks[i];
        proof {
            assert(tracks@.take(i + 1).drop_last() =~= tracks@.take(i as int));
            assert(tracks@.take(i + 1).last() == tracks@[i as int]);
        }
        if base + before < i32::MIN as i64 || base + before > i32::MAX as i64 {
            return false;
        }
        before = before + low32(t.sample_data.len()) as i64;
        assert(before == data_before(tracks@.take(i + 1)));
        if before < i32::MIN as i64 || before > i32::MAX as i64 {
            return false;
        }
        i = i + 1;
    }
    assert(tracks@.take(i as int) =~= tracks@);
    before >= 0
}

/// Appends a segment of one fragment of several tracks. The data of the tracks follows
/// in their order; without tracks nothing is appended.
pub fn write_av_fragment(
    out: &mut Vec<u8>,
    tracks: &[FragmentTrack<'_>],
    sequence_number: u32,
) -> (r: IsobmffResult<()>)
    requires
        offsets_fit(tracks@, moof_wire(sequence_number, trafs_wire(tracks@, None))),
    ensures
        appended(joint_fragment(tracks@, sequence_number), old(out)@, final(out)@, r),
{
    broadcast use boxes::group_wire;

    assert(tracks@.len() == tracks.len());
    if tracks.len() == 0 {
        assert(out@ + Seq::<u8>::empty() =~= out@);
        return Ok(());
    }
    let measured = build_moof(sequence_number, build_trafs(tracks, None))?;
    let offset: i32 = low32(measured.len()) + 8;
    let mut buf: Vec<u8> = Vec::new();
    put_brands(&mut buf);
    assert(buf@ =~= segment_brands()->Ok_0);
    let moof = build_moof(sequence_number, build_trafs(tracks, Some(offset)))?;
    bytes::put_slice(&mut buf, moof.as_slice());
    put_data(&mut buf, join_data(tracks))?;
    bytes::put_slice(out, buf.as_slice());
    Ok(())
}

/// The length of a run does not depend on its offset.
proof fn lemma_run_len(entries: Seq<TrunEntry>, a: i32, b: i32)
    ensures
        run_wire(entries, a) is Ok <==> run_wire(entries, b) is Ok,
        run_wire(entries, a) is Ok ==> run_wire(entries, a)->Ok_0.len() == run_wire(
            entries,
            b,
        )->Ok_0.len(),
        run_wire(entries, a) is Err ==> run_wire(entries, a) == run_wire(entries, b),
{
    reveal(run_wire);
}

/// The length of a track fragment does not depend on its offset.
proof fn lemma_traf_len(
    track_id: u32,
    duration: u32,
    time: u64,
    entries: Seq<TrunEntry>,
    a: i32,
    b: i32,
)
    ensures
        ({
            let x = traf_wire(track_id, duration, time, entries, a);
            let y = traf_wire(track_id, duration, time, entries, b);
            &&& x is Ok <==> y is Ok
            &&& x is Ok ==> x->Ok_0.len() == y->Ok_0.len()
            &&& x is Err ==> x == y
        }),
{
    lemma_run_len(entries, a, b);
    reveal(traf_wire);
}

/// The offset of a fragment of a single track leads from the start of its movie
/// fragment to the samples: the movie fragment with that offset is as long as the one
/// that was measured, so what is behind it and the eight bytes of the next box's head
/// is the data.
pub proof fn law_offset_leads_to_data(
    data: Seq<u8>,
    entries: Seq<TrunEntry>,
    sequence: u32,
    time: u64,
    duration: u32,
    segment: bool,
)
    requires
        single_fragment(data, entries, sequence, time, duration, segment) is Ok,
        single_moof(sequence, entries, time, duration, 0)->Ok_0.len() + 8 <= i32::MAX,
    ensures
        ({
            let all = single_fragment(data, entries, sequence, time, duration, segment)->Ok_0;
            let measured = single_moof(sequence, entries, time, duration, 0)->Ok_0.len();
            let offset = (measured + 8) as i32;
            let start = if segment {
                segment_brands()->Ok_0.len()
            } else {
                0
            };
            &&& single_moof(sequence, entries, time, duration, offset) is Ok
            &&& all.subrange(start as int, (start + measured) as int) == single_moof(
                sequence,
                entries,
                time,
                duration,
                offset,
            )->Ok_0
            &&& all.skip(start + offset) == data
        }),
{
    let measured = single_moof(sequence, entries, time, duration, 0)->Ok_0.len();
    let offset = (measured + 8) as i32;
    lemma_traf_len(1, duration, time, entries, 0, offset);
    assert(low_i32(measured) == measured);
    let all = single_fragment(data, entries, sequence, time, duration, segment)->Ok_0;
    let moof = single_moof(sequence, entries, time, duration, offset);
    let start = if segment {
        segment_brands()->Ok_0
    } else {
        Seq::empty()
    };
    let tail = data_wire(data)->Ok_0;
    assert(all == start + moof->Ok_0 + tail);
    assert(all.subrange(start.len() as int, (start.len() + measured) as int) =~= moof->Ok_0);
    assert(tail.skip(8) =~= data);
    assert(all.skip(start.len() + offset) =~= tail.skip(8));
}

/// The length of track fragments does not depend on their offsets.
proof fn lemma_trafs_len(tracks: Seq<FragmentTrack>, a: Option<i32>, b: Option<i32>)
    ensures
        trafs_wire(tracks, a) is Ok <==> trafs_wire(tracks, b) is Ok,
        trafs_wire(tracks, a) is Ok ==> trafs_wire(tracks, a)->Ok_0.len() == trafs_wire(
            tracks,
            b,
        )->Ok_0.len(),
    decreases tracks.len(),
{
    if tracks.len() > 0 {
        let t = tracks.last();
        lemma_trafs_len(tracks.drop_last(), a, b);
        let before = data_before(tracks.drop_last());
        lemma_traf_len(
            t.track_id,
            t.default_sample_duration,
            t.base_decode_time,
            t.trun_entries@,
            match a {
                Some(x) => (x + before) as i32,
                None => 0,
            },
            match b {
                Some(x) => (x + before) as i32,
                None => 0,
            },
        );
    }
}

/// Where the data of a track stands in the data of all.
proof fn lemma_data_at(tracks: Seq<FragmentTrack>, k: int)
    requires
        0 <= k < tracks.len(),
        data_of(tracks).len() <= i32::MAX,
    ensures
        data_before(tracks.take(k)) == data_of(tracks.take(k)).len(),
        data_of(tracks.take(k)).len() + tracks[k].sample_data@.len() <= data_of(tracks).len(),
        data_of(tracks).subrange(
            data_of(tracks.take(k)).len() as int,
            (data_of(tracks.take(k)).len() + tracks[k].sample_data@.len()) as int,
        ) == tracks[k].sample_data@,
    decreases tracks.len(),
{
    let rest = tracks.drop_last();
    let last = tracks.last().sample_data@;
    assert(data_of(tracks) == data_of(rest) + last);
    if k == tracks.len() - 1 {
        assert(tracks.take(k) =~= rest);
        lemma_before_is_len(rest);
        assert(data_of(tracks).subrange(
            data_of(rest).len() as int,
            (data_of(rest).len() + last.len()) as int,
        ) =~= last);
    } else {
        lemma_data_at(rest, k);
        assert(rest.take(k) =~= tracks.take(k));
        let at = data_of(tracks.take(k)).len() as int;
        let n = tracks[k].sample_data@.len();
        assert(data_of(tracks).subrange(at, at + n) =~= data_of(rest).subrange(at, at + n));
    }
}

proof fn lemma_before_is_len(tracks: Seq<FragmentTrack>)
    requires
        data_of(tracks).len() <= i32::MAX,
    ensures
        data_before(tracks) == data_of(tracks).len(),
    decreases tracks.len(),
{
    if tracks.len() > 0 {
        lemma_before_is_len(tracks.drop_last());
    }
}

/// The offset of each track of a joint fragment leads from the start of the movie
/// fragment to the samples of that track.
pub proof fn law_offsets_lead_to_data(tracks: Seq<FragmentTrack>, sequence: u32, k: int)
    requires
        0 <= k < tracks.len(),
        joint_fragment(tracks, sequence) is Ok,
        moof_wire(sequence, trafs_wire(tracks, None))->Ok_0.len() + 8 + data_of(tracks).len()
            <= i32::MAX,
    ensures
        ({
            let all = joint_fragment(tracks, sequence)->Ok_0;
            let base = moof_wire(sequence, trafs_wire(tracks, None))->Ok_0.len() + 8;
            let offset = base + data_before(tracks.take(k));
            let start = segment_brands()->Ok_0.len();
            &&& moof_wire(sequence, trafs_wire(tracks, Some(base as i32))) is Ok
            &&& all.subrange(start as int, start + base - 8) == moof_wire(
                sequence,
                trafs_wire(tracks, Some(base as i32)),
            )->Ok_0
            &&& all.subrange(start + offset, start + offset + tracks[k].sample_data@.len())
                == tracks[k].sample_data@
        }),
{
    let measured = moof_wire(sequence, trafs_wire(tracks, None))->Ok_0.len();
    let base = measured + 8;
    assert(low_i32(measured) == measured);
    lemma_trafs_len(tracks, None, Some(base as i32));
    lemma_data_at(tracks, k);
    let moof = moof_wire(sequence, trafs_wire(tracks, Some(base as i32)));
    let all = joint_fragment(tracks, sequence)->Ok_0;
    let start = segment_brands()->Ok_0;
    let tail = data_wire(data_of(tracks))->Ok_0;
    let n = tracks[k].sample_data@.len();
    let at = data_before(tracks.take(k));
    assert(all == start + moof->Ok_0 + tail);
    assert(all.subrange(start.len() as int, (start.len() + measured) as int) =~= moof->Ok_0);
    assert(tail.skip(8) =~= data_of(tracks));
    assert(all.subrange(start.len() + base + at, start.len() + base + at + n) =~= data_of(
        tracks,
    ).subrange(at, at + n));
}

} // verus!
