//! Corrections of boxes that are encoded already.
//!
//! Some encoders write boxes that some players refuse. These functions change single
//! fields of the first box of a kind, so they are for files with one track.

use crate::bytes;
use crate::isobmff::boxes::fragment;
use crate::isobmff::boxes::kinds;
use crate::isobmff::parse;
use crate::isobmff::parse::boxed;
use crate::isobmff::parse::boxed::code;
use vstd::prelude::*;

verus! {

/// Whether a code stands at `i`.
pub open spec fn stands(b: Seq<u8>, kind: Seq<u8>, i: int) -> bool {
    0 <= i && i + 4 <= b.len() && b.subrange(i, i + 4) == kind
}

/// The first place at or behind `i` at which a code stands.
pub open spec fn first_from(b: Seq<u8>, kind: Seq<u8>, i: int) -> Option<int>
    decreases b.len() - i,
{
    if i + 4 > b.len() {
        None
    } else if stands(b, kind, i) {
        Some(i)
    } else {
        first_from(b, kind, i + 1)
    }
}

/// The first place at which a code stands.
pub open spec fn first(b: Seq<u8>, kind: Seq<u8>) -> Option<int> {
    first_from(b, kind, 0)
}

fn find(b: &[u8], kind: &[u8; 4]) -> (r: Option<usize>)
    ensures
        match first(b@, kind@) {
            None => r is None,
            Some(i) => r is Some && r->0 == i && stands(b@, kind@, i),
        },
{
    if b.len() < 4 {
        return None;
    }
    let last: usize = b.len() - 4;
    let mut i: usize = 0;
    while i <= last
        invariant
            last + 4 == b@.len(),
            i <= last + 1,
            first(b@, kind@) == first_from(b@, kind@, i as int),
        decreases last + 1 - i,
    {
        let here: bool = b[i] == kind[0] && b[i + 1] == kind[1] && b[i + 2] == kind[2] && b[i + 3]
            == kind[3];
        proof {
            let w = b@.subrange(i as int, i + 4);
            assert(w[0] == b@[i as int] && w[1] == b@[i + 1] && w[2] == b@[i + 2] && w[3]
                == b@[i + 3]);
            if here {
                assert(w =~= kind@);
            }
        }
        if here {
            return Some(i);
        }
        i = i + 1;
    }
    None
}

/// The byte `at` places behind the first code, changed.
pub open spec fn changed(b: Seq<u8>, kind: Seq<u8>, at: int, f: spec_fn(u8) -> u8) -> Seq<u8> {
    match first(b, kind) {
        None => b,
        Some(i) => if i + at < b.len() {
            b.update(i + at, f(b[i + at]))
        } else {
            b
        },
    }
}

/// A byte whose second bit is set.
pub open spec fn second_bit(v: u8) -> u8 {
    if v / 2 % 2 == 1 {
        v
    } else {
        (v + 2) as u8
    }
}

/// A movie whose first `tkhd` says that the track is enabled and in the movie, and
/// nothing else.
pub open spec fn track_shown(b: Seq<u8>) -> Seq<u8> {
    match first(b, kinds::TKHD@) {
        None => b,
        Some(i) => if i + 7 < b.len() {
            b.update(i + 5, 0).update(i + 6, 0).update(i + 7, 3)
        } else {
            b
        },
    }
}

/// Sets the flags of the first `tkhd`: the track is enabled and in the movie. The
/// other flags are cleared.
pub fn patch_tkhd_flags(buf: &mut [u8])
    ensures
        final(buf)@ == track_shown(old(buf)@),
{
    if let Some(pos) = find(buf, &kinds::TKHD) {
        if buf.len() - pos > 7 {
            buf[pos + 5] = 0;
            buf[pos + 6] = 0;
            buf[pos + 7] = 0x03;
        }
    }
}

/// Sets the flags of the first `url `: the data is in the same file.
pub fn patch_dref_url_self_contained(buf: &mut [u8])
    ensures
        final(buf)@ == changed(old(buf)@, kinds::URL@, 7, |v: u8| 0x01u8),
{
    if let Some(pos) = find(buf, &kinds::URL) {
        if buf.len() - pos > 7 {
            buf[pos + 7] = 0x01;
        }
    }
}

/// Sets the flag of the first `tfhd` that offsets count from the movie fragment. The
/// other flags stay.
pub fn patch_tfhd_default_base_is_moof(buf: &mut [u8])
    ensures
        final(buf)@ == changed(old(buf)@, kinds::TFHD@, 5, |v: u8| second_bit(v)),
{
    if let Some(pos) = find(buf, &kinds::TFHD) {
        if buf.len() - pos > 5 {
            let v: u8 = buf[pos + 5];
            let set: u8 = if v / 2 % 2 == 1 {
                v
            } else {
                v + 2
            };
            buf[pos + 5] = set;
        }
    }
}

/// What stands before the place of a change stays where it is.
proof fn lemma_first_stays(b: Seq<u8>, c: Seq<u8>, kind: Seq<u8>, i: int, p: int)
    requires
        0 <= i <= p,
        first_from(b, kind, i) == Some(p),
        b.len() == c.len(),
        forall|k: int| 0 <= k < p + 4 ==> b[k] == c[k],
    ensures
        first_from(c, kind, i) == Some(p),
    decreases p - i,
{
    if i + 4 <= b.len() {
        if i < p {
            assert(b.subrange(i, i + 4) =~= c.subrange(i, i + 4));
            lemma_first_stays(b, c, kind, i + 1, p);
        } else {
            lemma_first_at(b, kind, i, p);
            assert(b.subrange(i, i + 4) =~= c.subrange(i, i + 4));
        }
    }
}

proof fn lemma_first_at(b: Seq<u8>, kind: Seq<u8>, i: int, p: int)
    requires
        0 <= i,
        first_from(b, kind, i) == Some(p),
    ensures
        i <= p,
        stands(b, kind, p),
    decreases b.len() - i,
{
    if i + 4 <= b.len() && !stands(b, kind, i) {
        lemma_first_at(b, kind, i + 1, p);
    }
}

/// A change behind the code that does nothing when it is done again has been done once
/// and for all.
pub proof fn law_changes_once(b: Seq<u8>, kind: Seq<u8>, at: int, f: spec_fn(u8) -> u8)
    requires
        at >= 4,
        forall|v: u8| f(#[trigger] f(v)) == f(v),
    ensures
        changed(changed(b, kind, at, f), kind, at, f) == changed(b, kind, at, f),
{
    if let Some(p) = first(b, kind) {
        if p + at < b.len() {
            let c = changed(b, kind, at, f);
            lemma_first_at(b, kind, 0, p);
            lemma_first_stays(b, c, kind, 0, p);
            assert(f(f(b[p + at])) == f(b[p + at]));
            assert(changed(c, kind, at, f) =~= c);
        }
    }
}

/// Setting the flags of the first `tkhd` again changes nothing.
pub proof fn law_track_shown_once(b: Seq<u8>)
    ensures
        track_shown(track_shown(b)) == track_shown(b),
        track_shown(b).len() == b.len(),
{
    if let Some(p) = first(b, kinds::TKHD@) {
        if p + 7 < b.len() {
            let c = track_shown(b);
            lemma_first_at(b, kinds::TKHD@, 0, p);
            lemma_first_stays(b, c, kinds::TKHD@, 0, p);
            assert(track_shown(c) =~= c);
        }
    }
}

/// Setting the second bit again changes nothing, so [`law_changes_once`] holds of it.
pub proof fn law_second_bit_once(v: u8)
    ensures
        second_bit(second_bit(v)) == second_bit(v),
        second_bit(v) / 2 % 2 == 1,
{
}

/// An `esds` of an AAC stream whose lengths all take four bytes.
pub open spec fn long_esds(asc: Seq<u8>) -> Seq<u8> {
    let n = asc.len() % 256;
    bytes::be32(((asc.len() + 49) % 0x1_0000_0000) as u32) + kinds::ESDS@ + seq![
        0u8,
        0,
        0,
        0,
        0x03,
        0x80,
        0x80,
        0x80,
        (n + 32) as u8,
        0,
        1,
        0,
        0x04,
        0x80,
        0x80,
        0x80,
        (n + 18) as u8,
        0x40,
        0x15,
    ] + bytes::zeros(11) + seq![0x05u8, 0x80, 0x80, 0x80, n as u8] + asc + seq![
        0x06u8,
        0x80,
        0x80,
        0x80,
        0x01,
        0x02,
    ]
}

/// Four bytes replaced by a number.
pub open spec fn with_number(b: Seq<u8>, at: int, v: u32) -> Seq<u8> {
    b.take(at) + bytes::be32(v) + b.skip(at + 4)
}

/// The length of the first box of a kind, changed by `delta`.
pub open spec fn resized(b: Seq<u8>, kind: Seq<u8>, delta: int) -> Seq<u8> {
    match first(b, kind) {
        None => b,
        Some(i) => with_number(
            b,
            i - 4,
            fragment::bits32((fragment::signed32(bytes::get32(b, i - 4)) + delta) as i32),
        ),
    }
}

/// The length of the first box of a kind can be changed by `delta`.
pub open spec fn resizable(b: Seq<u8>, kind: Seq<u8>, delta: int) -> bool {
    first(b, kind) matches Some(i) ==> {
        &&& i >= 4
        &&& i32::MIN <= fragment::signed32(bytes::get32(b, i - 4)) + delta <= i32::MAX
    }
}

/// The boxes around an `esds`, from the inside out.
pub open spec fn around() -> Seq<Seq<u8>> {
    seq![
        kinds::MP4A@,
        kinds::STSD@,
        kinds::STBL@,
        kinds::MINF@,
        kinds::MDIA@,
        kinds::TRAK@,
        kinds::MOOV@,
    ]
}

/// The lengths of the first boxes of these kinds, changed one after the other.
pub open spec fn all_resized(b: Seq<u8>, list: Seq<Seq<u8>>, delta: int) -> Seq<u8>
    decreases list.len(),
{
    if list.len() == 0 {
        b
    } else {
        all_resized(resized(b, list[0], delta), list.skip(1), delta)
    }
}

pub open spec fn all_resizable(b: Seq<u8>, list: Seq<Seq<u8>>, delta: int) -> bool
    decreases list.len(),
{
    list.len() == 0 || (resizable(b, list[0], delta) && all_resizable(
        resized(b, list[0], delta),
        list.skip(1),
        delta,
    ))
}

/// By how much the file grows when the `esds` is replaced.
pub open spec fn growth(b: Seq<u8>, i: int, asc: Seq<u8>) -> int {
    asc.len() + 49 - bytes::get32(b, i - 4)
}

/// The file in which the `esds` whose code stands at `i` is replaced.
pub open spec fn replaced(b: Seq<u8>, i: int, asc: Seq<u8>) -> Seq<u8> {
    b.take(i - 4) + long_esds(asc) + b.skip(i - 4 + bytes::get32(b, i - 4))
}

/// The file after the correction.
pub open spec fn esds_patched(b: Seq<u8>, asc: Seq<u8>) -> Seq<u8> {
    match first(b, kinds::ESDS@) {
        None => b,
        Some(i) => all_resized(replaced(b, i, asc), around(), growth(b, i, asc)),
    }
}

/// The correction can be made: the `esds` is in the file, and all lengths can be told.
pub open spec fn esds_patchable(b: Seq<u8>, asc: Seq<u8>) -> bool {
    first(b, kinds::ESDS@) matches Some(i) ==> {
        &&& i >= 4
        &&& asc.len() % 256 + 32 <= 255
        &&& asc.len() + 49 <= i32::MAX
        &&& bytes::get32(b, i - 4) <= i32::MAX
        &&& i - 4 + bytes::get32(b, i - 4) <= b.len()
        &&& all_resizable(replaced(b, i, asc), around(), growth(b, i, asc))
    }
}

fn put_number(buf: &mut Vec<u8>, at: usize, v: u32)
    requires
        at + 4 <= old(buf)@.len(),
    ensures
        final(buf)@ == with_number(old(buf)@, at as int, v),
{
    assert(buf@.len() == buf.len());
    buf.set(at, (v / 65536 / 256) as u8);
    buf.set(at + 1, (v / 65536 % 256) as u8);
    buf.set(at + 2, (v % 65536 / 256) as u8);
    buf.set(at + 3, (v % 65536 % 256) as u8);
    assert(buf@ =~= with_number(old(buf)@, at as int, v));
}

fn resize(buf: &mut Vec<u8>, kind: &[u8; 4], delta: i64)
    requires
        resizable(old(buf)@, kind@, delta as int),
        -0x1_0000_0000 <= delta <= 0x1_0000_0000,
    ensures
        final(buf)@ == resized(old(buf)@, kind@, delta as int),
{
    if let Some(pos) = find(buf.as_slice(), kind) {
        let old_size: u32 = bytes::read_u32(buf.as_slice(), pos - 4);
        let signed: i64 = if old_size < 0x8000_0000 {
            old_size as i64
        } else {
            old_size as i64 - 0x1_0000_0000
        };
        let sum: i64 = signed + delta;
        let bits: u32 = if sum >= 0 {
            sum as u32
        } else {
            (sum + 0x1_0000_0000) as u32
        };
        put_number(buf, pos - 4, bits);
    }
}

fn build_esds(asc: &[u8]) -> (r: Vec<u8>)
    requires
        asc@.len() % 256 + 32 <= 255,
        asc@.len() + 49 <= i32::MAX,
    ensures
        r@ == long_esds(asc@),
{
    assert(asc@.len() == asc.len());
    let n: u8 = (asc.len() % 256) as u8;
    let mut out: Vec<u8> = Vec::new();
    bytes::put_u32(&mut out, (asc.len() + 49) as u32);
    assert(out@ =~= bytes::be32((asc@.len() + 49) as u32));
    bytes::put_slice(&mut out, &kinds::ESDS);
    let head: [u8; 19] = [
        0,
        0,
        0,
        0,
        0x03,
        0x80,
        0x80,
        0x80,
        n + 32,
        0,
        1,
        0,
        0x04,
        0x80,
        0x80,
        0x80,
        n + 18,
        0x40,
        0x15,
    ];
    let specific: [u8; 5] = [0x05, 0x80, 0x80, 0x80, n];
    let sync: [u8; 6] = [0x06, 0x80, 0x80, 0x80, 0x01, 0x02];
    bytes::put_slice(&mut out, &head);
    bytes::put_zeros(&mut out, 11);
    bytes::put_slice(&mut out, &specific);
    bytes::put_slice(&mut out, asc);
    bytes::put_slice(&mut out, &sync);
    assert(out@ =~= long_esds(asc@));
    out
}

/// Replaces the first `esds` by one of an AAC stream whose lengths all take four bytes,
/// and corrects the lengths of the boxes around it.
pub fn patch_esds_descriptor_lengths(buf: &mut Vec<u8>, audio_specific_config: &[u8])
    requires
        esds_patchable(old(buf)@, audio_specific_config@),
    ensures
        final(buf)@ == esds_patched(old(buf)@, audio_specific_config@),
{
    let pos: usize = match find(buf.as_slice(), &kinds::ESDS) {
        None => return ,
        Some(p) => p,
    };
    let start: usize = pos - 4;
    let old_size: u32 = bytes::read_u32(buf.as_slice(), start);
    let esds = build_esds(audio_specific_config);
    let delta: i64 = audio_specific_config.len() as i64 + 49 - old_size as i64;
    assert(buf@.len() == buf.len());
    let end: usize = start + old_size as usize;
    let mut out: Vec<u8> = Vec::new();
    let (head, _) = buf.as_slice().split_at(start);
    let (_, tail) = buf.as_slice().split_at(end);
    bytes::put_slice(&mut out, head);
    assert(out@ =~= buf@.take(start as int));
    bytes::put_slice(&mut out, esds.as_slice());
    bytes::put_slice(&mut out, tail);
    assert(tail@ =~= buf@.skip(end as int));
    assert(out@ == replaced(old(buf)@, pos as int, audio_specific_config@));
    proof {
        let l = around();
        let d = delta as int;
        assert(growth(old(buf)@, pos as int, audio_specific_config@) == d);
        assert(l.skip(1).skip(1) =~= l.skip(2));
        assert(l.skip(2).skip(1) =~= l.skip(3));
        assert(l.skip(3).skip(1) =~= l.skip(4));
        assert(l.skip(4).skip(1) =~= l.skip(5));
        assert(l.skip(5).skip(1) =~= l.skip(6));
        assert(l.skip(6).skip(1) =~= Seq::empty());
        reveal_with_fuel(all_resized, 8);
        reveal_with_fuel(all_resizable, 8);
    }
    resize(&mut out, &kinds::MP4A, delta);
    resize(&mut out, &kinds::STSD, delta);
    resize(&mut out, &kinds::STBL, delta);
    resize(&mut out, &kinds::MINF, delta);
    resize(&mut out, &kinds::MDIA, delta);
    resize(&mut out, &kinds::TRAK, delta);
    resize(&mut out, &kinds::MOOV, delta);
    *buf = out;
}

proof fn lemma_resized_len(b: Seq<u8>, list: Seq<Seq<u8>>, delta: int)
    requires
        all_resizable(b, list, delta),
    ensures
        all_resized(b, list, delta).len() == b.len(),
    decreases list.len(),
{
    if list.len() > 0 {
        if let Some(p) = first(b, list[0]) {
            lemma_first_at(b, list[0], 0, p);
        }
        lemma_resized_len(resized(b, list[0], delta), list.skip(1), delta);
    }
}

/// The correction makes the file longer by as much as the `esds`, and by nothing else.
pub proof fn law_esds_growth(b: Seq<u8>, asc: Seq<u8>)
    requires
        esds_patchable(b, asc),
    ensures
        match first(b, kinds::ESDS@) {
            None => esds_patched(b, asc) == b,
            Some(i) => esds_patched(b, asc).len() == b.len() + growth(b, i, asc),
        },
{
    if let Some(i) = first(b, kinds::ESDS@) {
        lemma_resized_len(replaced(b, i, asc), around(), growth(b, i, asc));
    }
}

/// A code stands at `i` and nowhere before.
pub open spec fn stands_first(b: Seq<u8>, kind: Seq<u8>, i: int) -> bool {
    &&& 0 <= i
    &&& i + 4 <= b.len()
    &&& b.subrange(i, i + 4) == kind
    &&& forall|j: int| 0 <= j < i ==> #[trigger] b.subrange(j, j + 4) != kind
}

proof fn lemma_stands_first(b: Seq<u8>, kind: Seq<u8>, from: int, i: int)
    requires
        stands_first(b, kind, i),
        0 <= from <= i,
    ensures
        first_from(b, kind, from) == Some(i),
    decreases i - from,
{
    if from < i {
        assert(b.subrange(from, from + 4) != kind);
        lemma_stands_first(b, kind, from + 1, i);
    }
}

/// The first track header has its version, and then the flags of a track that is enabled and
/// in the movie; no other byte changes.
pub proof fn law_track_is_shown(b: Seq<u8>, i: int)
    requires
        stands_first(b, code('t', 'k', 'h', 'd'), i),
        i + 8 <= b.len(),
    ensures
        ({
            let c = track_shown(b);
            &&& c.len() == b.len()
            &&& c[i + 5] == 0
            &&& c[i + 6] == 0
            &&& c[i + 7] == 3
            &&& forall|j: int|
                0 <= j < b.len() && !(i + 5 <= j < i + 8) ==> #[trigger] c[j] == b[j]
        }),
{
    assert(kinds::TKHD@ =~= code('t', 'k', 'h', 'd'));
    lemma_stands_first(b, kinds::TKHD@, 0, i);
}

/// The first data reference says that the data is in the same file; no other byte changes.
pub proof fn law_data_is_in_the_file(b: Seq<u8>, i: int)
    requires
        stands_first(b, code('u', 'r', 'l', ' '), i),
        i + 8 <= b.len(),
    ensures
        changed(b, kinds::URL@, 7, |v: u8| 0x01u8) == b.update(i + 7, 1),
{
    assert(kinds::URL@ =~= code('u', 'r', 'l', ' '));
    lemma_stands_first(b, kinds::URL@, 0, i);
}

/// The first fragment header has the second flag of the highest byte of its flags, and all
/// flags that it had; no other byte changes.
pub proof fn law_offsets_count_from_fragment(b: Seq<u8>, i: int)
    requires
        stands_first(b, code('t', 'f', 'h', 'd'), i),
        i + 6 <= b.len(),
    ensures
        ({
            let c = changed(b, kinds::TFHD@, 5, |v: u8| second_bit(v));
            &&& c.len() == b.len()
            &&& c[i + 5] / 2 % 2 == 1
            &&& c[i + 5] % 2 == b[i + 5] % 2
            &&& c[i + 5] / 4 == b[i + 5] / 4
            &&& forall|j: int| 0 <= j < b.len() && j != i + 5 ==> #[trigger] c[j] == b[j]
        }),
{
    assert(kinds::TFHD@ =~= code('t', 'f', 'h', 'd'));
    lemma_stands_first(b, kinds::TFHD@, 0, i);
}

/// Where no code stands, nothing is changed.
pub proof fn law_nothing_to_change(b: Seq<u8>, kind: Seq<u8>, at: int, f: spec_fn(u8) -> u8)
    requires
        forall|j: int| 0 <= j && j + 4 <= b.len() ==> #[trigger] b.subrange(j, j + 4) != kind,
    ensures
        changed(b, kind, at, f) == b,
        kind == code('t', 'k', 'h', 'd') ==> track_shown(b) == b,
{
    assert(kinds::TKHD@ =~= code('t', 'k', 'h', 'd'));
    lemma_nowhere(b, kind, 0);
}

proof fn lemma_nowhere(b: Seq<u8>, kind: Seq<u8>, from: int)
    requires
        0 <= from,
        forall|j: int| 0 <= j && j + 4 <= b.len() ==> #[trigger] b.subrange(j, j + 4) != kind,
    ensures
        first_from(b, kind, from) is None,
    decreases b.len() - from,
{
    if from + 4 <= b.len() {
        assert(b.subrange(from, from + 4) != kind);
        lemma_nowhere(b, kind, from + 1);
    }
}

/// The new `esds` says how long it is, and a reader of descriptors finds in it an AAC stream
/// with the configuration that was given.
#[verifier::spinoff_prover]
pub proof fn law_new_descriptors_are_read(asc: Seq<u8>)
    requires
        asc.len() < 96,
    ensures
        long_esds(asc).len() == asc.len() + 49,
        bytes::get32(long_esds(asc), 0) == asc.len() + 49,
        long_esds(asc).subrange(4, 8) == code('e', 's', 'd', 's'),
        parse::esds_of(long_esds(asc).skip(8)) == Ok::<(u8, Seq<u8>), Seq<char>>((0x40, asc)),
{
    let n = asc.len() as int;
    let e = long_esds(asc);
    let len = (n + 49) as u32;
    bytes::lemma_be32(len);
    assert(e.subrange(4, 8) =~= code('e', 's', 'd', 's'));
    assert forall|k: int| 0 <= k < 4 implies e[0 + k] == #[trigger] bytes::be32(len)[k] by {}
    bytes::lemma_get32_in(e, 0, len);
    let d = e.skip(8);
    assert forall|k: int| 0 <= k < d.len() implies #[trigger] d[k] == e[k + 8] by {}
    assert(d.subrange(35, 35 + n) =~= asc);
    reveal_with_fuel(boxed::digits, 5);
    assert(boxed::digits(d, 31, 4) == n);
    assert(boxed::describes(d, 4, 4, 4, 0x40, asc));
    boxed::law_descriptors_are_read(d, 4, 4, 4, 0x40, asc);
}

/// The length of the first box of a kind grows by what it is told to; no other byte changes.
pub proof fn law_box_is_resized(b: Seq<u8>, kind: Seq<u8>, i: int, delta: int)
    requires
        stands_first(b, kind, i),
        i >= 4,
        0 <= bytes::get32(b, i - 4) + delta <= i32::MAX,
        bytes::get32(b, i - 4) <= i32::MAX,
    ensures
        ({
            let c = resized(b, kind, delta);
            &&& c.len() == b.len()
            &&& bytes::get32(c, i - 4) == bytes::get32(b, i - 4) + delta
            &&& forall|j: int|
                0 <= j < b.len() && !(i - 4 <= j < i) ==> #[trigger] c[j] == b[j]
        }),
{
    lemma_stands_first(b, kind, 0, i);
    let v = (bytes::get32(b, i - 4) + delta) as u32;
    let c = resized(b, kind, delta);
    bytes::lemma_be32(v);
    assert(c == with_number(b, i - 4, v));
    assert forall|k: int| 0 <= k < 4 implies c[i - 4 + k] == #[trigger] bytes::be32(v)[k] by {}
    bytes::lemma_get32_in(c, i - 4, v);
}

/// The boxes whose lengths are corrected are those that an `esds` is in, from the sample
/// entry out to the movie.
pub proof fn law_boxes_around()
    ensures
        around() == seq![
            code('m', 'p', '4', 'a'),
            code('s', 't', 's', 'd'),
            code('s', 't', 'b', 'l'),
            code('m', 'i', 'n', 'f'),
            code('m', 'd', 'i', 'a'),
            code('t', 'r', 'a', 'k'),
            code('m', 'o', 'o', 'v'),
        ],
{
    assert(kinds::MP4A@ =~= code('m', 'p', '4', 'a'));
    assert(kinds::STSD@ =~= code('s', 't', 's', 'd'));
    assert(kinds::STBL@ =~= code('s', 't', 'b', 'l'));
    assert(kinds::MINF@ =~= code('m', 'i', 'n', 'f'));
    assert(kinds::MDIA@ =~= code('m', 'd', 'i', 'a'));
    assert(kinds::TRAK@ =~= code('t', 'r', 'a', 'k'));
    assert(kinds::MOOV@ =~= code('m', 'o', 'o', 'v'));
}

/// The bytes before and behind the `esds` that is replaced stay, but for the lengths of the
/// boxes around it.
pub proof fn law_esds_is_replaced(b: Seq<u8>, i: int, asc: Seq<u8>)
    requires
        4 <= i,
        i - 4 + bytes::get32(b, i - 4) <= b.len(),
    ensures
        ({
            let c = replaced(b, i, asc);
            let m = long_esds(asc).len();
            &&& c.take(i - 4) == b.take(i - 4)
            &&& c.subrange(i - 4, i - 4 + m) == long_esds(asc)
            &&& c.skip(i - 4 + m) == b.skip(i - 4 + bytes::get32(b, i - 4))
        }),
{
    let c = replaced(b, i, asc);
    let m = long_esds(asc).len();
    assert(c.take(i - 4) =~= b.take(i - 4));
    assert(c.subrange(i - 4, i - 4 + m) =~= long_esds(asc));
    assert(c.skip(i - 4 + m) =~= b.skip(i - 4 + bytes::get32(b, i - 4)));
}

} // verus!
