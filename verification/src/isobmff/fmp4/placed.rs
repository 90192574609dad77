//! Where the fields of a fragment stand.

use crate::bytes;
use crate::isobmff::boxes;
use crate::isobmff::boxes::fragment as fields;
use crate::isobmff::boxes::{kinds, Encode, FourCC, FullBox, Mfhd, Tfdt, TrunEntry, Wire};
use crate::isobmff::fmp4::fragment;
use crate::isobmff::fmp4::fragment::FragmentTrack;
use crate::isobmff::parse::boxed::code;
use crate::isobmff::parse::listed::{n32, n64};
use vstd::prelude::*;

verus! {

/// The bits of a signed number of 32 bits.
pub open spec fn two(v: int) -> int {
    if v < 0 {
        v + 0x1_0000_0000
    } else {
        v
    }
}

/// Whether a box of this code and length starts at `at`.
pub open spec fn box_at(b: Seq<u8>, at: int, kind: Seq<u8>, len: int) -> bool {
    &&& 0 <= at
    &&& 8 <= len
    &&& at + len <= b.len()
    &&& n32(b, at) == len
    &&& b.subrange(at + 4, at + 8) == kind
}

/// How many fields of 32 bits each sample of a run has: those that all samples have.
pub open spec fn field_count(e: Seq<TrunEntry>) -> int {
    one(all_durations(e)) + one(all_sizes(e)) + one(all_flags(e)) + one(all_shifts(e))
}

pub open spec fn one(on: bool) -> int {
    if on {
        1
    } else {
        0
    }
}

pub open spec fn all_durations(e: Seq<TrunEntry>) -> bool {
    forall|i: int| 0 <= i < e.len() ==> (#[trigger] e[i]).duration is Some
}

pub open spec fn all_sizes(e: Seq<TrunEntry>) -> bool {
    forall|i: int| 0 <= i < e.len() ==> (#[trigger] e[i]).size is Some
}

pub open spec fn all_flags(e: Seq<TrunEntry>) -> bool {
    forall|i: int| 0 <= i < e.len() ==> (#[trigger] e[i]).flags is Some
}

pub open spec fn all_shifts(e: Seq<TrunEntry>) -> bool {
    forall|i: int| 0 <= i < e.len() ==> (#[trigger] e[i]).cts is Some
}

/// The fields of sample `i` stand at `at`: its duration, its size, its flags and by how much
/// it is shown later, as far as all samples have them.
pub open spec fn sample_at(b: Seq<u8>, at: int, e: Seq<TrunEntry>, i: int) -> bool {
    let s = at + 4 * one(all_durations(e));
    let f = s + 4 * one(all_sizes(e));
    let c = f + 4 * one(all_flags(e));
    &&& all_durations(e) ==> n32(b, at) == e[i].duration->Some_0
    &&& all_sizes(e) ==> n32(b, s) == e[i].size->Some_0
    &&& all_flags(e) ==> n32(b, f) == e[i].flags->Some_0
    &&& all_shifts(e) ==> n32(b, c) == two(e[i].cts->Some_0 as int)
}

/// How long a track fragment with these samples is.
pub open spec fn track_len(e: Seq<TrunEntry>) -> int {
    72 + 4 * field_count(e) * e.len()
}

/// A track fragment stands at `at`: its header names the track and the default duration, its
/// time is that of its first sample, and its run lists the samples, whose data is at an
/// offset from the movie fragment.
pub open spec fn track_at(
    b: Seq<u8>,
    at: int,
    track_id: u32,
    duration: u32,
    time: u64,
    e: Seq<TrunEntry>,
    offset: int,
) -> bool {
    &&& box_at(b, at, code('t', 'r', 'a', 'f'), track_len(e))
    &&& box_at(b, at + 8, code('t', 'f', 'h', 'd'), 24)
    &&& n32(b, at + 16) == 0x2_000A
    &&& n32(b, at + 20) == track_id
    &&& n32(b, at + 24) == 1
    &&& n32(b, at + 28) == duration
    &&& box_at(b, at + 32, code('t', 'f', 'd', 't'), 20)
    &&& n32(b, at + 40) == 0x100_0000
    &&& n64(b, at + 44) == time
    &&& box_at(b, at + 52, code('t', 'r', 'u', 'n'), track_len(e) - 52)
    &&& n32(b, at + 60) == (if exists|i: int|
        0 <= i < e.len() && ((#[trigger] e[i]).cts matches Some(c) && c < 0) {
        0x100_0000int
    } else {
        0
    }) + 1 + 0x100 * one(all_durations(e)) + 0x200 * one(all_sizes(e)) + 0x400 * one(all_flags(e))
        + 0x800 * one(all_shifts(e))
    &&& n32(b, at + 64) == e.len() % 0x1_0000_0000
    &&& n32(b, at + 68) == two(offset)
    &&& forall|i: int|
        0 <= i < e.len() ==> #[trigger] sample_at(b, at + 72 + 4 * field_count(e) * i, e, i)
}

/// Bytes stand at `at`.
#[verifier::opaque]
spec fn lies(b: Seq<u8>, at: int, w: Seq<u8>) -> bool {
    &&& 0 <= at
    &&& at + w.len() <= b.len()
    &&& b.subrange(at, at + w.len()) == w
}

proof fn lemma_lies_whole(w: Seq<u8>)
    ensures
        lies(w, 0, w),
{
    reveal(lies);
    assert(w.subrange(0, w.len() as int) =~= w);
}

/// The parts of a concatenation.
proof fn lemma_parts(b: Seq<u8>, at: int, x: Seq<u8>, y: Seq<u8>)
    requires
        lies(b, at, x + y),
    ensures
        lies(b, at, x),
        lies(b, at + x.len(), y),
{
    reveal(lies);
    let w = x + y;
    let s = b.subrange(at, at + w.len());
    assert(b.subrange(at, at + x.len()) =~= x) by {
        assert forall|i: int| 0 <= i < x.len() implies #[trigger] b.subrange(at, at + x.len())[i]
            == x[i] by {
            assert(s[i] == w[i]);
        }
    }
    let p = at + x.len();
    assert(b.subrange(p, p + y.len()) =~= y) by {
        assert forall|i: int| 0 <= i < y.len() implies #[trigger] b.subrange(p, p + y.len())[i]
            == y[i] by {
            assert(s[x.len() + i] == w[x.len() + i]);
        }
    }
}

/// A part of bytes that stand somewhere.
proof fn lemma_inner(b: Seq<u8>, at: int, w: Seq<u8>, i: int, n: int)
    requires
        lies(b, at, w),
        0 <= i,
        0 <= n,
        i + n <= w.len(),
    ensures
        lies(b, at + i, w.subrange(i, i + n)),
{
    reveal(lies);
    let s = b.subrange(at, at + w.len());
    let x = w.subrange(i, i + n);
    assert(b.subrange(at + i, at + i + n) =~= x) by {
        assert forall|k: int| 0 <= k < n implies #[trigger] b.subrange(at + i, at + i + n)[k]
            == x[k] by {
            assert(s[i + k] == w[i + k]);
        }
    }
}

/// The number that four bytes stand for.
proof fn lemma_four(b: Seq<u8>, at: int, v: u32)
    requires
        lies(b, at, bytes::be32(v)),
    ensures
        n32(b, at) == v,
        at + 4 <= b.len(),
        0 <= at,
{
    reveal(lies);
    let w = bytes::be32(v);
    bytes::lemma_be32(v);
    let s = b.subrange(at, at + 4);
    assert(s[0] == b[at] && s[1] == b[at + 1] && s[2] == b[at + 2] && s[3] == b[at + 3]);
    assert(bytes::get32(w, 0) == v);
}

proof fn lemma_eight(b: Seq<u8>, at: int, v: u64)
    requires
        lies(b, at, bytes::be64(v)),
    ensures
        n64(b, at) == v,
{
    let hi = (v / 0x1_0000_0000) as u32;
    let lo = (v % 0x1_0000_0000) as u32;
    bytes::lemma_be32(hi);
    lemma_parts(b, at, bytes::be32(hi), bytes::be32(lo));
    lemma_four(b, at, hi);
    lemma_four(b, at + 4, lo);
}

/// The front of a box.
proof fn lemma_front(b: Seq<u8>, at: int, n: u32, kind: Seq<u8>, body: Seq<u8>)
    requires
        kind.len() == 4,
        8 + body.len() == n,
        lies(b, at, bytes::be32(n) + kind + body),
    ensures
        box_at(b, at, kind, n as int),
        lies(b, at + 8, body),
{
    bytes::lemma_be32(n);
    lemma_parts(b, at, bytes::be32(n) + kind, body);
    lemma_parts(b, at, bytes::be32(n), kind);
    lemma_four(b, at, n);
    assert(b.subrange(at + 4, at + 8) == kind && at + 8 + body.len() <= b.len()) by {
        reveal(lies);
    }
}

/// A box where it is written.
proof fn lemma_plain(kind: Seq<u8>, body: Seq<u8>, b: Seq<u8>, at: int)
    requires
        kind.len() == 4,
        boxes::boxed(kind, Ok(body)) is Ok,
        lies(b, at, boxes::boxed(kind, Ok(body))->Ok_0),
    ensures
        boxes::boxed(kind, Ok(body))->Ok_0.len() == 8 + body.len(),
        box_at(b, at, kind, 8int + body.len()),
        lies(b, at + 8, body),
{
    bytes::lemma_be32((body.len() + 8) as u32);
    lemma_front(b, at, (body.len() + 8) as u32, kind, body);
}

/// A full box where it is written.
proof fn lemma_full(kind: Seq<u8>, version: u8, flags: u32, body: Seq<u8>, b: Seq<u8>, at: int)
    requires
        kind.len() == 4,
        flags <= 0xFF_FFFF,
        boxes::full_boxed(kind, version, flags, Ok(body)) is Ok,
        lies(b, at, boxes::full_boxed(kind, version, flags, Ok(body))->Ok_0),
    ensures
        boxes::full_boxed(kind, version, flags, Ok(body))->Ok_0.len() == 12 + body.len(),
        box_at(b, at, kind, 12int + body.len()),
        n32(b, at + 8) == version * 0x100_0000 + flags,
        lies(b, at + 12, body),
{
    let n = (body.len() + 12) as u32;
    bytes::lemma_be32(n);
    let f = bytes::be24(flags);
    let inner = seq![version] + f + body;
    assert(boxes::full_boxed(kind, version, flags, Ok(body))->Ok_0 =~= bytes::be32(n) + kind
        + inner);
    lemma_front(b, at, n, kind, inner);
    lemma_parts(b, at + 8, seq![version] + f, body);
    let p = at + 8;
    assert(b[p] == version && b[p + 1] == f[0] && b[p + 2] == f[1] && b[p + 3] == f[2]) by {
        reveal(lies);
        let w = seq![version] + f;
        let s = b.subrange(p, p + w.len());
        assert(s[0] == w[0] && s[1] == w[1] && s[2] == w[2] && s[3] == w[3]);
    }
}

/// The bytes of one sample where they are written.
#[verifier::spinoff_prover]
proof fn lemma_sample(e: Seq<TrunEntry>, i: int, b: Seq<u8>, at: int)
    requires
        0 <= i < e.len(),
        lies(b, at, fields::entry_bytes(fields::carried(e))(e[i])),
    ensures
        sample_at(b, at, e, i),
{
    lemma_sample_len(e, i);
    let c = fields::carried(e);
    let x = e[i];
    let d = fields::opt32(fields::kept(c.duration, x.duration));
    let s = fields::opt32(fields::kept(c.size, x.size));
    let f = fields::opt32(fields::kept(c.flags, x.flags));
    let t = fields::opt32(fields::opt_bits(fields::kept(c.cts, x.cts)));
    lemma_parts(b, at, d + s + f, t);
    lemma_parts(b, at, d + s, f);
    lemma_parts(b, at, d, s);
    reveal(fields::opt32);
    if all_durations(e) {
        lemma_four(b, at, x.duration->Some_0);
    }
    if all_sizes(e) {
        lemma_four(b, at + d.len(), x.size->Some_0);
    }
    if all_flags(e) {
        lemma_four(b, at + d.len() + s.len(), x.flags->Some_0);
    }
    if all_shifts(e) {
        lemma_four(b, at + d.len() + s.len() + f.len(), fields::bits32(x.cts->Some_0));
    }
}

proof fn lemma_sample_len(e: Seq<TrunEntry>, i: int)
    requires
        0 <= i < e.len(),
    ensures
        ({
            let c = fields::carried(e);
            let x = e[i];
            &&& fields::opt32(fields::kept(c.duration, x.duration)).len() == 4 * one(
                all_durations(e),
            )
            &&& fields::opt32(fields::kept(c.size, x.size)).len() == 4 * one(all_sizes(e))
            &&& fields::opt32(fields::kept(c.flags, x.flags)).len() == 4 * one(all_flags(e))
            &&& fields::opt32(fields::opt_bits(fields::kept(c.cts, x.cts))).len() == 4 * one(
                all_shifts(e),
            )
            &&& fields::entry_bytes(c)(x).len() == 4 * field_count(e)
        }),
{
    reveal(fields::opt32);
}

/// Items of one length stand at multiples of it.
proof fn lemma_strided<T>(s: Seq<T>, f: spec_fn(T) -> Seq<u8>, n: int, i: int)
    requires
        0 <= n,
        forall|k: int| 0 <= k < s.len() ==> f(#[trigger] s[k]).len() == n,
        0 <= i < s.len(),
    ensures
        boxes::run(s, f).len() == n * s.len(),
        n * i + n <= n * s.len(),
        0 <= n * i,
        boxes::run(s, f).subrange(n * i, n * i + n) == f(s[i]),
    decreases s.len(),
{
    let rest = s.drop_last();
    lemma_run_len(rest, f, n);
    let a = boxes::run(rest, f);
    let l = f(s.last());
    assert(s[s.len() - 1] == s.last());
    assert(n * s.len() == n * rest.len() + n) by (nonlinear_arith)
        requires
            s.len() == rest.len() + 1,
    ;
    assert(n * i + n <= n * s.len() && 0 <= n * i) by (nonlinear_arith)
        requires
            0 <= n,
            0 <= i < s.len(),
    ;
    if i == s.len() - 1 {
        assert(boxes::run(s, f).subrange(n * i, n * i + n) =~= l);
    } else {
        lemma_strided(rest, f, n, i);
        assert(rest[i] == s[i]);
        assert(boxes::run(s, f).subrange(n * i, n * i + n) =~= a.subrange(n * i, n * i + n));
    }
}

proof fn lemma_run_len<T>(s: Seq<T>, f: spec_fn(T) -> Seq<u8>, n: int)
    requires
        forall|k: int| 0 <= k < s.len() ==> f(#[trigger] s[k]).len() == n,
    ensures
        boxes::run(s, f).len() == n * s.len(),
    decreases s.len(),
{
    if s.len() > 0 {
        let rest = s.drop_last();
        assert(s[s.len() - 1] == s.last());
        lemma_run_len(rest, f, n);
        assert(n * s.len() == n * rest.len() + n) by (nonlinear_arith)
            requires
                s.len() == rest.len() + 1,
        ;
    } else {
        assert(n * s.len() == 0) by (nonlinear_arith)
            requires
                s.len() == 0,
        ;
    }
}

/// A run of samples where it is written.
#[verifier::spinoff_prover]
proof fn lemma_run(e: Seq<TrunEntry>, offset: i32, b: Seq<u8>, at: int)
    requires
        fragment::run_wire(e, offset) is Ok,
        lies(b, at, fragment::run_wire(e, offset)->Ok_0),
    ensures
        fragment::run_wire(e, offset)->Ok_0.len() == track_len(e) - 52,
        box_at(b, at, code('t', 'r', 'u', 'n'), track_len(e) - 52),
        n32(b, at + 8) == (if fields::any_negative(e) {
            0x100_0000int
        } else {
            0
        }) + 1 + 0x100 * one(all_durations(e)) + 0x200 * one(all_sizes(e)) + 0x400 * one(
            all_flags(e),
        ) + 0x800 * one(all_shifts(e)),
        n32(b, at + 12) == e.len() % 0x1_0000_0000,
        n32(b, at + 16) == two(offset as int),
        forall|i: int|
            0 <= i < e.len() ==> #[trigger] sample_at(b, at + 20 + 4 * field_count(e) * i, e, i),
{
    reveal(fragment::run_wire);
    assert(kinds::TRUN@ =~= code('t', 'r', 'u', 'n'));
    let c = fields::carried(e);
    let f = fields::entry_bytes(c);
    let n = 4 * field_count(e);
    let tail = boxes::run(e, f);
    let count = bytes::be32(boxes::count32(e.len()));
    let off = bytes::be32(fields::bits32(offset));
    let version: u8 = if fields::any_negative(e) {
        1
    } else {
        0
    };
    let flags = (1 + fields::flag(c.duration, 0x100) + fields::flag(c.size, 0x200) + fields::flag(
        c.flags,
        0x400,
    ) + fields::flag(c.cts, 0x800)) as u32;
    bytes::lemma_be32(boxes::count32(e.len()));
    bytes::lemma_be32(fields::bits32(offset));
    lemma_full(kinds::TRUN@, version, flags, count + off + tail, b, at);
    lemma_parts(b, at + 12, count + off, tail);
    lemma_parts(b, at + 12, count, off);
    lemma_four(b, at + 12, boxes::count32(e.len()));
    lemma_four(b, at + 16, fields::bits32(offset));
    lemma_samples(e, b, at + 20);
}

proof fn lemma_samples(e: Seq<TrunEntry>, b: Seq<u8>, at: int)
    requires
        lies(b, at, boxes::run(e, fields::entry_bytes(fields::carried(e)))),
    ensures
        boxes::run(e, fields::entry_bytes(fields::carried(e))).len() == 4 * field_count(e)
            * e.len(),
        forall|i: int|
            0 <= i < e.len() ==> #[trigger] sample_at(b, at + 4 * field_count(e) * i, e, i),
{
    let f = fields::entry_bytes(fields::carried(e));
    let n = 4 * field_count(e);
    let tail = boxes::run(e, f);
    assert forall|k: int| 0 <= k < e.len() implies f(#[trigger] e[k]).len() == n by {
        lemma_sample_len(e, k);
    }
    lemma_run_len(e, f, n);
    assert forall|i: int| 0 <= i < e.len() implies #[trigger] sample_at(
        b,
        at + 4 * field_count(e) * i,
        e,
        i,
    ) by {
        lemma_strided(e, f, n, i);
        lemma_inner(b, at, tail, n * i, n);
        lemma_sample(e, i, b, at + n * i);
    }
}

/// The header of a track fragment where it is written.
proof fn lemma_head(track_id: u32, duration: u32, b: Seq<u8>, at: int)
    requires
        lies(b, at, fragment::track_head(track_id, duration).wire()->Ok_0),
    ensures
        fragment::track_head(track_id, duration).wire() is Ok,
        fragment::track_head(track_id, duration).wire()->Ok_0.len() == 24,
        box_at(b, at, code('t', 'f', 'h', 'd'), 24),
        n32(b, at + 8) == 0x2_000A,
        n32(b, at + 12) == track_id,
        n32(b, at + 16) == 1,
        n32(b, at + 20) == duration,
{
    assert(kinds::TFHD@ =~= code('t', 'f', 'h', 'd'));
    let h = fragment::track_head(track_id, duration);
    let x = bytes::be32(track_id);
    let y = bytes::be32(1);
    let z = bytes::be32(duration);
    bytes::lemma_be32(track_id);
    bytes::lemma_be32(1);
    bytes::lemma_be32(duration);
    assert(h.full_body()->Ok_0 =~= x + y + z) by {
        reveal(fields::opt32);
        reveal(fields::opt64);
    }
    lemma_full(kinds::TFHD@, 0, h.flags_of(), x + y + z, b, at);
    lemma_parts(b, at + 12, x + y, z);
    lemma_parts(b, at + 12, x, y);
    lemma_four(b, at + 12, track_id);
    lemma_four(b, at + 16, 1);
    lemma_four(b, at + 20, duration);
}

/// The time of a track fragment where it is written.
proof fn lemma_time(time: u64, b: Seq<u8>, at: int)
    requires
        lies(b, at, (Tfdt { base_media_decode_time: time }).wire()->Ok_0),
    ensures
        (Tfdt { base_media_decode_time: time }).wire() is Ok,
        (Tfdt { base_media_decode_time: time }).wire()->Ok_0.len() == 20,
        box_at(b, at, code('t', 'f', 'd', 't'), 20),
        n32(b, at + 8) == 0x100_0000,
        n64(b, at + 12) == time,
{
    assert(kinds::TFDT@ =~= code('t', 'f', 'd', 't'));
    bytes::lemma_be64(time);
    lemma_full(kinds::TFDT@, 1, 0, bytes::be64(time), b, at);
    lemma_eight(b, at + 12, time);
}

/// A track fragment where it is written.
#[verifier::spinoff_prover]
proof fn lemma_track(
    track_id: u32,
    duration: u32,
    time: u64,
    e: Seq<TrunEntry>,
    offset: i32,
    b: Seq<u8>,
    at: int,
)
    requires
        fragment::traf_wire(track_id, duration, time, e, offset) is Ok,
        lies(b, at, fragment::traf_wire(track_id, duration, time, e, offset)->Ok_0),
    ensures
        fragment::traf_wire(track_id, duration, time, e, offset)->Ok_0.len() == track_len(e),
        track_at(b, at, track_id, duration, time, e, offset as int),
{
    reveal(fragment::traf_wire);
    assert(kinds::TRAF@ =~= code('t', 'r', 'a', 'f'));
    let hw = fragment::track_head(track_id, duration).wire();
    let tw = (Tfdt { base_media_decode_time: time }).wire();
    let rw = fragment::run_wire(e, offset);
    assert(hw is Ok && tw is Ok && rw is Ok);
    let h = hw->Ok_0;
    let t = tw->Ok_0;
    let r = rw->Ok_0;
    lemma_plain(kinds::TRAF@, h + t + r, b, at);
    lemma_parts(b, at + 8, h + t, r);
    lemma_parts(b, at + 8, h, t);
    lemma_head(track_id, duration, b, at + 8);
    lemma_time(time, b, at + 32);
    lemma_run(e, offset, b, at + 52);
    assert forall|i: int| 0 <= i < e.len() implies #[trigger] sample_at(
        b,
        at + 72 + 4 * field_count(e) * i,
        e,
        i,
    ) by {
        assert(sample_at(b, at + 52 + 20 + 4 * field_count(e) * i, e, i));
    }
}

/// A movie fragment stands at `at`: its header has the number of the fragment, and its
/// track fragments follow.
pub open spec fn movie_at(b: Seq<u8>, at: int, sequence: u32, len: int) -> bool {
    &&& box_at(b, at, code('m', 'o', 'o', 'f'), len)
    &&& box_at(b, at + 8, code('m', 'f', 'h', 'd'), 16)
    &&& n32(b, at + 16) == 0
    &&& n32(b, at + 20) == sequence
}

#[verifier::spinoff_prover]
proof fn lemma_movie(sequence: u32, trafs: Seq<u8>, b: Seq<u8>, at: int)
    requires
        fragment::moof_wire(sequence, Ok(trafs)) is Ok,
        lies(b, at, fragment::moof_wire(sequence, Ok(trafs))->Ok_0),
    ensures
        fragment::moof_wire(sequence, Ok(trafs))->Ok_0.len() == 24 + trafs.len(),
        movie_at(b, at, sequence, 24int + trafs.len()),
        lies(b, at + 24, trafs),
{
    assert(kinds::MOOF@ =~= code('m', 'o', 'o', 'f'));
    assert(kinds::MFHD@ =~= code('m', 'f', 'h', 'd'));
    let hw = (Mfhd { sequence_number: sequence }).wire();
    assert(hw is Ok);
    let h = hw->Ok_0;
    bytes::lemma_be32(sequence);
    lemma_plain(kinds::MOOF@, h + trafs, b, at);
    lemma_parts(b, at + 8, h, trafs);
    lemma_full(kinds::MFHD@, 0, 0, bytes::be32(sequence), b, at + 8);
    lemma_four(b, at + 20, sequence);
}

/// Segment brands start at the front: the box names its brand and the two that it is
/// compatible with.
pub open spec fn brands_at_front(b: Seq<u8>) -> bool {
    &&& box_at(b, 0, code('s', 't', 'y', 'p'), 24)
    &&& b.subrange(8, 12) == code('m', 's', 'd', 'h')
    &&& n32(b, 12) == 0
    &&& b.subrange(16, 20) == code('m', 's', 'd', 'h')
    &&& b.subrange(20, 24) == code('m', 's', 'i', 'x')
}

proof fn lemma_brands(b: Seq<u8>)
    requires
        lies(b, 0, fragment::segment_brands()->Ok_0),
    ensures
        fragment::segment_brands() is Ok,
        fragment::segment_brands()->Ok_0.len() == 24,
        brands_at_front(b),
{
    reveal_with_fuel(boxes::run, 3);
    assert(kinds::STYP@ =~= code('s', 't', 'y', 'p'));
    assert(kinds::MSDH@ =~= code('m', 's', 'd', 'h'));
    assert(kinds::MSIX@ =~= code('m', 's', 'i', 'x'));
    let list = seq![FourCC(kinds::MSDH), FourCC(kinds::MSIX)];
    let body = fields::brands_body(FourCC(kinds::MSDH), 0, list);
    assert(list.drop_last() =~= seq![FourCC(kinds::MSDH)]);
    assert(list.drop_last().drop_last() =~= Seq::empty());
    let z = bytes::be32(0);
    bytes::lemma_be32(0);
    assert(body =~= kinds::MSDH@ + z + kinds::MSDH@ + kinds::MSIX@);
    assert(fragment::segment_brands() == boxes::boxed(kinds::STYP@, Ok(body)));
    lemma_plain(kinds::STYP@, body, b, 0);
    lemma_parts(b, 8, kinds::MSDH@ + z + kinds::MSDH@, kinds::MSIX@);
    lemma_parts(b, 8, kinds::MSDH@ + z, kinds::MSDH@);
    lemma_parts(b, 8, kinds::MSDH@, z);
    lemma_four(b, 12, 0);
    reveal(lies);
}

/// The media data starts at `at` and ends the fragment.
pub open spec fn data_at(b: Seq<u8>, at: int, data: Seq<u8>) -> bool {
    &&& box_at(b, at, code('m', 'd', 'a', 't'), 8int + data.len())
    &&& b.skip(at + 8) == data
}

proof fn lemma_data(front: Seq<u8>, data: Seq<u8>)
    requires
        fragment::data_wire(data) is Ok,
    ensures
        data_at(front + fragment::data_wire(data)->Ok_0, front.len() as int, data),
{
    assert(kinds::MDAT@ =~= code('m', 'd', 'a', 't'));
    let w = fragment::data_wire(data)->Ok_0;
    let b = front + w;
    lemma_lies_whole(b);
    lemma_parts(b, 0, front, w);
    lemma_plain(kinds::MDAT@, data, b, front.len() as int);
    assert(b.skip(front.len() as int + 8) =~= data) by {
        reveal(lies);
    }
}

/// Where the movie fragment starts: behind the brands of a segment, if it starts one.
pub open spec fn movie_start(segment: bool) -> int {
    if segment {
        24
    } else {
        0
    }
}

/// How long a movie fragment of one track is.
proof fn lemma_single_len(e: Seq<TrunEntry>, sequence: u32, time: u64, duration: u32, offset: i32)
    requires
        fragment::single_moof(sequence, e, time, duration, offset) is Ok,
    ensures
        fragment::traf_wire(1, duration, time, e, offset) is Ok,
        fragment::single_moof(sequence, e, time, duration, offset)->Ok_0.len() == 24 + track_len(e),
{
    let z = fragment::traf_wire(1, duration, time, e, offset)->Ok_0;
    let m = fragment::single_moof(sequence, e, time, duration, offset)->Ok_0;
    lemma_lies_whole(z);
    lemma_track(1, duration, time, e, offset, z, 0);
    lemma_lies_whole(m);
    lemma_movie(sequence, z, m, 0);
}

/// The parts of a fragment of one track.
proof fn lemma_single_parts(
    data: Seq<u8>,
    e: Seq<TrunEntry>,
    sequence: u32,
    time: u64,
    duration: u32,
    segment: bool,
)
    requires
        fragment::single_fragment(data, e, sequence, time, duration, segment) is Ok,
        32 + track_len(e) <= i32::MAX,
    ensures
        ({
            let b = fragment::single_fragment(data, e, sequence, time, duration, segment)->Ok_0;
            let m = fragment::single_moof(
                sequence,
                e,
                time,
                duration,
                (32 + track_len(e)) as i32,
            );
            let d = fragment::data_wire(data);
            let front = if segment {
                fragment::segment_brands()->Ok_0
            } else {
                Seq::empty()
            };
            &&& m is Ok
            &&& d is Ok
            &&& b == front + m->Ok_0 + d->Ok_0
        }),
{
    let m0 = fragment::single_moof(sequence, e, time, duration, 0);
    assert(m0 is Ok);
    lemma_single_len(e, sequence, time, duration, 0);
    assert(fragment::low_i32(m0->Ok_0.len()) == 24 + track_len(e));
}

proof fn lemma_single_movie(
    b: Seq<u8>,
    at: int,
    e: Seq<TrunEntry>,
    sequence: u32,
    time: u64,
    duration: u32,
    offset: i32,
)
    requires
        fragment::single_moof(sequence, e, time, duration, offset) is Ok,
        lies(b, at, fragment::single_moof(sequence, e, time, duration, offset)->Ok_0),
    ensures
        movie_at(b, at, sequence, 24 + track_len(e)),
        track_at(b, at + 24, 1, duration, time, e, offset as int),
{
    lemma_single_len(e, sequence, time, duration, offset);
    let t = fragment::traf_wire(1, duration, time, e, offset)->Ok_0;
    lemma_movie(sequence, t, b, at);
    lemma_track(1, duration, time, e, offset, b, at + 24);
}

/// A fragment of one track is the brands of a segment, if it starts one, the movie fragment
/// and the data. The movie fragment has the number of the fragment, the time of its first
/// sample and the default duration that were given, track 1, the samples that were given,
/// and the offset at which the data starts.
#[verifier::spinoff_prover]
pub proof fn law_fragment_says_what_was_given(
    data: Seq<u8>,
    e: Seq<TrunEntry>,
    sequence: u32,
    time: u64,
    duration: u32,
    segment: bool,
)
    requires
        fragment::single_fragment(data, e, sequence, time, duration, segment) is Ok,
        32 + track_len(e) <= i32::MAX,
    ensures
        ({
            let b = fragment::single_fragment(data, e, sequence, time, duration, segment)->Ok_0;
            let at = movie_start(segment);
            let len = 24 + track_len(e);
            &&& segment ==> brands_at_front(b)
            &&& movie_at(b, at, sequence, len)
            &&& track_at(b, at + 24, 1, duration, time, e, len + 8)
            &&& data_at(b, at + len, data)
        }),
{
    let offset = (32 + track_len(e)) as i32;
    let b = fragment::single_fragment(data, e, sequence, time, duration, segment)->Ok_0;
    let m = fragment::single_moof(sequence, e, time, duration, offset)->Ok_0;
    let d = fragment::data_wire(data)->Ok_0;
    let front = if segment {
        fragment::segment_brands()->Ok_0
    } else {
        Seq::empty()
    };
    lemma_single_parts(data, e, sequence, time, duration, segment);
    lemma_single_len(e, sequence, time, duration, offset);
    lemma_lies_whole(b);
    lemma_parts(b, 0, front + m, d);
    lemma_parts(b, 0, front, m);
    if segment {
        lemma_brands(b);
    }
    assert(front.len() == movie_start(segment));
    lemma_single_movie(b, movie_start(segment), e, sequence, time, duration, offset);
    lemma_data(front + m, data);
}

/// A run of samples whose length fits its field can be written.
proof fn lemma_run_fits(e: Seq<TrunEntry>, offset: i32)
    requires
        32 + track_len(e) <= i32::MAX,
    ensures
        fragment::run_wire(e, offset) is Ok,
        fragment::run_wire(e, offset)->Ok_0.len() == 20 + 4 * field_count(e) * e.len(),
{
    reveal(fragment::run_wire);
    let tail = boxes::run(e, fields::entry_bytes(fields::carried(e)));
    lemma_lies_whole(tail);
    lemma_samples(e, tail, 0);
    bytes::lemma_be32(boxes::count32(e.len()));
    bytes::lemma_be32(fields::bits32(offset));
}

/// Boxes in a box can be written if their lengths fit.
proof fn lemma_three_fit(kind: Seq<u8>, a: Wire, b: Wire, c: Wire)
    requires
        kind.len() == 4,
        a is Ok,
        b is Ok,
        c is Ok,
        a->Ok_0.len() + b->Ok_0.len() + c->Ok_0.len() + 8 <= u32::MAX,
    ensures
        boxes::boxed(kind, boxes::joined(boxes::joined(a, b), c)) is Ok,
        boxes::boxed(kind, boxes::joined(boxes::joined(a, b), c))->Ok_0.len() == 8 + a->Ok_0.len()
            + b->Ok_0.len() + c->Ok_0.len(),
{
    bytes::lemma_be32((a->Ok_0.len() + b->Ok_0.len() + c->Ok_0.len() + 8) as u32);
}

proof fn lemma_two_fit(kind: Seq<u8>, a: Wire, b: Wire)
    requires
        a is Ok,
        b is Ok,
        a->Ok_0.len() + b->Ok_0.len() + 8 <= u32::MAX,
    ensures
        boxes::boxed(kind, boxes::joined(a, b)) is Ok,
{
}

proof fn lemma_head_fits(duration: u32)
    ensures
        fragment::track_head(1, duration).wire() is Ok,
        fragment::track_head(1, duration).wire()->Ok_0.len() == 24,
{
    let head = fragment::track_head(1, duration).wire()->Ok_0;
    lemma_lies_whole(head);
    lemma_head(1, duration, head, 0);
}

proof fn lemma_time_fits(time: u64)
    ensures
        (Tfdt { base_media_decode_time: time }).wire() is Ok,
        (Tfdt { base_media_decode_time: time }).wire()->Ok_0.len() == 20,
{
    let clock = (Tfdt { base_media_decode_time: time }).wire()->Ok_0;
    lemma_lies_whole(clock);
    lemma_time(time, clock, 0);
}

proof fn lemma_number_fits(sequence: u32)
    ensures
        (Mfhd { sequence_number: sequence }).wire() is Ok,
        (Mfhd { sequence_number: sequence }).wire()->Ok_0.len() == 16,
{
    bytes::lemma_be32(sequence);
    bytes::lemma_be32(16);
}

#[verifier::spinoff_prover]
proof fn lemma_track_fits(e: Seq<TrunEntry>, time: u64, duration: u32, offset: i32)
    requires
        32 + track_len(e) <= i32::MAX,
    ensures
        fragment::traf_wire(1, duration, time, e, offset) matches Ok(x) && x.len() == track_len(e),
{
    reveal(fragment::traf_wire);
    lemma_run_fits(e, offset);
    lemma_head_fits(duration);
    lemma_time_fits(time);
    lemma_three_fit(
        kinds::TRAF@,
        fragment::track_head(1, duration).wire(),
        (Tfdt { base_media_decode_time: time }).wire(),
        fragment::run_wire(e, offset),
    );
}

#[verifier::spinoff_prover]
proof fn lemma_movie_fits(e: Seq<TrunEntry>, sequence: u32, time: u64, duration: u32, offset: i32)
    requires
        32 + track_len(e) <= i32::MAX,
    ensures
        fragment::single_moof(sequence, e, time, duration, offset) is Ok,
{
    lemma_track_fits(e, time, duration, offset);
    lemma_number_fits(sequence);
    lemma_two_fit(
        kinds::MOOF@,
        (Mfhd { sequence_number: sequence }).wire(),
        fragment::traf_wire(1, duration, time, e, offset),
    );
}

/// A fragment of one track is written whenever its movie fragment and its data have lengths
/// that fit their fields.
pub proof fn law_fragment_is_written(
    data: Seq<u8>,
    e: Seq<TrunEntry>,
    sequence: u32,
    time: u64,
    duration: u32,
    segment: bool,
)
    requires
        32 + track_len(e) <= i32::MAX,
        data.len() + 8 <= u32::MAX,
    ensures
        fragment::single_fragment(data, e, sequence, time, duration, segment) is Ok,
{
    let offset = (32 + track_len(e)) as i32;
    lemma_movie_fits(e, sequence, time, duration, 0);
    lemma_movie_fits(e, sequence, time, duration, offset);
    lemma_single_len(e, sequence, time, duration, 0);
    if segment {
        reveal_with_fuel(boxes::run, 3);
        bytes::lemma_be32(0);
    }
}

/// How long the track fragments of these tracks are.
pub open spec fn tracks_len(tracks: Seq<FragmentTrack>) -> int
    decreases tracks.len(),
{
    if tracks.len() == 0 {
        0
    } else {
        tracks_len(tracks.drop_last()) + track_len(tracks.last().trun_entries@)
    }
}

/// How many bytes of data these tracks have.
pub open spec fn data_len(tracks: Seq<FragmentTrack>) -> int
    decreases tracks.len(),
{
    if tracks.len() == 0 {
        0
    } else {
        data_len(tracks.drop_last()) + tracks.last().sample_data@.len()
    }
}

proof fn lemma_lens(tracks: Seq<FragmentTrack>, base: Option<i32>)
    requires
        fragment::trafs_wire(tracks, base) is Ok,
    ensures
        fragment::trafs_wire(tracks, base)->Ok_0.len() == tracks_len(tracks),
    decreases tracks.len(),
{
    if tracks.len() > 0 {
        let t = tracks.last();
        lemma_lens(tracks.drop_last(), base);
        let offset = match base {
            Some(b) => (b + fragment::data_before(tracks.drop_last())) as i32,
            None => 0,
        };
        let w = fragment::traf_wire(
            t.track_id,
            t.default_sample_duration,
            t.base_decode_time,
            t.trun_entries@,
            offset,
        )->Ok_0;
        lemma_lies_whole(w);
        lemma_track(
            t.track_id,
            t.default_sample_duration,
            t.base_decode_time,
            t.trun_entries@,
            offset,
            w,
            0,
        );
    }
}

/// How long the data of tracks is.
proof fn lemma_data_len(tracks: Seq<FragmentTrack>)
    ensures
        fragment::data_of(tracks).len() == data_len(tracks),
        0 <= data_len(tracks),
        data_len(tracks) <= i32::MAX ==> fragment::data_before(tracks) == data_len(tracks),
    decreases tracks.len(),
{
    if tracks.len() > 0 {
        lemma_data_len(tracks.drop_last());
    }
}

proof fn lemma_data_grows(tracks: Seq<FragmentTrack>, k: int)
    requires
        0 <= k <= tracks.len(),
    ensures
        0 <= data_len(tracks.take(k)) <= data_len(tracks),
    decreases tracks.len() - k,
{
    if k == tracks.len() {
        assert(tracks.take(k) =~= tracks);
        lemma_data_len(tracks);
    } else {
        lemma_data_grows(tracks, k + 1);
        assert(tracks.take(k + 1).drop_last() =~= tracks.take(k));
        lemma_data_len(tracks.take(k));
    }
}

/// The track fragment of track `k` among those of all tracks.
proof fn lemma_tracks(tracks: Seq<FragmentTrack>, base: i32, k: int, b: Seq<u8>, at: int)
    requires
        fragment::trafs_wire(tracks, Some(base)) is Ok,
        0 <= k < tracks.len(),
        0 <= base,
        base + data_len(tracks) <= i32::MAX,
        lies(b, at, fragment::trafs_wire(tracks, Some(base))->Ok_0),
    ensures
        track_at(
            b,
            at + tracks_len(tracks.take(k)),
            tracks[k].track_id,
            tracks[k].default_sample_duration,
            tracks[k].base_decode_time,
            tracks[k].trun_entries@,
            base + data_len(tracks.take(k)),
        ),
    decreases tracks.len(),
{
    let rest = tracks.drop_last();
    let t = tracks.last();
    let r = fragment::trafs_wire(rest, Some(base))->Ok_0;
    lemma_lens(rest, Some(base));
    lemma_data_len(rest);
    lemma_data_grows(tracks, k);
    let before = fragment::data_before(rest);
    let offset = (base + before) as i32;
    let last = fragment::traf_wire(
        t.track_id,
        t.default_sample_duration,
        t.base_decode_time,
        t.trun_entries@,
        offset,
    )->Ok_0;
    lemma_parts(b, at, r, last);
    if k == tracks.len() - 1 {
        assert(tracks.take(k) =~= rest);
        lemma_track(
            t.track_id,
            t.default_sample_duration,
            t.base_decode_time,
            t.trun_entries@,
            offset,
            b,
            at + r.len(),
        );
    } else {
        assert(rest.take(k) =~= tracks.take(k));
        assert(rest[k] == tracks[k]);
        lemma_tracks(rest, base, k, b, at);
    }
}

/// How long a movie fragment of several tracks is.
proof fn lemma_joint_len(tracks: Seq<FragmentTrack>, sequence: u32, base: Option<i32>)
    requires
        fragment::moof_wire(sequence, fragment::trafs_wire(tracks, base)) is Ok,
    ensures
        fragment::trafs_wire(tracks, base) is Ok,
        fragment::moof_wire(sequence, fragment::trafs_wire(tracks, base))->Ok_0.len() == 24
            + tracks_len(tracks),
{
    let z = fragment::trafs_wire(tracks, base)->Ok_0;
    let m = fragment::moof_wire(sequence, fragment::trafs_wire(tracks, base))->Ok_0;
    lemma_lens(tracks, base);
    lemma_lies_whole(m);
    lemma_movie(sequence, z, m, 0);
}

/// The parts of a fragment of several tracks.
proof fn lemma_joint_parts(tracks: Seq<FragmentTrack>, sequence: u32)
    requires
        tracks.len() > 0,
        fragment::joint_fragment(tracks, sequence) is Ok,
        32 + tracks_len(tracks) <= i32::MAX,
    ensures
        ({
            let b = fragment::joint_fragment(tracks, sequence)->Ok_0;
            let m = fragment::moof_wire(
                sequence,
                fragment::trafs_wire(tracks, Some((32 + tracks_len(tracks)) as i32)),
            );
            let d = fragment::data_wire(fragment::data_of(tracks));
            &&& m is Ok
            &&& d is Ok
            &&& b == fragment::segment_brands()->Ok_0 + m->Ok_0 + d->Ok_0
        }),
{
    let m0 = fragment::moof_wire(sequence, fragment::trafs_wire(tracks, None));
    assert(m0 is Ok);
    lemma_joint_len(tracks, sequence, None);
    assert(fragment::low_i32(m0->Ok_0.len()) == 24 + tracks_len(tracks));
}

proof fn lemma_tracks_len(tracks: Seq<FragmentTrack>)
    ensures
        0 <= tracks_len(tracks),
    decreases tracks.len(),
{
    if tracks.len() > 0 {
        lemma_tracks_len(tracks.drop_last());
        let e = tracks.last().trun_entries@;
        assert(4 * field_count(e) * e.len() >= 0) by (nonlinear_arith)
            requires
                field_count(e) >= 0,
        ;
    }
}

/// A fragment of several tracks is the brands of a segment, the movie fragment and the
/// data. The movie fragment has the number of the fragment and, for each track in turn, its
/// identity, the time of its first sample, its default duration, its samples, and the
/// offset at which its data starts.
#[verifier::spinoff_prover]
pub proof fn law_joint_fragment_says_what_was_given(
    tracks: Seq<FragmentTrack>,
    sequence: u32,
    k: int,
)
    requires
        0 <= k < tracks.len(),
        fragment::joint_fragment(tracks, sequence) is Ok,
        32 + tracks_len(tracks) + data_len(tracks) <= i32::MAX,
    ensures
        ({
            let b = fragment::joint_fragment(tracks, sequence)->Ok_0;
            let len = 24 + tracks_len(tracks);
            &&& brands_at_front(b)
            &&& movie_at(b, 24, sequence, len)
            &&& track_at(
                b,
                48 + tracks_len(tracks.take(k)),
                tracks[k].track_id,
                tracks[k].default_sample_duration,
                tracks[k].base_decode_time,
                tracks[k].trun_entries@,
                len + 8 + data_len(tracks.take(k)),
            )
            &&& data_at(b, 24 + len, fragment::data_of(tracks))
            &&& b.subrange(
                24 + len + 8 + data_len(tracks.take(k)),
                24 + len + 8 + data_len(tracks.take(k)) + tracks[k].sample_data@.len(),
            ) == tracks[k].sample_data@
        }),
{
    let base = (32 + tracks_len(tracks)) as i32;
    let len = 24 + tracks_len(tracks);
    let b = fragment::joint_fragment(tracks, sequence)->Ok_0;
    let tw = fragment::trafs_wire(tracks, Some(base));
    let m = fragment::moof_wire(sequence, tw)->Ok_0;
    let all = fragment::data_of(tracks);
    let d = fragment::data_wire(all)->Ok_0;
    let front = fragment::segment_brands()->Ok_0;
    lemma_tracks_len(tracks);
    lemma_data_len(tracks);
    lemma_joint_parts(tracks, sequence);
    lemma_joint_len(tracks, sequence, Some(base));
    lemma_lies_whole(b);
    lemma_parts(b, 0, front + m, d);
    lemma_parts(b, 0, front, m);
    lemma_brands(b);
    lemma_lens(tracks, Some(base));
    lemma_movie(sequence, tw->Ok_0, b, 24);
    lemma_tracks(tracks, base, k, b, 48);
    lemma_data(front + m, all);
    lemma_joint_data(tracks, b, 32 + len, k);
}

/// The data of track `k` in the data of all.
proof fn lemma_joint_data(tracks: Seq<FragmentTrack>, b: Seq<u8>, o: int, k: int)
    requires
        0 <= k < tracks.len(),
        0 <= o <= b.len(),
        b.skip(o) == fragment::data_of(tracks),
    ensures
        b.subrange(
            o + data_len(tracks.take(k)),
            o + data_len(tracks.take(k)) + tracks[k].sample_data@.len(),
        ) == tracks[k].sample_data@,
{
    let all = fragment::data_of(tracks);
    lemma_data_part(tracks, k);
    let p = data_len(tracks.take(k));
    let n = tracks[k].sample_data@.len();
    assert(b.subrange(o + p, o + p + n) =~= all.subrange(p, p + n)) by {
        assert forall|i: int| 0 <= i < n implies #[trigger] b.subrange(o + p, o + p + n)[i]
            == all.subrange(p, p + n)[i] by {
            assert(b.skip(o)[p + i] == all[p + i]);
        }
    }
}

proof fn lemma_data_part(tracks: Seq<FragmentTrack>, k: int)
    requires
        0 <= k < tracks.len(),
    ensures
        0 <= data_len(tracks.take(k)),
        data_len(tracks.take(k)) + tracks[k].sample_data@.len() <= fragment::data_of(tracks).len(),
        fragment::data_of(tracks).subrange(
            data_len(tracks.take(k)),
            data_len(tracks.take(k)) + tracks[k].sample_data@.len(),
        ) == tracks[k].sample_data@,
    decreases tracks.len(),
{
    let rest = tracks.drop_last();
    let last = tracks.last().sample_data@;
    let p = data_len(tracks.take(k));
    let n = tracks[k].sample_data@.len();
    lemma_data_len(rest);
    lemma_data_len(tracks.take(k));
    assert(fragment::data_of(tracks) == fragment::data_of(rest) + last);
    if k == tracks.len() - 1 {
        assert(tracks.take(k) =~= rest);
        assert(fragment::data_of(tracks).subrange(p, p + n) =~= last);
    } else {
        lemma_data_part(rest, k);
        assert(rest.take(k) =~= tracks.take(k));
        assert(fragment::data_of(tracks).subrange(p, p + n) =~= fragment::data_of(rest).subrange(
            p,
            p + n,
        ));
    }
}

} // verus!
