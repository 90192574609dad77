//! What the boxes of a track mean for the track and for its samples.

use crate::bytes;
use crate::isobmff::demux;
use crate::isobmff::demux::sample;
use crate::isobmff::demux::sample::{Plan, SampleLocation};
use crate::isobmff::demux::{Child, Fault};
use crate::isobmff::parse::boxed::code;
use crate::isobmff::parse::listed::{
    chunk_size, n32, n64, run_start, run_total, run_value, samples_before,
};
use vstd::prelude::*;

verus! {

/// Among boxes there is one of a kind, and this is its body.
pub open spec fn alone(a: Seq<Child>, kind: Seq<u8>, data: Seq<u8>) -> bool {
    exists|i: int| #[trigger] alone_at(a, kind, data, i)
}

/// The box with number `i` is the one of its kind, and this is its body.
pub open spec fn alone_at(a: Seq<Child>, kind: Seq<u8>, data: Seq<u8>, i: int) -> bool {
    &&& 0 <= i < a.len()
    &&& a[i].kind == kind
    &&& a[i].data == data
    &&& forall|j: int| 0 <= j < a.len() && j != i ==> (#[trigger] a[j]).kind != kind
}

/// Among boxes there is none of a kind.
pub open spec fn absent(a: Seq<Child>, kind: Seq<u8>) -> bool {
    forall|j: int| 0 <= j < a.len() ==> (#[trigger] a[j]).kind != kind
}

proof fn lemma_absent(a: Seq<Child>, kind: Seq<u8>)
    requires
        absent(a, kind),
    ensures
        demux::found(a, kind) == Seq::<Seq<u8>>::empty(),
    decreases a.len(),
{
    if a.len() > 0 {
        assert(a.last() == a[a.len() - 1]);
        assert forall|j: int| 0 <= j < a.drop_last().len() implies (#[trigger] a.drop_last()[j]).kind
            != kind by {
            assert(a.drop_last()[j] == a[j]);
        }
        lemma_absent(a.drop_last(), kind);
    }
}

proof fn lemma_alone_at(a: Seq<Child>, kind: Seq<u8>, data: Seq<u8>, i: int)
    requires
        alone_at(a, kind, data, i),
    ensures
        demux::found(a, kind) == seq![data],
    decreases a.len(),
{
    let rest = a.drop_last();
    assert forall|j: int| 0 <= j < rest.len() implies #[trigger] rest[j] == a[j] by {}
    if i == a.len() - 1 {
        lemma_absent(rest, kind);
        assert(demux::found(a, kind) =~= seq![data]);
    } else {
        assert(a.last() == a[a.len() - 1]);
        assert(rest[i] == a[i]);
        lemma_alone_at(rest, kind, data, i);
    }
}

pub(crate) proof fn lemma_alone(a: Seq<Child>, kind: Seq<u8>, data: Seq<u8>)
    requires
        alone(a, kind, data),
    ensures
        demux::only(a, kind) == Ok::<Option<Seq<u8>>, Fault>(Some(data)),
        demux::sole(a, kind) == Ok::<Seq<u8>, Fault>(data),
{
    let i = choose|i: int| #[trigger] alone_at(a, kind, data, i);
    lemma_alone_at(a, kind, data, i);
}

pub(crate) proof fn lemma_none(a: Seq<Child>, kind: Seq<u8>)
    requires
        absent(a, kind),
    ensures
        demux::only(a, kind) == Ok::<Option<Seq<u8>>, Fault>(None),
{
    lemma_absent(a, kind);
}

proof fn lemma_agree(b: Seq<u8>, i: int)
    ensures
        bytes::get32(b, i) == n32(b, i),
        bytes::get64(b, i) == n64(b, i),
{
}

/// A number behind the first bytes.
proof fn lemma_behind(b: Seq<u8>, k: int, i: int)
    requires
        0 <= k,
        0 <= i,
        k + i + 8 <= b.len(),
    ensures
        n32(b.skip(k), i) == n32(b, k + i),
        n64(b.skip(k), i) == n64(b, k + i),
{
    let s = b.skip(k);
    assert forall|j: int| 0 <= j < s.len() implies #[trigger] s[j] == b[k + j] by {}
}

proof fn lemma_short_behind(b: Seq<u8>, k: int, i: int)
    requires
        0 <= k,
        0 <= i,
        k + i + 4 <= b.len(),
    ensures
        n32(b.skip(k), i) == n32(b, k + i),
{
    let s = b.skip(k);
    assert forall|j: int| 0 <= j < s.len() implies #[trigger] s[j] == b[k + j] by {}
}

/// The codes of the tables.
proof fn lemma_codes()
    ensures
        crate::isobmff::boxes::kinds::STSZ@ == code('s', 't', 's', 'z'),
        crate::isobmff::boxes::kinds::STTS@ == code('s', 't', 't', 's'),
        crate::isobmff::boxes::kinds::STSC@ == code('s', 't', 's', 'c'),
        crate::isobmff::boxes::kinds::STCO@ == code('s', 't', 'c', 'o'),
        crate::isobmff::boxes::kinds::CO64@ == code('c', 'o', '6', '4'),
{
    assert(crate::isobmff::boxes::kinds::STSZ@ =~= code('s', 't', 's', 'z'));
    assert(crate::isobmff::boxes::kinds::STTS@ =~= code('s', 't', 't', 's'));
    assert(crate::isobmff::boxes::kinds::STSC@ =~= code('s', 't', 's', 'c'));
    assert(crate::isobmff::boxes::kinds::STCO@ =~= code('s', 't', 'c', 'o'));
    assert(crate::isobmff::boxes::kinds::CO64@ =~= code('c', 'o', '6', '4'));
}

proof fn lemma_spread(t: Seq<(u64, u32)>, d: u32, k: nat)
    ensures
        ({
            let r = sample::spread(t, d, k);
            &&& r.len() == t.len() + k
            &&& r.take(t.len() as int) == t
            &&& forall|i: int| t.len() <= i < r.len() ==> (#[trigger] r[i]).1 == d
        }),
    decreases k,
{
    if k == 0 {
        assert(t.take(t.len() as int) =~= t);
    } else {
        lemma_spread(t, d, (k - 1) as nat);
        let s = sample::spread(t, d, (k - 1) as nat);
        let r = sample::spread(t, d, k);
        assert(r.take(t.len() as int) =~= s.take(t.len() as int));
    }
}

/// The runs of a table of times are those of its entries.
proof fn lemma_timings(b: Seq<u8>, n: nat)
    requires
        b.len() >= 8 + 8 * n,
        sample::timings_of(b.skip(8), n) is Ok,
    ensures
        ({
            let t = sample::timings_of(b.skip(8), n)->Ok_0;
            &&& t.len() == run_total(b, n as int)
            &&& forall|k: int, i: int|
                #![trigger run_total(b, k), t[i]]
                0 <= k < n && run_total(b, k) <= i < run_total(b, k + 1) ==> t[i].1 == n32(
                    b,
                    12 + 8 * k,
                )
        }),
    decreases n,
{
    if n > 0 {
        let m = n - 1;
        lemma_timings(b, m as nat);
        let s = b.skip(8);
        lemma_agree(s, m * 8);
        lemma_agree(s, m * 8 + 4);
        lemma_short_behind(b, 8, m * 8);
        lemma_short_behind(b, 8, m * 8 + 4);
        let before = sample::timings_of(s, m as nat)->Ok_0;
        let t = sample::timings_of(s, n)->Ok_0;
        lemma_spread(before, bytes::get32(s, m * 8 + 4), bytes::get32(s, m * 8) as nat);
        assert forall|k: int, i: int|
            #![trigger run_total(b, k), t[i]]
            0 <= k < n && run_total(b, k) <= i < run_total(b, k + 1) implies t[i].1 == n32(
            b,
            12 + 8 * k,
        ) by {
            lemma_totals(b, k);
            if k < m {
                lemma_totals_grow(b, k + 1, m);
                assert(t.take(before.len() as int)[i] == before[i]);
            }
        }
    }
}

proof fn lemma_totals(b: Seq<u8>, k: int)
    ensures
        run_total(b, k) >= 0,
    decreases k,
{
    if k > 0 {
        lemma_totals(b, k - 1);
    }
}

proof fn lemma_totals_grow(b: Seq<u8>, k: int, n: int)
    requires
        0 <= k <= n,
    ensures
        run_total(b, k) <= run_total(b, n),
    decreases n,
{
    if k < n {
        lemma_totals_grow(b, k, n - 1);
    }
}

proof fn lemma_entry_of(b: Seq<u8>, n: int, i: int) -> (k: int)
    requires
        0 <= n,
        0 <= i < run_total(b, n),
    ensures
        0 <= k < n,
        run_total(b, k) <= i < run_total(b, k + 1),
    decreases n,
{
    if i >= run_total(b, n - 1) {
        n - 1
    } else {
        lemma_entry_of(b, n - 1, i)
    }
}

/// The runs of chunks are those of the table's entries.
proof fn lemma_mapping(b: Seq<u8>, chunks: u32, n: nat)
    requires
        b.len() >= 8 + 12 * n,
        sample::mapping_of(b.skip(8), chunks, n) is Ok,
    ensures
        ({
            let m = sample::mapping_of(b.skip(8), chunks, n)->Ok_0;
            &&& m.len() == n
            &&& forall|j: int|
                0 <= j < n ==> (#[trigger] m[j]).0 == run_start(b, j) && m[j].1 == n32(
                    b,
                    12 + 12 * j,
                ) && m[j].1 > 0
        }),
    decreases n,
{
    if n > 0 {
        let k = n - 1;
        lemma_mapping(b, chunks, k as nat);
        let s = b.skip(8);
        lemma_agree(s, k * 12);
        lemma_agree(s, k * 12 + 4);
        lemma_short_behind(b, 8, k * 12);
        lemma_short_behind(b, 8, k * 12 + 4);
    }
}

/// The run that a chunk is in says how many samples it has.
proof fn lemma_per_chunk(b: Seq<u8>, m: Seq<(u32, u32)>, chunk: int, n: int)
    requires
        0 <= chunk,
        1 <= n <= m.len(),
        m[0].0 == 1,
        forall|j: int|
            0 <= j < m.len() ==> (#[trigger] m[j]).0 == run_start(b, j) && m[j].1 == n32(
                b,
                12 + 12 * j,
            ) && m[j].1 > 0,
    ensures
        0 <= sample::run_of(m, chunk, n) < n,
        m[sample::run_of(m, chunk, n)].1 == chunk_size(b, n, chunk + 1),
    decreases n,
{
    assert(m[n - 1].0 == run_start(b, n - 1));
    if n > 1 {
        lemma_per_chunk(b, m, chunk, n - 1);
    }
}

proof fn lemma_fill(p: Plan, out: Seq<SampleLocation>, offset: u64, k: nat)
    ensures
        p.fill(out, offset, k) matches Ok(r) ==> {
            &&& r.len() == out.len() + k
            &&& r.take(out.len() as int) == out
            &&& k > 0 ==> r[out.len() as int].offset == offset
            &&& forall|i: int|
                out.len() <= i < r.len() - 1 ==> (#[trigger] r[i + 1]).offset == r[i].offset
                    + r[i].size
            &&& forall|i: int|
                out.len() <= i < r.len() ==> (#[trigger] r[i]).size == p.size(i) && r[i].duration
                    == p.timings[i].1
        },
    decreases k,
{
    if k == 0 {
        assert(out.take(out.len() as int) =~= out);
    } else if let Ok(r) = p.fill(out, offset, k) {
        let i = out.len() as int;
        let end = offset + p.size(i);
        let x = SampleLocation {
            offset,
            size: p.size(i),
            start: p.timings[i].0,
            duration: p.timings[i].1,
        };
        let more = out.push(x);
        lemma_fill(p, more, end as u64, (k - 1) as nat);
        assert(r == p.fill(more, end as u64, (k - 1) as nat)->Ok_0);
        assert(r.take(more.len() as int) == more);
        assert(r[i] == r.take(more.len() as int)[i]);
        assert(r[i] == x);
        assert(r.take(i) =~= more.take(i));
        assert(more.take(i) =~= out);
        assert forall|j: int| i <= j < r.len() - 1 implies (#[trigger] r[j + 1]).offset
            == r[j].offset + r[j].size by {
            if j == i {
                assert(r[more.len() as int].offset == end);
            }
        }
    }
}

/// How many samples there are before a chunk.
proof fn lemma_before(b: Seq<u8>, k: int, c: int)
    requires
        1 <= k <= c,
    ensures
        0 <= samples_before(b, k) <= samples_before(b, c),
    decreases c,
{
    if c > 1 {
        lemma_size(b, n32(b, 4), c - 1);
        if k < c {
            lemma_before(b, k, c - 1);
        } else {
            lemma_before(b, k - 1, c - 1);
        }
    }
}

proof fn lemma_size(b: Seq<u8>, n: int, k: int)
    ensures
        chunk_size(b, n, k) >= 0,
    decreases n,
{
    if n > 0 {
        lemma_size(b, n - 1, k);
    }
}

/// A plan whose runs of chunks are those of a table.
spec fn follows(p: Plan, b: Seq<u8>) -> bool {
    &&& p.mapping.len() == n32(b, 4)
    &&& p.chunks > 0 ==> p.mapping.len() > 0 && p.mapping[0].0 == 1
    &&& forall|j: int|
        0 <= j < p.mapping.len() ==> (#[trigger] p.mapping[j]).0 == run_start(b, j)
            && p.mapping[j].1 == n32(b, 12 + 12 * j) && p.mapping[j].1 > 0
}

/// The samples of the chunks from `c` on lie where the chunks do.
spec fn laid(p: Plan, b: Seq<u8>, c: int, r: Seq<SampleLocation>) -> bool {
    &&& r.len() == samples_before(b, p.chunks + 1)
    &&& forall|k: int|
        c <= k <= p.chunks ==> samples_before(b, k) < r.len() && r[#[trigger] samples_before(b, k)].offset
            == p.offset(k - 1)
    &&& forall|k: int, i: int|
        #![trigger samples_before(b, k), r[i]]
        c <= k <= p.chunks && samples_before(b, k) <= i && i + 1 < samples_before(b, k + 1)
            ==> r[i + 1].offset == r[i].offset + r[i].size
    &&& forall|i: int|
        samples_before(b, c) <= i < r.len() ==> (#[trigger] r[i]).size == p.size(i)
            && r[i].duration == p.timings[i].1
}

#[verifier::spinoff_prover]
proof fn lemma_place(p: Plan, b: Seq<u8>, out: Seq<SampleLocation>, chunk: int)
    requires
        follows(p, b),
        0 <= chunk <= p.chunks,
        out.len() == samples_before(b, chunk + 1),
    ensures
        p.place(out, chunk) matches Ok(r) ==> laid(p, b, chunk + 1, r) && r.take(out.len() as int)
            == out,
    decreases p.chunks - chunk,
{
    if chunk == p.chunks {
        assert(out.take(out.len() as int) =~= out);
    } else if let Ok(r) = p.place(out, chunk) {
        lemma_per_chunk(b, p.mapping, chunk, p.mapping.len() as int);
        let run = sample::run_of(p.mapping, chunk, p.mapping.len() as int);
        let per = p.mapping[run].1;
        lemma_fill(p, out, p.offset(chunk), per as nat);
        let o = p.fill(out, p.offset(chunk), per as nat)->Ok_0;
        let n = out.len() as int;
        assert(samples_before(b, chunk + 2) == samples_before(b, chunk + 1) + chunk_size(
            b,
            n32(b, 4),
            chunk + 1,
        ));
        lemma_place(p, b, o, chunk + 1);
        assert(r == p.place(o, chunk + 1)->Ok_0);
        assert(laid(p, b, chunk + 2, r));
        lemma_before(b, chunk + 2, p.chunks + 1);
        assert forall|i: int| 0 <= i < o.len() implies #[trigger] r[i] == o[i] by {
            assert(r.take(o.len() as int)[i] == o[i]);
        }
        assert(r.take(n) =~= o.take(n));
        assert forall|k: int| chunk + 1 <= k <= p.chunks implies samples_before(b, k) < r.len()
            && r[#[trigger] samples_before(b, k)].offset == p.offset(k - 1) by {
            if k == chunk + 1 {
                assert(r[n] == o[n]);
            }
        }
        assert forall|k: int, i: int|
            #![trigger samples_before(b, k), r[i]]
            chunk + 1 <= k <= p.chunks && samples_before(b, k) <= i && i + 1 < samples_before(
                b,
                k + 1,
            ) implies r[i + 1].offset == r[i].offset + r[i].size by {
            if k == chunk + 1 {
                assert(r[i] == o[i]);
                assert(r[i + 1] == o[i + 1]);
            }
        }
        assert forall|i: int| samples_before(b, chunk + 1) <= i < r.len() implies (
        #[trigger] r[i]).size == p.size(i) && r[i].duration == p.timings[i].1 by {
            if i < o.len() {
                assert(r[i] == o[i]);
            }
        }
    }
}

/// What the four tables of a track say of its samples: how many there are, how large each
/// is, how long each lasts, and where it lies. The chunks hold the samples in order, each
/// as many as its run says. The first sample of a chunk starts where the table of chunks
/// says, and each other one where the one before it ends.
pub open spec fn as_listed(
    s: Seq<SampleLocation>,
    stsz: Seq<u8>,
    stts: Seq<u8>,
    stsc: Seq<u8>,
    chunks: Seq<u8>,
    wide: bool,
) -> bool {
    &&& s.len() == n32(stsz, 8)
    &&& s.len() == run_total(stts, n32(stts, 4))
    &&& s.len() == samples_before(stsc, n32(chunks, 4) + 1)
    &&& forall|i: int|
        0 <= i < s.len() ==> (#[trigger] s[i]).size == if n32(stsz, 4) == 0 {
            n32(stsz, 12 + 4 * i)
        } else {
            n32(stsz, 4)
        }
    &&& forall|i: int| 0 <= i < s.len() ==> run_value(stts, i, (#[trigger] s[i]).duration as int)
    &&& forall|k: int|
        1 <= k <= n32(chunks, 4) ==> samples_before(stsc, k) < s.len() && s[#[trigger] samples_before(
            stsc,
            k,
        )].offset == if wide {
            n64(chunks, 8 + 8 * (k - 1))
        } else {
            n32(chunks, 8 + 4 * (k - 1))
        }
    &&& forall|k: int, i: int|
        #![trigger samples_before(stsc, k), s[i]]
        1 <= k <= n32(chunks, 4) && samples_before(stsc, k) <= i && i + 1 < samples_before(
            stsc,
            k + 1,
        ) ==> s[i + 1].offset == s[i].offset + s[i].size
}

/// A plan that was made from these tables.
#[verifier::opaque]
spec fn made_from(
    p: Plan,
    stsz: Seq<u8>,
    stts: Seq<u8>,
    stsc: Seq<u8>,
    chunks: Seq<u8>,
    wide: bool,
) -> bool {
    let times = n32(stts, 4) as nat;
    let runs = n32(stsc, 4) as nat;
    &&& p.sizes == stsz
    &&& p.constant == n32(stsz, 4)
    &&& p.count == n32(stsz, 8)
    &&& stts.len() == 8 + times * 8
    &&& sample::timings_of(stts.skip(8), times) == Ok::<Seq<(u64, u32)>, Fault>(p.timings)
    &&& p.timings.len() == p.count
    &&& p.wide == wide
    &&& p.chunks == n32(chunks, 4)
    &&& chunks.len() == 8 + p.chunks * (if wide {
        8int
    } else {
        4
    })
    &&& p.offsets == chunks.skip(8)
    &&& stsc.len() == 8 + runs * 12
    &&& sample::mapping_of(stsc.skip(8), p.chunks, runs) == Ok::<Seq<(u32, u32)>, Fault>(p.mapping)
    &&& p.chunks > 0 ==> p.mapping.len() > 0 && p.mapping[0].0 == 1
}

#[verifier::spinoff_prover]
proof fn lemma_plan(
    a: Seq<Child>,
    duration: u64,
    mdat: Seq<(u64, u64)>,
    limit: nat,
    stsz: Seq<u8>,
    stts: Seq<u8>,
    stsc: Seq<u8>,
    chunks: Seq<u8>,
    wide: bool,
)
    requires
        alone(a, code('s', 't', 's', 'z'), stsz),
        alone(a, code('s', 't', 't', 's'), stts),
        alone(a, code('s', 't', 's', 'c'), stsc),
        if wide {
            alone(a, code('c', 'o', '6', '4'), chunks)
        } else {
            alone(a, code('s', 't', 'c', 'o'), chunks) && absent(a, code('c', 'o', '6', '4'))
        },
        sample::plan_of(a, duration, mdat, limit) is Ok,
    ensures
        made_from(
            sample::plan_of(a, duration, mdat, limit)->Ok_0,
            stsz,
            stts,
            stsc,
            chunks,
            wide,
        ),
{
    reveal(made_from);
    lemma_codes();
    lemma_alone(a, code('s', 't', 's', 'z'), stsz);
    lemma_alone(a, code('s', 't', 't', 's'), stts);
    lemma_alone(a, code('s', 't', 's', 'c'), stsc);
    if wide {
        lemma_alone(a, code('c', 'o', '6', '4'), chunks);
    } else {
        lemma_alone(a, code('s', 't', 'c', 'o'), chunks);
        lemma_none(a, code('c', 'o', '6', '4'));
    }
    lemma_agree(stsz, 4);
    lemma_agree(stsz, 8);
    lemma_agree(stts, 4);
    lemma_agree(stsc, 4);
    lemma_agree(chunks, 4);
}

/// The offset of a chunk is the entry of its table.
proof fn lemma_chunk_start(p: Plan, chunks: Seq<u8>, wide: bool, k: int)
    requires
        1 <= k <= p.chunks,
        p.wide == wide,
        chunks.len() == 8 + p.chunks * (if wide {
            8int
        } else {
            4
        }),
        p.offsets == chunks.skip(8),
    ensures
        p.offset(k - 1) == if wide {
            n64(chunks, 8 + 8 * (k - 1))
        } else {
            n32(chunks, 8 + 4 * (k - 1))
        },
{
    if wide {
        lemma_agree(chunks.skip(8), (k - 1) * 8);
        lemma_behind(chunks, 8, (k - 1) * 8);
    } else {
        lemma_agree(chunks.skip(8), (k - 1) * 4);
        lemma_short_behind(chunks, 8, (k - 1) * 4);
    }
}

/// The duration of a sample is that of the entry that stands for it.
proof fn lemma_lasts(stts: Seq<u8>, t: Seq<(u64, u32)>, i: int)
    requires
        n32(stts, 4) >= 0,
        stts.len() >= 8 + 8 * n32(stts, 4),
        sample::timings_of(stts.skip(8), n32(stts, 4) as nat) == Ok::<Seq<(u64, u32)>, Fault>(t),
        0 <= i < t.len(),
    ensures
        t.len() == run_total(stts, n32(stts, 4)),
        run_value(stts, i, t[i].1 as int),
{
    lemma_timings(stts, n32(stts, 4) as nat);
    let k = lemma_entry_of(stts, n32(stts, 4), i);
    assert(run_total(stts, k) <= i && t[i].1 == n32(stts, 12 + 8 * k));
}

#[verifier::spinoff_prover]
proof fn lemma_as_listed(
    p: Plan,
    s: Seq<SampleLocation>,
    stsz: Seq<u8>,
    stts: Seq<u8>,
    stsc: Seq<u8>,
    chunks: Seq<u8>,
    wide: bool,
)
    requires
        p.timings.len() == run_total(stts, n32(stts, 4)),
        forall|i: int|
            0 <= i < p.timings.len() ==> run_value(stts, i, (#[trigger] p.timings[i]).1 as int),
        forall|k: int|
            1 <= k <= p.chunks ==> #[trigger] p.offset(k - 1) == if wide {
                n64(chunks, 8 + 8 * (k - 1))
            } else {
                n32(chunks, 8 + 4 * (k - 1))
            },
        p.sizes == stsz,
        p.constant == n32(stsz, 4),
        p.count == n32(stsz, 8),
        p.timings.len() == p.count,
        p.chunks == n32(chunks, 4),
        laid(p, stsc, 1, s),
        s.len() == p.count,
    ensures
        as_listed(s, stsz, stts, stsc, chunks, wide),
{
    assert(samples_before(stsc, 1) == 0);
    assert forall|i: int| 0 <= i < s.len() implies (#[trigger] s[i]).size == (if n32(stsz, 4) == 0 {
        n32(stsz, 12 + 4 * i)
    } else {
        n32(stsz, 4)
    }) by {
        lemma_agree(stsz, 12 + i * 4);
    }
    assert forall|i: int| 0 <= i < s.len() implies run_value(
        stts,
        i,
        (#[trigger] s[i]).duration as int,
    ) by {
        assert(s[i].duration == p.timings[i].1);
    }
    assert forall|k: int| 1 <= k <= n32(chunks, 4) implies samples_before(stsc, k) < s.len()
        && s[#[trigger] samples_before(stsc, k)].offset == (if wide {
        n64(chunks, 8 + 8 * (k - 1))
    } else {
        n32(chunks, 8 + 4 * (k - 1))
    }) by {
        assert(p.offset(k - 1) == p.offset(k - 1));
    }
}

/// The samples of a track are those that its tables list, with offsets of 32 or of 64
/// bits.
#[verifier::spinoff_prover]
pub proof fn law_samples_are_listed(
    tables: Seq<u8>,
    duration: u64,
    mdat: Seq<(u64, u64)>,
    work: nat,
    limit: nat,
    a: Seq<Child>,
    stsz: Seq<u8>,
    stts: Seq<u8>,
    stsc: Seq<u8>,
    chunks: Seq<u8>,
    wide: bool,
)
    requires
        demux::boxes_of(tables, work).0 == Ok::<Seq<Child>, Fault>(a),
        alone(a, code('s', 't', 's', 'z'), stsz),
        alone(a, code('s', 't', 't', 's'), stts),
        alone(a, code('s', 't', 's', 'c'), stsc),
        if wide {
            alone(a, code('c', 'o', '6', '4'), chunks)
        } else {
            alone(a, code('s', 't', 'c', 'o'), chunks) && absent(a, code('c', 'o', '6', '4'))
        },
        sample::samples_of(tables, duration, mdat, work, limit) is Ok,
    ensures
        as_listed(
            sample::samples_of(tables, duration, mdat, work, limit)->Ok_0,
            stsz,
            stts,
            stsc,
            chunks,
            wide,
        ),
{
    lemma_plan(a, duration, mdat, limit, stsz, stts, stsc, chunks, wide);
    let p = sample::plan_of(a, duration, mdat, limit)->Ok_0;
    reveal(made_from);
    lemma_mapping(stsc, p.chunks, n32(stsc, 4) as nat);
    lemma_place(p, stsc, Seq::empty(), 0);
    lemma_timings(stts, n32(stts, 4) as nat);
    assert forall|i: int| 0 <= i < p.timings.len() implies run_value(
        stts,
        i,
        (#[trigger] p.timings[i]).1 as int,
    ) by {
        lemma_lasts(stts, p.timings, i);
    }
    assert forall|k: int| 1 <= k <= p.chunks implies #[trigger] p.offset(k - 1) == (if wide {
        n64(chunks, 8 + 8 * (k - 1))
    } else {
        n32(chunks, 8 + 4 * (k - 1))
    }) by {
        lemma_chunk_start(p, chunks, wide, k);
    }
    lemma_as_listed(
        p,
        sample::samples_of(tables, duration, mdat, work, limit)->Ok_0,
        stsz,
        stts,
        stsc,
        chunks,
        wide,
    );
}

/// The larger of two numbers.
pub open spec fn larger(a: int, b: int) -> int {
    if a < b {
        b
    } else {
        a
    }
}

/// A time in nanoseconds is the whole part of a quotient.
proof fn lemma_floor(n: int, per: int)
    requires
        n >= 0,
        per > 0,
    ensures
        match sample::nanoseconds(n, per) {
            Ok(x) => x * per <= 1_000_000_000 * n < (x + 1) * per,
            Err(_) => 1_000_000_000 * n > u64::MAX * per,
        },
{
    let v = n * 1_000_000_000 / per;
    assert(v * per <= 1_000_000_000 * n < (v + 1) * per && v >= 0) by (nonlinear_arith)
        requires
            v == n * 1_000_000_000 / per,
            n >= 0,
            per > 0,
    ;
    if v > u64::MAX {
        assert(v * per > u64::MAX * per) by (nonlinear_arith)
            requires
                v > u64::MAX,
                per > 0,
        ;
    }
}

/// An edit shows a part of the media: from its time on, for as long as it lasts, behind a
/// delay. A sample outside of that part is not shown. One that is in it, whole or in part,
/// is shown for the time that both have in common, moved to where the edit is; times are
/// nanoseconds, rounded down. Delay and length of the edit are ticks of the movie, all else
/// ticks of the media.
pub proof fn law_edit_moves_and_clips(
    start: u64,
    duration: u32,
    scale: u32,
    movie_scale: u32,
    delay: u64,
    media: u64,
    length: u64,
)
    requires
        scale > 0,
        movie_scale > 0,
    ensures
        ({
            let per = scale * movie_scale;
            let from = (start - media) * movie_scale;
            let to = from + duration * movie_scale;
            let until = length * scale;
            match sample::edited_of(start, duration, scale, movie_scale, (delay, media, length)) {
                Ok(None) => to <= 0 || until <= from,
                Ok(Some((x, y))) => {
                    &&& to > 0
                    &&& until > from
                    &&& x * per <= 1_000_000_000 * (delay * scale + larger(from, 0)) < (x + 1) * per
                    &&& y * per <= 1_000_000_000 * (delay * scale - larger(-to, -until)) < (y + 1)
                        * per
                },
                Err(_) => 1_000_000_000 * (delay * scale - larger(-to, -until)) > u64::MAX * per,
            }
        }),
{
    let per = scale * movie_scale;
    let a = start * movie_scale;
    let b = (start + duration) * movie_scale;
    let begin = media * movie_scale;
    let until = length * scale;
    let wait = delay * scale;
    assert(per > 0 && until >= 0 && wait >= 0 && a <= b) by (nonlinear_arith)
        requires
            per == scale * movie_scale,
            until == length * scale,
            wait == delay * scale,
            a == start * movie_scale,
            b == (start + duration) * movie_scale,
            scale > 0,
            movie_scale > 0,
            length >= 0,
            delay >= 0,
            duration >= 0,
    ;
    assert((start - media) * movie_scale == a - begin && (start - media) * movie_scale + duration
        * movie_scale == b - begin) by (nonlinear_arith)
        requires
            a == start * movie_scale,
            b == (start + duration) * movie_scale,
            begin == media * movie_scale,
    ;
    let from = wait + (if a > begin {
        a
    } else {
        begin
    }) - begin;
    let to = wait + (if b < begin + until {
        b
    } else {
        begin + until
    }) - begin;
    if !(b <= begin || a >= begin + until) {
        lemma_floor(from, per);
        lemma_floor(to, per);
    }
}

} // verus!
