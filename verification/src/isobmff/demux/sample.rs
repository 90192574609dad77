//! Where the samples of a track are and when they are shown.

use crate::bytes;
use crate::isobmff::boxes::kinds;
use crate::isobmff::demux;
use crate::isobmff::demux::track::{Edit, Track};
use crate::isobmff::demux::{bad, beyond, boxes, full, optional, required, u32be};
use crate::isobmff::demux::{BoxView, Budget, Child, Fault, MAX_BOXES, MAX_SAMPLES};
use crate::isobmff::IsobmffResult;
use vstd::prelude::*;

verus! {

/// Where a sample is, when it is decoded and how long it is shown, in ticks of the
/// media.
#[derive(Clone, Copy, Debug)]
pub struct SampleLocation {
    pub offset: u64,
    pub size: u32,
    pub start: u64,
    pub duration: u32,
}

/// The entries of a table and their number.
pub open spec fn table_of(a: Seq<Child>, kind: Seq<u8>, width: int) -> Result<
    (Seq<u8>, u32),
    Fault,
> {
    match demux::sole(a, kind) {
        Err(f) => Err(f),
        Ok(b) => match demux::full_fault(b) {
            Some(f) => Err(f),
            None => match demux::field32(b, 4) {
                Err(f) => Err(f),
                Ok(n) => if n > MAX_SAMPLES || b.len() != 8 + n * width {
                    Err(Fault::Bad("invalid/oversized sample table"@))
                } else {
                    Ok((b.skip(8), n))
                },
            },
        },
    }
}

fn table<'a>(a: &Vec<BoxView<'a>>, kind: &[u8; 4], width: usize) -> (r: IsobmffResult<
    (&'a [u8], usize),
>)
    requires
        width <= 12,
    ensures
        match table_of(demux::children(a@), kind@, width as int) {
            Ok((b, n)) => r is Ok && r->Ok_0.0@ == b && r->Ok_0.1 == n,
            Err(f) => demux::fails(r, f),
        },
{
    let b = required(a, kind)?;
    full(b)?;
    let n: u32 = u32be(b, 4)?;
    assert(b@.len() == b.len());
    if n as u64 > MAX_SAMPLES as u64 {
        return Err(bad("invalid/oversized sample table"));
    }
    assert(n * width <= 1_200_000) by (nonlinear_arith)
        requires
            n <= 100_000,
            width <= 12,
    ;
    if b.len() != 8 + n as usize * width {
        return Err(bad("invalid/oversized sample table"));
    }
    let (_, tail) = b.split_at(8);
    assert(tail@ =~= b@.skip(8));
    Ok((tail, n as usize))
}

/// The sizes of samples: the whole box, the size of all if they have one, and their
/// number.
pub open spec fn sizes_of(a: Seq<Child>) -> Result<(Seq<u8>, u32, u32), Fault> {
    match demux::sole(a, kinds::STSZ@) {
        Err(f) => Err(f),
        Ok(b) => match demux::full_fault(b) {
            Some(f) => Err(f),
            None => match demux::field32(b, 4) {
                Err(f) => Err(f),
                Ok(constant) => match demux::field32(b, 8) {
                    Err(f) => Err(f),
                    Ok(count) => if count > MAX_SAMPLES || b.len() != 12 + if constant == 0 {
                        count * 4
                    } else {
                        0
                    } {
                        Err(Fault::Bad("invalid/oversized sample sizes"@))
                    } else {
                        Ok((b, constant, count))
                    },
                },
            },
        },
    }
}

fn read_sizes<'a>(a: &Vec<BoxView<'a>>) -> (r: IsobmffResult<(&'a [u8], u32, usize)>)
    ensures
        match sizes_of(demux::children(a@)) {
            Ok((b, constant, n)) => r is Ok && r->Ok_0.0@ == b && r->Ok_0.1 == constant
                && r->Ok_0.2 == n,
            Err(f) => demux::fails(r, f),
        },
{
    let b = required(a, &kinds::STSZ)?;
    full(b)?;
    let constant: u32 = u32be(b, 4)?;
    let count: u32 = u32be(b, 8)?;
    assert(b@.len() == b.len());
    if count as u64 > MAX_SAMPLES as u64 || b.len() != 12 + if constant == 0 {
        count as usize * 4
    } else {
        0
    } {
        return Err(bad("invalid/oversized sample sizes"));
    }
    Ok((b, constant, count as usize))
}

/// The time after samples.
pub open spec fn total(t: Seq<(u64, u32)>) -> int {
    if t.len() == 0 {
        0
    } else {
        t.last().0 + t.last().1
    }
}

/// `k` more samples of a duration.
pub open spec fn spread(t: Seq<(u64, u32)>, d: u32, k: nat) -> Seq<(u64, u32)>
    decreases k,
{
    if k == 0 {
        t
    } else {
        let s = spread(t, d, (k - 1) as nat);
        s.push((total(s) as u64, d))
    }
}

/// The start and the duration of the samples of the first `n` runs.
pub open spec fn timings_of(stts: Seq<u8>, n: nat) -> Result<Seq<(u64, u32)>, Fault>
    decreases n,
{
    if n == 0 {
        Ok(Seq::empty())
    } else {
        match timings_of(stts, (n - 1) as nat) {
            Err(f) => Err(f),
            Ok(t) => {
                let count = bytes::get32(stts, (n - 1) * 8);
                let d = bytes::get32(stts, (n - 1) * 8 + 4);
                if count == 0 || count > MAX_SAMPLES - t.len() {
                    Err(Fault::Bad("invalid timing run"@))
                } else {
                    Ok(spread(t, d, count as nat))
                }
            },
        }
    }
}

/// A refusal of the first runs is that of all.
proof fn lemma_timings_err(stts: Seq<u8>, i: nat, n: nat)
    requires
        i <= n,
        timings_of(stts, i) is Err,
    ensures
        timings_of(stts, n) == timings_of(stts, i),
    decreases n - i,
{
    if i < n {
        lemma_timings_err(stts, i, (n - 1) as nat);
    }
}

/// Samples follow each other in time, from zero on.
pub open spec fn in_time(t: Seq<(u64, u32)>) -> bool {
    &&& total(t) <= t.len() * u32::MAX
    &&& t.len() > 0 ==> t[0].0 == 0
    &&& forall|i: int| 0 <= i < t.len() - 1 ==> (#[trigger] t[i + 1]).0 == t[i].0 + t[i].1
}

proof fn lemma_pushed(t: Seq<(u64, u32)>, d: u32)
    requires
        in_time(t),
        t.len() < MAX_SAMPLES,
    ensures
        in_time(t.push((total(t) as u64, d))),
        total(t) <= u64::MAX,
{
    let s = t.push((total(t) as u64, d));
    assert(total(t) <= t.len() * u32::MAX);
    assert forall|i: int| 0 <= i < s.len() - 1 implies (#[trigger] s[i + 1]).0 == s[i].0
        + s[i].1 by {
        if i + 1 < t.len() {
            assert(t[i + 1].0 == t[i].0 + t[i].1);
        }
    }
}

fn read_timings(stts: &[u8], n: usize) -> (r: IsobmffResult<Vec<(u64, u32)>>)
    requires
        n <= MAX_SAMPLES,
        stts@.len() == n * 8,
    ensures
        match timings_of(stts@, n as nat) {
            Ok(t) => r is Ok && r->Ok_0@ == t && in_time(t) && t.len() <= MAX_SAMPLES,
            Err(f) => demux::fails(r, f),
        },
{
    let mut out: Vec<(u64, u32)> = Vec::new();
    let mut time: u64 = 0;
    let mut i: usize = 0;
    while i < n
        invariant
            i <= n <= MAX_SAMPLES,
            stts@.len() == n * 8,
            timings_of(stts@, i as nat) == Ok::<Seq<(u64, u32)>, Fault>(out@),
            time == total(out@),
            in_time(out@),
            out@.len() <= MAX_SAMPLES,
        decreases n - i,
    {
        let count: u32 = bytes::read_u32(stts, i * 8);
        let duration: u32 = bytes::read_u32(stts, i * 8 + 4);
        let ghost before = out@;
        if count == 0 || count as usize > MAX_SAMPLES - out.len() {
            proof {
                lemma_timings_err(stts@, (i + 1) as nat, n as nat);
            }
            return Err(bad("invalid timing run"));
        }
        let mut k: u32 = 0;
        while k < count
            invariant
                k <= count,
                before.len() + count <= MAX_SAMPLES,
                out@ == spread(before, duration, k as nat),
                out@.len() == before.len() + k,
                time == total(out@),
                in_time(out@),
            decreases count - k,
        {
            proof {
                lemma_pushed(out@, duration);
                assert(total(out@) + duration <= u64::MAX);
            }
            out.push((time, duration));
            time = time + duration as u64;
            k = k + 1;
        }
        i = i + 1;
    }
    Ok(out)
}

/// A run of chunks: the first, and how many samples each has.
pub open spec fn mapping_of(stsc: Seq<u8>, chunks: u32, n: nat) -> Result<Seq<(u32, u32)>, Fault>
    decreases n,
{
    if n == 0 {
        Ok(Seq::empty())
    } else {
        match mapping_of(stsc, chunks, (n - 1) as nat) {
            Err(f) => Err(f),
            Ok(m) => {
                let first = bytes::get32(stsc, (n - 1) * 12);
                let per = bytes::get32(stsc, (n - 1) * 12 + 4);
                let desc = bytes::get32(stsc, (n - 1) * 12 + 8);
                if first == 0 || first > chunks || per == 0 || per > MAX_SAMPLES || desc != 1 || (
                m.len() > 0 && m.last().0 >= first) {
                    Err(Fault::Bad("invalid chunk mapping"@))
                } else {
                    Ok(m.push((first, per)))
                }
            },
        }
    }
}

proof fn lemma_mapping_err(stsc: Seq<u8>, chunks: u32, i: nat, n: nat)
    requires
        i <= n,
        mapping_of(stsc, chunks, i) is Err,
    ensures
        mapping_of(stsc, chunks, n) == mapping_of(stsc, chunks, i),
    decreases n - i,
{
    if i < n {
        lemma_mapping_err(stsc, chunks, i, (n - 1) as nat);
    }
}

/// Runs are in order.
pub open spec fn in_order(m: Seq<(u32, u32)>) -> bool {
    forall|i: int, j: int| 0 <= i < j < m.len() ==> (#[trigger] m[i]).0 < (#[trigger] m[j]).0
}

fn read_mapping(stsc: &[u8], chunks: u32, n: usize) -> (r: IsobmffResult<Vec<(u32, u32)>>)
    requires
        n <= MAX_SAMPLES,
        stsc@.len() == n * 12,
    ensures
        match mapping_of(stsc@, chunks, n as nat) {
            Ok(m) => r is Ok && r->Ok_0@ == m && in_order(m) && m.len() == n,
            Err(f) => demux::fails(r, f),
        },
{
    let mut out: Vec<(u32, u32)> = Vec::new();
    let mut i: usize = 0;
    while i < n
        invariant
            i <= n <= MAX_SAMPLES,
            stsc@.len() == n * 12,
            out@.len() == i,
            mapping_of(stsc@, chunks, i as nat) == Ok::<Seq<(u32, u32)>, Fault>(out@),
            in_order(out@),
        decreases n - i,
    {
        let first: u32 = bytes::read_u32(stsc, i * 12);
        let per: u32 = bytes::read_u32(stsc, i * 12 + 4);
        let desc: u32 = bytes::read_u32(stsc, i * 12 + 8);
        if first == 0 || first > chunks || per == 0 || per as u64 > MAX_SAMPLES as u64 || desc != 1
            || (i > 0 && out[i - 1].0 >= first) {
            proof {
                lemma_mapping_err(stsc@, chunks, (i + 1) as nat, n as nat);
            }
            return Err(bad("invalid chunk mapping"));
        }
        let ghost before = out@;
        out.push((first, per));
        proof {
            assert forall|a: int, b: int| 0 <= a < b < out@.len() implies (#[trigger] out@[a]).0 < (
            #[trigger] out@[b]).0 by {
                if b == i && a < i - 1 {
                    assert(before[a].0 < before[i - 1].0);
                }
            }
        }
        i = i + 1;
    }
    Ok(out)
}

/// The run that a chunk belongs to, among the first `n`.
pub open spec fn run_of(m: Seq<(u32, u32)>, chunk: int, n: int) -> int
    decreases n,
{
    if n <= 1 {
        0
    } else if m[n - 1].0 <= chunk + 1 {
        n - 1
    } else {
        run_of(m, chunk, n - 1)
    }
}

proof fn lemma_run_of(m: Seq<(u32, u32)>, chunk: int, run: int, n: int)
    requires
        in_order(m),
        0 <= run < n <= m.len(),
        run > 0 ==> m[run].0 <= chunk + 1,
        run + 1 < m.len() ==> m[run + 1].0 > chunk + 1,
    ensures
        run_of(m, chunk, n) == run,
    decreases n,
{
    if n > run + 1 {
        if n - 1 > run + 1 {
            assert(m[run + 1].0 < m[n - 1].0);
        }
        lemma_run_of(m, chunk, run, n - 1);
    }
}

/// How many of the first `n` extents start no later than an offset.
pub open spec fn extents_upto(mdat: Seq<(u64, u64)>, offset: u64, n: int) -> int
    decreases n,
{
    if n <= 0 {
        0
    } else if mdat[n - 1].0 <= offset {
        n
    } else {
        extents_upto(mdat, offset, n - 1)
    }
}

/// Bytes that stand in the media data.
pub open spec fn in_media(mdat: Seq<(u64, u64)>, offset: u64, end: int) -> bool {
    let at = extents_upto(mdat, offset, mdat.len() as int);
    at > 0 && end <= mdat[at - 1].1
}

fn is_in_media(mdat: &Vec<(u64, u64)>, offset: u64, end: u64) -> (r: bool)
    ensures
        r == in_media(mdat@, offset, end as int),
{
    let mut n: usize = mdat.len();
    while n > 0
        invariant
            n <= mdat@.len(),
            extents_upto(mdat@, offset, mdat@.len() as int) == extents_upto(
                mdat@,
                offset,
                n as int,
            ),
        decreases n,
    {
        if mdat[n - 1].0 <= offset {
            return end <= mdat[n - 1].1;
        }
        n = n - 1;
    }
    false
}

/// What is known of a track's samples before they are placed.
pub struct Plan {
    pub sizes: Seq<u8>,
    pub constant: u32,
    pub count: u32,
    pub timings: Seq<(u64, u32)>,
    pub offsets: Seq<u8>,
    pub wide: bool,
    pub chunks: u32,
    pub mapping: Seq<(u32, u32)>,
    pub mdat: Seq<(u64, u64)>,
    pub limit: nat,
}

impl Plan {
    /// The size of a sample.
    pub open spec fn size(self, i: int) -> u32 {
        if self.constant == 0 {
            bytes::get32(self.sizes, 12 + i * 4)
        } else {
            self.constant
        }
    }

    /// Where a chunk starts.
    pub open spec fn offset(self, chunk: int) -> u64 {
        if self.wide {
            bytes::get64(self.offsets, chunk * 8)
        } else {
            bytes::get32(self.offsets, chunk * 4) as u64
        }
    }

    /// `k` more samples from an offset on.
    pub open spec fn fill(self, out: Seq<SampleLocation>, offset: u64, k: nat) -> Result<
        Seq<SampleLocation>,
        Fault,
    >
        decreases k,
    {
        if k == 0 {
            Ok(out)
        } else {
            let i = out.len() as int;
            let end = offset + self.size(i);
            if self.size(i) > self.limit {
                Err(Fault::Beyond("demux limit exceeded: sample bytes"@))
            } else if end > u64::MAX {
                Err(Fault::Bad("sample range overflow"@))
            } else if !in_media(self.mdat, offset, end) {
                Err(Fault::Bad("sample outside media data"@))
            } else {
                self.fill(
                    out.push(
                        SampleLocation {
                            offset,
                            size: self.size(i),
                            start: self.timings[i].0,
                            duration: self.timings[i].1,
                        },
                    ),
                    end as u64,
                    (k - 1) as nat,
                )
            }
        }
    }

    /// The samples of the chunks from `chunk` on.
    pub open spec fn place(self, out: Seq<SampleLocation>, chunk: int) -> Result<
        Seq<SampleLocation>,
        Fault,
    >
        decreases self.chunks - chunk,
    {
        if chunk >= self.chunks {
            Ok(out)
        } else {
            let per = self.mapping[run_of(self.mapping, chunk, self.mapping.len() as int)].1;
            if per > self.count - out.len() {
                Err(Fault::Bad("chunk sample count exceeds stsz"@))
            } else {
                match self.fill(out, self.offset(chunk), per as nat) {
                    Err(f) => Err(f),
                    Ok(o) => self.place(o, chunk + 1),
                }
            }
        }
    }
}

/// The executable counterpart of [`Plan`].
struct Layout<'a> {
    sizes: &'a [u8],
    constant: u32,
    count: usize,
    timings: Vec<(u64, u32)>,
    offsets: &'a [u8],
    wide: bool,
    chunks: u32,
    mapping: Vec<(u32, u32)>,
}

impl<'a> Layout<'a> {
    spec fn plan(&self, mdat: Seq<(u64, u64)>, limit: nat) -> Plan {
        Plan {
            sizes: self.sizes@,
            constant: self.constant,
            count: self.count as u32,
            timings: self.timings@,
            offsets: self.offsets@,
            wide: self.wide,
            chunks: self.chunks,
            mapping: self.mapping@,
            mdat,
            limit,
        }
    }

    spec fn wf(&self) -> bool {
        &&& self.count <= MAX_SAMPLES
        &&& self.timings@.len() == self.count
        &&& self.sizes@.len() == 12 + if self.constant == 0 {
            self.count * 4
        } else {
            0
        }
        &&& self.chunks <= MAX_SAMPLES
        &&& self.offsets@.len() == self.chunks * (if self.wide {
            8int
        } else {
            4
        })
        &&& in_order(self.mapping@)
        &&& self.chunks > 0 ==> self.mapping@.len() > 0
    }

    /// Places `k` more samples.
    fn fill(
        &self,
        out: &mut Vec<SampleLocation>,
        start: u64,
        k: u32,
        mdat: &Vec<(u64, u64)>,
        limit: usize,
    ) -> (r: IsobmffResult<()>)
        requires
            self.wf(),
            old(out)@.len() + k <= self.count,
        ensures
            match self.plan(mdat@, limit as nat).fill(old(out)@, start, k as nat) {
                Ok(o) => r is Ok && final(out)@ == o && o.len() == old(out)@.len() + k,
                Err(f) => demux::fails(r, f),
            },
    {
        let ghost plan = self.plan(mdat@, limit as nat);
        let mut offset: u64 = start;
        let mut left: u32 = k;
        while left > 0
            invariant
                self.wf(),
                plan == self.plan(mdat@, limit as nat),
                out@.len() + left == old(out)@.len() + k,
                old(out)@.len() + k <= self.count,
                left <= k,
                plan.fill(old(out)@, start, k as nat) == plan.fill(out@, offset, left as nat),
            decreases left,
        {
            let i: usize = out.len();
            let size: u32 = if self.constant == 0 {
                bytes::read_u32(self.sizes, 12 + i * 4)
            } else {
                self.constant
            };
            assert(size == plan.size(i as int));
            if size as u64 > limit as u64 {
                return Err(beyond("demux limit exceeded: sample bytes"));
            }
            if offset > u64::MAX - size as u64 {
                return Err(bad("sample range overflow"));
            }
            let end: u64 = offset + size as u64;
            if !is_in_media(mdat, offset, end) {
                return Err(bad("sample outside media data"));
            }
            out.push(
                SampleLocation {
                    offset,
                    size,
                    start: self.timings[i].0,
                    duration: self.timings[i].1,
                },
            );
            offset = end;
            left = left - 1;
        }
        Ok(())
    }

    /// Places all samples.
    fn place(&self, mdat: &Vec<(u64, u64)>, limit: usize) -> (r: IsobmffResult<
        Vec<SampleLocation>,
    >)
        requires
            self.wf(),
        ensures
            match self.plan(mdat@, limit as nat).place(Seq::empty(), 0) {
                Ok(o) => r is Ok && r->Ok_0@ == o && o.len() <= self.count,
                Err(f) => demux::fails(r, f),
            },
    {
        let ghost plan = self.plan(mdat@, limit as nat);
        let mut out: Vec<SampleLocation> = Vec::new();
        let mut run: usize = 0;
        let mut chunk: u32 = 0;
        while chunk < self.chunks
            invariant
                self.wf(),
                plan == self.plan(mdat@, limit as nat),
                chunk <= self.chunks,
                out@.len() <= self.count,
                self.chunks > 0 ==> run < self.mapping@.len(),
                run > 0 ==> self.mapping@[run as int].0 <= chunk + 1,
                plan.place(Seq::empty(), 0) == plan.place(out@, chunk as int),
            decreases self.chunks - chunk,
        {
            while run < self.mapping.len() - 1 && self.mapping[run + 1].0 <= chunk + 1
                invariant
                    chunk < self.chunks <= MAX_SAMPLES,
                    run < self.mapping@.len(),
                    run > 0 ==> self.mapping@[run as int].0 <= chunk + 1,
                decreases self.mapping@.len() - run,
            {
                run = run + 1;
            }
            proof {
                lemma_run_of(
                    self.mapping@,
                    chunk as int,
                    run as int,
                    self.mapping@.len() as int,
                );
            }
            let offset: u64 = if self.wide {
                bytes::read_u64(self.offsets, chunk as usize * 8)
            } else {
                bytes::read_u32(self.offsets, chunk as usize * 4) as u64
            };
            assert(offset == plan.offset(chunk as int));
            let per: u32 = self.mapping[run].1;
            if per as usize > self.count - out.len() {
                return Err(bad("chunk sample count exceeds stsz"));
            }
            self.fill(&mut out, offset, per, mdat, limit)?;
            chunk = chunk + 1;
        }
        Ok(out)
    }
}

/// One range starts first, or both start together and it ends first.
pub open spec fn ahead(a: (u64, u64), b: (u64, u64)) -> bool {
    a.0 < b.0 || (a.0 == b.0 && a.1 <= b.1)
}

/// `slice::sort_unstable` on pairs: the same pairs, in ascending order of their first
/// numbers and, where those are the same, of their second.
#[verifier::external_body]
fn sort_ranges(v: &mut Vec<(u64, u64)>)
    ensures
        final(v)@.to_multiset() == old(v)@.to_multiset(),
        forall|i: int, j: int|
            0 <= i <= j < final(v)@.len() ==> ahead(
                #[trigger] final(v)@[i],
                #[trigger] final(v)@[j],
            ),
{
    v.sort_unstable();
}

/// The bytes of each sample.
pub open spec fn ranges_of(s: Seq<SampleLocation>) -> Seq<(u64, u64)> {
    Seq::new(s.len(), |i: int| (s[i].offset, (s[i].offset + s[i].size) as u64))
}

/// No range starts before one that is ahead of it has ended.
pub open spec fn apart(s: Seq<(u64, u64)>) -> bool {
    forall|i: int, j: int|
        0 <= i < s.len() && 0 <= j < s.len() && i != j && ahead(#[trigger] s[i], #[trigger] s[j])
            ==> s[i].1 <= s[j].0
}

/// The same, of ranges without an order.
spec fn apart_bag(m: vstd::multiset::Multiset<(u64, u64)>) -> bool {
    &&& forall|p: (u64, u64), q: (u64, u64)|
        #![trigger m.count(p), m.count(q)]
        m.count(p) > 0 && m.count(q) > 0 && p != q && ahead(p, q) ==> p.1 <= q.0
    &&& forall|p: (u64, u64)| #[trigger] m.count(p) > 1 ==> p.1 <= p.0
}

/// What stands twice in a sequence is counted twice.
proof fn lemma_twice(s: Seq<(u64, u64)>, i: int, j: int)
    requires
        0 <= i < j < s.len(),
        s[i] == s[j],
    ensures
        s.to_multiset().count(s[i]) > 1,
{
    broadcast use vstd::seq_lib::group_to_multiset_ensures;

    let rest = s.remove(j);
    assert(rest[i] == s[i]);
    assert(rest.to_multiset() =~= s.to_multiset().remove(s[j]));
    assert(rest.contains(s[i]));
    assert(rest.to_multiset().count(s[i]) > 0);
    assert(s.contains(s[j]));
}

/// What is counted twice stands twice.
proof fn lemma_stands_twice(s: Seq<(u64, u64)>, p: (u64, u64)) -> (r: (int, int))
    requires
        s.to_multiset().count(p) > 1,
    ensures
        0 <= r.0 < r.1 < s.len(),
        s[r.0] == p,
        s[r.1] == p,
{
    broadcast use vstd::seq_lib::group_to_multiset_ensures;

    assert(s.contains(p));
    let i = choose|i: int| 0 <= i < s.len() && s[i] == p;
    let rest = s.remove(i);
    assert(rest.to_multiset() =~= s.to_multiset().remove(p));
    assert(rest.to_multiset().count(p) > 0);
    assert(rest.contains(p));
    let j = choose|j: int| 0 <= j < rest.len() && rest[j] == p;
    if j < i {
        assert(s[j] == rest[j]);
        (j, i)
    } else {
        assert(s[j + 1] == rest[j]);
        (i, j + 1)
    }
}

/// Being apart does not depend on the order.
proof fn lemma_apart_bag(s: Seq<(u64, u64)>)
    ensures
        apart(s) <==> apart_bag(s.to_multiset()),
{
    broadcast use vstd::seq_lib::group_to_multiset_ensures;

    let m = s.to_multiset();
    if apart(s) {
        assert forall|p: (u64, u64), q: (u64, u64)|
            #![trigger m.count(p), m.count(q)]
            m.count(p) > 0 && m.count(q) > 0 && p != q && ahead(p, q) implies p.1 <= q.0 by {
            assert(s.contains(p) && s.contains(q));
            let i = choose|i: int| 0 <= i < s.len() && s[i] == p;
            let j = choose|j: int| 0 <= j < s.len() && s[j] == q;
            assert(ahead(s[i], s[j]));
        }
        assert forall|p: (u64, u64)| #[trigger] m.count(p) > 1 implies p.1 <= p.0 by {
            let (i, j) = lemma_stands_twice(s, p);
            assert(ahead(s[i], s[j]));
        }
    }
    if apart_bag(m) {
        assert forall|i: int, j: int|
            0 <= i < s.len() && 0 <= j < s.len() && i != j && ahead(
                #[trigger] s[i],
                #[trigger] s[j],
            ) implies s[i].1 <= s[j].0 by {
            assert(s.contains(s[i]) && s.contains(s[j]));
            assert(m.count(s[i]) > 0 && m.count(s[j]) > 0);
            if s[i] == s[j] {
                if i < j {
                    lemma_twice(s, i, j);
                } else {
                    lemma_twice(s, j, i);
                }
            }
        }
    }
}

/// In sorted ranges only neighbours have to be looked at.
proof fn lemma_neighbours(s: Seq<(u64, u64)>, i: int, j: int)
    requires
        0 <= i < j < s.len(),
        forall|k: int| 0 <= k < s.len() ==> (#[trigger] s[k]).0 <= s[k].1,
        forall|k: int| 0 <= k < s.len() - 1 ==> (#[trigger] s[k]).1 <= s[k + 1].0,
    ensures
        s[i].1 <= s[j].0,
    decreases j - i,
{
    if j > i + 1 {
        lemma_neighbours(s, i, j - 1);
        assert(s[j - 1].1 <= s[j].0);
        assert(s[j - 1].0 <= s[j - 1].1);
    } else {
        assert(s[i].1 <= s[i + 1].0);
    }
}

/// Sorted ranges are apart if neighbours are.
proof fn lemma_sorted_apart(s: Seq<(u64, u64)>)
    requires
        forall|k: int| 0 <= k < s.len() ==> (#[trigger] s[k]).0 <= s[k].1,
        forall|i: int, j: int|
            0 <= i <= j < s.len() ==> ahead(#[trigger] s[i], #[trigger] s[j]),
        forall|k: int| 0 <= k < s.len() - 1 ==> (#[trigger] s[k]).1 <= s[k + 1].0,
    ensures
        apart(s),
{
    assert forall|i: int, j: int|
        0 <= i < s.len() && 0 <= j < s.len() && i != j && ahead(
            #[trigger] s[i],
            #[trigger] s[j],
        ) implies s[i].1 <= s[j].0 by {
        if i < j {
            lemma_neighbours(s, i, j);
        } else {
            assert(ahead(s[j], s[i]));
            lemma_neighbours(s, j, i);
            assert(s[i] == s[j]);
        }
    }
}

fn are_apart(s: &Vec<SampleLocation>) -> (r: bool)
    requires
        forall|i: int| 0 <= i < s@.len() ==> (#[trigger] s@[i]).offset + s@[i].size <= u64::MAX,
    ensures
        r == apart(ranges_of(s@)),
{
    let mut ranges: Vec<(u64, u64)> = Vec::new();
    let mut i: usize = 0;
    assert(ranges@ =~= ranges_of(s@).take(0));
    while i < s.len()
        invariant
            i <= s@.len(),
            forall|i: int|
                0 <= i < s@.len() ==> (#[trigger] s@[i]).offset + s@[i].size <= u64::MAX,
            ranges@ == ranges_of(s@).take(i as int),
        decreases s@.len() - i,
    {
        let l: SampleLocation = s[i];
        assert(s@[i as int].offset + s@[i as int].size <= u64::MAX);
        ranges.push((l.offset, l.offset + l.size as u64));
        assert(ranges@ =~= ranges_of(s@).take(i + 1));
        i = i + 1;
    }
    assert(ranges@ =~= ranges_of(s@));
    let ghost given = ranges@;
    proof {
        lemma_apart_bag(given);
    }
    sort_ranges(&mut ranges);
    proof {
        broadcast use vstd::seq_lib::group_to_multiset_ensures;

        lemma_apart_bag(ranges@);
        assert forall|k: int| 0 <= k < ranges@.len() implies (#[trigger] ranges@[k]).0
            <= ranges@[k].1 by {
            assert(ranges@.contains(ranges@[k]));
            assert(given.to_multiset().count(ranges@[k]) > 0);
            assert(given.contains(ranges@[k]));
        }
    }
    let n: usize = ranges.len();
    let mut k: usize = 1;
    while k < n
        invariant
            1 <= k,
            k <= n || n == 0,
            n == ranges@.len(),
            apart(given) <==> apart(ranges@),
            given == ranges_of(s@),
            forall|i: int, j: int|
                0 <= i <= j < ranges@.len() ==> ahead(#[trigger] ranges@[i], #[trigger] ranges@[j]),
            forall|i: int| 0 <= i < k - 1 ==> (#[trigger] ranges@[i]).1 <= ranges@[i + 1].0,
        decreases n - k,
    {
        if ranges[k - 1].1 > ranges[k].0 {
            assert(ahead(ranges@[k - 1], ranges@[k as int]));
            return false;
        }
        k = k + 1;
    }
    proof {
        lemma_sorted_apart(ranges@);
    }
    true
}

/// What the tables of a track say before its samples are placed.
pub open spec fn plan_of(
    a: Seq<Child>,
    duration: u64,
    mdat: Seq<(u64, u64)>,
    limit: nat,
) -> Result<Plan, Fault> {
    match sizes_of(a) {
        Err(f) => Err(f),
        Ok((sizes, constant, count)) => match table_of(a, kinds::STTS@, 8) {
            Err(f) => Err(f),
            Ok((stts, n)) => match timings_of(stts, n as nat) {
                Err(f) => Err(f),
                Ok(timings) => if total(timings) != duration {
                    Err(Fault::Bad("sample timing/media duration mismatch"@))
                } else if timings.len() != count {
                    Err(Fault::Bad("sample/timing count mismatch"@))
                } else {
                    match offsets_of(a) {
                        Err(f) => Err(f),
                        Ok((wide, offsets, chunks)) => match table_of(a, kinds::STSC@, 12) {
                            Err(f) => Err(f),
                            Ok((stsc, runs)) => match mapping_of(stsc, chunks, runs as nat) {
                                Err(f) => Err(f),
                                Ok(mapping) => if (chunks > 0 && !(mapping.len() > 0 && mapping[0].0
                                    == 1)) || (chunks == 0 && count != 0) {
                                    Err(Fault::Bad("incomplete chunk mapping"@))
                                } else {
                                    Ok(
                                        Plan {
                                            sizes,
                                            constant,
                                            count,
                                            timings,
                                            offsets,
                                            wide,
                                            chunks,
                                            mapping,
                                            mdat,
                                            limit,
                                        },
                                    )
                                },
                            },
                        },
                    }
                },
            },
        },
    }
}

/// The offsets of chunks: whether they have 64 bits, the entries and their number.
pub open spec fn offsets_of(a: Seq<Child>) -> Result<(bool, Seq<u8>, u32), Fault> {
    match demux::only(a, kinds::CO64@) {
        Err(f) => Err(f),
        Ok(None) => match table_of(a, kinds::STCO@, 4) {
            Err(f) => Err(f),
            Ok((b, n)) => Ok((false, b, n)),
        },
        Ok(Some(_)) => match demux::only(a, kinds::STCO@) {
            Err(f) => Err(f),
            Ok(Some(_)) => Err(Fault::Bad("duplicate chunk offset formats"@)),
            Ok(None) => match table_of(a, kinds::CO64@, 8) {
                Err(f) => Err(f),
                Ok((b, n)) => Ok((true, b, n)),
            },
        },
    }
}

/// The samples of a track.
pub open spec fn samples_of(
    tables: Seq<u8>,
    duration: u64,
    mdat: Seq<(u64, u64)>,
    work: nat,
    limit: nat,
) -> Result<Seq<SampleLocation>, Fault> {
    match demux::boxes_of(tables, work).0 {
        Err(f) => Err(f),
        Ok(a) => match plan_of(a, duration, mdat, limit) {
            Err(f) => Err(f),
            Ok(plan) => match plan.place(Seq::empty(), 0) {
                Err(f) => Err(f),
                Ok(out) => if out.len() != plan.count {
                    Err(Fault::Bad("incomplete sample mapping"@))
                } else if !apart(ranges_of(out)) {
                    Err(Fault::Bad("overlapping selected samples"@))
                } else {
                    Ok(out)
                },
            },
        },
    }
}

fn read_offsets<'a>(a: &Vec<BoxView<'a>>) -> (r: IsobmffResult<(bool, &'a [u8], u32)>)
    ensures
        match offsets_of(demux::children(a@)) {
            Ok((w, b, n)) => r is Ok && r->Ok_0.0 == w && r->Ok_0.1@ == b && r->Ok_0.2 == n,
            Err(f) => demux::fails(r, f),
        },
{
    let wide: bool = optional(a, &kinds::CO64)?.is_some();
    if wide && optional(a, &kinds::STCO)?.is_some() {
        return Err(bad("duplicate chunk offset formats"));
    }
    if wide {
        let (b, n) = table(a, &kinds::CO64, 8)?;
        Ok((true, b, n as u32))
    } else {
        let (b, n) = table(a, &kinds::STCO, 4)?;
        Ok((false, b, n as u32))
    }
}

fn read_layout<'a>(a: &Vec<BoxView<'a>>, duration: u64) -> (r: IsobmffResult<Layout<'a>>)
    ensures
        forall|mdat: Seq<(u64, u64)>, limit: nat|
            match #[trigger] plan_of(demux::children(a@), duration, mdat, limit) {
                Ok(p) => r is Ok && r->Ok_0.wf() && r->Ok_0.plan(mdat, limit) == p,
                Err(f) => demux::fails(r, f),
            },
{
    let (sizes, constant, count) = read_sizes(a)?;
    let (stts, n) = table(a, &kinds::STTS, 8)?;
    let timings = read_timings(stts, n)?;
    let time: u64 = if timings.len() == 0 {
        0
    } else {
        let last: (u64, u32) = timings[timings.len() - 1];
        assert(total(timings@) <= timings@.len() * u32::MAX);
        last.0 + last.1 as u64
    };
    if time != duration {
        return Err(bad("sample timing/media duration mismatch"));
    }
    if timings.len() != count {
        return Err(bad("sample/timing count mismatch"));
    }
    let (wide, offsets, chunks) = read_offsets(a)?;
    let (stsc, runs) = table(a, &kinds::STSC, 12)?;
    let mapping = read_mapping(stsc, chunks, runs)?;
    if (chunks > 0 && !(mapping.len() > 0 && mapping[0].0 == 1)) || (chunks == 0 && count != 0) {
        return Err(bad("incomplete chunk mapping"));
    }
    Ok(Layout { sizes, constant, count, timings, offsets, wide, chunks, mapping })
}

/// Samples that were placed end within the file.
proof fn lemma_fill(plan: Plan, out: Seq<SampleLocation>, offset: u64, k: nat)
    requires
        plan.fill(out, offset, k) is Ok,
        placed(plan, out),
        plan.timings.len() >= out.len() + k,
    ensures
        placed(plan, plan.fill(out, offset, k)->Ok_0),
        plan.fill(out, offset, k)->Ok_0.len() == out.len() + k,
    decreases k,
{
    if k > 0 {
        let i = out.len() as int;
        let next = out.push(
            SampleLocation {
                offset,
                size: plan.size(i),
                start: plan.timings[i].0,
                duration: plan.timings[i].1,
            },
        );
        assert forall|j: int| 0 <= j < next.len() implies sample_placed(
            plan,
            #[trigger] next[j],
            j,
        ) by {
            if j < i {
                assert(next[j] == out[j]);
            }
        }
        lemma_fill(plan, next, (offset + plan.size(i)) as u64, (k - 1) as nat);
    }
}

/// A sample is in the media data, is no larger than allowed, and has the size and times
/// that the tables give it.
pub open spec fn sample_placed(plan: Plan, s: SampleLocation, i: int) -> bool {
    &&& s.offset + s.size <= u64::MAX
    &&& s.size <= plan.limit
    &&& in_media(plan.mdat, s.offset, s.offset + s.size)
    &&& s.size == plan.size(i)
    &&& s.start == plan.timings[i].0
    &&& s.duration == plan.timings[i].1
}

pub open spec fn placed(plan: Plan, out: Seq<SampleLocation>) -> bool {
    forall|i: int| 0 <= i < out.len() ==> sample_placed(plan, #[trigger] out[i], i)
}

proof fn lemma_place(plan: Plan, out: Seq<SampleLocation>, chunk: int)
    requires
        plan.place(out, chunk) is Ok,
        placed(plan, out),
        out.len() <= plan.count,
        plan.timings.len() == plan.count,
    ensures
        placed(plan, plan.place(out, chunk)->Ok_0),
    decreases plan.chunks - chunk,
{
    if chunk < plan.chunks {
        let per = plan.mapping[run_of(plan.mapping, chunk, plan.mapping.len() as int)].1;
        lemma_fill(plan, out, plan.offset(chunk), per as nat);
        lemma_place(plan, plan.fill(out, plan.offset(chunk), per as nat)->Ok_0, chunk + 1);
    }
}

/// Reads the tables of a track and places its samples.
pub(crate) fn samples(t: &Track, mdat: &Vec<(u64, u64)>, work: &mut usize, sample_limit: usize) -> (r:
    IsobmffResult<Vec<SampleLocation>>)
    requires
        *old(work) <= MAX_BOXES,
    ensures
        *final(work) <= MAX_BOXES,
        match samples_of(
            t.table@,
            t.duration,
            mdat@,
            *old(work) as nat,
            sample_limit as nat,
        ) {
            Ok(s) => r is Ok && r->Ok_0@ == s,
            Err(f) => demux::fails(r, f),
        },
{
    let a = boxes(t.table.as_slice(), work)?;
    let ghost given = plan_of(demux::children(a@), t.duration, mdat@, sample_limit as nat);
    let layout = read_layout(&a, t.duration)?;
    let out = layout.place(mdat, sample_limit)?;
    if out.len() != layout.count {
        return Err(bad("incomplete sample mapping"));
    }
    proof {
        lemma_place(given->Ok_0, Seq::empty(), 0);
        assert forall|i: int| 0 <= i < out@.len() implies (#[trigger] out@[i]).offset
            + out@[i].size <= u64::MAX by {
            assert(sample_placed(given->Ok_0, out@[i], i));
        }
    }
    if !are_apart(&out) {
        return Err(bad("overlapping selected samples"));
    }
    Ok(out)
}

/// The extent that holds a sample.
proof fn lemma_extent(mdat: Seq<(u64, u64)>, offset: u64, n: int)
    requires
        0 <= n <= mdat.len(),
    ensures
        ({
            let at = extents_upto(mdat, offset, n);
            0 <= at <= n && (at > 0 ==> mdat[at - 1].0 <= offset)
        }),
    decreases n,
{
    if n > 0 && mdat[n - 1].0 > offset {
        lemma_extent(mdat, offset, n - 1);
    }
}

/// Every sample is in one extent of the media data and is no larger than allowed.
pub proof fn law_samples_in_media(
    tables: Seq<u8>,
    duration: u64,
    mdat: Seq<(u64, u64)>,
    work: nat,
    limit: nat,
    i: int,
)
    requires
        samples_of(tables, duration, mdat, work, limit) is Ok,
        0 <= i < samples_of(tables, duration, mdat, work, limit)->Ok_0.len(),
    ensures
        ({
            let s = samples_of(tables, duration, mdat, work, limit)->Ok_0[i];
            &&& s.size <= limit
            &&& exists|k: int|
                0 <= k < mdat.len() && (#[trigger] mdat[k]).0 <= s.offset && s.offset + s.size
                    <= mdat[k].1
        }),
{
    let plan = plan_of(demux::boxes_of(tables, work).0->Ok_0, duration, mdat, limit)->Ok_0;
    lemma_place(plan, Seq::empty(), 0);
    let s = samples_of(tables, duration, mdat, work, limit)->Ok_0[i];
    assert(sample_placed(plan, s, i));
    lemma_extent(mdat, s.offset, mdat.len() as int);
    let at = extents_upto(mdat, s.offset, mdat.len() as int);
    assert(mdat[at - 1].0 <= s.offset);
}

/// No two samples share a byte.
pub proof fn law_samples_apart(
    tables: Seq<u8>,
    duration: u64,
    mdat: Seq<(u64, u64)>,
    work: nat,
    limit: nat,
    i: int,
    j: int,
)
    requires
        samples_of(tables, duration, mdat, work, limit) is Ok,
        0 <= i < samples_of(tables, duration, mdat, work, limit)->Ok_0.len(),
        0 <= j < samples_of(tables, duration, mdat, work, limit)->Ok_0.len(),
        i != j,
    ensures
        ({
            let a = samples_of(tables, duration, mdat, work, limit)->Ok_0[i];
            let b = samples_of(tables, duration, mdat, work, limit)->Ok_0[j];
            a.offset + a.size <= b.offset || b.offset + b.size <= a.offset
        }),
{
    let plan = plan_of(demux::boxes_of(tables, work).0->Ok_0, duration, mdat, limit)->Ok_0;
    lemma_place(plan, Seq::empty(), 0);
    let all = samples_of(tables, duration, mdat, work, limit)->Ok_0;
    assert(sample_placed(plan, all[i], i));
    assert(sample_placed(plan, all[j], j));
    let r = ranges_of(all);
    assert(ahead(r[i], r[j]) || ahead(r[j], r[i]));
}

proof fn lemma_spread(t: Seq<(u64, u32)>, d: u32, k: nat)
    requires
        in_time(t),
        t.len() + k <= MAX_SAMPLES,
    ensures
        in_time(spread(t, d, k)),
        spread(t, d, k).len() == t.len() + k,
    decreases k,
{
    if k > 0 {
        lemma_spread(t, d, (k - 1) as nat);
        lemma_pushed(spread(t, d, (k - 1) as nat), d);
    }
}

proof fn lemma_timings(stts: Seq<u8>, n: nat)
    requires
        timings_of(stts, n) is Ok,
    ensures
        in_time(timings_of(stts, n)->Ok_0),
        timings_of(stts, n)->Ok_0.len() <= MAX_SAMPLES,
    decreases n,
{
    if n > 0 {
        lemma_timings(stts, (n - 1) as nat);
        lemma_spread(
            timings_of(stts, (n - 1) as nat)->Ok_0,
            bytes::get32(stts, (n - 1) * 8 + 4),
            bytes::get32(stts, (n - 1) * 8) as nat,
        );
    }
}

/// Samples follow each other in time: the first starts at zero, each ends where the next
/// starts, and the last ends where the track does.
pub proof fn law_samples_in_time(
    tables: Seq<u8>,
    duration: u64,
    mdat: Seq<(u64, u64)>,
    work: nat,
    limit: nat,
)
    requires
        samples_of(tables, duration, mdat, work, limit) is Ok,
    ensures
        ({
            let s = samples_of(tables, duration, mdat, work, limit)->Ok_0;
            &&& s.len() > 0 ==> s[0].start == 0
            &&& forall|i: int|
                0 <= i < s.len() - 1 ==> (#[trigger] s[i + 1]).start == s[i].start + s[i].duration
            &&& s.len() > 0 ==> s.last().start + s.last().duration == duration
            &&& s.len() == 0 ==> duration == 0
        }),
{
    let a = demux::boxes_of(tables, work).0->Ok_0;
    let plan = plan_of(a, duration, mdat, limit)->Ok_0;
    lemma_place(plan, Seq::empty(), 0);
    let (stts, n) = table_of(a, kinds::STTS@, 8)->Ok_0;
    lemma_timings(stts, n as nat);
    let s = samples_of(tables, duration, mdat, work, limit)->Ok_0;
    if s.len() > 0 {
        assert(sample_placed(plan, s[0], 0));
        assert(sample_placed(plan, s[s.len() - 1], s.len() - 1));
    }
    assert forall|i: int| 0 <= i < s.len() - 1 implies (#[trigger] s[i + 1]).start == s[i].start
        + s[i].duration by {
        assert(sample_placed(plan, s[i], i));
        assert(sample_placed(plan, s[i + 1], i + 1));
        assert(plan.timings[i + 1].0 == plan.timings[i].0 + plan.timings[i].1);
    }
}

/// A time in nanoseconds, given in units of which `per` are a second.
pub open spec fn nanoseconds(n: int, per: int) -> Result<u64, Fault> {
    let v = n * 1_000_000_000 / per;
    if v > u64::MAX {
        Err(Fault::Bad("invalid/overflowed sample time"@))
    } else {
        Ok(v as u64)
    }
}

fn convert(n: u128, per: u128) -> (r: IsobmffResult<u64>)
    requires
        per > 0,
        n < 0x4_0000_0000_0000_0000_0000_0000,
    ensures
        demux::gives(r, nanoseconds(n as int, per as int)),
{
    let v: u128 = n * 1_000_000_000 / per;
    if v > u64::MAX as u128 {
        return Err(bad("invalid/overflowed sample time"));
    }
    Ok(v as u64)
}

/// A time of a media in nanoseconds.
fn ns(t: u64, scale: u32) -> (r: IsobmffResult<u64>)
    requires
        scale > 0,
    ensures
        demux::gives(r, nanoseconds(t as int, scale as int)),
{
    convert(t as u128, scale as u128)
}

/// When a sample is shown under an edit, if it is.
pub open spec fn edited_of(start: u64, duration: u32, scale: u32, movie_scale: u32, edit: Edit) -> Result<
    Option<(u64, u64)>,
    Fault,
> {
    let (delay, media, length) = edit;
    let a = start * movie_scale;
    let b = (start + duration) * movie_scale;
    let begin = media * movie_scale;
    let end = begin + length * scale;
    if b <= begin || a >= end {
        Ok(None)
    } else {
        let per = scale * movie_scale;
        let from = delay * scale + (if a > begin {
            a
        } else {
            begin
        }) - begin;
        let to = delay * scale + (if b < end {
            b
        } else {
            end
        }) - begin;
        match nanoseconds(from, per) {
            Err(f) => Err(f),
            Ok(x) => match nanoseconds(to, per) {
                Err(f) => Err(f),
                Ok(y) => Ok(Some((x, y))),
            },
        }
    }
}

/// A product of a time and a time scale.
fn scaled(t: u128, scale: u32) -> (r: u128)
    requires
        t <= u64::MAX + u32::MAX,
    ensures
        r == t * scale,
        r < 0x1_0000_0001_0000_0000_0000_0000,
{
    assert(t * scale <= (u64::MAX + u32::MAX) * u32::MAX) by (nonlinear_arith)
        requires
            t <= u64::MAX + u32::MAX,
            scale <= u32::MAX,
    ;
    t * scale as u128
}

/// When a sample is shown under an edit; `None` if the edit leaves it out.
pub fn edited_times(start: u64, duration: u32, scale: u32, movie_scale: u32, edit: Edit) -> (r:
    IsobmffResult<Option<(u64, u64)>>)
    requires
        scale > 0,
        movie_scale > 0,
    ensures
        demux::gives(r, edited_of(start, duration, scale, movie_scale, edit)),
{
    let a: u128 = scaled(start as u128, movie_scale);
    let b: u128 = scaled(start as u128 + duration as u128, movie_scale);
    let begin: u128 = scaled(edit.1 as u128, movie_scale);
    let end: u128 = begin + scaled(edit.2 as u128, scale);
    if b <= begin || a >= end {
        return Ok(None);
    }
    let delay: u128 = scaled(edit.0 as u128, scale);
    let per: u128 = scaled(scale as u128, movie_scale);
    assert(scale * movie_scale > 0) by (nonlinear_arith)
        requires
            scale > 0,
            movie_scale > 0,
    ;
    let first: u128 = if a > begin {
        a
    } else {
        begin
    };
    let last: u128 = if b < end {
        b
    } else {
        end
    };
    let x: u64 = convert(delay + (first - begin), per)?;
    let y: u64 = convert(delay + (last - begin), per)?;
    Ok(Some((x, y)))
}

/// A sample that is shown ends no earlier than it starts.
pub proof fn law_shown_forward(
    start: u64,
    duration: u32,
    scale: u32,
    movie_scale: u32,
    edit: Edit,
)
    requires
        scale > 0,
        movie_scale > 0,
    ensures
        edited_of(start, duration, scale, movie_scale, edit) matches Ok(Some((x, y))) ==> x <= y,
{
    let (delay, media, length) = edit;
    let a = start * movie_scale;
    let b = (start + duration) * movie_scale;
    let begin = media * movie_scale;
    let end = begin + length * scale;
    let per = scale * movie_scale;
    assert(per > 0) by (nonlinear_arith)
        requires
            scale > 0,
            movie_scale > 0,
            per == scale * movie_scale,
    ;
    assert(a <= b) by (nonlinear_arith)
        requires
            a == start * movie_scale,
            b == (start + duration) * movie_scale,
            duration >= 0,
            movie_scale >= 0,
    ;
    let from = delay * scale + (if a > begin {
        a
    } else {
        begin
    }) - begin;
    let to = delay * scale + (if b < end {
        b
    } else {
        end
    }) - begin;
    if !(b <= begin || a >= end) {
        vstd::arithmetic::div_mod::lemma_div_is_ordered(
            from * 1_000_000_000,
            to * 1_000_000_000,
            per,
        );
    }
}

/// A sample and when it is decoded and shown.
#[derive(Debug)]
pub struct Sample {
    pub data: Vec<u8>,
    pub decode_time: u64,
    pub duration: u32,
    pub source_duration_ns: u64,
    /// From when to when the sample is shown; `None` if the edit leaves it out.
    pub presentation_ns: Option<(u64, u64)>,
}

/// What is said of a sample besides its data.
pub struct Timing {
    pub source_duration_ns: u64,
    pub presentation_ns: Option<(u64, u64)>,
}

/// When a sample is shown.
pub open spec fn timing_of(s: SampleLocation, edit: Option<Edit>, scale: u32, movie_scale: u32) -> Result<
    Timing,
    Fault,
> {
    let shown: Result<Option<(u64, u64)>, Fault> = match edit {
        Some(e) => edited_of(s.start, s.duration, scale, movie_scale, e),
        None => match nanoseconds(s.start as int, scale as int) {
            Err(f) => Err(f),
            Ok(x) => if s.start + s.duration > u64::MAX {
                Err(Fault::Bad("invalid/overflowed sample time"@))
            } else {
                match nanoseconds(s.start + s.duration, scale as int) {
                    Err(f) => Err(f),
                    Ok(y) => Ok(Some((x, y))),
                }
            },
        },
    };
    match shown {
        Err(f) => Err(f),
        Ok(p) => match nanoseconds(s.duration as int, scale as int) {
            Err(f) => Err(f),
            Ok(d) => Ok(Timing { source_duration_ns: d, presentation_ns: p }),
        },
    }
}

fn timing(s: &SampleLocation, edit: Option<Edit>, scale: u32, movie_scale: u32) -> (r:
    IsobmffResult<(u64, Option<(u64, u64)>)>)
    requires
        scale > 0,
        movie_scale > 0,
    ensures
        match timing_of(*s, edit, scale, movie_scale) {
            Ok(t) => r is Ok && r->Ok_0.0 == t.source_duration_ns && r->Ok_0.1 == t.presentation_ns,
            Err(f) => demux::fails(r, f),
        },
{
    let shown: Option<(u64, u64)> = match edit {
        Some(e) => edited_times(s.start, s.duration, scale, movie_scale, e)?,
        None => {
            let x: u64 = ns(s.start, scale)?;
            if s.start > u64::MAX - s.duration as u64 {
                return Err(bad("invalid/overflowed sample time"));
            }
            let y: u64 = ns(s.start + s.duration as u64, scale)?;
            Some((x, y))
        },
    };
    let d: u64 = ns(s.duration as u64, scale)?;
    Ok((d, shown))
}

/// Reads the samples of a track one after the other. After a failure there are no more.
pub struct SampleReader {
    budget: Budget,
    track: Track,
    locations: Vec<SampleLocation>,
    next: usize,
    movie_scale: u32,
    failed: bool,
    asked: bool,
}

pub struct ReaderView {
    pub budget: Budget,
    pub track: demux::track::TrackView,
    pub locations: Seq<SampleLocation>,
    /// How many samples have been asked for.
    pub next: nat,
    pub movie_scale: u32,
    /// A sample has been asked for and not been handed over, or was refused.
    pub failed: bool,
    /// The bytes of a sample have been asked for.
    pub asked: bool,
}

impl ReaderView {
    /// The state in which the next sample is asked for.
    pub open spec fn asking(self) -> ReaderView {
        ReaderView { next: self.next + 1, failed: true, asked: false, ..self }
    }
}

impl View for SampleReader {
    type V = ReaderView;

    closed spec fn view(&self) -> ReaderView {
        ReaderView {
            budget: self.budget,
            track: self.track@,
            locations: self.locations@,
            next: self.next as nat,
            movie_scale: self.movie_scale,
            failed: self.failed,
            asked: self.asked,
        }
    }
}

impl SampleReader {
    #[verifier::type_invariant]
    spec fn wf(self) -> bool {
        &&& self.budget.wf()
        &&& self.track.timescale > 0
        &&& self.movie_scale > 0
        &&& self.next <= self.locations@.len()
        &&& self.asked ==> self.next > 0
    }

    pub(crate) fn new(
        budget: Budget,
        track: Track,
        locations: Vec<SampleLocation>,
        movie_scale: u32,
    ) -> (r: Self)
        requires
            budget.wf(),
            track.timescale > 0,
            movie_scale > 0,
        ensures
            r@ == (ReaderView {
                budget,
                track: track@,
                locations: locations@,
                next: 0,
                movie_scale,
                failed: false,
                asked: false,
            }),
    {
        SampleReader { budget, track, locations, next: 0, movie_scale, failed: false, asked: false }
    }

    /// The track whose samples are read.
    pub fn track(&self) -> (r: &Track)
        ensures
            r@ == self@.track,
    {
        &self.track
    }

    /// How many bytes have been read of the file.
    pub fn bytes_read(&self) -> (r: usize)
        ensures
            r == self@.budget.read,
    {
        self.budget.read
    }

    /// Where the next sample is and how long it is; `None` behind the last. Its bytes
    /// are to be handed to [`SampleReader::take_sample`].
    pub fn next_sample(&mut self) -> (r: IsobmffResult<Option<(u64, usize)>>)
        ensures
            ({
                let v = old(self)@;
                if v.failed {
                    demux::fails(r, Fault::Bad("sample reader is in failed state"@))
                        && final(self)@ == v
                } else if v.next == v.locations.len() {
                    r is Ok && r->Ok_0 is None && final(self)@ == v
                } else {
                    let s = v.locations[v.next as int];
                    match v.budget.refusal(s.offset as int, s.size as int) {
                        Some(f) => demux::fails(r, f) && final(self)@ == v.asking(),
                        None => r is Ok && r->Ok_0 == Some((s.offset, s.size as usize))
                            && final(self)@ == (ReaderView {
                            budget: v.budget.spent(s.size as int),
                            asked: true,
                            ..v.asking()
                        }),
                    }
                }
            }),
    {
        proof {
            use_type_invariant(&*self);
        }
        if self.failed {
            return Err(bad("sample reader is in failed state"));
        }
        if self.next == self.locations.len() {
            return Ok(None);
        }
        let s: SampleLocation = self.locations[self.next];
        let mut budget: Budget = self.budget;
        self.failed = true;
        self.asked = false;
        self.next = self.next + 1;
        budget.take(s.offset, s.size as usize)?;
        self.budget = budget;
        self.asked = true;
        Ok(Some((s.offset, s.size as usize)))
    }

    /// Takes the bytes of the sample that was asked for last.
    pub fn take_sample(&mut self, data: Vec<u8>) -> (r: IsobmffResult<Sample>)
        requires
            old(self)@.asked,
            data@.len() == old(self)@.locations[old(self)@.next - 1].size,
        ensures
            ({
                let v = old(self)@;
                let s = v.locations[v.next - 1];
                match timing_of(s, v.track.edit, v.track.timescale, v.movie_scale) {
                    Err(f) => demux::fails(r, f) && final(self)@ == (ReaderView {
                        asked: false,
                        ..v
                    }),
                    Ok(t) => r is Ok && r->Ok_0 == (Sample {
                        data,
                        decode_time: s.start,
                        duration: s.duration,
                        source_duration_ns: t.source_duration_ns,
                        presentation_ns: t.presentation_ns,
                    }) && final(self)@ == (ReaderView {
                        failed: false,
                        asked: false,
                        ..v
                    }),
                }
            }),
    {
        proof {
            use_type_invariant(&*self);
        }
        self.asked = false;
        let s: SampleLocation = self.locations[self.next - 1];
        let (source_duration_ns, presentation_ns) = timing(
            &s,
            self.track.edit,
            self.track.timescale,
            self.movie_scale,
        )?;
        self.failed = false;
        Ok(
            Sample {
                data,
                decode_time: s.start,
                duration: s.duration,
                source_duration_ns,
                presentation_ns,
            },
        )
    }
}

/// The value of a [`Sample`].
#[verifier::ext_equal]
pub struct SampleView {
    pub data: Seq<u8>,
    pub decode_time: u64,
    pub duration: u32,
    pub source_duration_ns: u64,
    pub presentation_ns: Option<(u64, u64)>,
}

impl View for Sample {
    type V = SampleView;

    open spec fn view(&self) -> SampleView {
        SampleView {
            data: self.data@,
            decode_time: self.decode_time,
            duration: self.duration,
            source_duration_ns: self.source_duration_ns,
            presentation_ns: self.presentation_ns,
        }
    }
}

/// What reading the next sample of a file gives, and the state after it.
pub open spec fn step(v: ReaderView, file: Seq<u8>) -> (
    Result<Option<SampleView>, Fault>,
    ReaderView,
) {
    if v.failed {
        (Err(Fault::Bad("sample reader is in failed state"@)), v)
    } else if v.next == v.locations.len() {
        (Ok(None), v)
    } else {
        let s = v.locations[v.next as int];
        match v.budget.refusal(s.offset as int, s.size as int) {
            Some(f) => (Err(f), v.asking()),
            None => {
                let w = ReaderView { budget: v.budget.spent(s.size as int), ..v.asking() };
                match timing_of(s, v.track.edit, v.track.timescale, v.movie_scale) {
                    Err(f) => (Err(f), w),
                    Ok(t) => (
                        Ok(
                            Some(
                                SampleView {
                                    data: file.subrange(s.offset as int, s.offset + s.size),
                                    decode_time: s.start,
                                    duration: s.duration,
                                    source_duration_ns: t.source_duration_ns,
                                    presentation_ns: t.presentation_ns,
                                },
                            ),
                        ),
                        ReaderView { failed: false, ..w },
                    ),
                }
            },
        }
    }
}

/// The call gave the outcome.
pub open spec fn reads(
    r: IsobmffResult<Option<Sample>>,
    s: Result<Option<SampleView>, Fault>,
) -> bool {
    match s {
        Err(f) => demux::fails(r, f),
        Ok(None) => r is Ok && r->Ok_0 is None,
        Ok(Some(x)) => r is Ok && r->Ok_0 is Some && r->Ok_0->0@ == x,
    }
}

impl SampleReader {
    /// Reads the next sample of a file in memory; `None` behind the last.
    pub fn read_sample(&mut self, file: &[u8]) -> (r: IsobmffResult<Option<Sample>>)
        requires
            old(self)@.budget.len <= file@.len(),
        ensures
            reads(r, step(old(self)@, file@).0),
            final(self)@ == step(old(self)@, file@).1,
    {
        let (at, len) = match self.next_sample()? {
            None => return Ok(None),
            Some(ask) => ask,
        };
        assert(file@.len() == file.len());
        let (_, tail) = file.split_at(at as usize);
        let (data, _) = tail.split_at(len);
        assert(data@ =~= file@.subrange(at as int, at + len));
        Ok(Some(self.take_sample(bytes::to_vec(data))?))
    }
}

/// The state after `i` samples have been read.
pub open spec fn after(v: ReaderView, file: Seq<u8>, i: nat) -> ReaderView
    decreases i,
{
    if i == 0 {
        v
    } else {
        step(after(v, file, (i - 1) as nat), file).1
    }
}

/// How long the first `i` samples take together.
pub open spec fn time_before(s: Seq<SampleLocation>, i: int) -> int
    decreases i,
{
    if i <= 0 {
        0
    } else {
        time_before(s, i - 1) + s[i - 1].duration
    }
}

/// How many bytes the first `i` samples have together.
pub open spec fn bytes_before(s: Seq<SampleLocation>, i: int) -> int
    decreases i,
{
    if i <= 0 {
        0
    } else {
        bytes_before(s, i - 1) + s[i - 1].size
    }
}

proof fn lemma_bytes_before(s: Seq<SampleLocation>, i: int, n: int)
    requires
        0 <= i <= n,
    ensures
        bytes_before(s, i) <= bytes_before(s, n),
    decreases n - i,
{
    if i < n {
        lemma_bytes_before(s, i, n - 1);
    }
}

/// A reader at the first of the samples that the tables of its track give: the media
/// data is in the file, all samples may be read, and their times can be told.
pub open spec fn at_start(
    v: ReaderView,
    tables: Seq<u8>,
    duration: u64,
    mdat: Seq<(u64, u64)>,
    work: nat,
) -> bool {
    &&& samples_of(tables, duration, mdat, work, v.budget.limits.sample_bytes as nat) == Ok::<
        Seq<SampleLocation>,
        Fault,
    >(v.locations)
    &&& v.next == 0
    &&& !v.failed
    &&& !v.asked
    &&& v.budget.read + bytes_before(v.locations, v.locations.len() as int)
        <= v.budget.limits.read_bytes
    &&& forall|k: int| 0 <= k < mdat.len() ==> (#[trigger] mdat[k]).1 <= v.budget.len
    &&& forall|k: int|
        0 <= k < v.locations.len() ==> timing_of(
            #[trigger] v.locations[k],
            v.track.edit,
            v.track.timescale,
            v.movie_scale,
        ) is Ok
}

/// The samples before sample `i` have been read.
proof fn lemma_after(
    v: ReaderView,
    file: Seq<u8>,
    tables: Seq<u8>,
    duration: u64,
    mdat: Seq<(u64, u64)>,
    work: nat,
    i: nat,
)
    requires
        at_start(v, tables, duration, mdat, work),
        i <= v.locations.len(),
    ensures
        after(v, file, i) == (ReaderView {
            next: i,
            budget: v.budget.spent(bytes_before(v.locations, i as int)),
            ..v
        }),
        i < v.locations.len() ==> after(v, file, i).budget.refusal(
            v.locations[i as int].offset as int,
            v.locations[i as int].size as int,
        ) is None,
    decreases i,
{
    let n = v.locations.len() as int;
    lemma_bytes_before(v.locations, i as int, n);
    if i > 0 {
        lemma_after(v, file, tables, duration, mdat, work, (i - 1) as nat);
        assert(timing_of(
            v.locations[i - 1],
            v.track.edit,
            v.track.timescale,
            v.movie_scale,
        ) is Ok);
        lemma_bytes_before(v.locations, i - 1, n);
        lemma_bytes_before(v.locations, 0, i - 1);
        let before = v.budget.spent(bytes_before(v.locations, i - 1));
        assert(before.spent(v.locations[i - 1].size as int) == v.budget.spent(
            bytes_before(v.locations, i as int),
        ));
        assert(step(after(v, file, (i - 1) as nat), file).1.next == i);
    } else {
        assert(v.budget.spent(0) == v.budget);
    }
    lemma_bytes_before(v.locations, 0, i as int);
    if i < n {
        lemma_bytes_before(v.locations, i as int + 1, n);
        let a = demux::boxes_of(tables, work).0->Ok_0;
        let plan = plan_of(a, duration, mdat, v.budget.limits.sample_bytes as nat)->Ok_0;
        lemma_place(plan, Seq::empty(), 0);
        let s = v.locations[i as int];
        assert(sample_placed(plan, s, i as int));
        let k = extents_upto(mdat, s.offset, mdat.len() as int);
        lemma_extent(mdat, s.offset, mdat.len() as int);
        assert(mdat[k - 1].1 <= v.budget.len);
    }
}

/// A sample starts when those before it have taken their time.
proof fn lemma_starts(
    tables: Seq<u8>,
    duration: u64,
    mdat: Seq<(u64, u64)>,
    work: nat,
    limit: nat,
    i: int,
)
    requires
        samples_of(tables, duration, mdat, work, limit) is Ok,
        0 <= i < samples_of(tables, duration, mdat, work, limit)->Ok_0.len(),
    ensures
        samples_of(tables, duration, mdat, work, limit)->Ok_0[i].start == time_before(
            samples_of(tables, duration, mdat, work, limit)->Ok_0,
            i,
        ),
    decreases i,
{
    law_samples_in_time(tables, duration, mdat, work, limit);
    if i > 0 {
        lemma_starts(tables, duration, mdat, work, limit, i - 1);
        let s = samples_of(tables, duration, mdat, work, limit)->Ok_0;
        assert(s[i - 1 + 1].start == s[i - 1].start + s[i - 1].duration);
    }
}

/// A read that fails is the last one that says anything: every read after it is refused
/// in the same words, and changes nothing.
pub proof fn law_failure_is_final(v: ReaderView, file: Seq<u8>, later: Seq<u8>, n: nat)
    requires
        step(v, file).0 is Err,
    ensures
        ({
            let w = step(v, file).1;
            after(w, later, n) == w && step(w, later) == (
                Err::<Option<SampleView>, Fault>(Fault::Bad("sample reader is in failed state"@)),
                w,
            )
        }),
    decreases n,
{
    if n > 0 {
        law_failure_is_final(v, file, later, (n - 1) as nat);
    }
}

/// Reading gives the samples one after the other: sample `i` has the bytes of the file
/// where the tables say that it is, is decoded after the durations of all samples before
/// it, and lasts as long as the tables say, in ticks and in nanoseconds rounded down.
/// Without an edit it is shown from then on until its end. Behind the last sample there
/// is none, and asking again changes nothing.
pub proof fn law_samples_are_read_in_turn(
    v: ReaderView,
    file: Seq<u8>,
    tables: Seq<u8>,
    duration: u64,
    mdat: Seq<(u64, u64)>,
    work: nat,
    i: nat,
)
    requires
        at_start(v, tables, duration, mdat, work),
        v.track.timescale > 0,
        i <= v.locations.len(),
    ensures
        ({
            let (r, w) = step(after(v, file, i), file);
            let c = v.track.timescale;
            let s = v.locations[i as int];
            let t = time_before(v.locations, i as int);
            if i == v.locations.len() {
                r == Ok::<Option<SampleView>, Fault>(None) && w == after(v, file, i)
            } else {
                &&& r matches Ok(Some(x))
                &&& x.data == file.subrange(s.offset as int, s.offset + s.size)
                &&& x.decode_time == t
                &&& x.duration == s.duration
                &&& x.source_duration_ns == s.duration * 1_000_000_000 / c as int
                &&& match v.track.edit {
                    None => x.presentation_ns == Some(
                        (
                            (t * 1_000_000_000 / c as int) as u64,
                            ((t + s.duration) * 1_000_000_000 / c as int) as u64,
                        ),
                    ),
                    Some(e) => Ok::<Option<(u64, u64)>, Fault>(x.presentation_ns) == edited_of(
                        s.start,
                        s.duration,
                        c,
                        v.movie_scale,
                        e,
                    ),
                }
            }
        }),
{
    lemma_after(v, file, tables, duration, mdat, work, i);
    if i < v.locations.len() {
        lemma_starts(
            tables,
            duration,
            mdat,
            work,
            v.budget.limits.sample_bytes as nat,
            i as int,
        );
        assert(timing_of(
            v.locations[i as int],
            v.track.edit,
            v.track.timescale,
            v.movie_scale,
        ) is Ok);
    }
}

} // verus!
