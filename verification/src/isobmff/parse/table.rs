//! The sample tables of a track.

use crate::bytes;
use crate::isobmff::boxes::fragment;
use crate::isobmff::boxes::kinds;
use crate::isobmff::error;
use crate::isobmff::parse::cursor;
use crate::isobmff::parse::cursor::{find_box, parse_err, require_child, Cursor};
use crate::isobmff::{IsobmffError, IsobmffResult};
use crate::text;
use vstd::prelude::*;
use vstd::string::*;

verus! {

/// A sample: where it is, when it is decoded and shown, and whether decoding can start
/// with it.
#[derive(Debug, Clone, Copy)]
pub struct SampleRef {
    pub offset: u64,
    pub size: u32,
    /// When it is decoded, in ticks of the track.
    pub dts: u64,
    pub duration: u32,
    /// By how much it is shown later than it is decoded.
    pub cts_offset: i32,
    /// All samples are, if the track does not say which.
    pub is_keyframe: bool,
}

impl SampleRef {
    /// When the sample is shown, and zero at the earliest.
    pub open spec fn shown(&self) -> int {
        if self.dts + self.cts_offset < 0 {
            0
        } else if self.dts + self.cts_offset > u64::MAX {
            u64::MAX as int
        } else {
            self.dts + self.cts_offset
        }
    }

    /// When the sample is shown, in ticks of the track.
    pub fn pts(&self) -> (r: u64)
        ensures
            r == self.shown(),
    {
        if self.cts_offset >= 0 {
            let late: u64 = self.cts_offset as u64;
            if self.dts > u64::MAX - late {
                u64::MAX
            } else {
                self.dts + late
            }
        } else {
            let early: u64 = (-(self.cts_offset as i64)) as u64;
            if self.dts < early {
                0
            } else {
                self.dts - early
            }
        }
    }
}

/// `n` runs, each a number of times and a value, one after the other behind `acc`.
pub open spec fn expand(b: Seq<u8>, at: int, n: nat, acc: Seq<u32>) -> Result<Seq<u32>, Seq<char>>
    decreases n,
{
    if n == 0 {
        Ok(acc)
    } else {
        match cursor::lack(b, at, seq![4nat, 4]) {
            Some(m) => Err(m),
            None => expand(
                b,
                at + 8,
                (n - 1) as nat,
                acc + Seq::new(
                    bytes::get32(b, at) as nat,
                    |i: int| bytes::get32(b, at + 4),
                ),
            ),
        }
    }
}

/// The duration of each sample.
pub open spec fn durations_of(b: Seq<u8>) -> Result<Seq<u32>, Seq<char>> {
    match cursor::lack(b, 0, seq![4nat, 4]) {
        Some(m) => Err(m),
        None => expand(b, 8, bytes::get32(b, 4) as nat, Seq::empty()),
    }
}

/// The call gave these values, or failed with the text.
pub open spec fn gives<T>(r: IsobmffResult<Vec<T>>, s: Result<Seq<T>, Seq<char>>) -> bool {
    match s {
        Ok(v) => r is Ok && r->Ok_0@ == v,
        Err(m) => error::heif(r, m),
    }
}

fn parse_stts(b: &[u8]) -> (r: IsobmffResult<Vec<u32>>)
    ensures
        gives(r, durations_of(b@)),
{
    proof {
        reveal_with_fuel(cursor::lack, 3);
    }
    let mut c = Cursor::new(b);
    c.skip(4)?;
    let n: u32 = c.read_u32()?;
    let mut out: Vec<u32> = Vec::new();
    let mut i: u32 = 0;
    while i < n
        invariant
            c.wf(),
            c.buf@ == b@,
            i <= n,
            durations_of(b@) == expand(b@, c.pos as int, (n - i) as nat, out@),
        decreases n - i,
    {
        proof {
            reveal_with_fuel(cursor::lack, 3);
        }
        let count: u32 = c.read_u32()?;
        let delta: u32 = c.read_u32()?;
        let ghost before = out@;
        let mut k: u32 = 0;
        while k < count
            invariant
                k <= count,
                out@ == before + Seq::new(k as nat, |i: int| delta),
            decreases count - k,
        {
            out.push(delta);
            k = k + 1;
            assert(out@ =~= before + Seq::new(k as nat, |i: int| delta));
        }
        i = i + 1;
    }
    Ok(out)
}

/// `n` 32-bit numbers behind `acc`.
pub open spec fn numbers(b: Seq<u8>, at: int, n: nat, acc: Seq<u32>) -> Result<Seq<u32>, Seq<char>>
    decreases n,
{
    if n == 0 {
        Ok(acc)
    } else {
        match cursor::lack(b, at, seq![4nat]) {
            Some(m) => Err(m),
            None => numbers(b, at + 4, (n - 1) as nat, acc.push(bytes::get32(b, at))),
        }
    }
}

/// Reads `n` 32-bit numbers.
fn read_numbers(c: &mut Cursor<'_>, n: u32) -> (r: IsobmffResult<Vec<u32>>)
    requires
        old(c).wf(),
    ensures
        gives(r, numbers(old(c).buf@, old(c).pos as int, n as nat, Seq::empty())),
{
    let mut out: Vec<u32> = Vec::new();
    let mut i: u32 = 0;
    let ghost b = c.buf@;
    let ghost at = c.pos as int;
    while i < n
        invariant
            c.wf(),
            c.buf@ == b,
            b == old(c).buf@,
            at == old(c).pos,
            i <= n,
            numbers(b, at, n as nat, Seq::empty()) == numbers(
                b,
                c.pos as int,
                (n - i) as nat,
                out@,
            ),
        decreases n - i,
    {
        proof {
            reveal_with_fuel(cursor::lack, 2);
        }
        let v: u32 = c.read_u32()?;
        out.push(v);
        i = i + 1;
    }
    Ok(out)
}

/// The size of each sample.
pub open spec fn sizes_of(b: Seq<u8>) -> Result<Seq<u32>, Seq<char>> {
    match cursor::lack(b, 0, seq![4nat, 4, 4]) {
        Some(m) => Err(m),
        None => {
            let size = bytes::get32(b, 4);
            let n = bytes::get32(b, 8) as nat;
            if size != 0 {
                Ok(Seq::new(n, |i: int| size))
            } else {
                numbers(b, 12, n, Seq::empty())
            }
        },
    }
}

fn parse_stsz(b: &[u8]) -> (r: IsobmffResult<Vec<u32>>)
    ensures
        gives(r, sizes_of(b@)),
{
    proof {
        reveal_with_fuel(cursor::lack, 4);
    }
    let mut c = Cursor::new(b);
    c.skip(4)?;
    let size: u32 = c.read_u32()?;
    let n: u32 = c.read_u32()?;
    if size == 0 {
        return read_numbers(&mut c, n);
    }
    let mut out: Vec<u32> = Vec::new();
    let mut k: u32 = 0;
    assert(out@ =~= Seq::new(0, |i: int| size));
    while k < n
        invariant
            k <= n,
            out@ == Seq::new(k as nat, |i: int| size),
        decreases n - k,
    {
        out.push(size);
        k = k + 1;
        assert(out@ =~= Seq::new(k as nat, |i: int| size));
    }
    Ok(out)
}

/// A run of chunks: the number of the first, which starts at one, and how many samples
/// each has.
#[derive(Debug, Clone, Copy)]
pub struct StscRun {
    pub first_chunk: u32,
    pub samples_per_chunk: u32,
}

/// `n` runs of chunks behind `acc`.
pub open spec fn chunk_runs(b: Seq<u8>, at: int, n: nat, acc: Seq<StscRun>) -> Result<
    Seq<StscRun>,
    Seq<char>,
>
    decreases n,
{
    if n == 0 {
        Ok(acc)
    } else {
        match cursor::lack(b, at, seq![4nat, 4, 4]) {
            Some(m) => Err(m),
            None => chunk_runs(
                b,
                at + 12,
                (n - 1) as nat,
                acc.push(
                    StscRun {
                        first_chunk: bytes::get32(b, at),
                        samples_per_chunk: bytes::get32(b, at + 4),
                    },
                ),
            ),
        }
    }
}

/// The runs of chunks.
pub open spec fn runs_of(b: Seq<u8>) -> Result<Seq<StscRun>, Seq<char>> {
    match cursor::lack(b, 0, seq![4nat, 4]) {
        Some(m) => Err(m),
        None => chunk_runs(b, 8, bytes::get32(b, 4) as nat, Seq::empty()),
    }
}

fn parse_stsc(b: &[u8]) -> (r: IsobmffResult<Vec<StscRun>>)
    ensures
        gives(r, runs_of(b@)),
{
    proof {
        reveal_with_fuel(cursor::lack, 3);
    }
    let mut c = Cursor::new(b);
    c.skip(4)?;
    let n: u32 = c.read_u32()?;
    let mut out: Vec<StscRun> = Vec::new();
    let mut i: u32 = 0;
    while i < n
        invariant
            c.wf(),
            c.buf@ == b@,
            i <= n,
            runs_of(b@) == chunk_runs(b@, c.pos as int, (n - i) as nat, out@),
        decreases n - i,
    {
        proof {
            reveal_with_fuel(cursor::lack, 4);
        }
        let first_chunk: u32 = c.read_u32()?;
        let samples_per_chunk: u32 = c.read_u32()?;
        c.skip(4)?;
        out.push(StscRun { first_chunk, samples_per_chunk });
        i = i + 1;
    }
    Ok(out)
}

/// `n` offsets behind `acc`.
pub open spec fn offsets(b: Seq<u8>, at: int, n: nat, wide: bool, acc: Seq<u64>) -> Result<
    Seq<u64>,
    Seq<char>,
>
    decreases n,
{
    let width: nat = if wide {
        8
    } else {
        4
    };
    if n == 0 {
        Ok(acc)
    } else {
        match cursor::lack(b, at, seq![width]) {
            Some(m) => Err(m),
            None => offsets(
                b,
                at + width,
                (n - 1) as nat,
                wide,
                acc.push(
                    if wide {
                        bytes::get64(b, at)
                    } else {
                        bytes::get32(b, at) as u64
                    },
                ),
            ),
        }
    }
}

/// The offset of each chunk.
pub open spec fn chunks_of(b: Seq<u8>, wide: bool) -> Result<Seq<u64>, Seq<char>> {
    match cursor::lack(b, 0, seq![4nat, 4]) {
        Some(m) => Err(m),
        None => offsets(b, 8, bytes::get32(b, 4) as nat, wide, Seq::empty()),
    }
}

fn parse_chunks(b: &[u8], wide: bool) -> (r: IsobmffResult<Vec<u64>>)
    ensures
        gives(r, chunks_of(b@, wide)),
{
    proof {
        reveal_with_fuel(cursor::lack, 3);
    }
    let mut c = Cursor::new(b);
    c.skip(4)?;
    let n: u32 = c.read_u32()?;
    let mut out: Vec<u64> = Vec::new();
    let mut i: u32 = 0;
    while i < n
        invariant
            c.wf(),
            c.buf@ == b@,
            i <= n,
            chunks_of(b@, wide) == offsets(b@, c.pos as int, (n - i) as nat, wide, out@),
        decreases n - i,
    {
        proof {
            reveal_with_fuel(cursor::lack, 2);
        }
        let v: u64 = if wide {
            c.read_u64()?
        } else {
            c.read_u32()? as u64
        };
        out.push(v);
        i = i + 1;
    }
    Ok(out)
}

/// The text of the error for a sample number that no sample has.
pub open spec fn number_text(v: nat, n: nat) -> Seq<char> {
    "stss sample_number "@ + text::decimal(v) + " out of range 1..="@ + text::decimal(n)
}

/// Marks of `n` samples at which decoding can start, of which `k` are to come.
pub open spec fn marks(b: Seq<u8>, at: int, k: nat, acc: Seq<bool>) -> Result<Seq<bool>, Seq<char>>
    decreases k,
{
    if k == 0 {
        Ok(acc)
    } else {
        match cursor::lack(b, at, seq![4nat]) {
            Some(m) => Err(m),
            None => {
                let v = bytes::get32(b, at);
                if v == 0 || v > acc.len() {
                    Err(number_text(v as nat, acc.len()))
                } else {
                    marks(b, at + 4, (k - 1) as nat, acc.update(v - 1, true))
                }
            },
        }
    }
}

/// Whether decoding can start at each of `n` samples.
pub open spec fn keyframes_of(b: Option<Seq<u8>>, n: nat) -> Result<Seq<bool>, Seq<char>> {
    match b {
        None => Ok(Seq::new(n, |i: int| true)),
        Some(s) => match cursor::lack(s, 0, seq![4nat, 4]) {
            Some(m) => Err(m),
            None => marks(s, 8, bytes::get32(s, 4) as nat, Seq::new(n, |i: int| false)),
        },
    }
}

fn filled<T: Copy>(v: T, n: usize) -> (r: Vec<T>)
    ensures
        r@ == Seq::new(n as nat, |i: int| v),
{
    let mut out: Vec<T> = Vec::new();
    let mut k: usize = 0;
    assert(out@ =~= Seq::new(0, |i: int| v));
    while k < n
        invariant
            k <= n,
            out@ == Seq::new(k as nat, |i: int| v),
        decreases n - k,
    {
        out.push(v);
        k = k + 1;
        assert(out@ =~= Seq::new(k as nat, |i: int| v));
    }
    out
}

pub open spec fn opt_view(b: Option<&[u8]>) -> Option<Seq<u8>> {
    match b {
        None => None,
        Some(s) => Some(s@),
    }
}

fn build_keyframe_flags(stss: Option<&[u8]>, n: usize) -> (r: IsobmffResult<Vec<bool>>)
    ensures
        gives(r, keyframes_of(opt_view(stss), n as nat)),
        r matches Ok(v) ==> v@.len() == n,
{
    let b = match stss {
        None => return Ok(filled(true, n)),
        Some(b) => b,
    };
    proof {
        reveal_with_fuel(cursor::lack, 3);
    }
    let mut c = Cursor::new(b);
    c.skip(4)?;
    let count: u32 = c.read_u32()?;
    let mut flags: Vec<bool> = filled(false, n);
    let mut i: u32 = 0;
    while i < count
        invariant
            c.wf(),
            c.buf@ == b@,
            i <= count,
            stss == Some(b),
            flags@.len() == n,
            keyframes_of(opt_view(stss), n as nat) == marks(
                b@,
                c.pos as int,
                (count - i) as nat,
                flags@,
            ),
        decreases count - i,
    {
        proof {
            reveal_with_fuel(cursor::lack, 2);
        }
        let v: u32 = c.read_u32()?;
        if v == 0 || v as u64 > n as u64 {
            let mut s: String = "stss sample_number ".to_owned();
            text::put_decimal(&mut s, v as u64);
            s.append(" out of range 1..=");
            text::put_decimal(&mut s, n as u64);
            return Err(IsobmffError::Heif(s));
        }
        flags.set(v as usize - 1, true);
        i = i + 1;
    }
    Ok(flags)
}

/// The first `n` of values that may be more or fewer, with zeros for those that lack.
pub open spec fn fitted(s: Seq<u32>, n: nat) -> Seq<i32> {
    Seq::new(
        n,
        |i: int|
            if i < s.len() {
                fragment::signed32(s[i])
            } else {
                0i32
            },
    )
}

/// By how much each of `n` samples is shown later than it is decoded.
pub open spec fn shifts_of(b: Option<Seq<u8>>, n: nat) -> Result<Seq<i32>, Seq<char>> {
    match b {
        None => Ok(Seq::new(n, |i: int| 0i32)),
        Some(s) => match cursor::lack(s, 0, seq![1nat, 3, 4]) {
            Some(m) => Err(m),
            None => match expand(s, 8, bytes::get32(s, 4) as nat, Seq::empty()) {
                Err(m) => Err(m),
                Ok(v) => Ok(fitted(v, n)),
            },
        },
    }
}

fn build_cts_offsets(ctts: Option<&[u8]>, n: usize) -> (r: IsobmffResult<Vec<i32>>)
    ensures
        gives(r, shifts_of(opt_view(ctts), n as nat)),
        r matches Ok(v) ==> v@.len() == n,
{
    let b = match ctts {
        None => return Ok(filled(0i32, n)),
        Some(b) => b,
    };
    proof {
        reveal_with_fuel(cursor::lack, 4);
    }
    let mut c = Cursor::new(b);
    c.skip(1)?;
    c.skip(3)?;
    let count: u32 = c.read_u32()?;
    let mut out: Vec<i32> = Vec::new();
    let ghost mut all: Seq<u32> = Seq::empty();
    let ghost given = expand(b@, 8, count as nat, Seq::empty());
    let mut i: u32 = 0;
    assert(out@ =~= fitted(all, n as nat).take(0));
    while i < count
        invariant
            c.wf(),
            c.buf@ == b@,
            i <= count,
            shifts_of(Some(b@), n as nat) == (match given {
                Err(m) => Err::<Seq<i32>, Seq<char>>(m),
                Ok(v) => Ok(fitted(v, n as nat)),
            }),
            ctts == Some(b),
            given == expand(b@, c.pos as int, (count - i) as nat, all),
            out@.len() == (if all.len() < n {
                all.len()
            } else {
                n as nat
            }),
            forall|k: int| 0 <= k < out@.len() ==> #[trigger] out@[k] == fragment::signed32(all[k]),
        decreases count - i,
    {
        proof {
            reveal_with_fuel(cursor::lack, 3);
        }
        let times: u32 = c.read_u32()?;
        let bits: u32 = c.read_u32()?;
        let offset: i32 = if bits < 0x8000_0000 {
            bits as i32
        } else {
            (bits as i64 - 0x1_0000_0000) as i32
        };
        let ghost before = all;
        let ghost added = Seq::new(times as nat, |i: int| bits);
        proof {
            all = before + added;
        }
        let mut k: u32 = 0;
        while k < times && out.len() < n
            invariant
                k <= times,
                out@.len() <= n,
                offset == fragment::signed32(bits),
                all == before + Seq::new(times as nat, |i: int| bits),
                out@.len() == (if before.len() + k < n {
                    before.len() + k
                } else {
                    n as int
                }),
                before.len() >= n ==> k == 0,
                forall|j: int|
                    0 <= j < out@.len() ==> #[trigger] out@[j] == fragment::signed32(all[j]),
            decreases times - k,
        {
            out.push(offset);
            k = k + 1;
        }
        i = i + 1;
    }
    let ghost got = out@;
    while out.len() < n
        invariant
            got.len() <= out@.len() <= n,
            got.len() == (if all.len() < n {
                all.len()
            } else {
                n as nat
            }),
            forall|k: int| 0 <= k < got.len() ==> #[trigger] got[k] == fragment::signed32(all[k]),
            forall|k: int| 0 <= k < got.len() ==> out@[k] == got[k],
            forall|k: int| got.len() <= k < out@.len() ==> out@[k] == 0i32,
        decreases n - out@.len(),
    {
        out.push(0);
    }
    proof {
        assert forall|k: int| 0 <= k < n implies #[trigger] out@[k] == fitted(all, n as nat)[k] by {
            if k < got.len() {
                assert(out@[k] == got[k]);
            }
        }
        assert(out@ =~= fitted(all, n as nat));
    }
    Ok(out)
}

/// A number that does not grow beyond 64 bits.
pub open spec fn capped(v: int) -> u64 {
    if v > u64::MAX {
        u64::MAX
    } else {
        v as u64
    }
}

/// Offsets of up to `k` more samples in one chunk, behind `acc`.
pub open spec fn chunk_fill(sizes: Seq<u32>, off: u64, k: nat, acc: Seq<u64>) -> Seq<u64>
    decreases k,
{
    if k == 0 || acc.len() >= sizes.len() {
        acc
    } else {
        chunk_fill(
            sizes,
            capped(off + sizes[acc.len() as int]),
            (k - 1) as nat,
            acc.push(off),
        )
    }
}

/// Offsets of the samples of the chunks from `chunk` up to `end`, behind `acc`. They stop
/// at a chunk that is not there.
pub open spec fn run_fill(
    chunks: Seq<u64>,
    sizes: Seq<u32>,
    chunk: int,
    end: int,
    per: nat,
    acc: Seq<u64>,
) -> Seq<u64>
    decreases end - chunk,
{
    if chunk >= end || chunk < 1 || chunk > chunks.len() {
        acc
    } else {
        run_fill(
            chunks,
            sizes,
            chunk + 1,
            end,
            per,
            chunk_fill(sizes, chunks[chunk - 1], per, acc),
        )
    }
}

/// Offsets of the samples of the runs from `i` on, behind `acc`.
pub open spec fn runs_fill(
    runs: Seq<StscRun>,
    chunks: Seq<u64>,
    sizes: Seq<u32>,
    i: int,
    acc: Seq<u64>,
) -> Seq<u64>
    decreases runs.len() - i,
{
    if i >= runs.len() {
        acc
    } else {
        let end = if i + 1 < runs.len() {
            runs[i + 1].first_chunk as int
        } else {
            chunks.len() as int + 1
        };
        runs_fill(
            runs,
            chunks,
            sizes,
            i + 1,
            run_fill(
                chunks,
                sizes,
                runs[i].first_chunk as int,
                end,
                runs[i].samples_per_chunk as nat,
                acc,
            ),
        )
    }
}

/// The text of the error for offsets that are not as many as samples.
pub open spec fn walk_text(got: nat, want: nat) -> Seq<char> {
    "stsc/stco walk produced "@ + text::decimal(got) + " sample offsets, expected "@
        + text::decimal(want) + " (stsz)"@
}

/// The offset of each sample.
pub open spec fn places_of(runs: Seq<StscRun>, chunks: Seq<u64>, sizes: Seq<u32>) -> Result<
    Seq<u64>,
    Seq<char>,
> {
    let out = runs_fill(runs, chunks, sizes, 0, Seq::empty());
    if runs.len() == 0 {
        Err("stsc has no entries"@)
    } else if out.len() != sizes.len() {
        Err(walk_text(out.len(), sizes.len()))
    } else {
        Ok(out)
    }
}

proof fn lemma_run_full(
    chunks: Seq<u64>,
    sizes: Seq<u32>,
    chunk: int,
    end: int,
    per: nat,
    acc: Seq<u64>,
)
    requires
        acc.len() >= sizes.len(),
    ensures
        run_fill(chunks, sizes, chunk, end, per, acc) == acc,
    decreases end - chunk,
{
    if !(chunk >= end || chunk < 1 || chunk > chunks.len()) {
        lemma_run_full(chunks, sizes, chunk + 1, end, per, acc);
    }
}

/// Once all samples have their offsets, nothing is added.
proof fn lemma_runs_full(
    runs: Seq<StscRun>,
    chunks: Seq<u64>,
    sizes: Seq<u32>,
    i: int,
    acc: Seq<u64>,
)
    requires
        acc.len() >= sizes.len(),
    ensures
        runs_fill(runs, chunks, sizes, i, acc) == acc,
    decreases runs.len() - i,
{
    if i < runs.len() {
        let end = if i + 1 < runs.len() {
            runs[i + 1].first_chunk as int
        } else {
            chunks.len() as int + 1
        };
        lemma_run_full(
            chunks,
            sizes,
            runs[i].first_chunk as int,
            end,
            runs[i].samples_per_chunk as nat,
            acc,
        );
        lemma_runs_full(runs, chunks, sizes, i + 1, acc);
    }
}

/// Adds the offsets of the samples of one chunk.
fn fill_chunk(sizes: &Vec<u32>, start: u64, per: u32, out: &mut Vec<u64>)
    requires
        old(out)@.len() <= sizes@.len(),
    ensures
        final(out)@ == chunk_fill(sizes@, start, per as nat, old(out)@),
        final(out)@.len() <= sizes@.len(),
{
    let mut off: u64 = start;
    let mut left: u32 = per;
    while left > 0 && out.len() < sizes.len()
        invariant
            out@.len() <= sizes@.len(),
            chunk_fill(sizes@, start, per as nat, old(out)@) == chunk_fill(
                sizes@,
                off,
                left as nat,
                out@,
            ),
        decreases left,
    {
        let size: u64 = sizes[out.len()] as u64;
        out.push(off);
        off = if off > u64::MAX - size {
            u64::MAX
        } else {
            off + size
        };
        left = left - 1;
    }
}

fn compute_sample_offsets(runs: &Vec<StscRun>, chunks: &Vec<u64>, sizes: &Vec<u32>) -> (r:
    IsobmffResult<Vec<u64>>)
    ensures
        gives(r, places_of(runs@, chunks@, sizes@)),
        r matches Ok(v) ==> v@.len() == sizes@.len(),
{
    if runs.len() == 0 {
        return Err(parse_err("stsc has no entries"));
    }
    let mut out: Vec<u64> = Vec::new();
    let mut i: usize = 0;
    while i < runs.len()
        invariant
            i <= runs@.len(),
            runs@.len() > 0,
            out@.len() <= sizes@.len(),
            runs_fill(runs@, chunks@, sizes@, 0, Seq::empty()) == runs_fill(
                runs@,
                chunks@,
                sizes@,
                i as int,
                out@,
            ),
        decreases runs@.len() - i,
    {
        let run: StscRun = runs[i];
        let end: u128 = if i < runs.len() - 1 {
            runs[i + 1].first_chunk as u128
        } else {
            chunks.len() as u128 + 1
        };
        let ghost before = out@;
        let ghost last = if i + 1 < runs@.len() {
            runs@[i + 1].first_chunk as int
        } else {
            chunks@.len() as int + 1
        };
        let mut chunk: u128 = run.first_chunk as u128;
        while chunk < end && chunk >= 1 && chunk <= chunks.len() as u128
            invariant
                end == last,
                out@.len() <= sizes@.len(),
                run_fill(
                    chunks@,
                    sizes@,
                    run.first_chunk as int,
                    last,
                    run.samples_per_chunk as nat,
                    before,
                ) == run_fill(
                    chunks@,
                    sizes@,
                    chunk as int,
                    last,
                    run.samples_per_chunk as nat,
                    out@,
                ),
                i < runs@.len(),
                run == runs@[i as int],
                last == (if i + 1 < runs@.len() {
                    runs@[i + 1].first_chunk as int
                } else {
                    chunks@.len() as int + 1
                }),
                runs_fill(runs@, chunks@, sizes@, 0, Seq::empty()) == runs_fill(
                    runs@,
                    chunks@,
                    sizes@,
                    i as int,
                    before,
                ),
            decreases end - chunk,
        {
            if out.len() == sizes.len() {
                proof {
                    lemma_run_full(
                        chunks@,
                        sizes@,
                        chunk as int,
                        last,
                        run.samples_per_chunk as nat,
                        out@,
                    );
                    lemma_runs_full(runs@, chunks@, sizes@, i + 1, out@);
                }
                return Ok(out);
            }
            fill_chunk(sizes, chunks[chunk as usize - 1], run.samples_per_chunk, &mut out);
            chunk = chunk + 1;
        }
        i = i + 1;
    }
    if out.len() != sizes.len() {
        let mut s: String = "stsc/stco walk produced ".to_owned();
        text::put_decimal(&mut s, out.len() as u64);
        s.append(" sample offsets, expected ");
        text::put_decimal(&mut s, sizes.len() as u64);
        s.append(" (stsz)");
        return Err(IsobmffError::Heif(s));
    }
    Ok(out)
}

/// When sample `i` is decoded.
pub open spec fn decoded_at(durations: Seq<u32>, i: int) -> u64
    decreases i,
{
    if i <= 0 {
        0
    } else {
        capped(decoded_at(durations, i - 1) + durations[i - 1])
    }
}

/// The samples that these tables describe.
pub open spec fn sample_list(
    durations: Seq<u32>,
    sizes: Seq<u32>,
    keyframes: Seq<bool>,
    shifts: Seq<i32>,
    places: Seq<u64>,
) -> Seq<SampleRef> {
    Seq::new(
        sizes.len(),
        |i: int|
            SampleRef {
                offset: places[i],
                size: sizes[i],
                dts: decoded_at(durations, i),
                duration: durations[i],
                cts_offset: shifts[i],
                is_keyframe: keyframes[i],
            },
    )
}

/// The text of the error for durations that are not as many as sizes.
pub open spec fn count_text(durations: nat, sizes: nat) -> Seq<char> {
    "stts samples ("@ + text::decimal(durations) + ") != stsz samples ("@ + text::decimal(sizes)
        + ")"@
}

/// The boxes of a sample table.
pub struct Tables {
    pub stts: Seq<u8>,
    pub stsc: Seq<u8>,
    pub stsz: Seq<u8>,
    pub stco: Option<Seq<u8>>,
    pub co64: Option<Seq<u8>>,
    pub stss: Option<Seq<u8>>,
    pub ctts: Option<Seq<u8>>,
}

/// The boxes in a sample table.
pub open spec fn tables_of(b: Seq<u8>) -> Result<Tables, Seq<char>> {
    let stts = cursor::need(b, kinds::STTS@);
    let stsc = cursor::need(b, kinds::STSC@);
    let stsz = cursor::need(b, kinds::STSZ@);
    let stco = cursor::find_from(b, 0, kinds::STCO@);
    let co64 = cursor::find_from(b, 0, kinds::CO64@);
    let stss = cursor::find_from(b, 0, kinds::STSS@);
    let ctts = cursor::find_from(b, 0, kinds::CTTS@);
    if stts is Err {
        Err(stts->Err_0)
    } else if stsc is Err {
        Err(stsc->Err_0)
    } else if stsz is Err {
        Err(stsz->Err_0)
    } else if stco is Err {
        Err(stco->Err_0)
    } else if co64 is Err {
        Err(co64->Err_0)
    } else if stss is Err {
        Err(stss->Err_0)
    } else if ctts is Err {
        Err(ctts->Err_0)
    } else {
        Ok(
            Tables {
                stts: stts->Ok_0,
                stsc: stsc->Ok_0,
                stsz: stsz->Ok_0,
                stco: stco->Ok_0,
                co64: co64->Ok_0,
                stss: stss->Ok_0,
                ctts: ctts->Ok_0,
            },
        )
    }
}

/// The offset of each chunk; 32-bit ones count if both are there.
pub open spec fn chunk_table(t: Tables) -> Result<Seq<u64>, Seq<char>> {
    match t.stco {
        Some(s) => chunks_of(s, false),
        None => match t.co64 {
            Some(s) => chunks_of(s, true),
            None => Err("stbl missing stco/co64"@),
        },
    }
}

/// The samples of a track.
pub open spec fn samples_of(b: Seq<u8>) -> Result<Seq<SampleRef>, Seq<char>> {
    match tables_of(b) {
        Err(m) => Err(m),
        Ok(t) => match durations_of(t.stts) {
            Err(m) => Err(m),
            Ok(durations) => match sizes_of(t.stsz) {
                Err(m) => Err(m),
                Ok(sizes) => match runs_of(t.stsc) {
                    Err(m) => Err(m),
                    Ok(runs) => match chunk_table(t) {
                        Err(m) => Err(m),
                        Ok(chunks) => if durations.len() != sizes.len() {
                            Err(count_text(durations.len(), sizes.len()))
                        } else {
                            match keyframes_of(t.stss, sizes.len()) {
                                Err(m) => Err(m),
                                Ok(keyframes) => match shifts_of(t.ctts, sizes.len()) {
                                    Err(m) => Err(m),
                                    Ok(shifts) => match places_of(runs, chunks, sizes) {
                                        Err(m) => Err(m),
                                        Ok(places) => Ok(
                                            sample_list(
                                                durations,
                                                sizes,
                                                keyframes,
                                                shifts,
                                                places,
                                            ),
                                        ),
                                    },
                                },
                            }
                        },
                    },
                },
            },
        },
    }
}

/// Puts what the tables say of each sample together.
fn list_samples(
    durations: &Vec<u32>,
    sizes: &Vec<u32>,
    keyframes: &Vec<bool>,
    shifts: &Vec<i32>,
    places: &Vec<u64>,
) -> (r: Vec<SampleRef>)
    requires
        durations@.len() == sizes@.len(),
        keyframes@.len() == sizes@.len(),
        shifts@.len() == sizes@.len(),
        places@.len() == sizes@.len(),
    ensures
        r@ == sample_list(durations@, sizes@, keyframes@, shifts@, places@),
{
    let ghost all = sample_list(durations@, sizes@, keyframes@, shifts@, places@);
    let mut out: Vec<SampleRef> = Vec::new();
    let mut dts: u64 = 0;
    let mut i: usize = 0;
    assert(out@ =~= all.take(0));
    while i < sizes.len()
        invariant
            i <= sizes@.len(),
            durations@.len() == sizes@.len(),
            keyframes@.len() == sizes@.len(),
            shifts@.len() == sizes@.len(),
            places@.len() == sizes@.len(),
            all == sample_list(durations@, sizes@, keyframes@, shifts@, places@),
            dts == decoded_at(durations@, i as int),
            out@ == all.take(i as int),
        decreases sizes@.len() - i,
    {
        let duration: u32 = durations[i];
        out.push(
            SampleRef {
                offset: places[i],
                size: sizes[i],
                dts,
                duration,
                cts_offset: shifts[i],
                is_keyframe: keyframes[i],
            },
        );
        dts = if dts > u64::MAX - duration as u64 {
            u64::MAX
        } else {
            dts + duration as u64
        };
        assert(out@ =~= all.take(i + 1));
        i = i + 1;
    }
    assert(all.take(i as int) =~= all);
    out
}

/// Reads the samples of a track.
pub(crate) fn build_sample_table(stbl: &[u8]) -> (r: IsobmffResult<Vec<SampleRef>>)
    ensures
        gives(r, samples_of(stbl@)),
{
    let stts = require_child(stbl, &kinds::STTS)?;
    let stsc = require_child(stbl, &kinds::STSC)?;
    let stsz = require_child(stbl, &kinds::STSZ)?;
    let stco = find_box(stbl, 0, &kinds::STCO)?;
    let co64 = find_box(stbl, 0, &kinds::CO64)?;
    let stss = find_box(stbl, 0, &kinds::STSS)?;
    let ctts = find_box(stbl, 0, &kinds::CTTS)?;
    let durations = parse_stts(stts)?;
    let sizes = parse_stsz(stsz)?;
    let runs = parse_stsc(stsc)?;
    let chunks = match stco {
        Some(s) => parse_chunks(s, false)?,
        None => match co64 {
            Some(s) => parse_chunks(s, true)?,
            None => return Err(parse_err("stbl missing stco/co64")),
        },
    };
    let n: usize = sizes.len();
    if durations.len() != n {
        let mut s: String = "stts samples (".to_owned();
        text::put_decimal(&mut s, durations.len() as u64);
        s.append(") != stsz samples (");
        text::put_decimal(&mut s, n as u64);
        s.append(")");
        return Err(IsobmffError::Heif(s));
    }
    let keyframes = build_keyframe_flags(stss, n)?;
    let shifts = build_cts_offsets(ctts, n)?;
    let places = compute_sample_offsets(&runs, &chunks, &sizes)?;
    Ok(list_samples(&durations, &sizes, &keyframes, &shifts, &places))
}

/// Samples are decoded one after the other: the first at zero, and each when the one
/// before it has ended, up to the largest time there is.
pub proof fn law_decoded_in_turn(b: Seq<u8>)
    requires
        samples_of(b) is Ok,
    ensures
        ({
            let s = samples_of(b)->Ok_0;
            &&& s.len() > 0 ==> s[0].dts == 0
            &&& forall|i: int|
                0 <= i < s.len() - 1 ==> (#[trigger] s[i + 1]).dts == capped(
                    s[i].dts + s[i].duration,
                )
        }),
{
}

/// Without a table of them, decoding can start at every sample.
pub proof fn law_all_keyframes(b: Seq<u8>)
    requires
        samples_of(b) is Ok,
        tables_of(b)->Ok_0.stss is None,
    ensures
        forall|i: int|
            0 <= i < samples_of(b)->Ok_0.len() ==> (#[trigger] samples_of(
                b,
            )->Ok_0[i]).is_keyframe,
{
}

} // verus!
