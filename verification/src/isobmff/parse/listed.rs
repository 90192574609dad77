//! What the bytes of the sample tables mean for the samples that are listed.

use crate::bytes;
use crate::isobmff::parse;
use crate::isobmff::parse::cursor;
use crate::isobmff::parse::table;
use crate::isobmff::parse::table::{SampleRef, StscRun, Tables};
use vstd::prelude::*;

verus! {

/// The 32-bit number at `i`, most significant byte first.
pub open spec fn n32(b: Seq<u8>, i: int) -> int {
    b[i] * 0x100_0000 + b[i + 1] * 0x1_0000 + b[i + 2] * 0x100 + b[i + 3]
}

/// The 64-bit number at `i`, most significant byte first.
pub open spec fn n64(b: Seq<u8>, i: int) -> int {
    n32(b, i) * 0x1_0000_0000 + n32(b, i + 4)
}

proof fn lemma_numbers_agree(b: Seq<u8>, i: int)
    ensures
        bytes::get32(b, i) == n32(b, i),
        bytes::get64(b, i) == n64(b, i),
{
}

/// How many samples the first `k` entries of a table of runs stand for.
pub open spec fn run_total(b: Seq<u8>, k: int) -> int
    decreases k,
{
    if k <= 0 {
        0
    } else {
        run_total(b, k - 1) + n32(b, 8 + 8 * (k - 1))
    }
}

/// `v` is the value of the entry that stands for sample `i` in a table of runs.
pub open spec fn run_value(b: Seq<u8>, i: int, v: int) -> bool {
    exists|k: int|
        0 <= k < n32(b, 4) && #[trigger] run_total(b, k) <= i < run_total(b, k + 1) && v == n32(
            b,
            12 + 8 * k,
        )
}

proof fn lemma_run_total(b: Seq<u8>, k: int, n: int)
    requires
        0 <= k <= n,
    ensures
        0 <= run_total(b, k) <= run_total(b, n),
    decreases n,
{
    if n > 0 {
        if k == n {
            lemma_run_total(b, k - 1, n - 1);
        } else {
            lemma_run_total(b, k, n - 1);
        }
    }
}

proof fn lemma_expand(b: Seq<u8>, k: int, n: int, acc: Seq<u32>)
    requires
        0 <= k <= n,
        acc.len() == run_total(b, k),
    ensures
        table::expand(b, 8 + 8 * k, (n - k) as nat, acc) matches Ok(r) ==> {
            &&& r.len() == run_total(b, n)
            &&& r.take(acc.len() as int) == acc
            &&& forall|j: int, i: int|
                #![trigger run_total(b, j), r[i]]
                k <= j < n && run_total(b, j) <= i < run_total(b, j + 1) ==> r[i] == n32(
                    b,
                    12 + 8 * j,
                )
        },
    decreases n - k,
{
    if k == n {
        assert(acc.take(acc.len() as int) =~= acc);
    } else if cursor::lack(b, 8 + 8 * k, seq![4nat, 4]) is None {
        let v = bytes::get32(b, 8 + 8 * k + 4);
        let c = bytes::get32(b, 8 + 8 * k) as nat;
        lemma_numbers_agree(b, 8 + 8 * k);
        lemma_numbers_agree(b, 8 + 8 * k + 4);
        let more = acc + Seq::new(c, |i: int| v);
        lemma_expand(b, k + 1, n, more);
        lemma_run_total(b, k, n);
        lemma_run_total(b, k + 1, n);
        if let Ok(r) = table::expand(b, 8 + 8 * k, (n - k) as nat, acc) {
            assert(r == table::expand(b, 8 + 8 * (k + 1), (n - (k + 1)) as nat, more)->Ok_0);
            assert(r.take(acc.len() as int) =~= acc) by {
                assert forall|i: int| 0 <= i < acc.len() implies r[i] == acc[i] by {
                    assert(r.take(more.len() as int)[i] == more[i]);
                }
            }
            assert forall|j: int, i: int|
                #![trigger run_total(b, j), r[i]]
                k <= j < n && run_total(b, j) <= i < run_total(b, j + 1) implies r[i] == n32(
                b,
                12 + 8 * j,
            ) by {
                if j == k {
                    assert(r.take(more.len() as int)[i] == more[i]);
                } else {
                    lemma_run_total(b, k + 1, j);
                }
            }
        }
    }
}

/// Each place in the samples of a table of runs belongs to an entry.
proof fn lemma_run_of(b: Seq<u8>, n: int, i: int) -> (k: int)
    requires
        0 <= n,
        0 <= i < run_total(b, n),
    ensures
        0 <= k < n,
        run_total(b, k) <= i < run_total(b, k + 1),
    decreases n,
{
    if i >= run_total(b, n - 1) {
        n - 1
    } else {
        lemma_run_of(b, n - 1, i)
    }
}

proof fn lemma_numbers(b: Seq<u8>, at: int, n: nat, acc: Seq<u32>)
    ensures
        table::numbers(b, at, n, acc) matches Ok(r) ==> r.len() == acc.len() + n && r.take(
            acc.len() as int,
        ) == acc && forall|i: int|
            0 <= i < n ==> #[trigger] r[acc.len() + i] == n32(b, at + 4 * i),
    decreases n,
{
    if n == 0 {
        assert(acc.take(acc.len() as int) =~= acc);
    } else if cursor::lack(b, at, seq![4nat]) is None {
        lemma_numbers_agree(b, at);
        let more = acc.push(bytes::get32(b, at));
        lemma_numbers(b, at + 4, (n - 1) as nat, more);
        if let Ok(r) = table::numbers(b, at, n, acc) {
            assert(r.take(acc.len() as int) =~= acc) by {
                assert forall|i: int| 0 <= i < acc.len() implies r[i] == acc[i] by {
                    assert(r.take(more.len() as int)[i] == more[i]);
                }
            }
            assert forall|i: int| 0 <= i < n implies #[trigger] r[acc.len() + i] == n32(
                b,
                at + 4 * i,
            ) by {
                if i == 0 {
                    assert(r.take(more.len() as int)[acc.len() as int] == more[acc.len() as int]);
                } else {
                    assert(r[more.len() + (i - 1)] == n32(b, at + 4 + 4 * (i - 1)));
                }
            }
        }
    }
}

/// The `k`th entry of a table of chunk offsets, counted from one.
pub open spec fn chunk_offset(t: Tables, k: int) -> int {
    match t.stco {
        Some(b) => n32(b, 8 + 4 * (k - 1)),
        None => n64(t.co64->Some_0, 8 + 8 * (k - 1)),
    }
}

/// How many chunks a track has.
pub open spec fn chunk_count(t: Tables) -> int {
    match t.stco {
        Some(b) => n32(b, 4),
        None => n32(t.co64->Some_0, 4),
    }
}

proof fn lemma_offsets(b: Seq<u8>, at: int, n: nat, wide: bool, acc: Seq<u64>)
    ensures
        table::offsets(b, at, n, wide, acc) matches Ok(r) ==> r.len() == acc.len() + n && r.take(
            acc.len() as int,
        ) == acc && forall|i: int|
            0 <= i < n ==> #[trigger] r[acc.len() + i] == if wide {
                n64(b, at + 8 * i)
            } else {
                n32(b, at + 4 * i)
            },
    decreases n,
{
    let w: nat = if wide {
        8
    } else {
        4
    };
    if n == 0 {
        assert(acc.take(acc.len() as int) =~= acc);
    } else if cursor::lack(b, at, seq![w]) is None {
        lemma_numbers_agree(b, at);
        let v = if wide {
            bytes::get64(b, at)
        } else {
            bytes::get32(b, at) as u64
        };
        let more = acc.push(v);
        lemma_offsets(b, at + w, (n - 1) as nat, wide, more);
        if let Ok(r) = table::offsets(b, at, n, wide, acc) {
            assert(r.take(acc.len() as int) =~= acc) by {
                assert forall|i: int| 0 <= i < acc.len() implies r[i] == acc[i] by {
                    assert(r.take(more.len() as int)[i] == more[i]);
                }
            }
            assert forall|i: int| 0 <= i < n implies #[trigger] r[acc.len() + i] == (if wide {
                n64(b, at + 8 * i)
            } else {
                n32(b, at + 4 * i)
            }) by {
                if i == 0 {
                    assert(r.take(more.len() as int)[acc.len() as int] == more[acc.len() as int]);
                } else {
                    let j = i - 1;
                    assert(r[more.len() + j] == if wide {
                        n64(b, at + w + 8 * j)
                    } else {
                        n32(b, at + w + 4 * j)
                    });
                }
            }
        }
    }
}

/// The number of the first chunk of the `j`th run of chunks.
pub open spec fn run_start(stsc: Seq<u8>, j: int) -> int {
    n32(stsc, 8 + 12 * j)
}

proof fn lemma_chunk_runs(b: Seq<u8>, k: int, n: int, acc: Seq<StscRun>)
    requires
        0 <= k <= n,
        acc.len() == k,
        forall|j: int|
            0 <= j < k ==> (#[trigger] acc[j]).first_chunk == run_start(b, j)
                && acc[j].samples_per_chunk == n32(b, 12 + 12 * j),
    ensures
        table::chunk_runs(b, 8 + 12 * k, (n - k) as nat, acc) matches Ok(r) ==> r.len() == n
            && forall|j: int|
            0 <= j < n ==> (#[trigger] r[j]).first_chunk == run_start(b, j)
                && r[j].samples_per_chunk == n32(b, 12 + 12 * j),
    decreases n - k,
{
    if k < n && cursor::lack(b, 8 + 12 * k, seq![4nat, 4, 4]) is None {
        lemma_numbers_agree(b, 8 + 12 * k);
        lemma_numbers_agree(b, 8 + 12 * k + 4);
        let more = acc.push(
            StscRun {
                first_chunk: bytes::get32(b, 8 + 12 * k),
                samples_per_chunk: bytes::get32(b, 8 + 12 * k + 4),
            },
        );
        lemma_chunk_runs(b, k + 1, n, more);
    }
}

/// How many samples chunk `k` has, as the first `n` runs of chunks say: each run holds
/// from its first chunk up to that of the next run.
pub open spec fn chunk_size(stsc: Seq<u8>, n: int, k: int) -> int
    decreases n,
{
    if n <= 0 {
        0
    } else if run_start(stsc, n - 1) <= k {
        n32(stsc, 12 + 12 * (n - 1))
    } else {
        chunk_size(stsc, n - 1, k)
    }
}

/// How many samples there are before chunk `k`.
pub open spec fn samples_before(stsc: Seq<u8>, k: int) -> int
    decreases k,
{
    if k <= 1 {
        0
    } else {
        samples_before(stsc, k - 1) + chunk_size(stsc, n32(stsc, 4), k - 1)
    }
}

/// The runs of chunks start at the first chunk and go up.
pub open spec fn ascending(stsc: Seq<u8>) -> bool {
    &&& n32(stsc, 4) > 0
    &&& run_start(stsc, 0) == 1
    &&& forall|i: int, j: int|
        0 <= i < j < n32(stsc, 4) ==> #[trigger] run_start(stsc, i) < #[trigger] run_start(stsc, j)
}

proof fn lemma_chunk_size(stsc: Seq<u8>, n: int, k: int)
    ensures
        chunk_size(stsc, n, k) >= 0,
    decreases n,
{
    if n > 0 {
        lemma_chunk_size(stsc, n - 1, k);
    }
}

/// In an ascending table the run that a chunk is in says how many samples it has.
proof fn lemma_size_in_run(stsc: Seq<u8>, n: int, i: int, k: int)
    requires
        ascending(stsc),
        0 <= i < n <= n32(stsc, 4),
        run_start(stsc, i) <= k,
        i + 1 < n ==> k < run_start(stsc, i + 1),
    ensures
        chunk_size(stsc, n, k) == n32(stsc, 12 + 12 * i),
    decreases n,
{
    if n - 1 > i {
        if i + 1 < n - 1 {
            assert(run_start(stsc, i + 1) < run_start(stsc, n - 1));
        }
        lemma_size_in_run(stsc, n - 1, i, k);
    }
}

/// The larger end that a sample has: it does not grow beyond 64 bits.
pub open spec fn end_of(offset: int, size: int) -> int {
    if offset + size > u64::MAX {
        u64::MAX as int
    } else {
        offset + size
    }
}

proof fn lemma_chunk_fill(sizes: Seq<u32>, off: u64, k: nat, acc: Seq<u64>)
    requires
        acc.len() <= sizes.len(),
    ensures
        ({
            let r = table::chunk_fill(sizes, off, k, acc);
            &&& r.len() == if acc.len() + k < sizes.len() {
                acc.len() + k
            } else {
                sizes.len()
            }
            &&& r.take(acc.len() as int) == acc
            &&& r.len() > acc.len() ==> r[acc.len() as int] == off
            &&& forall|i: int|
                acc.len() <= i < r.len() - 1 ==> #[trigger] r[i + 1] == end_of(
                    r[i] as int,
                    sizes[i] as int,
                )
        }),
    decreases k,
{
    let r = table::chunk_fill(sizes, off, k, acc);
    if k == 0 || acc.len() >= sizes.len() {
        assert(acc.take(acc.len() as int) =~= acc);
    } else {
        let more = acc.push(off);
        let next = table::capped(off + sizes[acc.len() as int]);
        lemma_chunk_fill(sizes, next, (k - 1) as nat, more);
        assert(r[acc.len() as int] == off) by {
            assert(r.take(more.len() as int)[acc.len() as int] == more[acc.len() as int]);
        }
        assert(r.take(acc.len() as int) =~= acc) by {
            assert forall|i: int| 0 <= i < acc.len() implies r[i] == acc[i] by {
                assert(r.take(more.len() as int)[i] == more[i]);
            }
        }
    }
}

/// The samples of the chunks before `c` have their offsets: the first of a chunk starts
/// where the chunk does, and each other one where the one before it ends.
spec fn laid(
    stsc: Seq<u8>,
    chunks: Seq<u64>,
    sizes: Seq<u32>,
    c: int,
    acc: Seq<u64>,
) -> bool {
    &&& acc.len() == if samples_before(stsc, c) < sizes.len() {
        samples_before(stsc, c)
    } else {
        sizes.len() as int
    }
    &&& forall|k: int|
        1 <= k < c && chunk_size(stsc, n32(stsc, 4), k) > 0 && #[trigger] samples_before(stsc, k)
            < acc.len() ==> acc[samples_before(stsc, k)] == chunks[k - 1]
    &&& forall|k: int, i: int|
        #![trigger samples_before(stsc, k), acc[i]]
        1 <= k < c && samples_before(stsc, k) <= i && i + 1 < samples_before(stsc, k + 1) && i + 1
            < acc.len() ==> acc[i + 1] == end_of(acc[i] as int, sizes[i] as int)
}

proof fn lemma_before(stsc: Seq<u8>, k: int, c: int)
    requires
        1 <= k <= c,
    ensures
        0 <= samples_before(stsc, k) <= samples_before(stsc, c),
    decreases c,
{
    if k < c {
        lemma_before(stsc, k, c - 1);
        lemma_chunk_size(stsc, n32(stsc, 4), c - 1);
    } else if c > 1 {
        lemma_before(stsc, c - 1, c - 1);
        lemma_chunk_size(stsc, n32(stsc, 4), c - 1);
    }
}

proof fn lemma_laid_chunk(
    stsc: Seq<u8>,
    chunks: Seq<u64>,
    sizes: Seq<u32>,
    c: int,
    acc: Seq<u64>,
)
    requires
        1 <= c <= chunks.len(),
        laid(stsc, chunks, sizes, c, acc),
    ensures
        laid(
            stsc,
            chunks,
            sizes,
            c + 1,
            table::chunk_fill(
                sizes,
                chunks[c - 1],
                chunk_size(stsc, n32(stsc, 4), c) as nat,
                acc,
            ),
        ),
{
    let per = chunk_size(stsc, n32(stsc, 4), c);
    lemma_chunk_size(stsc, n32(stsc, 4), c);
    lemma_before(stsc, c, c + 1);
    lemma_chunk_fill(sizes, chunks[c - 1], per as nat, acc);
    let r = table::chunk_fill(sizes, chunks[c - 1], per as nat, acc);
    assert(samples_before(stsc, c + 1) == samples_before(stsc, c) + per);
    assert forall|i: int| 0 <= i < acc.len() implies r[i] == acc[i] by {
        assert(r.take(acc.len() as int)[i] == acc[i]);
    }
    assert forall|k: int|
        1 <= k < c + 1 && chunk_size(stsc, n32(stsc, 4), k) > 0 && #[trigger] samples_before(
            stsc,
            k,
        ) < r.len() implies r[samples_before(stsc, k)] == chunks[k - 1] by {
        if k < c {
            lemma_before(stsc, k + 1, c);
            lemma_before(stsc, k, k);
            assert(samples_before(stsc, k + 1) == samples_before(stsc, k) + chunk_size(
                stsc,
                n32(stsc, 4),
                k,
            ));
        }
    }
    assert forall|k: int, i: int|
        #![trigger samples_before(stsc, k), r[i]]
        1 <= k < c + 1 && samples_before(stsc, k) <= i && i + 1 < samples_before(stsc, k + 1) && i
            + 1 < r.len() implies r[i + 1] == end_of(r[i] as int, sizes[i] as int) by {
        lemma_before(stsc, k, k);
        if k < c {
            lemma_before(stsc, k + 1, c);
            assert(acc[i + 1] == end_of(acc[i] as int, sizes[i] as int));
        }
    }
}

proof fn lemma_laid_run(
    stsc: Seq<u8>,
    chunks: Seq<u64>,
    sizes: Seq<u32>,
    c: int,
    end: int,
    i: int,
    acc: Seq<u64>,
)
    requires
        ascending(stsc),
        0 <= i < n32(stsc, 4),
        run_start(stsc, i) <= c,
        1 <= c <= end,
        i + 1 < n32(stsc, 4) ==> end == run_start(stsc, i + 1),
        c <= chunks.len() + 1 ==> laid(stsc, chunks, sizes, c, acc),
        c > chunks.len() + 1 ==> laid(stsc, chunks, sizes, chunks.len() as int + 1, acc),
    ensures
        ({
            let r = table::run_fill(
                chunks,
                sizes,
                c,
                end,
                n32(stsc, 12 + 12 * i) as nat,
                acc,
            );
            &&& end <= chunks.len() + 1 ==> laid(stsc, chunks, sizes, end, r)
            &&& end > chunks.len() + 1 ==> laid(stsc, chunks, sizes, chunks.len() as int + 1, r)
        }),
    decreases end - c,
{
    if c < end && c <= chunks.len() {
        lemma_size_in_run(stsc, n32(stsc, 4), i, c);
        lemma_laid_chunk(stsc, chunks, sizes, c, acc);
        lemma_laid_run(
            stsc,
            chunks,
            sizes,
            c + 1,
            end,
            i,
            table::chunk_fill(sizes, chunks[c - 1], n32(stsc, 12 + 12 * i) as nat, acc),
        );
    }
}

proof fn lemma_laid_runs(
    stsc: Seq<u8>,
    runs: Seq<StscRun>,
    chunks: Seq<u64>,
    sizes: Seq<u32>,
    i: int,
    acc: Seq<u64>,
)
    requires
        ascending(stsc),
        runs.len() == n32(stsc, 4),
        forall|j: int|
            0 <= j < runs.len() ==> (#[trigger] runs[j]).first_chunk == run_start(stsc, j)
                && runs[j].samples_per_chunk == n32(stsc, 12 + 12 * j),
        0 <= i <= runs.len(),
        i < runs.len() ==> {
            let c = run_start(stsc, i);
            &&& c <= chunks.len() + 1 ==> laid(stsc, chunks, sizes, c, acc)
            &&& c > chunks.len() + 1 ==> laid(stsc, chunks, sizes, chunks.len() as int + 1, acc)
        },
        i == runs.len() ==> laid(stsc, chunks, sizes, chunks.len() as int + 1, acc),
    ensures
        laid(
            stsc,
            chunks,
            sizes,
            chunks.len() as int + 1,
            table::runs_fill(runs, chunks, sizes, i, acc),
        ),
    decreases runs.len() - i,
{
    if i < runs.len() {
        let c = run_start(stsc, i);
        let end = if i + 1 < runs.len() {
            run_start(stsc, i + 1)
        } else {
            chunks.len() as int + 1
        };
        if i > 0 {
            assert(run_start(stsc, 0) < run_start(stsc, i));
        }
        let per = n32(stsc, 12 + 12 * i) as nat;
        let next = table::run_fill(chunks, sizes, c, end, per, acc);
        if c <= end {
            lemma_laid_run(stsc, chunks, sizes, c, end, i, acc);
        }
        lemma_laid_runs(stsc, runs, chunks, sizes, i + 1, next);
    }
}

/// The samples of a track have the sizes that its table of sizes gives: one for all, or one
/// for each.
pub proof fn law_sizes_are_listed(b: Seq<u8>)
    requires
        table::samples_of(b) is Ok,
    ensures
        ({
            let s = table::samples_of(b)->Ok_0;
            let t = table::tables_of(b)->Ok_0.stsz;
            &&& s.len() == n32(t, 8)
            &&& forall|i: int|
                0 <= i < s.len() ==> (#[trigger] s[i]).size == if n32(t, 4) != 0 {
                    n32(t, 4)
                } else {
                    n32(t, 12 + 4 * i)
                }
        }),
{
    let t = table::tables_of(b)->Ok_0.stsz;
    let s = table::samples_of(b)->Ok_0;
    lemma_numbers_agree(t, 4);
    lemma_numbers_agree(t, 8);
    lemma_numbers(t, 12, bytes::get32(t, 8) as nat, Seq::empty());
    let sizes = table::sizes_of(t)->Ok_0;
    assert(s.len() == sizes.len());
    assert forall|i: int| 0 <= i < s.len() implies (#[trigger] s[i]).size == (if n32(t, 4) != 0 {
        n32(t, 4)
    } else {
        n32(t, 12 + 4 * i)
    }) by {
        assert(s[i].size == sizes[i]);
        if n32(t, 4) == 0 {
            assert(sizes[Seq::<u32>::empty().len() + i] == n32(t, 12 + 4 * i));
        }
    }
}

/// The samples of a track last as long as the entries of its table of durations say, each
/// for a number of samples, in turn.
pub proof fn law_durations_are_listed(b: Seq<u8>)
    requires
        table::samples_of(b) is Ok,
    ensures
        ({
            let s = table::samples_of(b)->Ok_0;
            let t = table::tables_of(b)->Ok_0.stts;
            &&& s.len() == run_total(t, n32(t, 4))
            &&& forall|i: int|
                0 <= i < s.len() ==> run_value(t, i, (#[trigger] s[i]).duration as int)
        }),
{
    let t = table::tables_of(b)->Ok_0.stts;
    let s = table::samples_of(b)->Ok_0;
    let n = n32(t, 4);
    lemma_numbers_agree(t, 4);
    lemma_expand(t, 0, n, Seq::empty());
    let d = table::durations_of(t)->Ok_0;
    assert forall|i: int| 0 <= i < s.len() implies run_value(
        t,
        i,
        (#[trigger] s[i]).duration as int,
    ) by {
        let k = lemma_run_of(t, n, i);
        assert(s[i].duration == d[i]);
        assert(run_total(t, k) <= i);
        assert(d[i] == n32(t, 12 + 8 * k));
    }
}

/// A signed number in two's complement.
pub open spec fn signed(v: int) -> int {
    if v < 0x8000_0000 {
        v
    } else {
        v - 0x1_0000_0000
    }
}

/// `c` is what a table of shifts says of sample `i`.
pub open spec fn shifted(t: Seq<u8>, i: int, c: int) -> bool {
    if i < run_total(t, n32(t, 4)) {
        exists|v: int| #[trigger] run_value(t, i, v) && c == signed(v)
    } else {
        c == 0
    }
}

/// A sample is shown later than it is decoded by what the table for that says: a signed
/// number, for as many samples as its entry stands for, and zero behind the last entry.
pub proof fn law_shifts_are_listed(b: Seq<u8>)
    requires
        table::samples_of(b) is Ok,
    ensures
        ({
            let s = table::samples_of(b)->Ok_0;
            match table::tables_of(b)->Ok_0.ctts {
                None => forall|i: int| 0 <= i < s.len() ==> (#[trigger] s[i]).cts_offset == 0,
                Some(t) => forall|i: int|
                    0 <= i < s.len() ==> shifted(t, i, (#[trigger] s[i]).cts_offset as int),
            }
        }),
{
    let s = table::samples_of(b)->Ok_0;
    if let Some(t) = table::tables_of(b)->Ok_0.ctts {
        let n = n32(t, 4);
        lemma_numbers_agree(t, 4);
        lemma_expand(t, 0, n, Seq::empty());
        let d = table::expand(t, 8, bytes::get32(t, 4) as nat, Seq::empty())->Ok_0;
        assert forall|i: int| 0 <= i < s.len() implies shifted(
            t,
            i,
            (#[trigger] s[i]).cts_offset as int,
        ) by {
            assert(s[i].cts_offset == table::fitted(d, s.len())[i]);
            if i < run_total(t, n) {
                let k = lemma_run_of(t, n, i);
                assert(run_total(t, k) <= i);
                assert(d[i] == n32(t, 12 + 8 * k));
                assert(run_value(t, i, d[i] as int));
            }
        }
    }
}

/// The `k`th entry of a table of keyframes names this sample, counted from one.
pub open spec fn named(b: Seq<u8>, n: int, sample: int) -> bool {
    exists|k: int| 0 <= k < n && #[trigger] n32(b, 8 + 4 * k) == sample
}

proof fn lemma_marks(b: Seq<u8>, k: int, n: int, acc: Seq<bool>)
    requires
        0 <= k <= n,
        forall|i: int| 0 <= i < acc.len() ==> #[trigger] acc[i] == named(b, k, i + 1),
    ensures
        table::marks(b, 8 + 4 * k, (n - k) as nat, acc) matches Ok(r) ==> r.len() == acc.len()
            && forall|i: int| 0 <= i < r.len() ==> #[trigger] r[i] == named(b, n, i + 1),
    decreases n - k,
{
    if k < n && cursor::lack(b, 8 + 4 * k, seq![4nat]) is None {
        let v = bytes::get32(b, 8 + 4 * k);
        lemma_numbers_agree(b, 8 + 4 * k);
        if 0 < v <= acc.len() {
            let more = acc.update(v - 1, true);
            assert forall|i: int| 0 <= i < more.len() implies #[trigger] more[i] == named(
                b,
                k + 1,
                i + 1,
            ) by {
                assert(acc[i] == named(b, k, i + 1));
                if named(b, k, i + 1) {
                    let j = choose|j: int| 0 <= j < k && #[trigger] n32(b, 8 + 4 * j) == i + 1;
                    assert(n32(b, 8 + 4 * j) == i + 1);
                } else if i == v - 1 {
                    assert(n32(b, 8 + 4 * k) == i + 1);
                } else if named(b, k + 1, i + 1) {
                    let j = choose|j: int| 0 <= j < k + 1 && #[trigger] n32(b, 8 + 4 * j) == i + 1;
                    assert(j < k);
                }
            }
            lemma_marks(b, k + 1, n, more);
        }
    }
}

/// Decoding can start at the samples that the table of keyframes names, and at no others;
/// without such a table, at all.
pub proof fn law_keyframes_are_listed(b: Seq<u8>)
    requires
        table::samples_of(b) is Ok,
    ensures
        ({
            let s = table::samples_of(b)->Ok_0;
            match table::tables_of(b)->Ok_0.stss {
                None => forall|i: int| 0 <= i < s.len() ==> (#[trigger] s[i]).is_keyframe,
                Some(t) => forall|i: int|
                    0 <= i < s.len() ==> (#[trigger] s[i]).is_keyframe == named(
                        t,
                        n32(t, 4),
                        i + 1,
                    ),
            }
        }),
{
    let s = table::samples_of(b)->Ok_0;
    if let Some(t) = table::tables_of(b)->Ok_0.stss {
        lemma_numbers_agree(t, 4);
        lemma_marks(t, 0, n32(t, 4), Seq::new(s.len(), |i: int| false));
        let f = table::keyframes_of(Some(t), s.len())->Ok_0;
        assert forall|i: int| 0 <= i < s.len() implies (#[trigger] s[i]).is_keyframe == named(
            t,
            n32(t, 4),
            i + 1,
        ) by {
            assert(s[i].is_keyframe == f[i]);
        }
    }
}

/// The chunks of a track hold its samples in order, each as many as its run says. The first
/// sample of a chunk starts where the table of chunks says, and each other one where the
/// one before it ends.
pub proof fn law_samples_lie_in_chunks(b: Seq<u8>)
    requires
        table::samples_of(b) is Ok,
        ascending(table::tables_of(b)->Ok_0.stsc),
    ensures
        ({
            let s = table::samples_of(b)->Ok_0;
            let t = table::tables_of(b)->Ok_0;
            &&& s.len() <= samples_before(t.stsc, chunk_count(t) + 1)
            &&& forall|k: int|
                1 <= k <= chunk_count(t) && chunk_size(t.stsc, n32(t.stsc, 4), k) > 0
                    && #[trigger] samples_before(t.stsc, k) < s.len() ==> s[samples_before(
                    t.stsc,
                    k,
                )].offset == chunk_offset(t, k)
            &&& forall|k: int, i: int|
                #![trigger samples_before(t.stsc, k), s[i]]
                1 <= k <= chunk_count(t) && samples_before(t.stsc, k) <= i && i + 1
                    < samples_before(t.stsc, k + 1) && i + 1 < s.len() ==> s[i + 1].offset
                    == end_of(s[i].offset as int, s[i].size as int)
        }),
{
    let s = table::samples_of(b)->Ok_0;
    let t = table::tables_of(b)->Ok_0;
    let n = n32(t.stsc, 4);
    lemma_numbers_agree(t.stsc, 4);
    lemma_chunk_runs(t.stsc, 0, n, Seq::empty());
    let runs = table::runs_of(t.stsc)->Ok_0;
    let sizes = table::sizes_of(t.stsz)->Ok_0;
    let chunks = table::chunk_table(t)->Ok_0;
    match t.stco {
        Some(x) => {
            lemma_numbers_agree(x, 4);
            lemma_offsets(x, 8, n32(x, 4) as nat, false, Seq::empty());
        },
        None => {
            let x = t.co64->Some_0;
            lemma_numbers_agree(x, 4);
            lemma_offsets(x, 8, n32(x, 4) as nat, true, Seq::empty());
        },
    }
    assert forall|k: int| 1 <= k <= chunks.len() implies #[trigger] chunks[k - 1] == chunk_offset(
        t,
        k,
    ) by {
        assert(chunks[Seq::<u64>::empty().len() + (k - 1)] == chunk_offset(t, k));
    }
    assert(laid(t.stsc, chunks, sizes, 1, Seq::empty()));
    lemma_laid_runs(t.stsc, runs, chunks, sizes, 0, Seq::empty());
    let places = table::places_of(runs, chunks, sizes)->Ok_0;
    assert(laid(t.stsc, chunks, sizes, chunks.len() as int + 1, places));
    assert forall|i: int| 0 <= i < s.len() implies (#[trigger] s[i]).offset == places[i]
        && s[i].size == sizes[i] by {}
    assert forall|k: int|
        1 <= k <= chunk_count(t) && chunk_size(t.stsc, n, k) > 0 && #[trigger] samples_before(
            t.stsc,
            k,
        ) < s.len() implies s[samples_before(t.stsc, k)].offset == chunk_offset(t, k) by {
        lemma_before(t.stsc, k, k);
        assert(places[samples_before(t.stsc, k)] == chunks[k - 1]);
    }
    assert forall|k: int, i: int|
        #![trigger samples_before(t.stsc, k), s[i]]
        1 <= k <= chunk_count(t) && samples_before(t.stsc, k) <= i && i + 1 < samples_before(
            t.stsc,
            k + 1,
        ) && i + 1 < s.len() implies s[i + 1].offset == end_of(
        s[i].offset as int,
        s[i].size as int,
    ) by {
        lemma_before(t.stsc, k, k);
        assert(places[i + 1] == end_of(places[i] as int, sizes[i] as int));
    }
}

/// A sample is shown as long after it is decoded as its shift says, or before if the shift
/// is negative; never before zero.
pub proof fn law_shown_is_shifted(s: SampleRef)
    ensures
        s.dts + s.cts_offset >= 0 && s.dts + s.cts_offset <= u64::MAX ==> s.shown() - s.dts
            == s.cts_offset,
        s.dts + s.cts_offset < 0 ==> s.shown() == 0,
{
}

proof fn lemma_expand_fits(b: Seq<u8>, at: int, n: nat, acc: Seq<u32>)
    requires
        0 <= at,
        at + 8 * n <= b.len(),
    ensures
        table::expand(b, at, n, acc) is Ok,
    decreases n,
{
    reveal_with_fuel(cursor::lack, 3);
    if n > 0 {
        assert(cursor::lack(b, at, seq![4nat, 4]) is None);
        lemma_expand_fits(
            b,
            at + 8,
            (n - 1) as nat,
            acc + Seq::new(bytes::get32(b, at) as nat, |i: int| bytes::get32(b, at + 4)),
        );
    }
}

proof fn lemma_numbers_fit(b: Seq<u8>, at: int, n: nat, acc: Seq<u32>)
    requires
        0 <= at,
        at + 4 * n <= b.len(),
    ensures
        table::numbers(b, at, n, acc) is Ok,
    decreases n,
{
    reveal_with_fuel(cursor::lack, 2);
    if n > 0 {
        assert(cursor::lack(b, at, seq![4nat]) is None);
        lemma_numbers_fit(b, at + 4, (n - 1) as nat, acc.push(bytes::get32(b, at)));
    }
}

proof fn lemma_marks_fit(b: Seq<u8>, j: int, n: int, acc: Seq<bool>)
    requires
        0 <= j <= n,
        8 + 4 * n <= b.len(),
        numbered(b, n, acc.len() as int),
    ensures
        table::marks(b, 8 + 4 * j, (n - j) as nat, acc) is Ok,
    decreases n - j,
{
    reveal_with_fuel(cursor::lack, 2);
    if j < n {
        assert(cursor::lack(b, 8 + 4 * j, seq![4nat]) is None);
        lemma_numbers_agree(b, 8 + 4 * j);
        assert(1 <= entry(b, j) <= acc.len());
        lemma_marks_fit(b, j + 1, n, acc.update(bytes::get32(b, 8 + 4 * j) - 1, true));
    }
}

/// The `j`th number of a list behind a count.
pub open spec fn entry(b: Seq<u8>, j: int) -> int {
    n32(b, 8 + 4 * j)
}

/// The first `k` numbers of a list are numbers of samples, counted from one up to `n`.
pub open spec fn numbered(b: Seq<u8>, k: int, n: int) -> bool {
    forall|j: int| 0 <= j < k ==> 1 <= #[trigger] entry(b, j) <= n
}

proof fn lemma_offsets_fit(b: Seq<u8>, at: int, n: nat, wide: bool, acc: Seq<u64>)
    requires
        0 <= at,
        at + (if wide {
            8int
        } else {
            4
        }) * n <= b.len(),
    ensures
        table::offsets(b, at, n, wide, acc) is Ok,
    decreases n,
{
    reveal_with_fuel(cursor::lack, 2);
    let w: nat = if wide {
        8
    } else {
        4
    };
    if n > 0 {
        assert(cursor::lack(b, at, seq![w]) is None);
        let v = if wide {
            bytes::get64(b, at)
        } else {
            bytes::get32(b, at) as u64
        };
        lemma_offsets_fit(b, at + w, (n - 1) as nat, wide, acc.push(v));
    }
}

proof fn lemma_chunk_runs_fit(b: Seq<u8>, at: int, n: nat, acc: Seq<StscRun>)
    requires
        0 <= at,
        at + 12 * n <= b.len(),
    ensures
        table::chunk_runs(b, at, n, acc) is Ok,
    decreases n,
{
    reveal_with_fuel(cursor::lack, 4);
    if n > 0 {
        assert(cursor::lack(b, at, seq![4nat, 4, 4]) is None);
        lemma_chunk_runs_fit(
            b,
            at + 12,
            (n - 1) as nat,
            acc.push(
                StscRun {
                    first_chunk: bytes::get32(b, at),
                    samples_per_chunk: bytes::get32(b, at + 4),
                },
            ),
        );
    }
}

/// Tables that are as long as their counts say, and agree on how many samples there are.
pub open spec fn complete(t: Tables) -> bool {
    let n = n32(t.stsz, 8);
    &&& t.stts.len() >= 8
    &&& t.stts.len() >= 8 + 8 * n32(t.stts, 4)
    &&& t.stsz.len() >= 12
    &&& n32(t.stsz, 4) == 0 ==> t.stsz.len() >= 12 + 4 * n
    &&& t.stsc.len() >= 8
    &&& t.stsc.len() >= 8 + 12 * n32(t.stsc, 4)
    &&& ascending(t.stsc)
    &&& match t.stco {
        Some(c) => c.len() >= 8 && c.len() >= 8 + 4 * n32(c, 4),
        None => t.co64 matches Some(c) && c.len() >= 8 && c.len() >= 8 + 8 * n32(c, 4),
    }
    &&& t.stss matches Some(k) ==> k.len() >= 8 && k.len() >= 8 + 4 * n32(k, 4) && numbered(
        k,
        n32(k, 4),
        n,
    )
    &&& t.ctts matches Some(k) ==> k.len() >= 8 && k.len() >= 8 + 8 * n32(k, 4)
    &&& run_total(t.stts, n32(t.stts, 4)) == n
    &&& samples_before(t.stsc, chunk_count(t) + 1) >= n
}

/// Complete tables are accepted, with as many samples as they have sizes.
#[verifier::spinoff_prover]
pub proof fn law_complete_tables_are_accepted(b: Seq<u8>, t: Tables)
    requires
        table::tables_of(b) == Ok::<Tables, Seq<char>>(t),
        complete(t),
    ensures
        table::samples_of(b) matches Ok(s) && s.len() == n32(t.stsz, 8),
{
    reveal_with_fuel(cursor::lack, 4);
    lemma_numbers_agree(t.stts, 4);
    lemma_numbers_agree(t.stsz, 4);
    lemma_numbers_agree(t.stsz, 8);
    lemma_numbers_agree(t.stsc, 4);
    let n = n32(t.stsc, 4);
    lemma_expand_fits(t.stts, 8, n32(t.stts, 4) as nat, Seq::empty());
    lemma_expand(t.stts, 0, n32(t.stts, 4), Seq::empty());
    lemma_numbers_fit_if(t.stsz);
    lemma_chunk_runs_fit(t.stsc, 8, n as nat, Seq::empty());
    lemma_chunk_runs(t.stsc, 0, n, Seq::empty());
    match t.stco {
        Some(x) => {
            lemma_numbers_agree(x, 4);
            lemma_offsets_fit(x, 8, n32(x, 4) as nat, false, Seq::empty());
            lemma_offsets(x, 8, n32(x, 4) as nat, false, Seq::empty());
        },
        None => {
            let x = t.co64->Some_0;
            lemma_numbers_agree(x, 4);
            lemma_offsets_fit(x, 8, n32(x, 4) as nat, true, Seq::empty());
            lemma_offsets(x, 8, n32(x, 4) as nat, true, Seq::empty());
        },
    }
    let sizes = table::sizes_of(t.stsz)->Ok_0;
    if let Some(k) = t.stss {
        lemma_numbers_agree(k, 4);
        lemma_marks_fit(k, 0, n32(k, 4), Seq::new(sizes.len(), |i: int| false));
    }
    if let Some(k) = t.ctts {
        lemma_numbers_agree(k, 4);
        lemma_expand_fits(k, 8, n32(k, 4) as nat, Seq::empty());
    }
    let runs = table::runs_of(t.stsc)->Ok_0;
    let chunks = table::chunk_table(t)->Ok_0;
    assert(laid(t.stsc, chunks, sizes, 1, Seq::empty()));
    lemma_laid_runs(t.stsc, runs, chunks, sizes, 0, Seq::empty());
}

/// A table of sizes that is long enough is read.
proof fn lemma_numbers_fit_if(stsz: Seq<u8>)
    requires
        stsz.len() >= 12,
        n32(stsz, 4) == 0 ==> stsz.len() >= 12 + 4 * n32(stsz, 8),
    ensures
        table::sizes_of(stsz) matches Ok(s) && s.len() == n32(stsz, 8),
{
    reveal_with_fuel(cursor::lack, 4);
    lemma_numbers_agree(stsz, 4);
    lemma_numbers_agree(stsz, 8);
    if n32(stsz, 4) == 0 {
        lemma_numbers_fit(stsz, 12, n32(stsz, 8) as nat, Seq::empty());
        lemma_numbers(stsz, 12, n32(stsz, 8) as nat, Seq::empty());
    }
}

/// Showing can start from a time at a keyframe that is shown no earlier: one whose decode
/// time and shift together reach it. From zero on it can start at any keyframe.
pub proof fn law_start_is_no_earlier(s: Seq<SampleRef>, i: int, t: u64)
    requires
        0 <= i < s.len(),
    ensures
        parse::starts_from(s, i, t) <==> s[i].is_keyframe && (t == 0 || s[i].dts + s[i].cts_offset
            >= t),
{
}

} // verus!
