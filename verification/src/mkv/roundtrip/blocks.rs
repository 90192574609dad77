//! What the bytes of Clusters and Blocks mean for the frames that are read.

use crate::bytes;
use crate::mkv::audio::pow2;
use crate::mkv::cluster;
use crate::mkv::cluster::{FrameView, FramesView, GroupView};
use crate::mkv::ebml::element;
use crate::mkv::ebml::varint;
use crate::mkv::ebml::writer;
use crate::mkv::ebml::writer::{element_len, items_bytes, stands};
use crate::mkv::roundtrip::children::{last_of, number, Items};
use crate::mkv::Error;
use vstd::prelude::*;

verus! {

proof fn lemma_number(b: Seq<u8>)
    ensures
        number(b) == bytes::uint(b),
    decreases b.len(),
{
    if b.len() > 0 {
        lemma_number(b.drop_last());
    }
}

proof fn lemma_markers()
    ensures
        pow2(7) == 0x80,
        pow2(14) == 0x4000,
        pow2(21) == 0x20_0000,
        pow2(28) == 0x1000_0000,
        pow2(35) == 0x8_0000_0000,
        pow2(42) == 0x400_0000_0000,
        pow2(49) == 0x2_0000_0000_0000,
        pow2(56) == 0x100_0000_0000_0000,
{
    reveal_with_fuel(pow2, 8);
    lemma_seven(7);
    lemma_seven(14);
    lemma_seven(21);
    lemma_seven(28);
    lemma_seven(35);
    lemma_seven(42);
    lemma_seven(49);
}

proof fn lemma_seven(n: nat)
    ensures
        pow2(n + 7) == 128 * pow2(n),
{
    reveal_with_fuel(pow2, 8);
}

/// A variable-length integer takes as many bytes as there are zeros in front of the first
/// one-bit of its first byte, and one more. The bits behind that bit are its value, most
/// significant first; with all of them set it stands for an unknown length.
pub proof fn law_vint_is_read(s: Seq<u8>, pos: int, w: nat)
    requires
        0 <= pos,
        1 <= w <= 8,
        pos + w <= s.len(),
        pow2((8 - w) as nat) <= s[pos] < pow2((9 - w) as nat),
    ensures
        ({
            let n = number(s.subrange(pos, pos + w)) - pow2(7 * w);
            &&& 0 <= n < pow2(7 * w)
            &&& varint::vint_at(s, pos) == Ok::<(u64, u8, bool), Error>(
                (n as u64, w as u8, n + 1 == pow2(7 * w)),
            )
            &&& varint::id_at(s, pos) == Ok::<varint::Vint, Error>(
                varint::Vint {
                    value: number(s.subrange(pos, pos + w)) as u64,
                    width: w as u8,
                },
            )
        }),
{
    lemma_markers();
    let b = s.subrange(pos, pos + w);
    assert(b[0] == s[pos]);
    lemma_number(b);
    assert(pow2(0) == 1 && pow2(1) == 2 && pow2(2) == 4 && pow2(3) == 8 && pow2(4) == 16 && pow2(5)
        == 32 && pow2(6) == 64 && pow2(8) == 256) by {
        reveal_with_fuel(pow2, 9);
    }
    assert(varint::width_of(s[pos]) == w);
    lemma_first(b);
    assert(pow2(7 * w) == varint::marker(w as int));
    let u = number(b);
    bytes::lemma_pow256();
    let q = bytes::pow256((w - 1) as nat);
    let low = pow2((8 - w) as nat);
    let high = pow2((9 - w) as nat);
    let m = pow2(7 * w);
    assert(low * q == m && high * q == 2 * m) by {
        assert(w == 1 || w == 2 || w == 3 || w == 4 || w == 5 || w == 6 || w == 7 || w == 8);
    }
    let x = b[0] as int;
    assert(m <= u < 2 * m) by (nonlinear_arith)
        requires
            x * q <= u < (x + 1) * q,
            low <= x < high,
            low * q == m,
            high * q == 2 * m,
            q > 0,
    ;
    assert(m <= 0x100_0000_0000_0000);
}

/// The first byte weighs the most.
proof fn lemma_first(b: Seq<u8>)
    requires
        b.len() > 0,
    ensures
        b[0] * bytes::pow256((b.len() - 1) as nat) <= number(b) < (b[0] + 1) * bytes::pow256(
            (b.len() - 1) as nat,
        ),
    decreases b.len(),
{
    bytes::lemma_pow256();
    if b.len() == 1 {
        assert(b.drop_last() =~= Seq::empty());
        assert(number(b.drop_last()) == 0);
    } else {
        let r = b.drop_last();
        assert(r[0] == b[0]);
        lemma_first(r);
        let p = bytes::pow256((r.len() - 1) as nat);
        assert(bytes::pow256((b.len() - 1) as nat) == 256 * p);
        let x = b[0] as int;
        let n = number(r);
        assert(x * (256 * p) <= n * 256 + b.last() < (x + 1) * (256 * p)) by (nonlinear_arith)
            requires
                x * p <= n < (x + 1) * p,
                0 <= b.last() < 256,
        ;
    }
}

/// The two's complement number of two bytes.
pub open spec fn delta(hi: u8, lo: u8) -> int {
    if hi < 0x80 {
        hi * 0x100 + lo
    } else {
        hi * 0x100 + lo - 0x1_0000
    }
}

/// A Block without lacing is a track number, two bytes of time, a byte of flags and the
/// frame. The time counts ticks from that of the Cluster, forwards or backwards, but never
/// to before zero. In a SimpleBlock the highest flag marks a keyframe and the lowest a frame
/// that may be left out; the fourth from below marks a frame that is not shown, in both.
pub proof fn law_block_is_read(
    p: Seq<u8>,
    is_simple: bool,
    cluster_ts_ns: u64,
    scale: u64,
    track: u64,
    w: int,
)
    requires
        varint::vint_at(p, 0) matches Ok((n, x, _)) && n == track && x == w,
        0 <= w,
        w + 3 <= p.len(),
        p[w + 2] / 2 % 4 == 0,
        cluster_ts_ns <= i64::MAX,
        scale <= i64::MAX,
        -i64::MAX <= delta(p[w], p[w + 1]) * scale <= i64::MAX,
        cluster_ts_ns + delta(p[w], p[w + 1]) * scale <= i64::MAX,
    ensures
        ({
            let flags = p[w + 2];
            let t = cluster_ts_ns + delta(p[w], p[w + 1]) * scale;
            cluster::block_of(p, is_simple, cluster_ts_ns, scale) == Ok::<FrameView, Error>(
                FrameView {
                    track,
                    timestamp_ns: if t < 0 {
                        0
                    } else {
                        t as u64
                    },
                    is_keyframe: if is_simple {
                        Some(flags / 128 == 1)
                    } else {
                        None
                    },
                    is_invisible: flags / 8 % 2 == 1,
                    is_discardable: if is_simple {
                        Some(flags % 2 == 1)
                    } else {
                        None
                    },
                    data: p.subrange(w + 3, p.len() as int),
                },
            )
        }),
{
    assert(p.skip(w + 3) =~= p.subrange(w + 3, p.len() as int));
    assert(cluster::signed16(p, w) == delta(p[w], p[w + 1]));
}

/// A Block with lacing is refused.
pub proof fn law_lacing_is_refused(p: Seq<u8>, is_simple: bool, cluster_ts_ns: u64, scale: u64)
    requires
        varint::vint_at(p, 0) matches Ok((_, w, _)) && w + 3 <= p.len() && p[w + 2] / 2 % 4 != 0,
    ensures
        cluster::block_of(p, is_simple, cluster_ts_ns, scale) matches Err(e) && e is Unsupported,
{
}

/// What is found behind the first element, or else at it.
proof fn lemma_last_of(items: Items, id: u64)
    requires
        items.len() > 0,
    ensures
        last_of(items, id) == match last_of(items.skip(1), id) {
            Some(p) => Some(p),
            None => if items[0].0 == id {
                Some(items[0].1)
            } else {
                None
            },
        },
    decreases items.len(),
{
    let rest = items.skip(1);
    if items.len() == 1 {
        assert(rest =~= Seq::empty());
        assert(items.drop_last() =~= Seq::empty());
        assert(last_of(items.drop_last(), id) is None);
    } else {
        assert(items.last() == rest.last());
        assert(rest.drop_last() =~= items.drop_last().skip(1));
        assert(items.drop_last()[0] == items[0]);
        lemma_last_of(items.drop_last(), id);
    }
}

/// A child stands where its parent's payload has it.
proof fn lemma_child_stands(s: Seq<u8>, base: int, items: Items, k: int)
    requires
        0 <= base,
        0 <= k < items.len(),
        writer::writable(items),
        s.len() <= usize::MAX,
        base + items_bytes(items).len() <= s.len(),
        s.subrange(base, base + items_bytes(items).len()) == items_bytes(items),
    ensures
        stands(s, base + items_bytes(items.take(k)).len(), items[k].0, items[k].1),
        items_bytes(items.take(k + 1)).len() == items_bytes(items.take(k)).len() + element_len(
            items[k].0,
            items[k].1.len(),
        ),
        items_bytes(items.take(k + 1)).len() <= items_bytes(items).len(),
{
    writer::lemma_item_stands(items, k);
    writer::lemma_items_prefix(items, k + 1);
    reveal(stands);
    let b = items_bytes(items);
    let at = items_bytes(items.take(k)).len() as int;
    let n = element_len(items[k].0, items[k].1.len()) as int;
    assert(s.subrange(base + at, base + at + n) =~= b.subrange(at, at + n)) by {
        assert forall|i: int| 0 <= i < n implies s.subrange(base + at, base + at + n)[i]
            == #[trigger] b.subrange(at, at + n)[i] by {
            assert(s.subrange(base, base + b.len())[at + i] == b[at + i]);
        }
    }
}

/// What the children of a BlockGroup from number `k` on make of it.
#[verifier::spinoff_prover]
proof fn lemma_group(
    s: Seq<u8>,
    base: int,
    items: Items,
    k: int,
    cluster_ts_ns: u64,
    scale: u64,
    st: GroupView,
)
    requires
        0 <= base,
        0 <= k <= items.len(),
        writer::writable(items),
        s.len() <= usize::MAX,
        base + items_bytes(items).len() <= s.len(),
        s.subrange(base, base + items_bytes(items).len()) == items_bytes(items),
        forall|i: int|
            0 <= i < items.len() && (#[trigger] items[i]).0 == 0xA1 ==> cluster::block_of(
                items[i].1,
                false,
                cluster_ts_ns,
                scale,
            ) is Ok,
    ensures
        cluster::group_of(
            s,
            base + items_bytes(items.take(k)).len(),
            base + items_bytes(items).len(),
            cluster_ts_ns,
            scale,
            st,
        ) == Ok::<GroupView, Error>(
            GroupView {
                frame: match last_of(items.skip(k), 0xA1) {
                    Some(p) => Some(
                        cluster::block_of(p, false, cluster_ts_ns, scale)->Ok_0,
                    ),
                    None => st.frame,
                },
                referenced: st.referenced || last_of(items.skip(k), 0xFB) is Some,
            },
        ),
    decreases items.len() - k,
{
    let end = base + items_bytes(items).len();
    let pos = base + items_bytes(items.take(k)).len();
    let rest = items.skip(k);
    if k == items.len() {
        assert(items.take(k) =~= items);
        assert(rest =~= Seq::empty());
        assert(last_of(rest, 0xA1) is None);
        assert(last_of(rest, 0xFB) is None);
    } else {
        lemma_child_stands(s, base, items, k);
        reveal(stands);
        let (id, p) = items[k];
        writer::law_element_reads_back(s, pos, id, p);
        writer::lemma_element_len(id, p);
        let h = writer::header_of(pos, id, p.len());
        let next = base + items_bytes(items.take(k + 1)).len();
        assert(h.end() == Some(next as int));
        let after = if id == 0xA1 {
            GroupView {
                frame: Some(cluster::block_of(p, false, cluster_ts_ns, scale)->Ok_0),
                ..st
            }
        } else if id == 0xFB {
            GroupView { referenced: true, ..st }
        } else {
            st
        };
        lemma_group(s, base, items, k + 1, cluster_ts_ns, scale, after);
        assert(rest.skip(1) =~= items.skip(k + 1));
        assert(rest[0] == items[k]);
        lemma_last_of(rest, 0xA1);
        lemma_last_of(rest, 0xFB);
        assert(pos < next <= end);
        assert(cluster::group_of(s, next as int, end as int, cluster_ts_ns, scale, after)
            == cluster::group_of(s, pos as int, end as int, cluster_ts_ns, scale, st));
    }
}

/// The walk behind an element.
pub open spec fn behind(f: FramesView, id: u64, payload: Seq<u8>) -> FramesView {
    FramesView { pos: f.pos + element_len(id, payload.len()), ..f }
}

/// A walk in a Cluster, with an element at hand.
pub open spec fn at_child(f: FramesView, id: u64, payload: Seq<u8>) -> bool {
    &&& f.cluster_end matches Some(end) && f.pos < end
    &&& stands(f.input, f.pos, id, payload)
}

proof fn lemma_at(f: FramesView, id: u64, payload: Seq<u8>)
    requires
        stands(f.input, f.pos, id, payload),
    ensures
        ({
            let h = writer::header_of(f.pos, id, payload.len());
            &&& element::header_at(f.input, f.pos) == Ok::<element::ElementHeader, Error>(h)
            &&& element::payload_of(f.input, h) == Ok::<Seq<u8>, Error>(payload)
            &&& h.id.value == id
            &&& h.end() == Some(behind(f, id, payload).pos)
            &&& f.pos < h.payload_start <= f.input.len()
            &&& behind(f, id, payload).pos <= f.input.len()
            &&& h.payload_start + payload.len() == behind(f, id, payload).pos
            &&& f.input.subrange(h.payload_start as int, h.payload_start + payload.len())
                == payload
            &&& f.input.len() <= usize::MAX
        }),
{
    reveal(stands);
    writer::law_element_reads_back(f.input, f.pos, id, payload);
    writer::lemma_element_len(id, payload);
    let h = writer::header_of(f.pos, id, payload.len());
    let e = writer::element_bytes(id, payload);
    let n = e.len() as int;
    let a = h.payload_start - f.pos;
    assert(e.subrange(a, n) =~= payload) by {
        writer::lemma_size_width(payload.len());
        bytes::lemma_fixed_len(id as nat, writer::id_width_spec(id) as nat);
    }
    assert(f.input.subrange(h.payload_start as int, h.payload_start + payload.len()) =~= e.subrange(
        a,
        n,
    )) by {
        assert forall|i: int| 0 <= i < payload.len() implies f.input.subrange(
            h.payload_start as int,
            h.payload_start + payload.len(),
        )[i] == #[trigger] e.subrange(a, n)[i] by {
            assert(f.input.subrange(f.pos, f.pos + n)[a + i] == e[a + i]);
        }
    }
}

/// A Timestamp sets the time of its Cluster, in ticks.
pub proof fn law_cluster_time_is_read(f: FramesView, b: Seq<u8>)
    requires
        at_child(f, 0xE7, b),
        b.len() <= 8,
    ensures
        cluster::next_of(f) == cluster::next_of(
            (FramesView { ticks: number(b) as u64, ..behind(f, 0xE7, b) }),
        ),
        number(b) * f.scale <= u64::MAX ==> (FramesView { ticks: number(b) as u64, ..f }).cluster_ts()
            == number(b) * f.scale,
{
    lemma_at(f, 0xE7, b);
    lemma_number(b);
    bytes::lemma_pow256();
    bytes::lemma_uint_bound(b);
    reveal(cluster::next_of);
}

/// A SimpleBlock in a Cluster is the next frame.
pub proof fn law_simple_block_is_next(f: FramesView, p: Seq<u8>)
    requires
        at_child(f, 0xA3, p),
        cluster::block_of(p, true, f.cluster_ts(), f.scale) is Ok,
    ensures
        cluster::next_of(f) == (
            Ok::<Option<FrameView>, Error>(
                Some(cluster::block_of(p, true, f.cluster_ts(), f.scale)->Ok_0),
            ),
            behind(f, 0xA3, p),
        ),
{
    lemma_at(f, 0xA3, p);
    reveal(cluster::next_of);
}

/// A BlockGroup in a Cluster is the next frame: that of its last Block, which is a keyframe
/// if no ReferenceBlock stands in the group, before or behind it.
#[verifier::spinoff_prover]
pub proof fn law_group_is_next(f: FramesView, items: Items, p: Seq<u8>)
    requires
        at_child(f, 0xA0, items_bytes(items)),
        writer::writable(items),
        last_of(items, 0xA1) == Some(p),
        forall|i: int|
            0 <= i < items.len() && (#[trigger] items[i]).0 == 0xA1 ==> cluster::block_of(
                items[i].1,
                false,
                f.cluster_ts(),
                f.scale,
            ) is Ok,
    ensures
        cluster::next_of(f) == (
            Ok::<Option<FrameView>, Error>(
                Some(
                    FrameView {
                        is_keyframe: Some(last_of(items, 0xFB) is None),
                        ..cluster::block_of(p, false, f.cluster_ts(), f.scale)->Ok_0
                    },
                ),
            ),
            behind(f, 0xA0, items_bytes(items)),
        ),
{
    let b = items_bytes(items);
    lemma_at(f, 0xA0, b);
    let h = writer::header_of(f.pos, 0xA0, b.len());
    assert(items.take(0) =~= Seq::<(u64, Seq<u8>)>::empty());
    assert(items.skip(0) =~= items);
    assert(items_bytes(items.take(0)).len() == 0);
    lemma_group(
        f.input,
        h.payload_start as int,
        items,
        0,
        f.cluster_ts(),
        f.scale,
        GroupView { frame: None, referenced: false },
    );
    reveal(cluster::next_of);
}

/// Between Clusters, a Cluster is entered with a time of zero; any other element of known
/// size is passed over.
pub proof fn law_cluster_is_entered(f: FramesView, id: u64, payload: Seq<u8>)
    requires
        f.cluster_end is None,
        f.pos < f.segment_end,
        stands(f.input, f.pos, id, payload),
    ensures
        cluster::next_of(f) == cluster::next_of(
            if id == 0x1F43B675 {
                FramesView {
                    pos: behind(f, id, payload).pos - payload.len(),
                    ticks: 0,
                    cluster_end: Some(behind(f, id, payload).pos),
                    no_size: false,
                    ..f
                }
            } else {
                behind(f, id, payload)
            },
        ),
{
    lemma_at(f, id, payload);
    reveal(cluster::next_of);
}

} // verus!
