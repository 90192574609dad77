//! What the bytes of a display set mean for the picture that is shown.

use crate::mkv::pgs;
use crate::mkv::pgs::paint;
use crate::mkv::pgs::paint::{ObjectView, PlacementView};
use crate::mkv::pgs::raster;
use crate::mkv::pgs::raster::{Rect, Rgba, Token};
use crate::mkv::pgs::state;
use crate::mkv::pgs::{
    CompositionObject, CompositionView, DisplayView, FragmentView, ImageView, PaletteView, PgsError,
    PgsLimits, PgsView,
};
use vstd::prelude::*;

verus! {

/// A number of pixels in one colour.
pub struct Run {
    pub n: nat,
    pub color: u8,
}

/// A run that can be written.
pub open spec fn writable(r: Run) -> bool {
    1 <= r.n < 16384
}

/// A run on the wire: a lone pixel that has a colour is one byte; other runs follow a
/// zero, short ones in six bits and long ones in fourteen, the colour last if it is not
/// zero.
pub open spec fn run_bytes(r: Run) -> Seq<u8> {
    if r.n == 1 && r.color != 0 {
        seq![r.color]
    } else if r.color == 0 {
        if r.n < 64 {
            seq![0u8, r.n as u8]
        } else {
            seq![0u8, (64 + r.n / 256) as u8, (r.n % 256) as u8]
        }
    } else if r.n < 64 {
        seq![0u8, (128 + r.n) as u8, r.color]
    } else {
        seq![0u8, (192 + r.n / 256) as u8, (r.n % 256) as u8, r.color]
    }
}

/// Runs on the wire.
pub open spec fn runs_bytes(row: Seq<Run>) -> Seq<u8>
    decreases row.len(),
{
    if row.len() == 0 {
        Seq::empty()
    } else {
        run_bytes(row[0]) + runs_bytes(row.skip(1))
    }
}

/// Rows on the wire, each ended by two zeros.
pub open spec fn rows_bytes(rows: Seq<Seq<Run>>) -> Seq<u8>
    decreases rows.len(),
{
    if rows.len() == 0 {
        Seq::empty()
    } else {
        runs_bytes(rows[0]) + seq![0u8, 0u8] + rows_bytes(rows.skip(1))
    }
}

/// The pixels of a row, from left to right.
pub open spec fn row_pixels(row: Seq<Run>) -> Seq<u8>
    decreases row.len(),
{
    if row.len() == 0 {
        Seq::empty()
    } else {
        Seq::new(row[0].n, |i: int| row[0].color) + row_pixels(row.skip(1))
    }
}

/// The pixels of all rows, from top to bottom.
pub open spec fn all_pixels(rows: Seq<Seq<Run>>) -> Seq<u8>
    decreases rows.len(),
{
    if rows.len() == 0 {
        Seq::empty()
    } else {
        row_pixels(rows[0]) + all_pixels(rows.skip(1))
    }
}

/// Rows of one width, in runs that can be written.
pub open spec fn even(rows: Seq<Seq<Run>>, width: int) -> bool {
    forall|r: int|
        0 <= r < rows.len() ==> row_pixels(#[trigger] rows[r]).len() == width && forall|i: int|
            0 <= i < rows[r].len() ==> writable(#[trigger] rows[r][i])
}

proof fn lemma_token(data: Seq<u8>, pos: int, r: Run, rest: Seq<u8>)
    requires
        0 <= pos <= data.len(),
        writable(r),
        data.skip(pos) == run_bytes(r) + rest,
    ensures
        pos < data.len(),
        raster::token_at(data, pos) == Ok::<(Token, int), PgsError>(
            (Token::Run { run: r.n as int, color: r.color }, pos + run_bytes(r).len()),
        ),
        data.skip(pos + run_bytes(r).len()) == rest,
{
    let b = run_bytes(r);
    let tail = data.skip(pos);
    assert(tail.len() == b.len() + rest.len());
    assert forall|i: int| 0 <= i < b.len() implies data[pos + i] == b[i] by {
        assert(tail[i] == b[i]);
    }
    assert(data[pos] == b[0]);
    if b.len() > 1 {
        assert(data[pos + 1] == b[1]);
    }
    if b.len() > 2 {
        assert(data[pos + 2] == b[2]);
    }
    if b.len() > 3 {
        assert(data[pos + 3] == b[3]);
    }
    assert(data.skip(pos + b.len()) =~= rest) by {
        assert forall|i: int| 0 <= i < rest.len() implies data[pos + b.len() + i] == rest[i] by {
            assert(tail[b.len() + i] == rest[i]);
        }
    }
}

#[verifier::spinoff_prover]
proof fn lemma_row(
    data: Seq<u8>,
    pos: int,
    x: int,
    y: int,
    width: int,
    height: int,
    out: Seq<u8>,
    row: Seq<Run>,
    rest: Seq<u8>,
)
    requires
        0 <= pos <= data.len(),
        0 <= x,
        0 <= y < height,
        x + row_pixels(row).len() == width,
        forall|i: int| 0 <= i < row.len() ==> writable(#[trigger] row[i]),
        data.skip(pos) == runs_bytes(row) + seq![0u8, 0u8] + rest,
    ensures
        pos + runs_bytes(row).len() + 2 <= data.len(),
        data.skip(pos + runs_bytes(row).len() + 2) == rest,
        raster::rle_of(data, pos, x, y, width, height, out) == raster::rle_of(
            data,
            pos + runs_bytes(row).len() + 2,
            0,
            y + 1,
            width,
            height,
            out + row_pixels(row),
        ),
    decreases row.len(),
{
    if row.len() == 0 {
        let tail = data.skip(pos);
        assert(tail =~= seq![0u8, 0u8] + rest);
        assert(tail[0] == data[pos] && tail[1] == data[pos + 1]);
        assert(data.skip(pos + 2) =~= rest) by {
            assert forall|i: int| 0 <= i < rest.len() implies data[pos + 2 + i] == rest[i] by {
                assert(tail[2 + i] == rest[i]);
            }
        }
        assert(out + row_pixels(row) =~= out);
    } else {
        let r = row[0];
        let b = run_bytes(r);
        let more = row.skip(1);
        let behind = runs_bytes(more) + seq![0u8, 0u8] + rest;
        assert(data.skip(pos) =~= b + behind);
        lemma_token(data, pos, r, behind);
        assert forall|i: int| 0 <= i < more.len() implies writable(#[trigger] more[i]) by {
            assert(more[i] == row[i + 1]);
        }
        let next = out + raster::run_of(r.n as int, r.color);
        assert(raster::run_of(r.n as int, r.color) =~= Seq::new(r.n, |i: int| row[0].color));
        lemma_row(data, pos + b.len(), x + r.n, y, width, height, next, more, rest);
        assert(next + row_pixels(more) =~= out + row_pixels(row));
    }
}

proof fn lemma_rows(
    data: Seq<u8>,
    pos: int,
    y: int,
    width: int,
    height: int,
    out: Seq<u8>,
    rows: Seq<Seq<Run>>,
)
    requires
        0 <= pos <= data.len(),
        0 <= y,
        y + rows.len() == height,
        even(rows, width),
        data.skip(pos) == rows_bytes(rows),
    ensures
        raster::rle_of(data, pos, 0, y, width, height, out) == Ok::<Seq<u8>, PgsError>(
            out + all_pixels(rows),
        ),
    decreases rows.len(),
{
    if rows.len() == 0 {
        assert(data.skip(pos).len() == 0);
        assert(out + all_pixels(rows) =~= out);
    } else {
        let more = rows.skip(1);
        assert(even(more, width)) by {
            assert forall|r: int| 0 <= r < more.len() implies row_pixels(
                #[trigger] more[r],
            ).len() == width && forall|i: int|
                0 <= i < more[r].len() ==> writable(#[trigger] more[r][i]) by {
                assert(more[r] == rows[r + 1]);
            }
        }
        assert(row_pixels(rows[0]).len() == width);
        lemma_row(data, pos, 0, y, width, height, out, rows[0], rows_bytes(more));
        lemma_rows(
            data,
            pos + runs_bytes(rows[0]).len() + 2,
            y + 1,
            width,
            height,
            out + row_pixels(rows[0]),
            more,
        );
        assert(out + row_pixels(rows[0]) + all_pixels(more) =~= out + all_pixels(rows));
    }
}

/// Rows that were written as runs are decoded to their pixels.
pub proof fn law_runs_read_back(rows: Seq<Seq<Run>>, width: u16, height: u16)
    requires
        rows.len() == height,
        even(rows, width as int),
    ensures
        raster::rle_of(
            rows_bytes(rows),
            0,
            0,
            0,
            width as int,
            height as int,
            Seq::empty(),
        ) == Ok::<Seq<u8>, PgsError>(all_pixels(rows)),
{
    let data = rows_bytes(rows);
    assert(data.skip(0) =~= data);
    lemma_rows(data, 0, 0, width as int, height as int, Seq::empty(), rows);
    assert(Seq::<u8>::empty() + all_pixels(rows) =~= all_pixels(rows));
}

/// The pixel in row `r` and column `c` of a raster is that pixel of that row.
pub proof fn law_rows_lie_below_each_other(rows: Seq<Seq<Run>>, width: int, r: int, c: int)
    requires
        even(rows, width),
        0 <= r < rows.len(),
        0 <= c < width,
    ensures
        all_pixels(rows).len() == rows.len() * width,
        0 <= r * width + c < all_pixels(rows).len(),
        all_pixels(rows)[r * width + c] == row_pixels(rows[r])[c],
    decreases rows.len(),
{
    let more = rows.skip(1);
    assert(rows.len() * width == width + more.len() * width) by (nonlinear_arith)
        requires
            rows.len() == more.len() + 1,
    ;
    assert(row_pixels(rows[0]).len() == width);
    assert(even(more, width)) by {
        assert forall|k: int| 0 <= k < more.len() implies row_pixels(#[trigger] more[k]).len()
            == width && forall|i: int|
            0 <= i < more[k].len() ==> writable(#[trigger] more[k][i]) by {
            assert(more[k] == rows[k + 1]);
        }
    }
    if more.len() == 0 {
        assert(all_pixels(more).len() == 0);
        assert(r == 0);
    } else {
        if r == 0 {
            law_rows_lie_below_each_other(more, width, 0, c);
        } else {
            law_rows_lie_below_each_other(more, width, r - 1, c);
            assert(r * width == width + (r - 1) * width) by (nonlinear_arith);
            assert(more[r - 1] == rows[r]);
        }
    }
    assert(0 <= r * width) by (nonlinear_arith)
        requires
            0 <= r,
            0 < width,
    ;
}

/// The 16-bit number at `i`, most significant byte first.
pub open spec fn n16(b: Seq<u8>, i: int) -> int {
    b[i] * 256 + b[i + 1]
}

/// `p` is the byte nearest to `v / 256`.
pub open spec fn nearest(p: u8, v: int) -> bool {
    ||| 256 * p - 128 <= v < 256 * p + 128
    ||| p == 0 && v < -128
    ||| p == 255 && v >= 255 * 256 + 128
}

/// The four bytes from `o` on show a palette entry: luma, Cr, Cb and alpha in studio-range
/// BT.709 become red, green, blue and alpha, and nothing at all if it is transparent.
pub open spec fn shows(rgba: Seq<u8>, o: int, y: u8, cr: u8, cb: u8, a: u8) -> bool {
    if a == 0 {
        rgba[o] == 0 && rgba[o + 1] == 0 && rgba[o + 2] == 0 && rgba[o + 3] == 0
    } else {
        let l = 298 * (y - 16);
        &&& nearest(rgba[o], l + 459 * (cr - 128))
        &&& nearest(rgba[o + 1], l - 137 * (cr - 128) - 55 * (cb - 128))
        &&& nearest(rgba[o + 2], l + 541 * (cb - 128))
        &&& rgba[o + 3] == a
    }
}

/// The part of an object that a composition with one object shows: all of it, unless the
/// composition says which.
pub open spec fn shown_part(pcs: Seq<u8>, ods: Seq<u8>) -> Rect {
    if pcs[14] >= 0x80 {
        Rect {
            x: n16(pcs, 19) as u16,
            y: n16(pcs, 21) as u16,
            width: n16(pcs, 23) as u16,
            height: n16(pcs, 25) as u16,
        }
    } else {
        Rect { x: 0, y: 0, width: n16(ods, 7) as u16, height: n16(ods, 9) as u16 }
    }
}

/// How many entries a palette segment has.
pub open spec fn entries(pds: Seq<u8>) -> int {
    (pds.len() - 2) / 5
}

/// Bodies of segments that show one object: a composition, a window, a palette and the
/// object in one part. They name each other, the window lies on the canvas, and what is
/// shown of the object lies in the window.
pub open spec fn one_picture(
    pcs: Seq<u8>,
    wds: Seq<u8>,
    pds: Seq<u8>,
    ods: Seq<u8>,
    rows: Seq<Seq<Run>>,
) -> bool {
    let part = shown_part(pcs, ods);
    &&& pcs.len() == if pcs[14] >= 0x80 {
        27int
    } else {
        19int
    }
    &&& pcs[7] == 0x80 || pcs[7] == 0x40
    &&& pcs[8] == 0
    &&& pcs[10] == 1
    &&& pcs[14] % 64 == 0
    &&& wds.len() == 10
    &&& wds[0] == 1
    &&& wds[1] == pcs[13]
    &&& n16(wds, 6) > 0
    &&& n16(wds, 8) > 0
    &&& n16(wds, 2) + n16(wds, 6) <= n16(pcs, 0)
    &&& n16(wds, 4) + n16(wds, 8) <= n16(pcs, 2)
    &&& pds.len() >= 2
    &&& (pds.len() - 2) % 5 == 0
    &&& pds[0] == pcs[9]
    &&& forall|i: int, j: int|
        0 <= i < j < entries(pds) ==> #[trigger] pds[2 + 5 * i] != #[trigger] pds[2 + 5 * j]
    &&& 11 <= ods.len() <= 0xFFFF
    &&& n16(ods, 0) == n16(pcs, 11)
    &&& ods[3] == 0xC0
    &&& ods[4] * 65536 + n16(ods, 5) == ods.len() - 7
    &&& ods.skip(11) == rows_bytes(rows)
    &&& rows.len() == n16(ods, 9)
    &&& even(rows, n16(ods, 7))
    &&& part.width > 0
    &&& part.height > 0
    &&& part.x + part.width <= n16(ods, 7)
    &&& part.y + part.height <= n16(ods, 9)
    &&& n16(wds, 2) <= n16(pcs, 15)
    &&& n16(pcs, 15) + part.width <= n16(wds, 2) + n16(wds, 6)
    &&& n16(wds, 4) <= n16(pcs, 17)
    &&& n16(pcs, 17) + part.height <= n16(wds, 4) + n16(wds, 8)
}

/// The size of an image is within the bounds.
pub open spec fn allowed(l: PgsLimits, width: int, height: int) -> bool {
    0 < width <= l.max_width && 0 < height <= l.max_height && width * height <= l.pixels
}

/// A decoder between display sets has room for one with these bodies.
pub open spec fn has_room(
    st: PgsView,
    pcs: Seq<u8>,
    wds: Seq<u8>,
    pds: Seq<u8>,
    ods: Seq<u8>,
) -> bool {
    let l = st.limits;
    let part = shown_part(pcs, ods);
    &&& st.pending is None
    &&& pcs[7] == 0x80 || (st.last matches Some(d) ==> d.canvas_width == n16(pcs, 0)
        && d.canvas_height == n16(pcs, 2))
    &&& st.set_bytes + pcs.len() + wds.len() + pds.len() + ods.len() + 15 <= l.display_set_bytes
    &&& st.set_segments + 5 <= l.segments_per_display
    &&& st.displays + 1 <= l.displays
    &&& l.composition_objects >= 1
    &&& l.windows >= 1
    &&& l.palettes >= 1
    &&& l.objects >= 1
    &&& ods.len() - 11 <= l.object_bytes
    &&& ods.len() - 11 + n16(ods, 7) * n16(ods, 9) <= l.object_state_bytes
    &&& allowed(l, n16(pcs, 0), n16(pcs, 2))
    &&& allowed(l, n16(ods, 7), n16(ods, 9))
    &&& allowed(l, part.width as int, part.height as int)
    &&& st.rendered_pixels + part.width * part.height <= l.total_render_pixels
    &&& pgs::shown_bytes(st.last) + part.width * part.height * 4 <= l.raster_bytes
}

/// The segments of such a display set.
pub open spec fn picture_set(pcs: Seq<u8>, wds: Seq<u8>, pds: Seq<u8>, ods: Seq<u8>) -> Seq<
    (u8, Seq<u8>),
> {
    seq![(0x16u8, pcs), (0x17u8, wds), (0x14u8, pds), (0x15u8, ods), (0x80u8, Seq::<u8>::empty())]
}

proof fn lemma_composition(
    st: PgsView,
    time: u64,
    pcs: Seq<u8>,
    wds: Seq<u8>,
    pds: Seq<u8>,
    ods: Seq<u8>,
    rows: Seq<Seq<Run>>,
)
    requires
        one_picture(pcs, wds, pds, ods, rows),
        has_room(st, pcs, wds, pds, ods),
    ensures
        pgs::taken(st, time, 0x16, pcs) matches Ok(m) && m == (PgsView {
            set_bytes: st.set_bytes + pcs.len() + 3,
            set_segments: st.set_segments + 1,
            objects: Seq::empty(),
            fragments: Seq::empty(),
            palettes: Seq::empty(),
            windows: Seq::empty(),
            pending: m.pending,
            ..st
        }) && m.pending == Some(composition(time, pcs)),
{
    reveal_with_fuel(pgs::objects_at, 2);
    let o = composition_object(pcs);
    assert(Seq::empty().push(o) =~= seq![o]);
}

/// What the composition shows.
spec fn composition_object(pcs: Seq<u8>) -> CompositionObject {
    CompositionObject {
        object_id: n16(pcs, 11) as u16,
        window_id: pcs[13],
        forced: pcs[14] == 0x40 || pcs[14] == 0xC0,
        x: n16(pcs, 15) as u16,
        y: n16(pcs, 17) as u16,
        crop: if pcs[14] >= 0x80 {
            Some(
                Rect {
                    x: n16(pcs, 19) as u16,
                    y: n16(pcs, 21) as u16,
                    width: n16(pcs, 23) as u16,
                    height: n16(pcs, 25) as u16,
                },
            )
        } else {
            None
        },
    }
}

spec fn composition(time: u64, pcs: Seq<u8>) -> CompositionView {
    CompositionView {
        time,
        width: n16(pcs, 0) as u16,
        height: n16(pcs, 2) as u16,
        rate: pcs[4],
        number: n16(pcs, 5) as u16,
        state: pcs[7],
        palette: pcs[9],
        update: false,
        objects: seq![composition_object(pcs)],
    }
}

/// The window of a window segment with one.
spec fn window(wds: Seq<u8>) -> Rect {
    Rect {
        x: n16(wds, 2) as u16,
        y: n16(wds, 4) as u16,
        width: n16(wds, 6) as u16,
        height: n16(wds, 8) as u16,
    }
}

proof fn lemma_window(st: PgsView, time: u64, pcs: Seq<u8>, wds: Seq<u8>)
    requires
        st.pending == Some(composition(time, pcs)),
        wds.len() == 10,
        wds[0] == 1,
        st.limits.windows >= 1,
        n16(wds, 6) > 0,
        n16(wds, 8) > 0,
        n16(wds, 2) + n16(wds, 6) <= n16(pcs, 0),
        n16(wds, 4) + n16(wds, 8) <= n16(pcs, 2),
    ensures
        pgs::wds_of(st, wds) == Ok::<PgsView, PgsError>(
            PgsView { windows: seq![(wds[1], window(wds))], ..st },
        ),
{
    reveal_with_fuel(pgs::windows_at, 2);
    assert(Seq::empty().push((wds[1], window(wds))) =~= seq![(wds[1], window(wds))]);
}

/// What the first `n` entries of a palette segment put into its slots.
proof fn lemma_slots(pds: Seq<u8>, n: int)
    requires
        0 <= n,
        2 + 5 * n <= pds.len(),
        forall|i: int, j: int|
            0 <= i < j < n ==> #[trigger] pds[2 + 5 * i] != #[trigger] pds[2 + 5 * j],
    ensures
        pgs::slots_of(pds, pgs::no_slots(), n).len() == 256,
        forall|j: int|
            0 <= j < n ==> pgs::slots_of(pds, pgs::no_slots(), n)[#[trigger] pds[2 + 5 * j] as int]
                == Some([pds[3 + 5 * j], pds[4 + 5 * j], pds[5 + 5 * j], pds[6 + 5 * j]]),
        forall|v: u8|
            (forall|j: int| 0 <= j < n ==> #[trigger] pds[2 + 5 * j] != v)
                ==> #[trigger] pgs::slots_of(pds, pgs::no_slots(), n)[v as int] is None,
    decreases n,
{
    if n > 0 {
        lemma_slots(pds, n - 1);
        let before = pgs::slots_of(pds, pgs::no_slots(), n - 1);
        let after = pgs::slots_of(pds, pgs::no_slots(), n);
        let at = 2 + 5 * (n - 1);
        assert(after == before.update(
            pds[at] as int,
            Some([pds[at + 1], pds[at + 2], pds[at + 3], pds[at + 4]]),
        ));
        assert forall|v: u8|
            (forall|j: int| 0 <= j < n ==> #[trigger] pds[2 + 5 * j] != v) implies (
        #[trigger] after[v as int]) is None by {
            assert(pds[2 + 5 * (n - 1)] != v);
            assert(before[v as int] is None);
        }
        assert forall|j: int| 0 <= j < n implies after[#[trigger] pds[2 + 5 * j] as int] == Some(
            [pds[3 + 5 * j], pds[4 + 5 * j], pds[5 + 5 * j], pds[6 + 5 * j]],
        ) by {
            if j < n - 1 {
                assert(pds[2 + 5 * j] != pds[2 + 5 * (n - 1)]);
            }
        }
    }
}

proof fn lemma_palette(st: PgsView, pds: Seq<u8>)
    requires
        st.palettes.len() == 0,
        st.limits.palettes >= 1,
        pds.len() >= 2,
        (pds.len() - 2) % 5 == 0,
        forall|i: int, j: int|
            0 <= i < j < entries(pds) ==> #[trigger] pds[2 + 5 * i] != #[trigger] pds[2 + 5 * j],
    ensures
        pgs::pds_of(st, pds) == Ok::<PgsView, PgsError>(
            PgsView {
                palettes: seq![
                    PaletteView {
                        id: pds[0],
                        entries: pgs::slots_of(pds, pgs::no_slots(), entries(pds)),
                    },
                ],
                ..st
            },
        ),
{
    let e = PaletteView {
        id: pds[0],
        entries: pgs::slots_of(pds, pgs::no_slots(), entries(pds)),
    };
    let ps = st.palettes.push(PaletteView { id: pds[0], entries: pgs::no_slots() });
    assert(ps.update(0, e) =~= seq![e]);
}

proof fn lemma_object(st: PgsView, ods: Seq<u8>, rows: Seq<Seq<Run>>)
    requires
        st.objects.len() == 0,
        st.fragments.len() == 0,
        st.limits.objects >= 1,
        11 <= ods.len(),
        ods[3] == 0xC0,
        ods[4] * 65536 + n16(ods, 5) == ods.len() - 7,
        ods.len() - 11 <= st.limits.object_bytes,
        ods.len() - 11 + n16(ods, 7) * n16(ods, 9) <= st.limits.object_state_bytes,
        allowed(st.limits, n16(ods, 7), n16(ods, 9)),
        ods.skip(11) == rows_bytes(rows),
        rows.len() == n16(ods, 9),
        even(rows, n16(ods, 7)),
    ensures
        pgs::ods_of(st, ods) == Ok::<PgsView, PgsError>(
            PgsView {
                objects: seq![
                    ObjectView {
                        id: n16(ods, 0) as u16,
                        width: n16(ods, 7) as u16,
                        height: n16(ods, 9) as u16,
                        pixels: all_pixels(rows),
                    },
                ],
                ..st
            },
        ),
{
    reveal_with_fuel(pgs::object_total, 2);
    reveal_with_fuel(pgs::fragment_total, 2);
    reveal_with_fuel(pgs::coming, 2);
    assert(0 <= n16(ods, 7) * n16(ods, 9)) by (nonlinear_arith)
        requires
            n16(ods, 7) >= 0,
            n16(ods, 9) >= 0,
    ;
    let w = n16(ods, 7) as u16;
    let h = n16(ods, 9) as u16;
    law_runs_read_back(rows, w, h);
    let f = FragmentView {
        id: n16(ods, 0) as u16,
        version: ods[2],
        width: w,
        height: h,
        expected: ods.len() - 11,
        data: Seq::empty(),
    };
    let fs = st.fragments.push(f);
    assert(fs.drop_last() =~= st.fragments);
    assert(pgs::opened(st, ods) == Ok::<Seq<FragmentView>, PgsError>(fs));
    assert(Seq::<u8>::empty() + ods.skip(11) =~= ods.skip(11));
    assert(fs.remove(0) =~= st.fragments);
    let o = ObjectView { id: f.id, width: w, height: h, pixels: all_pixels(rows) };
    assert(st.objects.push(o) =~= seq![o]);
}

/// A colour over nothing stays what it is, unless nothing of it can be seen.
proof fn lemma_over_nothing(c: Rgba)
    ensures
        raster::over_of(raster::clear(), c) == if c.a == 0 {
            raster::clear()
        } else {
            c
        },
{
    let d = raster::clear();
    assert(d.a * (255 - c.a) == 0);
    if c.a > 0 {
        let alpha = c.a * 255;
        lemma_blend_nothing(c.r, c.a);
        lemma_blend_nothing(c.g, c.a);
        lemma_blend_nothing(c.b, c.a);
        assert((alpha + 127) / 255 == c.a);
    }
}

proof fn lemma_blend_nothing(s: u8, sa: u8)
    requires
        sa > 0,
    ensures
        raster::blend(s, sa, 0, 0) == s,
{
    let alpha = sa * 255;
    let n = s * sa * 255 + alpha / 2;
    assert((0u8 * 0u8) * (255 - sa) == 0) by (nonlinear_arith);
    assert(s * sa * 255 == s * alpha) by (nonlinear_arith)
        requires
            alpha == sa * 255,
    ;
    assert(n / alpha == s) by (nonlinear_arith)
        requires
            n == s * alpha + alpha / 2,
            alpha > 0,
    ;
}

/// The pixel that a palette slot gives.
proof fn lemma_shown(slots: Seq<Option<[u8; 4]>>, v: u8, rgba: Seq<u8>, o: int)
    requires
        ({
            let c = raster::over_of(raster::clear(), paint::color_of(slots, v));
            rgba[o] == c.r && rgba[o + 1] == c.g && rgba[o + 2] == c.b && rgba[o + 3] == c.a
        }),
    ensures
        slots[v as int] is None ==> shows(rgba, o, 0, 0, 0, 0),
        slots[v as int] matches Some(e) ==> shows(
            rgba,
            o,
            e[0],
            e[1],
            e[2],
            if v == 255 {
                0
            } else {
                e[3]
            },
        ),
{
    lemma_over_nothing(paint::color_of(slots, v));
}

/// The bytes of the pixel in row `r` and column `c` of an image.
pub(crate) proof fn lemma_pixel(
    ps: Seq<PlacementView>,
    slots: Seq<Option<[u8; 4]>>,
    rect: Rect,
    r: int,
    c: int,
)
    requires
        0 <= r < rect.height,
        0 <= c < rect.width,
    ensures
        ({
            let b = paint::image_bytes(ps, slots, rect);
            let o = (r * rect.width + c) * 4;
            let p = paint::painted(ps, slots, rect.x + c, rect.y + r);
            &&& 0 <= o
            &&& o + 4 <= b.len()
            &&& b[o] == p.r && b[o + 1] == p.g && b[o + 2] == p.b && b[o + 3] == p.a
        }),
{
    let w = rect.width as int;
    let k = r * w + c;
    assert(0 <= k < w * rect.height) by (nonlinear_arith)
        requires
            0 <= r < rect.height,
            0 <= c < w,
            k == r * w + c,
    ;
    assert(k / w == r && k % w == c) by {
        vstd::arithmetic::div_mod::lemma_fundamental_div_mod_converse(k, w, r, c);
    }
    let o = k * 4;
    assert((o + 1) / 4 == k && (o + 2) / 4 == k && (o + 3) / 4 == k && o / 4 == k);
}

/// What is shown of an object in the state that such segments leave.
#[verifier::spinoff_prover]
proof fn lemma_rendered(
    st: PgsView,
    time: u64,
    pcs: Seq<u8>,
    wds: Seq<u8>,
    pds: Seq<u8>,
    ods: Seq<u8>,
    rows: Seq<Seq<Run>>,
)
    requires
        one_picture(pcs, wds, pds, ods, rows),
        st.objects == seq![
            ObjectView {
                id: n16(ods, 0) as u16,
                width: n16(ods, 7) as u16,
                height: n16(ods, 9) as u16,
                pixels: all_pixels(rows),
            },
        ],
        st.windows == seq![(wds[1], window(wds))],
        st.palettes == seq![
            PaletteView {
                id: pds[0],
                entries: pgs::slots_of(pds, pgs::no_slots(), entries(pds)),
            },
        ],
        ({
            let part = shown_part(pcs, ods);
            &&& allowed(st.limits, part.width as int, part.height as int)
            &&& st.rendered_pixels + part.width * part.height <= st.limits.total_render_pixels
            &&& pgs::shown_bytes(st.last) + part.width * part.height * 4 <= st.limits.raster_bytes
        }),
    ensures
        pgs::rendered(st, composition(time, pcs)) matches Ok((image, _)) && pictured(
            image,
            pcs,
            pds,
            ods,
            rows,
        ),
{
    let c = composition(time, pcs);
    let o = composition_object(pcs);
    let part = shown_part(pcs, ods);
    let object = st.objects[0];
    let dest = Rect { x: o.x, y: o.y, width: part.width, height: part.height };
    let p = PlacementView { object, crop: part, dest, clip: dest };
    let slots = st.palettes[0].entries;
    let ps = seq![p];
    assert(pgs::first_where(st.objects, pgs::object_is(o.object_id), 0) == Some(0int));
    assert(pgs::first_where(st.windows, pgs::window_is(o.window_id), 0) == Some(0int));
    assert(pgs::first_where(st.palettes, pgs::palette_is(c.palette), 0) == Some(0int));
    assert(raster::common(dest, window(wds)) == Some(dest));
    assert(pgs::placed(st, c.objects[0]) == Ok::<Option<PlacementView>, PgsError>(Some(p)));
    reveal_with_fuel(pgs::placements, 2);
    assert(Seq::empty().push(p) =~= ps);
    assert(pgs::placements(st, c.objects, 1) == Ok::<Seq<PlacementView>, PgsError>(ps));
    reveal_with_fuel(pgs::frame_of, 2);
    assert(ps.drop_last() =~= Seq::empty());
    assert(pgs::frame_of(ps) == Some(dest));
    let b = paint::image_bytes(ps, slots, dest);
    let image = pgs::rendered(st, c)->Ok_0.0;
    lemma_slots(pds, entries(pds));
    assert forall|r: int, k: int| 0 <= r < part.height && 0 <= k < part.width implies #[trigger] pixel_shown(
        b,
        pcs,
        pds,
        ods,
        rows,
        r,
        k,
    ) by {
        lemma_pixel(ps, slots, dest, r, k);
        let v = p.index_at(dest.x + k, dest.y + r);
        law_rows_lie_below_each_other(rows, n16(ods, 7), part.y + r, part.x + k);
        assert(v == row_pixels(rows[part.y + r])[part.x + k]);
        reveal_with_fuel(paint::painted, 2);
        assert(dest.holds(dest.x + k, dest.y + r));
        assert(paint::painted(ps, slots, dest.x + k, dest.y + r) == raster::over_of(
            raster::clear(),
            paint::color_of(slots, v),
        ));
        lemma_shown(slots, v, b, (r * part.width + k) * 4);
        assert forall|j: int| 0 <= j < entries(pds) && #[trigger] pds[2 + 5 * j] == v implies shows(
            b,
            (r * part.width + k) * 4,
            pds[3 + 5 * j],
            pds[4 + 5 * j],
            pds[5 + 5 * j],
            if v == 255 {
                0
            } else {
                pds[6 + 5 * j]
            },
        ) by {
            assert(slots[pds[2 + 5 * j] as int] == Some(
                [pds[3 + 5 * j], pds[4 + 5 * j], pds[5 + 5 * j], pds[6 + 5 * j]],
            ));
        }
    }
    if image is None {
        assert forall|r: int, k: int| 0 <= r < part.height && 0 <= k < part.width implies b[#[trigger] byte_of(
            part,
            r,
            k,
        ) + 3] == 0 by {
            lemma_pixel(ps, slots, dest, r, k);
            let i = r * part.width + k;
            assert(b[4 * i + 3] == 0);
        }
    } else {
        let i = choose|i: int| 0 <= i < b.len() / 4 && #[trigger] b[4 * i + 3] != 0;
        assert(0 <= i < b.len() / 4 && b[4 * i + 3] != 0);
    }
    assert(b.len() == part.width * part.height * 4) by {
        assert(dest.width * dest.height * 4 >= 0) by (nonlinear_arith);
    }
    assert(pixels_shown(b, pcs, pds, ods, rows));
}

/// Where the bytes of a pixel start.
pub open spec fn byte_of(part: Rect, r: int, c: int) -> int {
    (r * part.width + c) * 4
}

/// The pixel in row `r` and column `c` of an image shows the palette entry of the index in
/// row `r` and column `c` of what is shown of the object. The last index is transparent,
/// and so are those without an entry.
pub open spec fn pixel_shown(
    rgba: Seq<u8>,
    pcs: Seq<u8>,
    pds: Seq<u8>,
    ods: Seq<u8>,
    rows: Seq<Seq<Run>>,
    r: int,
    c: int,
) -> bool {
    let part = shown_part(pcs, ods);
    let v = row_pixels(rows[part.y + r])[part.x + c];
    let o = (r * part.width + c) * 4;
    &&& forall|j: int|
        0 <= j < entries(pds) && #[trigger] pds[2 + 5 * j] == v ==> shows(
            rgba,
            o,
            pds[3 + 5 * j],
            pds[4 + 5 * j],
            pds[5 + 5 * j],
            if v == 255 {
                0
            } else {
                pds[6 + 5 * j]
            },
        )
    &&& (forall|j: int| 0 <= j < entries(pds) ==> #[trigger] pds[2 + 5 * j] != v) ==> shows(
        rgba,
        o,
        0,
        0,
        0,
        0,
    )
}

/// All pixels of an image are right.
pub open spec fn pixels_shown(
    rgba: Seq<u8>,
    pcs: Seq<u8>,
    pds: Seq<u8>,
    ods: Seq<u8>,
    rows: Seq<Seq<Run>>,
) -> bool {
    let part = shown_part(pcs, ods);
    &&& rgba.len() == part.width * part.height * 4
    &&& forall|r: int, c: int|
        0 <= r < part.height && 0 <= c < part.width ==> #[trigger] pixel_shown(
            rgba,
            pcs,
            pds,
            ods,
            rows,
            r,
            c,
        )
}

/// The image of such a display set: it lies where the composition puts the object, and it
/// is left out only if it would be transparent all over.
pub open spec fn pictured(
    image: Option<ImageView>,
    pcs: Seq<u8>,
    pds: Seq<u8>,
    ods: Seq<u8>,
    rows: Seq<Seq<Run>>,
) -> bool {
    let part = shown_part(pcs, ods);
    match image {
        Some(i) => {
            &&& i.rect.x == n16(pcs, 15)
            &&& i.rect.y == n16(pcs, 17)
            &&& i.rect.width == part.width
            &&& i.rect.height == part.height
            &&& pixels_shown(i.rgba, pcs, pds, ods, rows)
            &&& exists|k: int| 0 <= k < part.width * part.height && #[trigger] i.rgba[4 * k + 3] != 0
        },
        None => exists|rgba: Seq<u8>| #[trigger]
            pixels_shown(rgba, pcs, pds, ods, rows) && forall|r: int, c: int|
                0 <= r < part.height && 0 <= c < part.width ==> rgba[#[trigger] byte_of(
                    part,
                    r,
                    c,
                ) + 3] == 0,
    }
}

/// Whether a segment leads from one state to another. It only hides what segments do.
#[verifier::opaque]
spec fn leads(st: PgsView, time: u64, kind: u8, b: Seq<u8>, n: PgsView) -> bool {
    pgs::taken(st, time, kind, b) == Ok::<PgsView, PgsError>(n)
}

/// Five segments that can be taken one after the other.
#[verifier::spinoff_prover]
proof fn lemma_five(
    st: PgsView,
    time: u64,
    set: Seq<(u8, Seq<u8>)>,
    m1: PgsView,
    m2: PgsView,
    m3: PgsView,
    m4: PgsView,
    m5: PgsView,
)
    requires
        set.len() == 5,
        leads(st, time, set[0].0, set[0].1, m1),
        leads(m1, time, set[1].0, set[1].1, m2),
        leads(m2, time, set[2].0, set[2].1, m3),
        leads(m3, time, set[3].0, set[3].1, m4),
        leads(m4, time, set[4].0, set[4].1, m5),
    ensures
        state::segments(st, time, set) == Ok::<PgsView, PgsError>(m5),
        state::shown_by(st, time, set) == m5.shown,
{
    let t1 = set.skip(1);
    let t2 = t1.skip(1);
    let t3 = t2.skip(1);
    let t4 = t3.skip(1);
    lemma_lead(st, time, set, m1);
    lemma_lead(m1, time, t1, m2);
    lemma_lead(m2, time, t2, m3);
    lemma_lead(m3, time, t3, m4);
    lemma_lead(m4, time, t4, m5);
    assert(t4.skip(1).len() == 0);
}

proof fn lemma_lead(st: PgsView, time: u64, set: Seq<(u8, Seq<u8>)>, n: PgsView)
    requires
        set.len() > 0,
        leads(st, time, set[0].0, set[0].1, n),
    ensures
        state::segments(st, time, set) == state::segments(n, time, set.skip(1)),
        state::shown_by(st, time, set) == state::shown_by(n, time, set.skip(1)),
{
    reveal(leads);
    state::lemma_first_segment(st, time, set);
}

/// What the first four segments of such a display set leave.
#[verifier::spinoff_prover]
proof fn lemma_four(
    a: PgsView,
    time: u64,
    pcs: Seq<u8>,
    wds: Seq<u8>,
    pds: Seq<u8>,
    ods: Seq<u8>,
    rows: Seq<Seq<Run>>,
) -> (ms: (PgsView, PgsView, PgsView, PgsView))
    requires
        one_picture(pcs, wds, pds, ods, rows),
        has_room(a, pcs, wds, pds, ods),
    ensures
        leads(a, time, 0x16, pcs, ms.0),
        leads(ms.0, time, 0x17, wds, ms.1),
        leads(ms.1, time, 0x14, pds, ms.2),
        leads(ms.2, time, 0x15, ods, ms.3),
        ms.3 == (PgsView {
            set_bytes: a.set_bytes + pcs.len() + wds.len() + pds.len() + ods.len() + 12,
            set_segments: a.set_segments + 4,
            fragments: Seq::empty(),
            objects: seq![
                ObjectView {
                    id: n16(ods, 0) as u16,
                    width: n16(ods, 7) as u16,
                    height: n16(ods, 9) as u16,
                    pixels: all_pixels(rows),
                },
            ],
            windows: seq![(wds[1], window(wds))],
            palettes: seq![
                PaletteView {
                    id: pds[0],
                    entries: pgs::slots_of(pds, pgs::no_slots(), entries(pds)),
                },
            ],
            pending: Some(composition(time, pcs)),
            ..a
        }),
{
    reveal(leads);
    lemma_composition(a, time, pcs, wds, pds, ods, rows);
    let m1 = pgs::taken(a, time, 0x16, pcs)->Ok_0;
    let s1 = PgsView {
        set_bytes: m1.set_bytes + wds.len() + 3,
        set_segments: m1.set_segments + 1,
        ..m1
    };
    lemma_window(s1, time, pcs, wds);
    let m2 = PgsView { windows: seq![(wds[1], window(wds))], ..s1 };
    assert(pgs::taken(m1, time, 0x17, wds) == Ok::<PgsView, PgsError>(m2));
    let s2 = PgsView {
        set_bytes: m2.set_bytes + pds.len() + 3,
        set_segments: m2.set_segments + 1,
        ..m2
    };
    lemma_palette(s2, pds);
    let m3 = pgs::pds_of(s2, pds)->Ok_0;
    assert(pgs::taken(m2, time, 0x14, pds) == Ok::<PgsView, PgsError>(m3));
    let s3 = PgsView {
        set_bytes: m3.set_bytes + ods.len() + 3,
        set_segments: m3.set_segments + 1,
        ..m3
    };
    lemma_object(s3, ods, rows);
    let m4 = pgs::ods_of(s3, ods)->Ok_0;
    assert(pgs::taken(m3, time, 0x15, ods) == Ok::<PgsView, PgsError>(m4));
    (m1, m2, m3, m4)
}

/// What the end of a display set shows.
proof fn lemma_commit(st: PgsView, c: CompositionView) -> (n: PgsView)
    requires
        st.pending == Some(c),
        st.fragments.len() == 0,
        st.displays + 1 <= st.limits.displays,
        st.set_bytes + 3 <= st.limits.display_set_bytes,
        st.set_segments + 1 <= st.limits.segments_per_display,
        pgs::rendered(
            PgsView { set_bytes: st.set_bytes + 3, set_segments: st.set_segments + 1, ..st },
            c,
        ) is Ok,
    ensures
        pgs::taken(st, c.time, 0x80, Seq::empty()) == Ok::<PgsView, PgsError>(n),
        n.shown == st.shown.push(
            pgs::display_of(
                st,
                c,
                pgs::rendered(
                    PgsView {
                        set_bytes: st.set_bytes + 3,
                        set_segments: st.set_segments + 1,
                        ..st
                    },
                    c,
                )->Ok_0.0,
            ),
        ),
{
    pgs::taken(st, c.time, 0x80, Seq::empty())->Ok_0
}

/// The display of such a display set, behind `last`: at the time of its packet, with what
/// its composition says, and with its picture.
pub open spec fn displayed(
    d: DisplayView,
    last: Option<DisplayView>,
    time: u64,
    pcs: Seq<u8>,
    pds: Seq<u8>,
    ods: Seq<u8>,
    rows: Seq<Seq<Run>>,
) -> bool {
    &&& d.timestamp_ns == time
    &&& d.previous_timestamp_ns == match last {
        Some(before) => Some(before.timestamp_ns),
        None => None,
    }
    &&& d.canvas_width == n16(pcs, 0)
    &&& d.canvas_height == n16(pcs, 2)
    &&& d.frame_rate_code == pcs[4]
    &&& d.composition_number == n16(pcs, 5)
    &&& d.composition_state == pcs[7]
    &&& d.palette_id == pcs[9]
    &&& !d.palette_update
    &&& d.objects.len() == 1
    &&& d.objects[0].object_id == n16(pcs, 11)
    &&& d.objects[0].window_id == pcs[13]
    &&& d.objects[0].forced == (pcs[14] / 64 % 2 == 1)
    &&& d.objects[0].x == n16(pcs, 15)
    &&& d.objects[0].y == n16(pcs, 17)
    &&& d.objects[0].crop is Some <==> pcs[14] >= 0x80
    &&& d.objects[0].crop matches Some(c) ==> c == shown_part(pcs, ods)
    &&& pictured(d.image, pcs, pds, ods, rows)
}

proof fn lemma_displayed(
    st: PgsView,
    image: Option<ImageView>,
    time: u64,
    pcs: Seq<u8>,
    pds: Seq<u8>,
    ods: Seq<u8>,
    rows: Seq<Seq<Run>>,
)
    requires
        pcs[14] % 64 == 0,
        pictured(image, pcs, pds, ods, rows),
    ensures
        displayed(
            pgs::display_of(st, composition(time, pcs), image),
            st.last,
            time,
            pcs,
            pds,
            ods,
            rows,
        ),
{
}

/// The end of such a display set.
proof fn lemma_end(
    a: PgsView,
    m4: PgsView,
    time: u64,
    pcs: Seq<u8>,
    wds: Seq<u8>,
    pds: Seq<u8>,
    ods: Seq<u8>,
    rows: Seq<Seq<Run>>,
) -> (m5: PgsView)
    requires
        one_picture(pcs, wds, pds, ods, rows),
        has_room(a, pcs, wds, pds, ods),
        m4 == (PgsView {
            set_bytes: a.set_bytes + pcs.len() + wds.len() + pds.len() + ods.len() + 12,
            set_segments: a.set_segments + 4,
            fragments: Seq::empty(),
            objects: seq![
                ObjectView {
                    id: n16(ods, 0) as u16,
                    width: n16(ods, 7) as u16,
                    height: n16(ods, 9) as u16,
                    pixels: all_pixels(rows),
                },
            ],
            windows: seq![(wds[1], window(wds))],
            palettes: seq![
                PaletteView {
                    id: pds[0],
                    entries: pgs::slots_of(pds, pgs::no_slots(), entries(pds)),
                },
            ],
            pending: Some(composition(time, pcs)),
            ..a
        }),
    ensures
        leads(m4, time, 0x80, Seq::empty(), m5),
        m5.shown.len() == a.shown.len() + 1,
        m5.shown.drop_last() == a.shown,
        displayed(m5.shown.last(), a.last, time, pcs, pds, ods, rows),
{
    let s4 = PgsView {
        set_bytes: m4.set_bytes + 3,
        set_segments: m4.set_segments + 1,
        ..m4
    };
    lemma_rendered(s4, time, pcs, wds, pds, ods, rows);
    let image = pgs::rendered(s4, composition(time, pcs))->Ok_0.0;
    lemma_displayed(m4, image, time, pcs, pds, ods, rows);
    let m5 = lemma_commit(m4, composition(time, pcs));
    assert(m5.shown.drop_last() =~= a.shown);
    reveal(leads);
    m5
}

proof fn lemma_picture_writable(
    pcs: Seq<u8>,
    wds: Seq<u8>,
    pds: Seq<u8>,
    ods: Seq<u8>,
)
    requires
        pcs.len() <= 0xFFFF,
        wds.len() <= 0xFFFF,
        pds.len() <= 0xFFFF,
        ods.len() <= 0xFFFF,
    ensures
        state::writable(picture_set(pcs, wds, pds, ods)),
{
}

proof fn lemma_room(
    a: PgsView,
    st: PgsView,
    time: u64,
    packet: Seq<u8>,
    pcs: Seq<u8>,
    wds: Seq<u8>,
    pds: Seq<u8>,
    ods: Seq<u8>,
)
    requires
        has_room(st, pcs, wds, pds, ods),
        pgs::admitted(st, time, packet) == Ok::<PgsView, PgsError>(a),
    ensures
        has_room(a, pcs, wds, pds, ods),
        a.shown == st.shown,
        a.last == st.last,
{
}

proof fn lemma_lengths(pcs: Seq<u8>, wds: Seq<u8>, pds: Seq<u8>, ods: Seq<u8>, rows: Seq<Seq<Run>>)
    requires
        one_picture(pcs, wds, pds, ods, rows),
    ensures
        pcs.len() <= 27,
        wds.len() == 10,
        ods.len() <= 0xFFFF,
{
}

#[verifier::spinoff_prover]
proof fn lemma_picture_run(
    a: PgsView,
    time: u64,
    pcs: Seq<u8>,
    wds: Seq<u8>,
    pds: Seq<u8>,
    ods: Seq<u8>,
    rows: Seq<Seq<Run>>,
) -> (m5: PgsView)
    requires
        one_picture(pcs, wds, pds, ods, rows),
        has_room(a, pcs, wds, pds, ods),
    ensures
        state::segments(a, time, picture_set(pcs, wds, pds, ods)) == Ok::<PgsView, PgsError>(m5),
        state::shown_by(a, time, picture_set(pcs, wds, pds, ods)) == m5.shown,
        m5.shown.len() == a.shown.len() + 1,
        m5.shown.drop_last() == a.shown,
        displayed(m5.shown.last(), a.last, time, pcs, pds, ods, rows),
{
    let (m1, m2, m3, m4) = lemma_four(a, time, pcs, wds, pds, ods, rows);
    let m5 = lemma_end(a, m4, time, pcs, wds, pds, ods, rows);
    lemma_five(a, time, picture_set(pcs, wds, pds, ods), m1, m2, m3, m4, m5);
    m5
}

/// A display set with one object, in one packet, shows that object: its rows run from top
/// to bottom and its columns from left to right, in the colours of its palette, at the
/// place and the time that it says.
#[verifier::spinoff_prover]
pub proof fn law_picture_is_shown(
    st: PgsView,
    time: u64,
    pcs: Seq<u8>,
    wds: Seq<u8>,
    pds: Seq<u8>,
    ods: Seq<u8>,
    rows: Seq<Seq<Run>>,
)
    requires
        one_picture(pcs, wds, pds, ods, rows),
        has_room(st, pcs, wds, pds, ods),
        pds.len() <= 0xFFFF,
        pgs::admitted(st, time, state::packet_of(picture_set(pcs, wds, pds, ods))) is Ok,
    ensures
        ({
            let (shown, r) = pgs::pushed(
                st,
                time,
                state::packet_of(picture_set(pcs, wds, pds, ods)),
            );
            &&& r is Ok
            &&& shown.len() == st.shown.len() + 1
            &&& shown.drop_last() == st.shown
            &&& displayed(shown.last(), st.last, time, pcs, pds, ods, rows)
        }),
{
    let set = picture_set(pcs, wds, pds, ods);
    let packet = state::packet_of(set);
    let a = pgs::admitted(st, time, packet)->Ok_0;
    lemma_lengths(pcs, wds, pds, ods, rows);
    lemma_picture_writable(pcs, wds, pds, ods);
    state::law_packet_is_its_segments(st, time, set);
    lemma_room(a, st, time, packet, pcs, wds, pds, ods);
    let m5 = lemma_picture_run(a, time, pcs, wds, pds, ods, rows);
}

} // verus!
