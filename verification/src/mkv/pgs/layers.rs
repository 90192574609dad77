//! How objects lie over each other in a picture, and which part of the canvas it takes.

use crate::mkv::pgs;
use crate::mkv::pgs::paint;
use crate::mkv::pgs::paint::PlacementView;
use crate::mkv::pgs::raster;
use crate::mkv::pgs::raster::{Rect, Rgba};
use crate::mkv::pgs::wire::nearest;
use crate::mkv::pgs::{CompositionObject, CompositionView, PgsError, PgsView};
use vstd::prelude::*;

verus! {

/// The place in an object of what it shows at column `x` and row `y` of the canvas: as far
/// from the corner of the part that is shown as `x` and `y` are from where that goes.
pub open spec fn place_in(p: PlacementView, x: int, y: int) -> int {
    let row = p.crop.y + (y - p.dest.y);
    let col = p.crop.x + (x - p.dest.x);
    row * p.object.width + col
}

/// A pixel has the colour of an opaque palette entry: luma, Cr and Cb in studio-range BT.709
/// become red, green and blue.
pub open spec fn coloured(c: Rgba, e: [u8; 4]) -> bool {
    let l = 298 * (e[0] - 16);
    &&& nearest(c.r, l + 459 * (e[1] - 128))
    &&& nearest(c.g, l - 137 * (e[1] - 128) - 55 * (e[2] - 128))
    &&& nearest(c.b, l + 541 * (e[2] - 128))
    &&& c.a == e[3]
}

/// An object shows nothing at a place of the canvas: the place lies outside, or the palette
/// has no colour for it there, or a transparent one. The last index is always transparent.
pub open spec fn see_through(
    p: PlacementView,
    entries: Seq<Option<[u8; 4]>>,
    x: int,
    y: int,
) -> bool {
    let i = p.object.pixels[place_in(p, x, y)];
    ||| !(p.clip.x <= x < p.clip.x + p.clip.width && p.clip.y <= y < p.clip.y + p.clip.height)
    ||| i == 255
    ||| entries[i as int] is None
    ||| entries[i as int]->0[3] == 0
}

/// A see-through object leaves what is opaque, and what is empty.
proof fn lemma_see_through(
    under: Rgba,
    p: PlacementView,
    entries: Seq<Option<[u8; 4]>>,
    x: int,
    y: int,
)
    requires
        see_through(p, entries, x, y),
        under.a == 255 || under == raster::clear(),
    ensures
        paint::layered(under, p, entries, x, y) == under,
{
    let c = paint::color_of(entries, p.index_at(x, y));
    if p.clip.holds(x, y) {
        assert(c.a == 0);
        raster::law_over(under, c);
    }
}

/// Where all objects but one are see-through or below it, that one is seen, if it is opaque.
pub proof fn law_topmost_is_seen(
    ps: Seq<PlacementView>,
    entries: Seq<Option<[u8; 4]>>,
    x: int,
    y: int,
    k: int,
    e: [u8; 4],
)
    requires
        0 <= k < ps.len(),
        ps[k].clip.x <= x < ps[k].clip.x + ps[k].clip.width,
        ps[k].clip.y <= y < ps[k].clip.y + ps[k].clip.height,
        ps[k].object.pixels[place_in(ps[k], x, y)] != 255,
        entries[ps[k].object.pixels[place_in(ps[k], x, y)] as int] == Some(e),
        e[3] == 255,
        forall|j: int| k < j < ps.len() ==> see_through(#[trigger] ps[j], entries, x, y),
    ensures
        coloured(paint::painted(ps, entries, x, y), e),
        paint::painted(ps, entries, x, y).a == 255,
    decreases ps.len(),
{
    let before = ps.drop_last();
    let under = paint::painted(before, entries, x, y);
    if k == ps.len() - 1 {
        let c = paint::color_of(entries, ps[k].index_at(x, y));
        assert(ps.last() == ps[k]);
        assert(c.a == 255);
        raster::law_over(under, c);
        assert(paint::painted(ps, entries, x, y) == c);
    } else {
        assert forall|j: int| k < j < before.len() implies see_through(
            #[trigger] before[j],
            entries,
            x,
            y,
        ) by {
            assert(before[j] == ps[j]);
        }
        assert(before[k] == ps[k]);
        law_topmost_is_seen(before, entries, x, y, k, e);
        assert(ps.last() == ps[ps.len() - 1]);
        lemma_see_through(under, ps.last(), entries, x, y);
    }
}

/// Where all objects are see-through, nothing is seen.
pub proof fn law_nothing_is_seen(
    ps: Seq<PlacementView>,
    entries: Seq<Option<[u8; 4]>>,
    x: int,
    y: int,
)
    requires
        forall|j: int| 0 <= j < ps.len() ==> see_through(#[trigger] ps[j], entries, x, y),
    ensures
        paint::painted(ps, entries, x, y) == (Rgba { r: 0, g: 0, b: 0, a: 0 }),
    decreases ps.len(),
{
    if ps.len() > 0 {
        let before = ps.drop_last();
        assert forall|j: int| 0 <= j < before.len() implies see_through(
            #[trigger] before[j],
            entries,
            x,
            y,
        ) by {
            assert(before[j] == ps[j]);
        }
        law_nothing_is_seen(before, entries, x, y);
        assert(ps.last() == ps[ps.len() - 1]);
        lemma_see_through(
            paint::painted(before, entries, x, y),
            ps.last(),
            entries,
            x,
            y,
        );
    }
}

/// `v` is the whole number nearest to `n / d`.
pub open spec fn rounded(v: int, n: int, d: int) -> bool {
    -d <= 2 * (v * d - n) <= d
}

proof fn lemma_rounded(n: int, d: int)
    requires
        d > 0,
    ensures
        rounded((n + d / 2) / d, n, d),
{
    let v = (n + d / 2) / d;
    assert(v * d <= n + d / 2 < v * d + d) by (nonlinear_arith)
        requires
            d > 0,
            v == (n + d / 2) / d,
    ;
}

proof fn lemma_mixed(s: u8, sa: u8, d: u8, da: u8)
    requires
        sa * 255 + da * (255 - sa) > 0,
    ensures
        0 <= raster::blend(s, sa, d, da) <= 255,
        rounded(
            raster::blend(s, sa, d, da),
            s * (sa * 255) + d * (da * (255 - sa)),
            sa * 255 + da * (255 - sa),
        ),
{
    let p = sa * 255;
    let q = da * (255 - sa);
    let n = s * p + d * q;
    assert(s * sa * 255 == s * p && d * da * (255 - sa) == d * q) by (nonlinear_arith)
        requires
            p == sa * 255,
            q == da * (255 - sa),
    ;
    assert(0 <= n <= 255 * (p + q)) by (nonlinear_arith)
        requires
            n == s * p + d * q,
            0 <= s <= 255,
            0 <= d <= 255,
            p >= 0,
            q >= 0,
    ;
    assert(p >= 0 && q >= 0) by (nonlinear_arith)
        requires
            p == sa * 255,
            q == da * (255 - sa),
            0 <= sa <= 255,
            0 <= da,
    ;
    let a = p + q;
    lemma_rounded(n, a);
    assert(0 <= (n + a / 2) / a <= 255) by (nonlinear_arith)
        requires
            0 <= n <= 255 * a,
            a > 0,
    ;
}

/// A colour over another mixes the two: each counts with its alpha, that below only as far
/// as the one above lets it through. The mix is rounded to the nearest.
pub proof fn law_colours_mix(dst: Rgba, src: Rgba)
    ensures
        ({
            let c = raster::over_of(dst, src);
            let s = src.a * 255;
            let d = dst.a * (255 - src.a);
            &&& rounded(c.a as int, s + d, 255)
            &&& s + d > 0 ==> {
                &&& rounded(c.r as int, src.r * s + dst.r * d, s + d)
                &&& rounded(c.g as int, src.g * s + dst.g * d, s + d)
                &&& rounded(c.b as int, src.b * s + dst.b * d, s + d)
            }
        }),
{
    let s = src.a * 255;
    let d = dst.a * (255 - src.a);
    assert(0 <= s + d <= 255 * 255) by (nonlinear_arith)
        requires
            s == src.a * 255,
            d == dst.a * (255 - src.a),
            0 <= src.a <= 255,
            0 <= dst.a <= 255,
    ;
    if s + d > 0 {
        lemma_mixed(src.r, src.a, dst.r, dst.a);
        lemma_mixed(src.g, src.a, dst.g, dst.a);
        lemma_mixed(src.b, src.a, dst.b, dst.a);
    }
}

/// The image of a picture holds its pixels row by row, four bytes to a pixel.
pub proof fn law_image_is_painted(
    ps: Seq<PlacementView>,
    entries: Seq<Option<[u8; 4]>>,
    rect: Rect,
    row: int,
    col: int,
)
    requires
        0 <= row < rect.height,
        0 <= col < rect.width,
    ensures
        ({
            let b = paint::image_bytes(ps, entries, rect);
            let o = (row * rect.width + col) * 4;
            let p = paint::painted(ps, entries, rect.x + col, rect.y + row);
            &&& b.len() == rect.width * rect.height * 4
            &&& 0 <= o
            &&& o + 4 <= b.len()
            &&& b[o] == p.r
            &&& b[o + 1] == p.g
            &&& b[o + 2] == p.b
            &&& b[o + 3] == p.a
        }),
{
    let w = rect.width as int;
    let h = rect.height as int;
    assert(w * h * 4 >= 0) by (nonlinear_arith)
        requires
            w >= 0,
            h >= 0,
    ;
    pgs::wire::lemma_pixel(ps, entries, rect, row, col);
}

/// The image takes the smallest part of the canvas that all that is shown lies in: each of
/// its four edges is an edge of something.
pub open spec fn tight(r: Rect, ps: Seq<PlacementView>) -> bool {
    &&& forall|i: int|
        0 <= i < ps.len() ==> r.x <= (#[trigger] ps[i]).clip.x && r.y <= ps[i].clip.y
            && ps[i].clip.x + ps[i].clip.width <= r.x + r.width && ps[i].clip.y + ps[i].clip.height
            <= r.y + r.height
    &&& exists|i: int| 0 <= i < ps.len() && (#[trigger] ps[i]).clip.x == r.x
    &&& exists|i: int| 0 <= i < ps.len() && (#[trigger] ps[i]).clip.y == r.y
    &&& exists|i: int|
        0 <= i < ps.len() && (#[trigger] ps[i]).clip.x + ps[i].clip.width == r.x + r.width
    &&& exists|i: int|
        0 <= i < ps.len() && (#[trigger] ps[i]).clip.y + ps[i].clip.height == r.y + r.height
}

/// All that is shown lies on a canvas.
pub open spec fn on_a_canvas(ps: Seq<PlacementView>) -> bool {
    forall|i: int|
        0 <= i < ps.len() ==> (#[trigger] ps[i]).clip.x + ps[i].clip.width <= u16::MAX
            && ps[i].clip.y + ps[i].clip.height <= u16::MAX
}

pub proof fn law_frame_is_tight(ps: Seq<PlacementView>)
    requires
        on_a_canvas(ps),
    ensures
        ps.len() == 0 ==> pgs::frame_of(ps) is None,
        ps.len() > 0 ==> pgs::frame_of(ps) is Some && tight(pgs::frame_of(ps)->0, ps)
            && pgs::frame_of(ps)->0.end_x() <= u16::MAX && pgs::frame_of(ps)->0.end_y() <= u16::MAX,
    decreases ps.len(),
{
    if ps.len() > 0 {
        let before = ps.drop_last();
        assert forall|i: int| 0 <= i < before.len() implies #[trigger] before[i] == ps[i] by {}
        assert(on_a_canvas(before));
        law_frame_is_tight(before);
        let n = ps.len() - 1;
        assert(ps.last() == ps[n]);
        let c = ps[n].clip;
        let r = pgs::frame_of(ps)->0;
        if n == 0 {
            assert(before =~= Seq::empty());
            assert(r == c);
            assert(tight(r, ps)) by {
                assert(ps[0].clip == r);
            }
        } else {
            let q = pgs::frame_of(before)->0;
            raster::law_around(q, c);
            let a = choose|i: int| 0 <= i < before.len() && (#[trigger] before[i]).clip.x == q.x;
            let b = choose|i: int| 0 <= i < before.len() && (#[trigger] before[i]).clip.y == q.y;
            let d = choose|i: int|
                0 <= i < before.len() && (#[trigger] before[i]).clip.x + before[i].clip.width == q.x
                    + q.width;
            let e = choose|i: int|
                0 <= i < before.len() && (#[trigger] before[i]).clip.y + before[i].clip.height
                    == q.y + q.height;
            assert(before[a] == ps[a] && before[b] == ps[b] && before[d] == ps[d] && before[e]
                == ps[e]);
            assert(if q.x <= c.x {
                ps[a].clip.x == r.x
            } else {
                ps[n].clip.x == r.x
            });
            assert(if q.y <= c.y {
                ps[b].clip.y == r.y
            } else {
                ps[n].clip.y == r.y
            });
            assert(if q.end_x() >= c.end_x() {
                ps[d].clip.x + ps[d].clip.width == r.x + r.width
            } else {
                ps[n].clip.x + ps[n].clip.width == r.x + r.width
            });
            assert(if q.end_y() >= c.end_y() {
                ps[e].clip.y + ps[e].clip.height == r.y + r.height
            } else {
                ps[n].clip.y + ps[n].clip.height == r.y + r.height
            });
            assert forall|i: int| 0 <= i < ps.len() implies r.x <= (#[trigger] ps[i]).clip.x && r.y
                <= ps[i].clip.y && ps[i].clip.x + ps[i].clip.width <= r.x + r.width && ps[i].clip.y
                + ps[i].clip.height <= r.y + r.height by {
                if i < n {
                    assert(before[i] == ps[i]);
                }
            }
        }
    }
}

/// The first object with a number, and the first window with one.
pub open spec fn looked_up(st: PgsView, o: CompositionObject, i: int, k: int) -> bool {
    &&& 0 <= i < st.objects.len()
    &&& st.objects[i].id == o.object_id
    &&& forall|j: int| 0 <= j < i ==> (#[trigger] st.objects[j]).id != o.object_id
    &&& 0 <= k < st.windows.len()
    &&& st.windows[k].0 == o.window_id
    &&& forall|j: int| 0 <= j < k ==> (#[trigger] st.windows[j]).0 != o.window_id
}

proof fn lemma_first<T>(s: Seq<T>, p: spec_fn(T) -> bool, from: int, i: int)
    requires
        0 <= from <= i < s.len(),
        p(s[i]),
        forall|j: int| from <= j < i ==> !p(#[trigger] s[j]),
    ensures
        pgs::first_where(s, p, from) == Some(i),
    decreases i - from,
{
    if from < i {
        assert(!p(s[from]));
        lemma_first(s, p, from + 1, i);
    }
}

/// An object goes to where its composition says. Of it, or of the part that the composition
/// says, that is shown which lies in its window, and nothing if nothing does.
pub proof fn law_object_is_placed(st: PgsView, o: CompositionObject, i: int, k: int)
    requires
        looked_up(st, o, i, k),
        st.windows[k].1.end_x() <= u16::MAX,
        st.windows[k].1.end_y() <= u16::MAX,
        pgs::placed(st, o) is Ok,
    ensures
        ({
            let w = st.windows[k].1;
            let width = match o.crop {
                Some(c) => c.width,
                None => st.objects[i].width,
            };
            let height = match o.crop {
                Some(c) => c.height,
                None => st.objects[i].height,
            };
            match pgs::placed(st, o)->Ok_0 {
                Some(p) => {
                    &&& p.object == st.objects[i]
                    &&& p.dest == (Rect { x: o.x, y: o.y, width, height })
                    &&& match o.crop {
                        Some(c) => p.crop == c,
                        None => p.crop == (Rect { x: 0, y: 0, width, height }),
                    }
                    &&& forall|x: int, y: int|
                        #[trigger] p.clip.holds(x, y) <==> w.x <= x < w.x + w.width && w.y <= y
                            < w.y + w.height && o.x <= x < o.x + width && o.y <= y < o.y + height
                },
                None => forall|x: int, y: int|
                    #[trigger] w.holds(x, y) ==> !(o.x <= x < o.x + width && o.y <= y < o.y
                        + height),
            }
        }),
{
    lemma_first(st.objects, pgs::object_is(o.object_id), 0, i);
    lemma_first(st.windows, pgs::window_is(o.window_id), 0, k);
    let crop = match o.crop {
        Some(c) => c,
        None => Rect { x: 0, y: 0, width: st.objects[i].width, height: st.objects[i].height },
    };
    let dest = Rect { x: o.x, y: o.y, width: crop.width, height: crop.height };
    let w = st.windows[k].1;
    raster::law_common(dest, w);
    if raster::common(dest, w) is None {
        assert forall|x: int, y: int| #[trigger] w.holds(x, y) implies !(o.x <= x < o.x + crop.width
            && o.y <= y < o.y + crop.height) by {
            assert(!(dest.holds(x, y) && w.holds(x, y)));
        }
    }
}

/// What is shown comes in the order of the composition, without what lies outside of its
/// window.
pub open spec fn in_order(
    st: PgsView,
    objects: Seq<CompositionObject>,
    ps: Seq<PlacementView>,
    from: spec_fn(int) -> int,
) -> bool {
    &&& forall|i: int|
        0 <= i < ps.len() ==> 0 <= #[trigger] from(i) < objects.len() && pgs::placed(
            st,
            objects[from(i)],
        ) == Ok::<Option<PlacementView>, PgsError>(Some(ps[i]))
    &&& forall|i: int, j: int|
        0 <= i < j < ps.len() ==> #[trigger] from(i) < #[trigger] from(j)
    &&& forall|n: int|
        0 <= n < objects.len() && !(exists|i: int| 0 <= i < ps.len() && #[trigger] from(i) == n)
            ==> pgs::placed(st, #[trigger] objects[n]) == Ok::<Option<PlacementView>, PgsError>(
            None,
        )
}

pub proof fn law_objects_are_laid_in_order(
    st: PgsView,
    objects: Seq<CompositionObject>,
    n: int,
) -> (from: spec_fn(int) -> int)
    requires
        0 <= n <= objects.len(),
        pgs::placements(st, objects, n) is Ok,
    ensures
        in_order(st, objects.take(n), pgs::placements(st, objects, n)->Ok_0, from),
    decreases n,
{
    if n == 0 {
        |i: int| 0int
    } else {
        let f = law_objects_are_laid_in_order(st, objects, n - 1);
        let ps = pgs::placements(st, objects, n - 1)->Ok_0;
        let qs = pgs::placements(st, objects, n)->Ok_0;
        let m = ps.len() as int;
        let g = |i: int|
            if i == m {
                n - 1
            } else {
                f(i)
            };
        let a = objects.take(n - 1);
        let b = objects.take(n);
        assert forall|k: int| 0 <= k < n - 1 implies #[trigger] b[k] == a[k] by {}
        assert(b[n - 1] == objects[n - 1]);
        assert forall|i: int| 0 <= i < qs.len() implies 0 <= #[trigger] g(i) < b.len()
            && pgs::placed(st, b[g(i)]) == Ok::<Option<PlacementView>, PgsError>(Some(qs[i])) by {
            if i < m {
                assert(0 <= f(i) < a.len());
                assert(b[f(i)] == a[f(i)]);
            }
        }
        assert forall|i: int, j: int| 0 <= i < j < qs.len() implies #[trigger] g(i)
            < #[trigger] g(j) by {
            assert(0 <= f(i) < a.len());
            if j < m {
                assert(f(i) < f(j));
            }
        }
        assert forall|k: int|
            0 <= k < b.len() && !(exists|i: int| 0 <= i < qs.len() && #[trigger] g(i) == k) implies pgs::placed(
            st,
            #[trigger] b[k],
        ) == Ok::<Option<PlacementView>, PgsError>(None) by {
            if k == n - 1 {
                if qs.len() > m {
                    assert(g(m) == k);
                }
            } else {
                assert(b[k] == a[k]);
                if exists|i: int| 0 <= i < ps.len() && #[trigger] f(i) == k {
                    let i = choose|i: int| 0 <= i < ps.len() && #[trigger] f(i) == k;
                    assert(g(i) == k);
                }
            }
        }
        g
    }
}

/// An image that is shown has a pixel that can be seen, and one that is not shown has none.
/// A composition without objects shows nothing.
pub proof fn law_image_is_seen(st: PgsView, c: CompositionView)
    requires
        pgs::rendered(st, c) is Ok,
    ensures
        match pgs::rendered(st, c)->Ok_0.0 {
            Some(i) => {
                &&& c.objects.len() > 0
                &&& pgs::frame_of(
                    pgs::placements(st, c.objects, c.objects.len() as int)->Ok_0,
                ) == Some(i.rect)
                &&& exists|k: int| 0 <= 4 * k + 3 < i.rgba.len() && #[trigger] i.rgba[4 * k + 3] != 0
            },
            None => c.objects.len() > 0 ==> {
                let ps = pgs::placements(st, c.objects, c.objects.len() as int)->Ok_0;
                pgs::frame_of(ps) matches Some(r) ==> forall|x: int, y: int|
                    r.holds(x, y) ==> (#[trigger] paint::painted(
                        ps,
                        palette_of(st, c.palette),
                        x,
                        y,
                    )).a == 0
            },
        },
{
    if c.objects.len() > 0 {
        let ps = pgs::placements(st, c.objects, c.objects.len() as int)->Ok_0;
        if let Some(r) = pgs::frame_of(ps) {
            let entries = palette_of(st, c.palette);
            let b = paint::image_bytes(ps, entries, r);
            if pgs::invisible(b) {
                assert forall|x: int, y: int| r.holds(x, y) implies (#[trigger] paint::painted(
                    ps,
                    entries,
                    x,
                    y,
                )).a == 0 by {
                    law_image_is_painted(ps, entries, r, y - r.y, x - r.x);
                    let k = (y - r.y) * r.width + (x - r.x);
                    assert(b[4 * k + 3] == 0);
                }
            } else {
                let k = choose|k: int| 0 <= k < b.len() / 4 && #[trigger] b[4 * k + 3] != 0;
                assert(0 <= 4 * k + 3 < b.len() && b[4 * k + 3] != 0);
                assert(pgs::rendered(st, c)->Ok_0.0 is Some);
                assert(pgs::rendered(st, c)->Ok_0.0->0.rect == r);
                assert(pgs::rendered(st, c)->Ok_0.0->0.rgba == b);
            }
        }
    }
}

/// The slots of the first palette with a number.
pub open spec fn palette_of(st: PgsView, id: u8) -> Seq<Option<[u8; 4]>> {
    st.palettes[pgs::first_where(st.palettes, pgs::palette_is(id), 0)->0].entries
}

/// A display is unchanged if and only if the one before it has a canvas of the same size
/// and the same image, or both have none; and it tells when that one was shown.
pub proof fn law_unchanged_is_the_same(st: PgsView)
    requires
        st.pending is Some,
        pgs::committed(st) is Ok,
    ensures
        ({
            let n = pgs::committed(st)->Ok_0;
            &&& n.shown.len() == st.shown.len() + 1
            &&& n.shown.drop_last() == st.shown
            &&& n.last == Some(n.shown.last())
            &&& n.pending is None
            &&& match st.last {
                None => !n.shown.last().unchanged && n.shown.last().previous_timestamp_ns is None,
                Some(l) => {
                    let d = n.shown.last();
                    let same: bool = match (l.image, d.image) {
                        (None, None) => true,
                        (Some(a), Some(b)) => a.rect.x == b.rect.x && a.rect.y == b.rect.y
                            && a.rect.width == b.rect.width && a.rect.height == b.rect.height
                            && a.rgba == b.rgba,
                        _ => false,
                    };
                    &&& d.previous_timestamp_ns == Some(l.timestamp_ns)
                    &&& d.unchanged == (same && l.canvas_width == d.canvas_width && l.canvas_height
                        == d.canvas_height)
                },
            }
        }),
{
    let n = pgs::committed(st)->Ok_0;
    assert(n.shown.drop_last() =~= st.shown);
}

} // verus!
