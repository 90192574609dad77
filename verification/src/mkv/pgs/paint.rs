//! Laying subtitle objects over each other.

use crate::mkv::pgs::raster;
use crate::mkv::pgs::raster::{Rect, Rgba};
use vstd::prelude::*;

verus! {

/// A decoded object.
pub struct ObjectView {
    pub id: u16,
    pub width: u16,
    pub height: u16,
    /// Palette indices, row by row.
    pub pixels: Seq<u8>,
}

impl ObjectView {
    /// An object has an index for each of its pixels.
    pub open spec fn full(self) -> bool {
        self.pixels.len() == self.width * self.height
    }
}

/// An object on the canvas: the part `crop` of it goes to `dest`, of which only
/// `clip` is shown.
pub struct PlacementView {
    pub object: ObjectView,
    pub crop: Rect,
    pub dest: Rect,
    pub clip: Rect,
}

impl PlacementView {
    /// The crop lies in the object and is as large as where it goes, and only
    /// that is shown.
    pub open spec fn fits(self) -> bool {
        &&& self.object.full()
        &&& self.crop.end_x() <= self.object.width
        &&& self.crop.end_y() <= self.object.height
        &&& self.crop.width == self.dest.width
        &&& self.crop.height == self.dest.height
        &&& self.dest.covers(self.clip)
    }

    /// The palette index shown at column `x` and row `y` of the canvas.
    pub open spec fn index_at(self, x: int, y: int) -> u8 {
        self.object.pixels[(self.crop.y + y - self.dest.y) * self.object.width + (self.crop.x + x
            - self.dest.x)]
    }
}

/// The colour of a palette index: undefined slots and the last index are
/// transparent.
pub open spec fn color_of(entries: Seq<Option<[u8; 4]>>, index: u8) -> Rgba {
    match entries[index as int] {
        None => raster::rgb_of(16, 128, 128, 0),
        Some(e) => raster::rgb_of(
            e[0],
            e[1],
            e[2],
            if index == 255 {
                0
            } else {
                e[3]
            },
        ),
    }
}

/// One object over what was there.
pub open spec fn layered(
    under: Rgba,
    p: PlacementView,
    entries: Seq<Option<[u8; 4]>>,
    x: int,
    y: int,
) -> Rgba {
    if p.clip.holds(x, y) {
        raster::over_of(under, color_of(entries, p.index_at(x, y)))
    } else {
        under
    }
}

/// The pixel at column `x` and row `y` of the canvas: the objects over each other,
/// in order.
pub open spec fn painted(
    ps: Seq<PlacementView>,
    entries: Seq<Option<[u8; 4]>>,
    x: int,
    y: int,
) -> Rgba
    decreases ps.len(),
{
    if ps.len() == 0 {
        raster::clear()
    } else {
        layered(painted(ps.drop_last(), entries, x, y), ps.last(), entries, x, y)
    }
}

/// The bytes of the image in `rect`, row by row, four to a pixel.
pub open spec fn image_bytes(
    ps: Seq<PlacementView>,
    entries: Seq<Option<[u8; 4]>>,
    rect: Rect,
) -> Seq<u8> {
    Seq::new(
        (rect.width * rect.height * 4) as nat,
        |i: int|
            painted(
                ps,
                entries,
                rect.x + i / 4 % (rect.width as int),
                rect.y + i / 4 / (rect.width as int),
            ).byte(i % 4),
    )
}

/// The pixel in row `row` and column `col` of an image `w` pixels wide.
pub open spec fn pixel_at(buf: Seq<u8>, w: int, row: int, col: int) -> Rgba {
    let o = (row * w + col) * 4;
    Rgba { r: buf[o], g: buf[o + 1], b: buf[o + 2], a: buf[o + 3] }
}

/// Where a pixel's bytes stand.
proof fn lemma_offset(w: int, h: int, row: int, col: int)
    requires
        0 <= row < h,
        0 <= col < w,
    ensures
        0 <= row * w + col < w * h,
        0 <= (row * w + col) * 4,
        (row * w + col) * 4 + 4 <= w * h * 4,
{
    assert(0 <= row * w + col < w * h) by (nonlinear_arith)
        requires
            0 <= row < h,
            0 <= col < w,
    ;
}

/// Two pixels' bytes stand apart.
proof fn lemma_apart(w: int, row: int, col: int, row2: int, col2: int)
    requires
        0 <= col < w,
        0 <= col2 < w,
        row != row2 || col != col2,
    ensures
        row * w + col != row2 * w + col2,
{
    if row < row2 {
        assert(row * w + w <= row2 * w) by (nonlinear_arith)
            requires
                row + 1 <= row2,
                w > 0,
        ;
    } else if row > row2 {
        assert(row2 * w + w <= row * w) by (nonlinear_arith)
            requires
                row2 + 1 <= row,
                w > 0,
        ;
    }
}

/// Writing one pixel leaves the others.
proof fn lemma_put(buf: Seq<u8>, next: Seq<u8>, w: int, h: int, row: int, col: int, c: Rgba)
    requires
        0 <= row < h,
        0 <= col < w,
        buf.len() == w * h * 4,
        ({
            let o = (row * w + col) * 4;
            next == buf.update(o, c.r).update(o + 1, c.g).update(o + 2, c.b).update(o + 3, c.a)
        }),
    ensures
        next.len() == buf.len(),
        forall|r: int, k: int|
            0 <= r < h && 0 <= k < w ==> #[trigger] pixel_at(next, w, r, k) == if r == row && k
                == col {
                c
            } else {
                pixel_at(buf, w, r, k)
            },
{
    lemma_offset(w, h, row, col);
    assert forall|r: int, k: int| 0 <= r < h && 0 <= k < w implies #[trigger] pixel_at(
        next,
        w,
        r,
        k,
    ) == if r == row && k == col {
        c
    } else {
        pixel_at(buf, w, r, k)
    } by {
        lemma_offset(w, h, r, k);
        if r != row || k != col {
            lemma_apart(w, r, k, row, col);
        }
    }
}

/// A placement, with its object by index.
pub struct Placement {
    pub object: usize,
    pub crop: Rect,
    pub dest: Rect,
    pub clip: Rect,
}

/// A decoded object.
pub struct Object {
    pub id: u16,
    pub width: u16,
    pub height: u16,
    pub pixels: Vec<u8>,
}

impl View for Object {
    type V = ObjectView;

    open spec fn view(&self) -> ObjectView {
        ObjectView {
            id: self.id,
            width: self.width,
            height: self.height,
            pixels: self.pixels@,
        }
    }
}

/// The value of a placement among `objects`.
pub open spec fn placement_view(p: Placement, objects: Seq<Object>) -> PlacementView {
    PlacementView {
        object: objects[p.object as int]@,
        crop: p.crop,
        dest: p.dest,
        clip: p.clip,
    }
}

/// The colour of a palette index.
fn color(entries: &Vec<Option<[u8; 4]>>, index: u8) -> (c: Rgba)
    requires
        entries@.len() == 256,
    ensures
        c == color_of(entries@, index),
{
    match entries[index as usize] {
        None => raster::rgba(16, 128, 128, 0),
        Some(e) => raster::rgba(
            e[0],
            e[1],
            e[2],
            if index == 255 {
                0
            } else {
                e[3]
            },
        ),
    }
}

/// The palette index that an object shows at a pixel.
fn index_of(object: &Object, crop: Rect, dest: Rect, x: u32, y: u32) -> (r: u8)
    requires
        object@.full(),
        crop.end_x() <= object.width,
        crop.end_y() <= object.height,
        crop.width == dest.width,
        crop.height == dest.height,
        dest.holds(x as int, y as int),
        object.width * object.height <= usize::MAX,
    ensures
        r == object.pixels@[(crop.y + y - dest.y) * object.width + (crop.x + x - dest.x)],
{
    let sx: usize = (crop.x as u32 + x - dest.x as u32) as usize;
    let sy: usize = (crop.y as u32 + y - dest.y as u32) as usize;
    proof {
        lemma_offset(object.width as int, object.height as int, sy as int, sx as int);
        assert(0 <= sy * object.width) by (nonlinear_arith);
    }
    object.pixels[sy * object.width as usize + sx]
}

/// Lays one row of an object over the image.
fn paint_row(
    object: &Object,
    p: &Placement,
    entries: &Vec<Option<[u8; 4]>>,
    rect: Rect,
    y: u32,
    buf: &mut Vec<u8>,
)
    requires
        entries@.len() == 256,
        (PlacementView { object: object@, crop: p.crop, dest: p.dest, clip: p.clip }).fits(),
        object.width * object.height <= usize::MAX,
        rect.covers(p.clip),
        p.clip.y <= y < p.clip.end_y(),
        old(buf)@.len() == rect.width * rect.height * 4,
        rect.width * rect.height * 4 <= usize::MAX,
    ensures
        final(buf)@.len() == old(buf)@.len(),
        ({
            let v = PlacementView { object: object@, crop: p.crop, dest: p.dest, clip: p.clip };
            forall|r: int, k: int|
                0 <= r < rect.height && 0 <= k < rect.width ==> #[trigger] pixel_at(
                    final(buf)@,
                    rect.width as int,
                    r,
                    k,
                ) == if rect.y + r == y {
                    layered(
                        pixel_at(old(buf)@, rect.width as int, r, k),
                        v,
                        entries@,
                        rect.x + k,
                        rect.y + r,
                    )
                } else {
                    pixel_at(old(buf)@, rect.width as int, r, k)
                }
        }),
{
    let ghost v = PlacementView { object: object@, crop: p.crop, dest: p.dest, clip: p.clip };
    let w: usize = rect.width as usize;
    let row: usize = (y - rect.y as u32) as usize;
    let end: u32 = raster::right(p.clip);
    let mut x: u32 = p.clip.x as u32;
    while x < end
        invariant
            entries@.len() == 256,
            v == (PlacementView { object: object@, crop: p.crop, dest: p.dest, clip: p.clip }),
            v.fits(),
            object.width * object.height <= usize::MAX,
            rect.covers(p.clip),
            p.clip.y <= y < p.clip.end_y(),
            p.clip.x <= x <= end == p.clip.end_x(),
            w == rect.width,
            row == y - rect.y,
            buf@.len() == old(buf)@.len() == rect.width * rect.height * 4,
            rect.width * rect.height * 4 <= usize::MAX,
            forall|r: int, k: int|
                0 <= r < rect.height && 0 <= k < rect.width ==> #[trigger] pixel_at(
                    buf@,
                    rect.width as int,
                    r,
                    k,
                ) == if r == row && rect.x + k < x {
                    layered(
                        pixel_at(old(buf)@, rect.width as int, r, k),
                        v,
                        entries@,
                        rect.x + k,
                        rect.y + r,
                    )
                } else {
                    pixel_at(old(buf)@, rect.width as int, r, k)
                },
        decreases end - x,
    {
        let col: usize = (x - rect.x as u32) as usize;
        let c = color(entries, index_of(object, p.crop, p.dest, x, y));
        proof {
            lemma_offset(w as int, rect.height as int, row as int, col as int);
            assert(0 <= row * w) by (nonlinear_arith);
        }
        let o: usize = (row * w + col) * 4;
        let ghost before = buf@;
        let under = Rgba { r: buf[o], g: buf[o + 1], b: buf[o + 2], a: buf[o + 3] };
        let top = raster::over(under, c);
        buf.set(o, top.r);
        buf.set(o + 1, top.g);
        buf.set(o + 2, top.b);
        buf.set(o + 3, top.a);
        proof {
            lemma_put(
                before,
                buf@,
                w as int,
                rect.height as int,
                row as int,
                col as int,
                top,
            );
            assert(under == pixel_at(before, w as int, row as int, col as int));
        }
        x = x + 1;
    }
}

/// Lays one object over the image.
fn paint_object(
    object: &Object,
    p: &Placement,
    entries: &Vec<Option<[u8; 4]>>,
    rect: Rect,
    buf: &mut Vec<u8>,
)
    requires
        entries@.len() == 256,
        (PlacementView { object: object@, crop: p.crop, dest: p.dest, clip: p.clip }).fits(),
        object.width * object.height <= usize::MAX,
        rect.covers(p.clip),
        old(buf)@.len() == rect.width * rect.height * 4,
        rect.width * rect.height * 4 <= usize::MAX,
    ensures
        final(buf)@.len() == old(buf)@.len(),
        ({
            let v = PlacementView { object: object@, crop: p.crop, dest: p.dest, clip: p.clip };
            forall|r: int, k: int|
                0 <= r < rect.height && 0 <= k < rect.width ==> #[trigger] pixel_at(
                    final(buf)@,
                    rect.width as int,
                    r,
                    k,
                ) == layered(
                    pixel_at(old(buf)@, rect.width as int, r, k),
                    v,
                    entries@,
                    rect.x + k,
                    rect.y + r,
                )
        }),
{
    let ghost v = PlacementView { object: object@, crop: p.crop, dest: p.dest, clip: p.clip };
    let end: u32 = raster::bottom(p.clip);
    let mut y: u32 = p.clip.y as u32;
    while y < end
        invariant
            entries@.len() == 256,
            v == (PlacementView { object: object@, crop: p.crop, dest: p.dest, clip: p.clip }),
            v.fits(),
            object.width * object.height <= usize::MAX,
            rect.covers(p.clip),
            p.clip.y <= y <= end == p.clip.end_y(),
            buf@.len() == old(buf)@.len() == rect.width * rect.height * 4,
            rect.width * rect.height * 4 <= usize::MAX,
            forall|r: int, k: int|
                0 <= r < rect.height && 0 <= k < rect.width ==> #[trigger] pixel_at(
                    buf@,
                    rect.width as int,
                    r,
                    k,
                ) == if rect.y + r < y {
                    layered(
                        pixel_at(old(buf)@, rect.width as int, r, k),
                        v,
                        entries@,
                        rect.x + k,
                        rect.y + r,
                    )
                } else {
                    pixel_at(old(buf)@, rect.width as int, r, k)
                },
        decreases end - y,
    {
        paint_row(object, p, entries, rect, y, buf);
        y = y + 1;
    }
}

/// The values of placements among `objects`.
pub open spec fn placement_views(ps: Seq<Placement>, objects: Seq<Object>) -> Seq<PlacementView> {
    ps.map_values(|p: Placement| placement_view(p, objects))
}

/// Lays all objects over a clear image, in order.
pub(crate) fn paint(
    objects: &Vec<Object>,
    ps: &Vec<Placement>,
    entries: &Vec<Option<[u8; 4]>>,
    rect: Rect,
    buf: &mut Vec<u8>,
)
    requires
        entries@.len() == 256,
        rect.width > 0,
        forall|i: int|
            0 <= i < ps@.len() ==> (#[trigger] ps@[i]).object < objects@.len() && placement_view(
                ps@[i],
                objects@,
            ).fits() && rect.covers(ps@[i].clip),
        forall|i: int|
            0 <= i < objects@.len() ==> (#[trigger] objects@[i]).width * objects@[i].height
                <= usize::MAX,
        old(buf)@ == Seq::new((rect.width * rect.height * 4) as nat, |i: int| 0u8),
        rect.width * rect.height * 4 <= usize::MAX,
    ensures
        final(buf)@ == image_bytes(placement_views(ps@, objects@), entries@, rect),
{
    let ghost all = placement_views(ps@, objects@);
    let ghost w = rect.width as int;
    let mut i: usize = 0;
    proof {
        assert forall|r: int, k: int| 0 <= r < rect.height && 0 <= k < rect.width implies (
        #[trigger] pixel_at(buf@, w, r, k)) == painted(
            all.take(0),
            entries@,
            rect.x + k,
            rect.y + r,
        ) by {
            lemma_offset(w, rect.height as int, r, k);
        }
    }
    while i < ps.len()
        invariant
            i <= ps@.len(),
            w == rect.width,
            entries@.len() == 256,
            all == placement_views(ps@, objects@),
            forall|j: int|
                0 <= j < ps@.len() ==> (#[trigger] ps@[j]).object < objects@.len()
                    && placement_view(ps@[j], objects@).fits() && rect.covers(ps@[j].clip),
            forall|j: int|
                0 <= j < objects@.len() ==> (#[trigger] objects@[j]).width * objects@[j].height
                    <= usize::MAX,
            buf@.len() == rect.width * rect.height * 4,
            rect.width * rect.height * 4 <= usize::MAX,
            forall|r: int, k: int|
                0 <= r < rect.height && 0 <= k < rect.width ==> (#[trigger] pixel_at(
                    buf@,
                    w,
                    r,
                    k,
                )) == painted(all.take(i as int), entries@, rect.x + k, rect.y + r),
        decreases ps@.len() - i,
    {
        let p = &ps[i];
        let ghost before = buf@;
        assert(ps@[i as int].object < objects@.len());
        assert(objects@[p.object as int].width * objects@[p.object as int].height <= usize::MAX);
        paint_object(&objects[p.object], p, entries, rect, buf);
        proof {
            assert(all.take(i + 1).drop_last() =~= all.take(i as int));
            assert(all.take(i + 1).last() == placement_view(ps@[i as int], objects@));
        }
        i = i + 1;
    }
    proof {
        assert(all.take(i as int) =~= all);
        let want = image_bytes(all, entries@, rect);
        assert forall|j: int| 0 <= j < want.len() implies buf@[j] == want[j] by {
            lemma_image_byte(buf@, w, rect.height as int, j);
        }
        assert(buf@ =~= want);
    }
}

/// The pixel that a byte belongs to.
proof fn lemma_image_byte(buf: Seq<u8>, w: int, h: int, j: int)
    requires
        w > 0,
        0 <= j < w * h * 4,
        buf.len() == w * h * 4,
    ensures
        0 <= j / 4 / w < h,
        0 <= j / 4 % w < w,
        buf[j] == pixel_at(buf, w, j / 4 / w, j / 4 % w).byte(j % 4),
{
    let q = j / 4;
    assert(0 <= q < w * h);
    vstd::arithmetic::div_mod::lemma_fundamental_div_mod(q, w);
    assert(0 <= q % w < w);
    assert(q == (q / w) * w + q % w) by (nonlinear_arith)
        requires
            q == w * (q / w) + q % w,
    ;
    assert(0 <= q / w < h) by (nonlinear_arith)
        requires
            0 <= q < w * h,
            w > 0,
            q == w * (q / w) + q % w,
            0 <= q % w < w,
    ;
}

} // verus!
