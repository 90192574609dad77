//! Rectangles, colours and run lengths of subtitle rasters.

use crate::mkv::pgs::PgsError;
use vstd::prelude::*;

verus! {

/// A rectangle on the canvas.
#[derive(Debug, Clone, Copy, PartialEq, Eq, Structural)]
pub struct Rect {
    pub x: u16,
    pub y: u16,
    pub width: u16,
    pub height: u16,
}

impl Rect {
    /// One past the last column.
    pub open spec fn end_x(self) -> int {
        self.x + self.width
    }

    /// One past the last row.
    pub open spec fn end_y(self) -> int {
        self.y + self.height
    }

    /// Whether the pixel at column `x` and row `y` lies inside.
    pub open spec fn holds(self, x: int, y: int) -> bool {
        self.x <= x < self.end_x() && self.y <= y < self.end_y()
    }

    /// Whether `other` lies inside.
    pub open spec fn covers(self, other: Rect) -> bool {
        self.x <= other.x && other.end_x() <= self.end_x() && self.y <= other.y && other.end_y()
            <= self.end_y()
    }
}

pub(crate) fn right(r: Rect) -> (n: u32)
    ensures
        n == r.end_x(),
{
    r.x as u32 + r.width as u32
}

pub(crate) fn bottom(r: Rect) -> (n: u32)
    ensures
        n == r.end_y(),
{
    r.y as u32 + r.height as u32
}

pub open spec fn smaller(a: int, b: int) -> int {
    if a <= b {
        a
    } else {
        b
    }
}

pub open spec fn larger(a: int, b: int) -> int {
    if a >= b {
        a
    } else {
        b
    }
}

/// The pixels that both rectangles hold, if any.
pub open spec fn common(a: Rect, b: Rect) -> Option<Rect> {
    let x = larger(a.x as int, b.x as int);
    let y = larger(a.y as int, b.y as int);
    let r = smaller(a.end_x(), b.end_x());
    let d = smaller(a.end_y(), b.end_y());
    if r > x && d > y {
        Some(Rect { x: x as u16, y: y as u16, width: (r - x) as u16, height: (d - y) as u16 })
    } else {
        None
    }
}

/// The smallest rectangle around both.
pub open spec fn around(a: Rect, b: Rect) -> Rect {
    let x = smaller(a.x as int, b.x as int);
    let y = smaller(a.y as int, b.y as int);
    Rect {
        x: x as u16,
        y: y as u16,
        width: (larger(a.end_x(), b.end_x()) - x) as u16,
        height: (larger(a.end_y(), b.end_y()) - y) as u16,
    }
}

/// The intersection holds exactly the pixels that both hold.
pub proof fn law_common(a: Rect, b: Rect)
    requires
        b.end_x() <= u16::MAX,
        b.end_y() <= u16::MAX,
    ensures
        match common(a, b) {
            Some(c) => forall|x: int, y: int|
                #[trigger] c.holds(x, y) <==> a.holds(x, y) && b.holds(x, y),
            None => forall|x: int, y: int| !(#[trigger] a.holds(x, y) && b.holds(x, y)),
        },
{
}

/// The union's frame covers both.
pub proof fn law_around(a: Rect, b: Rect)
    requires
        a.end_x() <= u16::MAX,
        a.end_y() <= u16::MAX,
        b.end_x() <= u16::MAX,
        b.end_y() <= u16::MAX,
    ensures
        around(a, b).covers(a),
        around(a, b).covers(b),
        around(a, b).end_x() <= u16::MAX,
        around(a, b).end_y() <= u16::MAX,
{
}

/// The pixels that both rectangles hold, if any.
pub(crate) fn intersect(a: Rect, b: Rect) -> (r: Option<Rect>)
    requires
        b.end_x() <= u16::MAX,
        b.end_y() <= u16::MAX,
    ensures
        r == common(a, b),
{
    let x: u16 = if a.x >= b.x {
        a.x
    } else {
        b.x
    };
    let y: u16 = if a.y >= b.y {
        a.y
    } else {
        b.y
    };
    let r: u32 = if right(a) <= right(b) {
        right(a)
    } else {
        right(b)
    };
    let d: u32 = if bottom(a) <= bottom(b) {
        bottom(a)
    } else {
        bottom(b)
    };
    if r > x as u32 && d > y as u32 {
        Some(Rect { x, y, width: (r - x as u32) as u16, height: (d - y as u32) as u16 })
    } else {
        None
    }
}

/// The smallest rectangle around both.
pub(crate) fn unite(a: Rect, b: Rect) -> (r: Rect)
    requires
        a.end_x() <= u16::MAX,
        a.end_y() <= u16::MAX,
        b.end_x() <= u16::MAX,
        b.end_y() <= u16::MAX,
    ensures
        r == around(a, b),
{
    let x: u16 = if a.x <= b.x {
        a.x
    } else {
        b.x
    };
    let y: u16 = if a.y <= b.y {
        a.y
    } else {
        b.y
    };
    let r: u32 = if right(a) >= right(b) {
        right(a)
    } else {
        right(b)
    };
    let d: u32 = if bottom(a) >= bottom(b) {
        bottom(a)
    } else {
        bottom(b)
    };
    Rect { x, y, width: (r - x as u32) as u16, height: (d - y as u32) as u16 }
}

/// A straight-alpha colour.
#[derive(Debug, Clone, Copy, PartialEq, Eq, Structural)]
pub struct Rgba {
    pub r: u8,
    pub g: u8,
    pub b: u8,
    pub a: u8,
}

impl Rgba {
    /// The `i`th byte of the pixel.
    pub open spec fn byte(self, i: int) -> u8 {
        if i == 0 {
            self.r
        } else if i == 1 {
            self.g
        } else if i == 2 {
            self.b
        } else {
            self.a
        }
    }
}

/// Nothing.
pub open spec fn clear() -> Rgba {
    Rgba { r: 0, g: 0, b: 0, a: 0 }
}

/// `v` in units of 1/256, rounded to a byte.
pub open spec fn channel(v: int) -> u8 {
    let n = (v + 128) / 256;
    if n < 0 {
        0
    } else if n > 255 {
        255
    } else {
        n as u8
    }
}

/// A studio-range BT.709 colour as RGB.
pub open spec fn rgb_of(y: u8, cr: u8, cb: u8, alpha: u8) -> Rgba {
    let l = 298 * (y - 16);
    let u = cr - 128;
    let v = cb - 128;
    Rgba {
        r: channel(l + 459 * u),
        g: channel(l - 137 * u - 55 * v),
        b: channel(l + 541 * v),
        a: alpha,
    }
}

/// One channel of `s` over `d`, whose alphas are `sa` and `da`.
pub open spec fn blend(s: u8, sa: u8, d: u8, da: u8) -> int {
    let alpha = sa * 255 + da * (255 - sa);
    (s * sa * 255 + d * da * (255 - sa) + alpha / 2) / alpha
}

/// `src` over `dst`.
pub open spec fn over_of(dst: Rgba, src: Rgba) -> Rgba {
    let alpha = src.a * 255 + dst.a * (255 - src.a);
    if alpha == 0 {
        clear()
    } else {
        Rgba {
            r: blend(src.r, src.a, dst.r, dst.a) as u8,
            g: blend(src.g, src.a, dst.g, dst.a) as u8,
            b: blend(src.b, src.a, dst.b, dst.a) as u8,
            a: ((alpha + 127) / 255) as u8,
        }
    }
}

fn channel_of(v: i32) -> (c: u8)
    requires
        -0x4000_0000 < v < 0x4000_0000,
    ensures
        c == channel(v as int),
{
    if v + 128 < 0 {
        0
    } else {
        let n: i32 = (v + 128) / 256;
        if n > 255 {
            255
        } else {
            n as u8
        }
    }
}

/// A palette colour as RGB.
pub(crate) fn rgba(y: u8, cr: u8, cb: u8, alpha: u8) -> (c: Rgba)
    ensures
        c == rgb_of(y, cr, cb, alpha),
{
    let l: i32 = 298 * (y as i32 - 16);
    let u: i32 = cr as i32 - 128;
    let v: i32 = cb as i32 - 128;
    Rgba {
        r: channel_of(l + 459 * u),
        g: channel_of(l - 137 * u - 55 * v),
        b: channel_of(l + 541 * v),
        a: alpha,
    }
}

fn blend_of(s: u8, sa: u8, d: u8, da: u8) -> (c: u8)
    requires
        sa * 255 + da * (255 - sa) > 0,
    ensures
        c == blend(s, sa, d, da),
        0 <= blend(s, sa, d, da) <= 255,
{
    let ghost alpha = sa * 255 + da * (255 - sa);
    let ghost rest = 255 - sa;
    assert(0 <= da * rest <= 255 * 255) by (nonlinear_arith)
        requires
            0 <= da <= 255,
            0 <= rest <= 255,
    ;
    assert(0 <= s * sa <= 255 * sa) by (nonlinear_arith)
        requires
            0 <= s <= 255,
            0 <= sa,
    ;
    assert(0 <= d * da <= 255 * da) by (nonlinear_arith)
        requires
            0 <= d <= 255,
            0 <= da,
    ;
    assert(0 <= d * da * rest <= 255 * (da * rest)) by (nonlinear_arith)
        requires
            0 <= d * da <= 255 * da,
            0 <= rest,
    ;
    let r: u32 = 255 - sa as u32;
    let w: u32 = sa as u32 * 255 + da as u32 * r;
    let dd: u32 = d as u32 * da as u32;
    let n: u32 = s as u32 * sa as u32 * 255 + dd * r + w / 2;
    assert(n == s * sa * 255 + d * da * (255 - sa) + alpha / 2);
    assert(n <= 255 * alpha + alpha / 2);
    assert(n as int / alpha <= 255) by (nonlinear_arith)
        requires
            0 <= n <= 255 * alpha + alpha / 2,
            alpha > 0,
    ;
    assert(n as int / alpha >= 0) by (nonlinear_arith)
        requires
            0 <= n,
            alpha > 0,
    ;
    (n / w) as u8
}

/// `src` over `dst`.
pub(crate) fn over(dst: Rgba, src: Rgba) -> (c: Rgba)
    ensures
        c == over_of(dst, src),
{
    let rest: u32 = 255 - src.a as u32;
    assert(0 <= dst.a * rest <= 255 * rest) by (nonlinear_arith)
        requires
            0 <= dst.a <= 255,
            0 <= rest,
    ;
    let alpha: u32 = src.a as u32 * 255 + dst.a as u32 * rest;
    if alpha == 0 {
        return Rgba { r: 0, g: 0, b: 0, a: 0 };
    }
    Rgba {
        r: blend_of(src.r, src.a, dst.r, dst.a),
        g: blend_of(src.g, src.a, dst.g, dst.a),
        b: blend_of(src.b, src.a, dst.b, dst.a),
        a: ((alpha + 127) / 255) as u8,
    }
}

/// An opaque colour hides what is below it, and a transparent one leaves an opaque
/// one as it was.
pub proof fn law_over(dst: Rgba, src: Rgba)
    ensures
        src.a == 255 ==> over_of(dst, src) == src,
        src.a == 0 && dst.a == 255 ==> over_of(dst, src) == dst,
{
    if src.a == 255 {
        assert(dst.a * (255 - src.a) == 0);
        assert(dst.r * dst.a * (255 - src.a) == 0 && dst.g * dst.a * (255 - src.a) == 0 && dst.b
            * dst.a * (255 - src.a) == 0) by (nonlinear_arith)
            requires
                src.a == 255,
        ;
    } else if src.a == 0 {
        assert(src.r * src.a * 255 == 0 && src.g * src.a * 255 == 0 && src.b * src.a * 255 == 0)
            by (nonlinear_arith)
            requires
                src.a == 0,
        ;
        if dst.a == 255 {
            assert(dst.r * dst.a * (255 - src.a) == dst.r * 65025 && dst.g * dst.a * (255 - src.a)
                == dst.g * 65025 && dst.b * dst.a * (255 - src.a) == dst.b * 65025)
                by (nonlinear_arith)
                requires
                    src.a == 0,
                    dst.a == 255,
            ;
        }
    }
}

/// One step of a run-length coded raster.
pub enum Token {
    /// `run` pixels of `color`.
    Run { run: int, color: u8 },
    /// The end of a row.
    EndOfRow,
}

/// The step at `pos` and where the next one starts.
pub open spec fn token_at(data: Seq<u8>, pos: int) -> Result<(Token, int), PgsError> {
    let cut = Err(PgsError::Malformed("truncated segment"));
    if pos >= data.len() {
        cut
    } else if data[pos] != 0 {
        Ok((Token::Run { run: 1, color: data[pos] }, pos + 1))
    } else if pos + 1 >= data.len() {
        cut
    } else {
        let flags = data[pos + 1] as int;
        if flags == 0 {
            Ok((Token::EndOfRow, pos + 2))
        } else {
            let long = flags / 64 % 2 == 1;
            let colored = flags >= 128;
            let at = if long {
                pos + 3
            } else {
                pos + 2
            };
            let end = if colored {
                at + 1
            } else {
                at
            };
            if end > data.len() {
                cut
            } else {
                Ok(
                    (
                        Token::Run {
                            run: if long {
                                flags % 64 * 256 + data[pos + 2]
                            } else {
                                flags % 64
                            },
                            color: if colored {
                                data[at]
                            } else {
                                0
                            },
                        },
                        end,
                    ),
                )
            }
        }
    }
}

/// `n` pixels of one colour.
pub open spec fn run_of(n: int, color: u8) -> Seq<u8> {
    Seq::new(n as nat, |i: int| color)
}

/// The raster of `width` by `height` pixels coded in `data`, of which `out` was
/// decoded before `pos`: `y` whole rows and `x` pixels.
pub open spec fn rle_of(
    data: Seq<u8>,
    pos: int,
    x: int,
    y: int,
    width: int,
    height: int,
    out: Seq<u8>,
) -> Result<Seq<u8>, PgsError>
    decreases data.len() - pos,
{
    if pos >= data.len() {
        if y != height || x != 0 {
            Err(PgsError::Malformed("RLE incomplete raster"))
        } else {
            Ok(out)
        }
    } else if y == height {
        Err(PgsError::Malformed("RLE trailing bytes"))
    } else {
        match token_at(data, pos) {
            Err(e) => Err(e),
            Ok((Token::EndOfRow, next)) => if x != width {
                Err(PgsError::Malformed("RLE short row (implicit padding unsupported)"))
            } else {
                rle_of(data, next, 0, y + 1, width, height, out)
            },
            Ok((Token::Run { run, color }, next)) => if run == 0 || run > width - x {
                Err(PgsError::Malformed("RLE row overflow/zero run"))
            } else {
                rle_of(data, next, x + run, y, width, height, out + run_of(run, color))
            },
        }
    }
}

/// A decoded raster has a pixel for each position.
pub proof fn law_rle_fills(
    data: Seq<u8>,
    pos: int,
    x: int,
    y: int,
    width: int,
    height: int,
    out: Seq<u8>,
)
    requires
        0 <= x <= width,
        0 <= y <= height,
        out.len() == y * width + x,
    ensures
        rle_of(data, pos, x, y, width, height, out) matches Ok(r) ==> r.len() == height * width,
    decreases data.len() - pos,
{
    if pos < data.len() && y != height {
        match token_at(data, pos) {
            Err(_) => {},
            Ok((Token::EndOfRow, next)) => {
                if x == width {
                    assert((y + 1) * width == y * width + width) by (nonlinear_arith);
                    law_rle_fills(data, next, 0, y + 1, width, height, out);
                }
            },
            Ok((Token::Run { run, color }, next)) => {
                if !(run == 0 || run > width - x) {
                    law_rle_fills(
                        data,
                        next,
                        x + run,
                        y,
                        width,
                        height,
                        out + run_of(run, color),
                    );
                }
            },
        }
    }
}

/// Decodes a run-length coded raster into `out`, which is empty.
pub fn decode_rle(data: &[u8], width: u16, height: u16, out: Vec<u8>) -> (r: Result<
    Vec<u8>,
    PgsError,
>)
    requires
        out@.len() == 0,
        width * height <= usize::MAX,
    ensures
        match rle_of(data@, 0, 0, 0, width as int, height as int, Seq::empty()) {
            Ok(p) => r is Ok && r->Ok_0@ == p && p.len() == width * height,
            Err(e) => r == Err::<Vec<u8>, PgsError>(e),
        },
{
    let mut out = out;
    let mut pos: usize = 0;
    let mut x: usize = 0;
    let mut y: usize = 0;
    let w: usize = width as usize;
    let h: usize = height as usize;
    let ghost target = rle_of(data@, 0, 0, 0, width as int, height as int, Seq::empty());
    assert(out@ =~= Seq::empty());
    while pos < data.len()
        invariant
            pos <= data@.len(),
            x <= w == width,
            y <= h == height,
            out@.len() == y * w + x,
            target == rle_of(data@, pos as int, x as int, y as int, w as int, h as int, out@),
            target == rle_of(data@, 0, 0, 0, width as int, height as int, Seq::empty()),
        decreases data@.len() - pos,
    {
        if y == h {
            return Err(PgsError::Malformed("RLE trailing bytes"));
        }
        let first: u8 = data[pos];
        let mut run: usize = 1;
        let mut color: u8 = first;
        let mut next: usize = pos + 1;
        if first == 0 {
            if next >= data.len() {
                return Err(PgsError::Malformed("truncated segment"));
            }
            let flags: u8 = data[next];
            next = next + 1;
            if flags == 0 {
                if x != w {
                    return Err(
                        PgsError::Malformed("RLE short row (implicit padding unsupported)"),
                    );
                }
                assert((y + 1) * w == y * w + w) by (nonlinear_arith);
                x = 0;
                y = y + 1;
                pos = next;
                continue ;
            }
            run = (flags % 64) as usize;
            if flags / 64 % 2 == 1 {
                if next >= data.len() {
                    return Err(PgsError::Malformed("truncated segment"));
                }
                run = run * 256 + data[next] as usize;
                next = next + 1;
            }
            if flags >= 128 {
                if next >= data.len() {
                    return Err(PgsError::Malformed("truncated segment"));
                }
                color = data[next];
                next = next + 1;
            }
        }
        if run == 0 || run > w - x {
            return Err(PgsError::Malformed("RLE row overflow/zero run"));
        }
        put_run(&mut out, run, color);
        x = x + run;
        pos = next;
    }
    if y != h || x != 0 {
        return Err(PgsError::Malformed("RLE incomplete raster"));
    }
    proof {
        assert(y * w + x == height * width) by (nonlinear_arith)
            requires
                y == height,
                x == 0,
                w == width,
        ;
        assert(width * height == height * width) by (nonlinear_arith);
    }
    Ok(out)
}

/// Appends `n` pixels of one colour.
fn put_run(out: &mut Vec<u8>, n: usize, color: u8)
    ensures
        final(out)@ == old(out)@ + run_of(n as int, color),
{
    let mut i: usize = 0;
    assert(out@ =~= old(out)@ + run_of(0, color));
    while i < n
        invariant
            i <= n,
            out@ == old(out)@ + run_of(i as int, color),
        decreases n - i,
    {
        out.push(color);
        i = i + 1;
        assert(out@ =~= old(out)@ + run_of(i as int, color));
    }
}

} // verus!
