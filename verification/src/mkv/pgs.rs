//! Bounded reconstruction of the images in a Matroska `S_HDMV/PGS` track.
//!
//! Packets carry segments without SUP headers. A display set opens with a
//! presentation composition, may define windows, palettes and run-length coded
//! objects, and is committed by its END segment. Any error poisons the decoder:
//! what it showed before is partial evidence, never a whole track.

pub mod kept;
pub mod layers;
pub mod paint;
pub mod raster;
pub mod state;
pub mod wire;

use crate::bytes;
use crate::mkv::pgs::paint::{Object, ObjectView, Placement, PlacementView};
pub use crate::mkv::pgs::raster::Rect;
use vstd::prelude::*;

verus! {

/// Why a decoder gave up.
#[derive(Debug, Clone, Copy, PartialEq, Eq)]
pub enum PgsError {
    Malformed(&'static str),
    UnsupportedSegment(u8),
    UnsupportedCompositionState(u8),
    BudgetExceeded(&'static str),
    MissingState(&'static str),
    InvalidTimestamp,
    IncompleteDisplaySet,
    Poisoned,
}

/// Bounds on what a decoder holds and on what it does over its lifetime.
#[derive(Debug, Clone, Copy)]
pub struct PgsLimits {
    pub packet_bytes: usize,
    pub display_set_bytes: usize,
    pub object_bytes: usize,
    /// Announced bytes of unfinished objects, and the indices of decoded ones, those
    /// being decoded among them.
    pub object_state_bytes: usize,
    /// The image last shown and the one being rendered.
    pub raster_bytes: usize,
    /// Pixels rendered over the lifetime, repeated displays included.
    pub total_render_pixels: usize,
    pub max_width: u16,
    pub max_height: u16,
    pub pixels: usize,
    pub objects: usize,
    pub palettes: usize,
    pub windows: usize,
    pub composition_objects: usize,
    pub segments_per_display: usize,
    pub packets: usize,
    pub displays: usize,
    pub total_packet_bytes: usize,
    pub max_timestamp_ns: u64,
}

impl Default for PgsLimits {
    fn default() -> (r: Self)
        ensures
            r == (PgsLimits {
                packet_bytes: 4_194_304,
                display_set_bytes: 4_194_304,
                object_bytes: 4_194_304,
                object_state_bytes: 16_777_216,
                raster_bytes: 67_108_864,
                total_render_pixels: 268_435_456,
                max_width: 3840,
                max_height: 2160,
                pixels: 8_294_400,
                objects: 64,
                palettes: 8,
                windows: 8,
                composition_objects: 8,
                segments_per_display: 1024,
                packets: 100_000,
                displays: 20_000,
                total_packet_bytes: 67_108_864,
                max_timestamp_ns: 86_400_000_000_000,
            }),
    {
        PgsLimits {
            packet_bytes: 4 * 1024 * 1024,
            display_set_bytes: 4 * 1024 * 1024,
            object_bytes: 4 * 1024 * 1024,
            object_state_bytes: 16 * 1024 * 1024,
            raster_bytes: 64 * 1024 * 1024,
            total_render_pixels: 256 * 1024 * 1024,
            max_width: 3840,
            max_height: 2160,
            pixels: 3840 * 2160,
            objects: 64,
            palettes: 8,
            windows: 8,
            composition_objects: 8,
            segments_per_display: 1024,
            packets: 100_000,
            displays: 20_000,
            total_packet_bytes: 64 * 1024 * 1024,
            max_timestamp_ns: 24 * 60 * 60 * 1_000_000_000,
        }
    }
}

/// One object that a composition shows.
#[derive(Debug, Clone, Copy, PartialEq, Eq, Structural)]
pub struct CompositionObject {
    pub object_id: u16,
    pub window_id: u8,
    pub forced: bool,
    pub x: u16,
    pub y: u16,
    pub crop: Option<Rect>,
}

/// The shown part of the canvas, in straight-alpha RGBA.
#[derive(Debug, PartialEq, Eq)]
pub struct PgsImage {
    pub rect: Rect,
    pub rgba: Vec<u8>,
}

/// The value of a [`PgsImage`].
pub struct ImageView {
    pub rect: Rect,
    pub rgba: Seq<u8>,
}

impl View for PgsImage {
    type V = ImageView;

    open spec fn view(&self) -> ImageView {
        ImageView { rect: self.rect, rgba: self.rgba@ }
    }
}

pub open spec fn image_view(i: Option<PgsImage>) -> Option<ImageView> {
    match i {
        None => None,
        Some(x) => Some(x@),
    }
}

/// A committed display. It replaces or clears the one before it, whose time it
/// ends. How long it lasts is not known.
#[derive(Debug)]
pub struct PgsDisplay {
    pub timestamp_ns: u64,
    pub previous_timestamp_ns: Option<u64>,
    pub canvas_width: u16,
    pub canvas_height: u16,
    pub frame_rate_code: u8,
    pub composition_number: u16,
    pub composition_state: u8,
    pub palette_id: u8,
    pub palette_update: bool,
    pub objects: Vec<CompositionObject>,
    /// `None` clears the canvas; so does an image without a visible pixel.
    pub image: Option<PgsImage>,
    /// Whether canvas, place and pixels are those of the display before it.
    pub unchanged: bool,
}

/// The value of a [`PgsDisplay`].
pub struct DisplayView {
    pub timestamp_ns: u64,
    pub previous_timestamp_ns: Option<u64>,
    pub canvas_width: u16,
    pub canvas_height: u16,
    pub frame_rate_code: u8,
    pub composition_number: u16,
    pub composition_state: u8,
    pub palette_id: u8,
    pub palette_update: bool,
    pub objects: Seq<CompositionObject>,
    pub image: Option<ImageView>,
    pub unchanged: bool,
}

impl View for PgsDisplay {
    type V = DisplayView;

    open spec fn view(&self) -> DisplayView {
        DisplayView {
            timestamp_ns: self.timestamp_ns,
            previous_timestamp_ns: self.previous_timestamp_ns,
            canvas_width: self.canvas_width,
            canvas_height: self.canvas_height,
            frame_rate_code: self.frame_rate_code,
            composition_number: self.composition_number,
            composition_state: self.composition_state,
            palette_id: self.palette_id,
            palette_update: self.palette_update,
            objects: self.objects@,
            image: image_view(self.image),
            unchanged: self.unchanged,
        }
    }
}

struct Composition {
    time: u64,
    width: u16,
    height: u16,
    rate: u8,
    number: u16,
    state: u8,
    palette: u8,
    update: bool,
    objects: Vec<CompositionObject>,
}

/// The value of a composition in progress.
pub struct CompositionView {
    pub time: u64,
    pub width: u16,
    pub height: u16,
    pub rate: u8,
    pub number: u16,
    pub state: u8,
    pub palette: u8,
    pub update: bool,
    pub objects: Seq<CompositionObject>,
}

impl View for Composition {
    type V = CompositionView;

    closed spec fn view(&self) -> CompositionView {
        CompositionView {
            time: self.time,
            width: self.width,
            height: self.height,
            rate: self.rate,
            number: self.number,
            state: self.state,
            palette: self.palette,
            update: self.update,
            objects: self.objects@,
        }
    }
}

struct Fragment {
    id: u16,
    version: u8,
    width: u16,
    height: u16,
    expected: usize,
    data: Vec<u8>,
}

/// The value of an object whose data is still coming.
pub struct FragmentView {
    pub id: u16,
    pub version: u8,
    pub width: u16,
    pub height: u16,
    pub expected: int,
    pub data: Seq<u8>,
}

impl View for Fragment {
    type V = FragmentView;

    closed spec fn view(&self) -> FragmentView {
        FragmentView {
            id: self.id,
            version: self.version,
            width: self.width,
            height: self.height,
            expected: self.expected as int,
            data: self.data@,
        }
    }
}

struct Palette {
    id: u8,
    /// Luma, Cr, Cb and alpha of each defined slot.
    entries: Vec<Option<[u8; 4]>>,
}

/// The value of a palette.
pub struct PaletteView {
    pub id: u8,
    pub entries: Seq<Option<[u8; 4]>>,
}

impl View for Palette {
    type V = PaletteView;

    closed spec fn view(&self) -> PaletteView {
        PaletteView { id: self.id, entries: self.entries@ }
    }
}

/// The value of a [`PgsDecoder`].
pub struct PgsView {
    pub limits: PgsLimits,
    pub objects: Seq<ObjectView>,
    pub fragments: Seq<FragmentView>,
    pub palettes: Seq<PaletteView>,
    pub windows: Seq<(u8, Rect)>,
    pub pending: Option<CompositionView>,
    pub last: Option<DisplayView>,
    pub last_packet_time: Option<u64>,
    pub set_bytes: int,
    pub set_segments: int,
    pub packets: int,
    pub displays: int,
    pub total_bytes: int,
    pub rendered_pixels: int,
    /// Everything shown so far.
    pub shown: Seq<DisplayView>,
}

/// A decoder that has seen nothing.
pub open spec fn fresh(limits: PgsLimits) -> PgsView {
    PgsView {
        limits,
        objects: Seq::empty(),
        fragments: Seq::empty(),
        palettes: Seq::empty(),
        windows: Seq::empty(),
        pending: None,
        last: None,
        last_packet_time: None,
        set_bytes: 0,
        set_segments: 0,
        packets: 0,
        displays: 0,
        total_bytes: 0,
        rendered_pixels: 0,
        shown: Seq::empty(),
    }
}

pub open spec fn cut<T>() -> Result<T, PgsError> {
    Err(PgsError::Malformed("truncated segment"))
}

/// The first index from `from` on at which `p` holds.
pub open spec fn first_where<T>(s: Seq<T>, p: spec_fn(T) -> bool, from: int) -> Option<int>
    decreases s.len() - from,
{
    if from >= s.len() {
        None
    } else if p(s[from]) {
        Some(from)
    } else {
        first_where(s, p, from + 1)
    }
}

/// What [`first_where`] finds.
pub proof fn lemma_first_where<T>(s: Seq<T>, p: spec_fn(T) -> bool, from: int)
    requires
        0 <= from,
    ensures
        match first_where(s, p, from) {
            Some(i) => from <= i < s.len() && p(s[i]) && forall|j: int|
                from <= j < i ==> !p(#[trigger] s[j]),
            None => forall|j: int| from <= j < s.len() ==> !p(#[trigger] s[j]),
        },
    decreases s.len() - from,
{
    if from < s.len() && !p(s[from]) {
        lemma_first_where(s, p, from + 1);
    }
}

pub open spec fn palette_is(id: u8) -> spec_fn(PaletteView) -> bool {
    |p: PaletteView| p.id == id
}

pub open spec fn object_is(id: u16) -> spec_fn(ObjectView) -> bool {
    |o: ObjectView| o.id == id
}

pub open spec fn window_is(id: u8) -> spec_fn((u8, Rect)) -> bool {
    |w: (u8, Rect)| w.0 == id
}

pub open spec fn part_of(id: u16, version: u8) -> spec_fn(FragmentView) -> bool {
    |f: FragmentView| f.id == id && f.version == version
}

/// How many pixels an image has, or which bound it breaks.
pub open spec fn area_of(l: PgsLimits, width: u16, height: u16) -> Result<int, PgsError> {
    if width == 0 || height == 0 {
        Err(PgsError::Malformed("zero dimensions"))
    } else if width > l.max_width {
        Err(PgsError::BudgetExceeded("width"))
    } else if height > l.max_height {
        Err(PgsError::BudgetExceeded("height"))
    } else if width * height > l.pixels {
        Err(PgsError::BudgetExceeded("pixels"))
    } else {
        Ok(width * height)
    }
}

/// The rectangle at `pos`.
pub open spec fn rect_at(b: Seq<u8>, pos: int) -> Rect {
    Rect {
        x: bytes::get16(b, pos),
        y: bytes::get16(b, pos + 2),
        width: bytes::get16(b, pos + 4),
        height: bytes::get16(b, pos + 6),
    }
}

/// `n` composition objects from `pos` on, behind `seen`, and where they end.
pub open spec fn objects_at(b: Seq<u8>, pos: int, n: int, seen: Seq<CompositionObject>) -> Result<
    (Seq<CompositionObject>, int),
    PgsError,
>
    decreases n,
{
    if n <= 0 {
        Ok((seen, pos))
    } else if pos + 4 > b.len() {
        cut()
    } else if b[pos + 3] % 64 != 0 {
        Err(PgsError::Malformed("composition object flags"))
    } else if pos + 8 > b.len() {
        cut()
    } else {
        let cropped = b[pos + 3] >= 0x80;
        if cropped && pos + 16 > b.len() {
            cut()
        } else {
            let o = CompositionObject {
                object_id: bytes::get16(b, pos),
                window_id: b[pos + 2],
                forced: b[pos + 3] / 64 % 2 == 1,
                x: bytes::get16(b, pos + 4),
                y: bytes::get16(b, pos + 6),
                crop: if cropped {
                    Some(rect_at(b, pos + 8))
                } else {
                    None
                },
            };
            objects_at(
                b,
                if cropped {
                    pos + 16
                } else {
                    pos + 8
                },
                n - 1,
                seen.push(o),
            )
        }
    }
}

/// What a presentation composition segment makes of `st`. Epoch starts and
/// acquisition points drop all resources.
pub open spec fn pcs_of(st: PgsView, time: u64, b: Seq<u8>) -> Result<PgsView, PgsError> {
    if st.pending is Some {
        Err(PgsError::IncompleteDisplaySet)
    } else if b.len() < 4 {
        cut()
    } else {
        let width = bytes::get16(b, 0);
        let height = bytes::get16(b, 2);
        match area_of(st.limits, width, height) {
            Err(e) => Err(e),
            Ok(_) => if b.len() < 8 {
                cut()
            } else if !(b[7] == 0 || b[7] == 0x40 || b[7] == 0x80) {
                Err(PgsError::UnsupportedCompositionState(b[7]))
            } else if b.len() < 9 {
                cut()
            } else if !(b[8] == 0 || b[8] == 0x80) {
                Err(PgsError::Malformed("palette update flag"))
            } else if b.len() < 11 {
                cut()
            } else if b[10] > st.limits.composition_objects {
                Err(PgsError::BudgetExceeded("composition objects"))
            } else if b[7] != 0x80 && (st.last matches Some(l) && (l.canvas_width != width
                || l.canvas_height != height)) {
                Err(PgsError::Malformed("canvas changed without epoch"))
            } else {
                match objects_at(b, 11, b[10] as int, Seq::empty()) {
                    Err(e) => Err(e),
                    Ok((objects, end)) => if end != b.len() {
                        Err(PgsError::Malformed("segment trailing bytes"))
                    } else if b[8] == 0x80 && b[10] == 0 && b[7] != 0 {
                        Err(
                            PgsError::MissingState(
                                "palette update without fresh composition at epoch/acquisition",
                            ),
                        )
                    } else if b[8] == 0x80 && b[10] == 0 && st.last is None {
                        Err(PgsError::MissingState("palette update without committed composition"))
                    } else {
                        let kept = if b[7] != 0 {
                            PgsView {
                                objects: Seq::empty(),
                                fragments: Seq::empty(),
                                palettes: Seq::empty(),
                                windows: Seq::empty(),
                                ..st
                            }
                        } else {
                            st
                        };
                        Ok(
                            PgsView {
                                pending: Some(
                                    CompositionView {
                                        time,
                                        width,
                                        height,
                                        rate: b[4],
                                        number: bytes::get16(b, 5),
                                        state: b[7],
                                        palette: b[9],
                                        update: b[8] == 0x80,
                                        objects: if b[8] == 0x80 && b[10] == 0 {
                                            st.last->Some_0.objects
                                        } else {
                                            objects
                                        },
                                    },
                                ),
                                ..kept
                            },
                        )
                    },
                }
            },
        }
    }
}

/// An epoch start or acquisition point keeps no object, fragment, palette or
/// window.
pub proof fn law_refresh_drops_resources(st: PgsView, time: u64, b: Seq<u8>)
    ensures
        pcs_of(st, time, b) matches Ok(n) ==> n.pending->Some_0.state != 0 ==> n.objects.len() == 0
            && n.fragments.len() == 0 && n.palettes.len() == 0 && n.windows.len() == 0,
{
}

/// The slots after the first `n` entries of a palette segment were stored.
pub open spec fn slots_of(b: Seq<u8>, slots: Seq<Option<[u8; 4]>>, n: int) -> Seq<
    Option<[u8; 4]>,
>
    decreases n,
{
    if n <= 0 {
        slots
    } else {
        let at = 2 + 5 * (n - 1);
        slots_of(b, slots, n - 1).update(
            b[at] as int,
            Some([b[at + 1], b[at + 2], b[at + 3], b[at + 4]]),
        )
    }
}

/// Whether two of the first `n` entries of a palette segment are for one slot.
pub open spec fn repeats(b: Seq<u8>, n: int) -> bool {
    exists|i: int, j: int| 0 <= i < j < n && #[trigger] b[2 + 5 * i] == #[trigger] b[2 + 5 * j]
}

/// Where the palette `id` is, or will be.
pub open spec fn palette_place(ps: Seq<PaletteView>, id: u8) -> int {
    match first_where(ps, palette_is(id), 0) {
        Some(i) => i,
        None => ps.len() as int,
    }
}

/// What a palette segment makes of `st`.
pub open spec fn pds_of(st: PgsView, b: Seq<u8>) -> Result<PgsView, PgsError> {
    if b.len() < 2 {
        cut()
    } else if (b.len() - 2) % 5 != 0 {
        Err(PgsError::Malformed("palette length"))
    } else {
        let i = palette_place(st.palettes, b[0]);
        let n = (b.len() - 2) / 5;
        if i == st.palettes.len() && st.palettes.len() + 1 > st.limits.palettes {
            Err(PgsError::BudgetExceeded("palettes"))
        } else if repeats(b, n) {
            Err(PgsError::Malformed("duplicate palette entry"))
        } else {
            let ps = if i == st.palettes.len() {
                st.palettes.push(PaletteView { id: b[0], entries: no_slots() })
            } else {
                st.palettes
            };
            Ok(
                PgsView {
                    palettes: ps.update(
                        i,
                        PaletteView { id: b[0], entries: slots_of(b, ps[i].entries, n) },
                    ),
                    ..st
                },
            )
        }
    }
}

/// A palette without colours.
pub open spec fn no_slots() -> Seq<Option<[u8; 4]>> {
    Seq::new(256, |i: int| None)
}

/// `n` windows from `pos` on, behind `seen`, on a canvas of `width` by `height`.
pub open spec fn windows_at(
    b: Seq<u8>,
    pos: int,
    n: int,
    width: u16,
    height: u16,
    seen: Seq<(u8, Rect)>,
) -> Result<Seq<(u8, Rect)>, PgsError>
    decreases n,
{
    if n <= 0 {
        if pos != b.len() {
            Err(PgsError::Malformed("segment trailing bytes"))
        } else {
            Ok(seen)
        }
    } else if pos + 9 > b.len() {
        cut()
    } else {
        let id = b[pos];
        let r = rect_at(b, pos + 1);
        if r.width == 0 || r.height == 0 || r.end_x() > width || r.end_y() > height {
            Err(PgsError::Malformed("window outside canvas"))
        } else if exists|i: int| 0 <= i < seen.len() && (#[trigger] seen[i]).0 == id {
            Err(PgsError::Malformed("duplicate window"))
        } else {
            windows_at(b, pos + 9, n - 1, width, height, seen.push((id, r)))
        }
    }
}

/// What a window segment makes of `st`.
pub open spec fn wds_of(st: PgsView, b: Seq<u8>) -> Result<PgsView, PgsError> {
    let c = st.pending->Some_0;
    if b.len() < 1 {
        cut()
    } else if b[0] > st.limits.windows {
        Err(PgsError::BudgetExceeded("windows"))
    } else {
        match windows_at(b, 1, b[0] as int, c.width, c.height, Seq::empty()) {
            Err(e) => Err(e),
            Ok(windows) => Ok(PgsView { windows, ..st }),
        }
    }
}

/// The indices of all objects.
pub open spec fn object_total(objects: Seq<ObjectView>) -> nat
    decreases objects.len(),
{
    if objects.len() == 0 {
        0
    } else {
        object_total(objects.drop_last()) + objects.last().pixels.len()
    }
}

/// The announced bytes of all fragments.
pub open spec fn fragment_total(fragments: Seq<FragmentView>) -> int
    decreases fragments.len(),
{
    if fragments.len() == 0 {
        0
    } else {
        fragment_total(fragments.drop_last()) + fragments.last().expected
    }
}

/// Whether an object has this number.
pub open spec fn known(objects: Seq<ObjectView>, id: u16) -> bool {
    exists|i: int| 0 <= i < objects.len() && (#[trigger] objects[i]).id == id
}

/// How many fragments are for objects not yet known.
pub open spec fn coming(objects: Seq<ObjectView>, fragments: Seq<FragmentView>) -> nat
    decreases fragments.len(),
{
    if fragments.len() == 0 {
        0
    } else {
        coming(objects, fragments.drop_last()) + if known(objects, fragments.last().id) {
            0nat
        } else {
            1nat
        }
    }
}

/// The fragments with the one that an object segment's first part opens.
pub open spec fn opened(st: PgsView, b: Seq<u8>) -> Result<Seq<FragmentView>, PgsError> {
    let id = bytes::get16(b, 0);
    if exists|i: int| 0 <= i < st.fragments.len() && (#[trigger] st.fragments[i]).id == id {
        Err(PgsError::Malformed("overlapping first fragment"))
    } else if b.len() < 7 {
        cut()
    } else if bytes::get24(b, 4) < 4 {
        Err(PgsError::Malformed("object data length"))
    } else if bytes::get24(b, 4) - 4 > st.limits.object_bytes {
        Err(PgsError::BudgetExceeded("compressed object bytes"))
    } else if b.len() < 11 {
        cut()
    } else {
        let expected = bytes::get24(b, 4) - 4;
        let width = bytes::get16(b, 7);
        let height = bytes::get16(b, 9);
        match area_of(st.limits, width, height) {
            Err(e) => Err(e),
            Ok(_) => if st.objects.len() + coming(st.objects, st.fragments) + (if known(
                st.objects,
                id,
            ) {
                0int
            } else {
                1int
            }) > st.limits.objects {
                Err(PgsError::BudgetExceeded("objects"))
            } else if object_total(st.objects) + fragment_total(st.fragments) + expected
                > st.limits.object_state_bytes {
                Err(PgsError::BudgetExceeded("object state bytes"))
            } else {
                Ok(
                    st.fragments.push(
                        FragmentView {
                            id,
                            version: b[2],
                            width,
                            height,
                            expected,
                            data: Seq::empty(),
                        },
                    ),
                )
            },
        }
    }
}

/// `objects` with `o` in the place of the object of its number, or behind them.
pub open spec fn stored(objects: Seq<ObjectView>, o: ObjectView) -> Seq<ObjectView> {
    match first_where(objects, object_is(o.id), 0) {
        Some(i) => objects.update(i, o),
        None => objects.push(o),
    }
}

/// What the part `chunk` of the object in fragment `i` makes of `st`; `last` says
/// that it is the final part.
pub open spec fn extended(st: PgsView, i: int, chunk: Seq<u8>, last: bool) -> Result<
    PgsView,
    PgsError,
> {
    let f = st.fragments[i];
    let data = f.data + chunk;
    if chunk.len() > f.expected - f.data.len() {
        Err(PgsError::Malformed("object length overflow"))
    } else if !last {
        if data.len() == f.expected {
            Err(PgsError::Malformed("missing last fragment flag"))
        } else {
            Ok(PgsView { fragments: st.fragments.update(i, FragmentView { data, ..f }), ..st })
        }
    } else if data.len() != f.expected {
        Err(PgsError::Malformed("short last fragment"))
    } else {
        match area_of(st.limits, f.width, f.height) {
            Err(e) => Err(e),
            Ok(area) => if object_total(st.objects) + fragment_total(st.fragments) + area
                > st.limits.object_state_bytes {
                Err(PgsError::BudgetExceeded("object state bytes"))
            } else {
                match raster::rle_of(
                    data,
                    0,
                    0,
                    0,
                    f.width as int,
                    f.height as int,
                    Seq::empty(),
                ) {
                    Err(e) => Err(e),
                    Ok(pixels) => Ok(
                        PgsView {
                            objects: stored(
                                st.objects,
                                ObjectView { id: f.id, width: f.width, height: f.height, pixels },
                            ),
                            fragments: st.fragments.remove(i),
                            ..st
                        },
                    ),
                }
            },
        }
    }
}

/// What an object segment makes of `st`.
pub open spec fn ods_of(st: PgsView, b: Seq<u8>) -> Result<PgsView, PgsError> {
    if b.len() < 4 {
        cut()
    } else if b[3] % 64 != 0 {
        Err(PgsError::Malformed("object sequence flags"))
    } else {
        let last = b[3] / 64 % 2 == 1;
        if b[3] >= 0x80 {
            match opened(st, b) {
                Err(e) => Err(e),
                Ok(fragments) => extended(
                    PgsView { fragments, ..st },
                    st.fragments.len() as int,
                    b.skip(11),
                    last,
                ),
            }
        } else {
            match first_where(
                st.fragments,
                part_of(bytes::get16(b, 0), b[2]),
                0,
            ) {
                None => Err(PgsError::MissingState("matching object fragment")),
                Some(i) => extended(st, i, b.skip(4), last),
            }
        }
    }
}

/// What a composition object shows: nothing if it lies outside its window.
pub open spec fn placed(st: PgsView, o: CompositionObject) -> Result<
    Option<PlacementView>,
    PgsError,
> {
    match first_where(st.objects, object_is(o.object_id), 0) {
        None => Err(PgsError::MissingState("object")),
        Some(i) => match first_where(st.windows, window_is(o.window_id), 0) {
            None => Err(PgsError::MissingState("window")),
            Some(k) => {
                let object = st.objects[i];
                let crop = match o.crop {
                    Some(c) => c,
                    None => Rect { x: 0, y: 0, width: object.width, height: object.height },
                };
                if crop.width == 0 || crop.height == 0 || crop.end_x() > object.width
                    || crop.end_y() > object.height {
                    Err(PgsError::Malformed("object crop"))
                } else {
                    let dest = Rect { x: o.x, y: o.y, width: crop.width, height: crop.height };
                    match raster::common(dest, st.windows[k].1) {
                        None => Ok(None),
                        Some(clip) => Ok(Some(PlacementView { object, crop, dest, clip })),
                    }
                }
            },
        },
    }
}

/// What the first `n` composition objects show, in order.
pub open spec fn placements(st: PgsView, objects: Seq<CompositionObject>, n: int) -> Result<
    Seq<PlacementView>,
    PgsError,
>
    decreases n,
{
    if n <= 0 {
        Ok(Seq::empty())
    } else {
        match placements(st, objects, n - 1) {
            Err(e) => Err(e),
            Ok(ps) => match placed(st, objects[n - 1]) {
                Err(e) => Err(e),
                Ok(None) => Ok(ps),
                Ok(Some(p)) => Ok(ps.push(p)),
            },
        }
    }
}

/// The smallest rectangle around all that is shown.
pub open spec fn frame_of(ps: Seq<PlacementView>) -> Option<Rect>
    decreases ps.len(),
{
    if ps.len() == 0 {
        None
    } else {
        match frame_of(ps.drop_last()) {
            None => Some(ps.last().clip),
            Some(r) => Some(raster::around(r, ps.last().clip)),
        }
    }
}

/// Whether no pixel can be seen.
pub open spec fn invisible(rgba: Seq<u8>) -> bool {
    forall|i: int| 0 <= i < rgba.len() / 4 ==> #[trigger] rgba[4 * i + 3] == 0
}

/// How many bytes the image last shown takes.
pub open spec fn shown_bytes(last: Option<DisplayView>) -> nat {
    match last {
        Some(d) => match d.image {
            Some(i) => i.rgba.len(),
            None => 0,
        },
        None => 0,
    }
}

/// The image of a composition, and how many pixels were rendered by then.
pub open spec fn rendered(st: PgsView, c: CompositionView) -> Result<
    (Option<ImageView>, int),
    PgsError,
> {
    if c.objects.len() == 0 {
        Ok((None, st.rendered_pixels))
    } else {
        match first_where(st.palettes, palette_is(c.palette), 0) {
            None => Err(PgsError::MissingState("palette")),
            Some(k) => match placements(st, c.objects, c.objects.len() as int) {
                Err(e) => Err(e),
                Ok(ps) => match frame_of(ps) {
                    None => Ok((None, st.rendered_pixels)),
                    Some(rect) => match area_of(st.limits, rect.width, rect.height) {
                        Err(e) => Err(e),
                        Ok(area) => if st.rendered_pixels + area > st.limits.total_render_pixels {
                            Err(PgsError::BudgetExceeded("total render pixels"))
                        } else if shown_bytes(st.last) + area * 4 > st.limits.raster_bytes {
                            Err(PgsError::BudgetExceeded("raster bytes"))
                        } else {
                            let rgba = paint::image_bytes(ps, st.palettes[k].entries, rect);
                            Ok(
                                (
                                    if invisible(rgba) {
                                        None
                                    } else {
                                        Some(ImageView { rect, rgba })
                                    },
                                    st.rendered_pixels + area,
                                ),
                            )
                        },
                    },
                },
            },
        }
    }
}

/// The display that a composition becomes.
pub open spec fn display_of(st: PgsView, c: CompositionView, image: Option<ImageView>) ->
    DisplayView {
    DisplayView {
        timestamp_ns: c.time,
        previous_timestamp_ns: match st.last {
            Some(l) => Some(l.timestamp_ns),
            None => None,
        },
        canvas_width: c.width,
        canvas_height: c.height,
        frame_rate_code: c.rate,
        composition_number: c.number,
        composition_state: c.state,
        palette_id: c.palette,
        palette_update: c.update,
        objects: c.objects,
        image,
        unchanged: st.last matches Some(l) && l.canvas_width == c.width && l.canvas_height
            == c.height && l.image == image,
    }
}

/// What committing the display set makes of `st`.
pub open spec fn committed(st: PgsView) -> Result<PgsView, PgsError> {
    let c = st.pending->Some_0;
    if st.fragments.len() > 0 {
        Err(PgsError::IncompleteDisplaySet)
    } else if st.displays + 1 > st.limits.displays {
        Err(PgsError::BudgetExceeded("displays"))
    } else {
        match rendered(st, c) {
            Err(e) => Err(e),
            Ok((image, rendered_pixels)) => {
                let d = display_of(st, c, image);
                Ok(
                    PgsView {
                        displays: st.displays + 1,
                        rendered_pixels,
                        pending: None,
                        last: Some(d),
                        shown: st.shown.push(d),
                        ..st
                    },
                )
            },
        }
    }
}

pub const PCS: u8 = 0x16;

pub const PDS: u8 = 0x14;

pub const ODS: u8 = 0x15;

pub const WDS: u8 = 0x17;

pub const END: u8 = 0x80;

/// What one segment makes of `st`.
pub open spec fn taken(st: PgsView, time: u64, kind: u8, b: Seq<u8>) -> Result<PgsView, PgsError> {
    if st.set_bytes + b.len() + 3 > st.limits.display_set_bytes {
        Err(PgsError::BudgetExceeded("display set bytes"))
    } else if st.set_segments + 1 > st.limits.segments_per_display {
        Err(PgsError::BudgetExceeded("display set segments"))
    } else if kind != PCS && st.pending is None {
        Err(PgsError::MissingState("segment before PCS"))
    } else {
        let s = PgsView {
            set_bytes: st.set_bytes + b.len() + 3,
            set_segments: st.set_segments + 1,
            ..st
        };
        if kind == PCS {
            pcs_of(s, time, b)
        } else if kind == PDS {
            pds_of(s, b)
        } else if kind == ODS {
            ods_of(s, b)
        } else if kind == WDS {
            wds_of(s, b)
        } else if kind == END {
            if b.len() > 0 {
                Err(PgsError::Malformed("nonempty END"))
            } else {
                match committed(s) {
                    Err(e) => Err(e),
                    Ok(n) => Ok(PgsView { set_bytes: 0, set_segments: 0, ..n }),
                }
            }
        } else {
            Err(PgsError::UnsupportedSegment(kind))
        }
    }
}

/// The end of the segment at `pos`, if the packet holds all of it.
pub open spec fn segment_end(packet: Seq<u8>, pos: int) -> Option<int> {
    if pos + 3 > packet.len() || pos + 3 + bytes::get16(packet, pos + 1) > packet.len() {
        None
    } else {
        Some(pos + 3 + bytes::get16(packet, pos + 1))
    }
}

/// What the segments from `pos` on make of `st`, and all that was shown by then.
pub open spec fn ran(st: PgsView, time: u64, packet: Seq<u8>, pos: int) -> (
    Seq<DisplayView>,
    Result<PgsView, PgsError>,
)
    decreases packet.len() - pos,
{
    if pos >= packet.len() {
        (st.shown, Ok(st))
    } else {
        match segment_end(packet, pos) {
            None => (st.shown, cut()),
            Some(end) => match taken(st, time, packet[pos], packet.subrange(pos + 3, end)) {
                Err(e) => (st.shown, Err(e)),
                Ok(n) => ran(n, time, packet, end),
            },
        }
    }
}

/// Charges a packet against the lifetime bounds.
pub open spec fn admitted(st: PgsView, time: u64, packet: Seq<u8>) -> Result<PgsView, PgsError> {
    if time > st.limits.max_timestamp_ns || (st.last_packet_time matches Some(t) && time < t) {
        Err(PgsError::InvalidTimestamp)
    } else if packet.len() > st.limits.packet_bytes {
        Err(PgsError::BudgetExceeded("packet bytes"))
    } else if st.packets + 1 > st.limits.packets {
        Err(PgsError::BudgetExceeded("packets"))
    } else if st.total_bytes + packet.len() > st.limits.total_packet_bytes {
        Err(PgsError::BudgetExceeded("total packet bytes"))
    } else if packet.len() == 0 {
        Err(PgsError::Malformed("empty packet"))
    } else {
        Ok(
            PgsView {
                last_packet_time: Some(time),
                packets: st.packets + 1,
                total_bytes: st.total_bytes + packet.len(),
                ..st
            },
        )
    }
}

/// What a packet makes of `st`, and all that was shown by then.
pub open spec fn pushed(st: PgsView, time: u64, packet: Seq<u8>) -> (
    Seq<DisplayView>,
    Result<PgsView, PgsError>,
) {
    match admitted(st, time, packet) {
        Err(e) => (st.shown, Err(e)),
        Ok(s) => ran(s, time, packet, 0),
    }
}

/// The error that comes up where the allocator refuses the data of an object.
pub open spec fn no_data() -> PgsError {
    PgsError::BudgetExceeded("object allocation")
}

/// The error that comes up where the allocator refuses the pixels of an object or image.
pub open spec fn no_pixels() -> PgsError {
    PgsError::BudgetExceeded("raster/index allocation")
}

/// Whether the part `chunk` asks for the pixels of the object in fragment `i`: it is the
/// final one, all data is there, and the bounds hold.
pub open spec fn asks_pixels(st: PgsView, i: int, chunk: Seq<u8>, last: bool) -> bool {
    let f = st.fragments[i];
    &&& last
    &&& f.data.len() + chunk.len() == f.expected
    &&& area_of(st.limits, f.width, f.height) matches Ok(area) && object_total(st.objects)
        + fragment_total(st.fragments) + area <= st.limits.object_state_bytes
}

/// Whether an object segment may be refused with `e` for want of memory: for the data of
/// the object that it opens, or for the pixels of the object that it completes.
pub open spec fn object_refused(st: PgsView, b: Seq<u8>, e: PgsError) -> bool {
    &&& b.len() >= 4
    &&& b[3] % 64 == 0
    &&& {
        let last = b[3] / 64 % 2 == 1;
        if b[3] >= 0x80 {
            opened(st, b) matches Ok(fragments) && (e == no_data() || e == no_pixels()
                && asks_pixels(
                PgsView { fragments, ..st },
                st.fragments.len() as int,
                b.skip(11),
                last,
            ))
        } else {
            first_where(st.fragments, part_of(bytes::get16(b, 0), b[2]), 0) matches Some(i) && e
                == no_pixels() && asks_pixels(st, i, b.skip(4), last)
        }
    }
}

/// Whether a composition asks for the pixels of an image: something of it lies in a
/// window, and the bounds hold.
pub open spec fn asks_image(st: PgsView, c: CompositionView) -> bool {
    &&& c.objects.len() > 0
    &&& rendered(st, c) is Ok
    &&& frame_of(placements(st, c.objects, c.objects.len() as int)->Ok_0) is Some
}

/// Whether the end of a display set may be refused with `e` for want of memory.
pub open spec fn commit_refused(st: PgsView, e: PgsError) -> bool {
    &&& e == no_pixels()
    &&& st.fragments.len() == 0
    &&& st.displays + 1 <= st.limits.displays
    &&& asks_image(st, st.pending->Some_0)
}

/// Whether a segment may be refused with `e` for want of memory.
pub open spec fn segment_refused(st: PgsView, kind: u8, b: Seq<u8>, e: PgsError) -> bool {
    let s = PgsView {
        set_bytes: st.set_bytes + b.len() + 3,
        set_segments: st.set_segments + 1,
        ..st
    };
    &&& s.set_bytes <= st.limits.display_set_bytes
    &&& s.set_segments <= st.limits.segments_per_display
    &&& st.pending is Some
    &&& if kind == ODS {
        object_refused(s, b, e)
    } else {
        kind == END && b.len() == 0 && commit_refused(s, e)
    }
}

/// Whether the segments from `pos` on may be refused with `e` for want of memory when
/// `shown` has been shown: they run up to one that may be.
pub open spec fn run_refused(
    st: PgsView,
    time: u64,
    packet: Seq<u8>,
    pos: int,
    e: PgsError,
    shown: Seq<DisplayView>,
) -> bool
    decreases packet.len() - pos,
{
    &&& pos < packet.len()
    &&& segment_end(packet, pos) matches Some(end) && {
        let b = packet.subrange(pos + 3, end);
        ||| shown == st.shown && segment_refused(st, packet[pos], b, e)
        ||| taken(st, time, packet[pos], b) matches Ok(n) && run_refused(
            n,
            time,
            packet,
            end,
            e,
            shown,
        )
    }
}

/// Whether a packet may be refused with `e` for want of memory when `shown` has been
/// shown.
pub open spec fn refused(
    st: PgsView,
    time: u64,
    packet: Seq<u8>,
    e: PgsError,
    shown: Seq<DisplayView>,
) -> bool {
    admitted(st, time, packet) matches Ok(s) && run_refused(s, time, packet, 0, e, shown)
}

spec fn fragment_views(v: Seq<Fragment>) -> Seq<FragmentView> {
    v.map_values(|f: Fragment| f@)
}

spec fn palette_views(v: Seq<Palette>) -> Seq<PaletteView> {
    v.map_values(|p: Palette| p@)
}

spec fn object_views(v: Seq<Object>) -> Seq<ObjectView> {
    v.map_values(|o: Object| o@)
}

/// Decodes one track. Segments must be whole within a packet; display sets and
/// objects may span packets.
pub struct PgsDecoder {
    limits: PgsLimits,
    objects: Vec<Object>,
    fragments: Vec<Fragment>,
    palettes: Vec<Palette>,
    windows: Vec<(u8, Rect)>,
    pending: Option<Composition>,
    last: Option<PgsDisplay>,
    last_packet_time: Option<u64>,
    set_bytes: usize,
    set_segments: usize,
    packets: usize,
    displays: usize,
    total_bytes: usize,
    rendered_pixels: usize,
    poisoned: bool,
    shown: Ghost<Seq<DisplayView>>,
}

impl View for PgsDecoder {
    type V = PgsView;

    closed spec fn view(&self) -> PgsView {
        PgsView {
            limits: self.limits,
            objects: object_views(self.objects@),
            fragments: fragment_views(self.fragments@),
            palettes: palette_views(self.palettes@),
            windows: self.windows@,
            pending: match self.pending {
                None => None,
                Some(c) => Some(c@),
            },
            last: match self.last {
                None => None,
                Some(d) => Some(d@),
            },
            last_packet_time: self.last_packet_time,
            set_bytes: self.set_bytes as int,
            set_segments: self.set_segments as int,
            packets: self.packets as int,
            displays: self.displays as int,
            total_bytes: self.total_bytes as int,
            rendered_pixels: self.rendered_pixels as int,
            shown: self.shown@,
        }
    }
}

/// Reserves room for `n` more bytes with `Vec::try_reserve_exact` and says whether
/// the allocator granted it. The contents stay as they are; whether room is granted
/// is up to the machine.
#[verifier::external_body]
fn reserve_exact(v: &mut Vec<u8>, n: usize) -> (granted: bool)
    ensures
        final(v)@ == old(v)@,
{
    v.try_reserve_exact(n).is_ok()
}

fn bound(value: usize, max: usize, what: &'static str) -> (r: Result<(), PgsError>)
    ensures
        r == if value > max {
            Err::<(), PgsError>(PgsError::BudgetExceeded(what))
        } else {
            Ok::<(), PgsError>(())
        },
{
    if value > max {
        Err(PgsError::BudgetExceeded(what))
    } else {
        Ok(())
    }
}

/// Adds to a counter unless that breaks its bound.
fn charge(value: &mut usize, add: usize, max: usize, what: &'static str) -> (r: Result<
    (),
    PgsError,
>)
    ensures
        if *old(value) + add > max {
            r == Err::<(), PgsError>(PgsError::BudgetExceeded(what)) && *final(value) == *old(value)
        } else {
            r == Ok::<(), PgsError>(()) && *final(value) == *old(value) + add
        },
{
    let next: usize = match value.checked_add(add) {
        Some(n) => n,
        None => return Err(PgsError::BudgetExceeded(what)),
    };
    bound(next, max, what)?;
    *value = next;
    Ok(())
}

/// Zero bytes, if the allocator grants them.
fn zeroes(len: usize) -> (r: Result<Vec<u8>, PgsError>)
    ensures
        match r {
            Ok(v) => v@ == Seq::new(len as nat, |i: int| 0u8),
            Err(e) => e == PgsError::BudgetExceeded("raster/index allocation"),
        },
{
    let mut v: Vec<u8> = Vec::new();
    if !reserve_exact(&mut v, len) {
        return Err(PgsError::BudgetExceeded("raster/index allocation"));
    }
    bytes::put_zeros(&mut v, len);
    assert(v@ =~= Seq::new(len as nat, |i: int| 0u8));
    Ok(v)
}

/// Checks an image's size and returns how many pixels it has.
fn dimensions(limits: &PgsLimits, width: u16, height: u16) -> (r: Result<usize, PgsError>)
    ensures
        match area_of(*limits, width, height) {
            Ok(n) => r is Ok && r->Ok_0 == n,
            Err(e) => r == Err::<usize, PgsError>(e),
        },
{
    if width == 0 || height == 0 {
        return Err(PgsError::Malformed("zero dimensions"));
    }
    if width > limits.max_width {
        return Err(PgsError::BudgetExceeded("width"));
    }
    if height > limits.max_height {
        return Err(PgsError::BudgetExceeded("height"));
    }
    assert(0 <= width * height <= 0xFFFF * 0xFFFF) by (nonlinear_arith)
        requires
            0 <= width <= 0xFFFF,
            0 <= height <= 0xFFFF,
    ;
    let pixels: u64 = width as u64 * height as u64;
    if pixels > limits.pixels as u64 {
        return Err(PgsError::BudgetExceeded("pixels"));
    }
    Ok(pixels as usize)
}

fn read_rect(b: &[u8], pos: usize) -> (r: Rect)
    requires
        pos + 8 <= b@.len(),
    ensures
        r == rect_at(b@, pos as int),
{
    assert(b@.len() == b.len());
    Rect {
        x: bytes::read_u16(b, pos),
        y: bytes::read_u16(b, pos + 2),
        width: bytes::read_u16(b, pos + 4),
        height: bytes::read_u16(b, pos + 6),
    }
}

/// Reads `n` composition objects from `pos` on and checks that nothing follows.
fn read_objects(b: &[u8], start: usize, n: u8) -> (r: Result<Vec<CompositionObject>, PgsError>)
    requires
        start <= b@.len(),
    ensures
        match objects_at(b@, start as int, n as int, Seq::empty()) {
            Ok((o, end)) => if end == b@.len() {
                r is Ok && r->Ok_0@ == o
            } else {
                r == Err::<Vec<CompositionObject>, PgsError>(
                    PgsError::Malformed("segment trailing bytes"),
                )
            },
            Err(e) => r == Err::<Vec<CompositionObject>, PgsError>(e),
        },
{
    let mut out: Vec<CompositionObject> = Vec::new();
    let mut pos: usize = start;
    let mut left: u8 = n;
    let len: usize = b.len();
    assert(out@ =~= Seq::empty());
    while left > 0
        invariant
            len == b@.len(),
            pos <= len,
            objects_at(b@, start as int, n as int, Seq::empty()) == objects_at(
                b@,
                pos as int,
                left as int,
                out@,
            ),
        decreases left,
    {
        if len - pos < 4 {
            return Err(PgsError::Malformed("truncated segment"));
        }
        let flags: u8 = b[pos + 3];
        if flags % 64 != 0 {
            return Err(PgsError::Malformed("composition object flags"));
        }
        if len - pos < 8 {
            return Err(PgsError::Malformed("truncated segment"));
        }
        let object_id: u16 = bytes::read_u16(b, pos);
        let window_id: u8 = b[pos + 2];
        let x: u16 = bytes::read_u16(b, pos + 4);
        let y: u16 = bytes::read_u16(b, pos + 6);
        let mut next: usize = pos + 8;
        let mut crop: Option<Rect> = None;
        if flags >= 0x80 {
            if len - pos < 16 {
                return Err(PgsError::Malformed("truncated segment"));
            }
            crop = Some(read_rect(b, pos + 8));
            next = pos + 16;
        }
        out.push(
            CompositionObject {
                object_id,
                window_id,
                forced: flags / 64 % 2 == 1,
                x,
                y,
                crop,
            },
        );
        pos = next;
        left = left - 1;
    }
    if pos != len {
        return Err(PgsError::Malformed("segment trailing bytes"));
    }
    Ok(out)
}

fn copy_objects(v: &Vec<CompositionObject>) -> (r: Vec<CompositionObject>)
    ensures
        r@ == v@,
{
    let mut out: Vec<CompositionObject> = Vec::new();
    let mut i: usize = 0;
    while i < v.len()
        invariant
            i <= v@.len(),
            out@ == v@.take(i as int),
        decreases v@.len() - i,
    {
        out.push(v[i]);
        i = i + 1;
        assert(v@.take(i as int) =~= v@.take(i - 1).push(v@[i - 1]));
    }
    assert(v@.take(i as int) =~= v@);
    out
}

fn same_image(a: &Option<PgsImage>, b: &Option<PgsImage>) -> (r: bool)
    ensures
        r == (image_view(*a) == image_view(*b)),
{
    match (a, b) {
        (None, None) => true,
        (Some(x), Some(y)) => x.rect == y.rect && bytes::slice_eq(
            x.rgba.as_slice(),
            y.rgba.as_slice(),
        ),
        _ => false,
    }
}

/// Whether no pixel can be seen.
fn all_clear(rgba: &Vec<u8>) -> (r: bool)
    ensures
        r == invisible(rgba@),
{
    let n: usize = rgba.len() / 4;
    let mut i: usize = 0;
    while i < n
        invariant
            i <= n == rgba@.len() / 4,
            4 * n <= usize::MAX,
            forall|j: int| 0 <= j < i ==> #[trigger] rgba@[4 * j + 3] == 0,
        decreases n - i,
    {
        if rgba[4 * i + 3] != 0 {
            return false;
        }
        i = i + 1;
    }
    true
}

/// Where an object of this number is.
fn find_object(objects: &Vec<Object>, id: u16) -> (r: Option<usize>)
    ensures
        match first_where(object_views(objects@), object_is(id), 0) {
            Some(i) => r is Some && r->Some_0 == i && i < objects@.len(),
            None => r is None,
        },
{
    let mut i: usize = 0;
    while i < objects.len()
        invariant
            i <= objects@.len(),
            first_where(object_views(objects@), object_is(id), 0) == first_where(
                object_views(objects@),
                object_is(id),
                i as int,
            ),
        decreases objects@.len() - i,
    {
        if objects[i].id == id {
            return Some(i);
        }
        i = i + 1;
    }
    None
}

fn find_palette(palettes: &Vec<Palette>, id: u8) -> (r: Option<usize>)
    ensures
        match first_where(palette_views(palettes@), palette_is(id), 0) {
            Some(i) => r is Some && r->Some_0 == i && i < palettes@.len(),
            None => r is None,
        },
{
    let mut i: usize = 0;
    while i < palettes.len()
        invariant
            i <= palettes@.len(),
            first_where(palette_views(palettes@), palette_is(id), 0) == first_where(
                palette_views(palettes@),
                palette_is(id),
                i as int,
            ),
        decreases palettes@.len() - i,
    {
        if palettes[i].id == id {
            return Some(i);
        }
        i = i + 1;
    }
    None
}

fn find_window(windows: &Vec<(u8, Rect)>, id: u8) -> (r: Option<usize>)
    ensures
        match first_where(windows@, window_is(id), 0) {
            Some(i) => r is Some && r->Some_0 == i && i < windows@.len(),
            None => r is None,
        },
{
    let mut i: usize = 0;
    while i < windows.len()
        invariant
            i <= windows@.len(),
            first_where(windows@, window_is(id), 0) == first_where(
                windows@,
                window_is(id),
                i as int,
            ),
        decreases windows@.len() - i,
    {
        if windows[i].0 == id {
            return Some(i);
        }
        i = i + 1;
    }
    None
}

fn find_part(fragments: &Vec<Fragment>, id: u16, version: u8) -> (r: Option<usize>)
    ensures
        match first_where(fragment_views(fragments@), part_of(id, version), 0) {
            Some(i) => r is Some && r->Some_0 == i && i < fragments@.len(),
            None => r is None,
        },
{
    let mut i: usize = 0;
    while i < fragments.len()
        invariant
            i <= fragments@.len(),
            first_where(fragment_views(fragments@), part_of(id, version), 0) == first_where(
                fragment_views(fragments@),
                part_of(id, version),
                i as int,
            ),
        decreases fragments@.len() - i,
    {
        if fragments[i].id == id && fragments[i].version == version {
            return Some(i);
        }
        i = i + 1;
    }
    None
}

/// Whether a fragment is for this object.
fn has_fragment(fragments: &Vec<Fragment>, id: u16) -> (r: bool)
    ensures
        r == (exists|i: int|
            0 <= i < fragment_views(fragments@).len() && (#[trigger] fragment_views(
                fragments@,
            )[i]).id == id),
{
    let mut i: usize = 0;
    while i < fragments.len()
        invariant
            i <= fragments@.len(),
            forall|j: int|
                0 <= j < i ==> (#[trigger] fragment_views(fragments@)[j]).id != id,
        decreases fragments@.len() - i,
    {
        if fragments[i].id == id {
            assert(fragment_views(fragments@)[i as int].id == id);
            return true;
        }
        i = i + 1;
    }
    false
}

/// Whether an object has this number.
fn is_known(objects: &Vec<Object>, id: u16) -> (r: bool)
    ensures
        r == known(object_views(objects@), id),
{
    let r = find_object(objects, id);
    proof {
        lemma_first_where(object_views(objects@), object_is(id), 0);
    }
    r.is_some()
}

/// How many fragments are for objects not yet known.
fn count_coming(objects: &Vec<Object>, fragments: &Vec<Fragment>) -> (n: usize)
    ensures
        n == coming(object_views(objects@), fragment_views(fragments@)),
{
    let mut n: usize = 0;
    let mut i: usize = 0;
    let ghost fs = fragment_views(fragments@);
    while i < fragments.len()
        invariant
            i <= fragments@.len(),
            n <= i,
            fs == fragment_views(fragments@),
            n == coming(object_views(objects@), fs.take(i as int)),
        decreases fragments@.len() - i,
    {
        assert(fs.take(i + 1).drop_last() =~= fs.take(i as int));
        if !is_known(objects, fragments[i].id) {
            n = n + 1;
        }
        i = i + 1;
    }
    assert(fs.take(i as int) =~= fs);
    n
}

/// The indices of all objects and the announced bytes of all fragments.
fn state_bytes(objects: &Vec<Object>, fragments: &Vec<Fragment>) -> (r: Result<usize, PgsError>)
    ensures
        ({
            let n = object_total(object_views(objects@)) + fragment_total(
                fragment_views(fragments@),
            );
            if n > usize::MAX {
                r == Err::<usize, PgsError>(PgsError::BudgetExceeded("object state bytes"))
            } else {
                r is Ok && r->Ok_0 == n
            }
        }),
{
    let ghost os = object_views(objects@);
    let ghost fs = fragment_views(fragments@);
    let mut n: usize = 0;
    let mut i: usize = 0;
    proof {
        lemma_fragment_total(fs);
    }
    while i < objects.len()
        invariant
            i <= objects@.len(),
            os == object_views(objects@),
            n == object_total(os.take(i as int)),
            0 <= fragment_total(fs),
            fs == fragment_views(fragments@),
        decreases objects@.len() - i,
    {
        assert(os.take(i + 1).drop_last() =~= os.take(i as int));
        proof {
            lemma_object_total(os, i + 1);
        }
        n = match n.checked_add(objects[i].pixels.len()) {
            Some(m) => m,
            None => return Err(PgsError::BudgetExceeded("object state bytes")),
        };
        i = i + 1;
    }
    assert(os.take(i as int) =~= os);
    let mut k: usize = 0;
    assert(fs.take(0) =~= Seq::empty());
    while k < fragments.len()
        invariant
            k <= fragments@.len(),
            os == object_views(objects@),
            fs == fragment_views(fragments@),
            n == object_total(os) + fragment_total(fs.take(k as int)),
        decreases fragments@.len() - k,
    {
        assert(fs.take(k + 1).drop_last() =~= fs.take(k as int));
        proof {
            lemma_fragment_prefix(fs, k + 1);
        }
        n = match n.checked_add(fragments[k].expected) {
            Some(m) => m,
            None => return Err(PgsError::BudgetExceeded("object state bytes")),
        };
        k = k + 1;
    }
    assert(fs.take(k as int) =~= fs);
    Ok(n)
}

proof fn lemma_object_total(os: Seq<ObjectView>, i: int)
    requires
        0 <= i <= os.len(),
    ensures
        object_total(os.take(i)) <= object_total(os),
    decreases os.len() - i,
{
    if i < os.len() {
        lemma_object_total(os, i + 1);
        assert(os.take(i + 1).drop_last() =~= os.take(i));
    } else {
        assert(os.take(i) =~= os);
    }
}

/// Announced sizes are sizes.
spec fn sized(fs: Seq<FragmentView>) -> bool {
    forall|i: int| 0 <= i < fs.len() ==> 0 <= (#[trigger] fs[i]).expected
}

proof fn lemma_fragment_total(fs: Seq<FragmentView>)
    requires
        sized(fs),
    ensures
        0 <= fragment_total(fs),
    decreases fs.len(),
{
    if fs.len() > 0 {
        lemma_fragment_total(fs.drop_last());
    }
}

proof fn lemma_fragment_prefix(fs: Seq<FragmentView>, i: int)
    requires
        0 <= i <= fs.len(),
        sized(fs),
    ensures
        fragment_total(fs.take(i)) <= fragment_total(fs),
    decreases fs.len() - i,
{
    if i < fs.len() {
        lemma_fragment_prefix(fs, i + 1);
        assert(fs.take(i + 1).drop_last() =~= fs.take(i));
    } else {
        assert(fs.take(i) =~= fs);
    }
}

/// The slots of a palette with the entries of a segment stored, or an error if two
/// are for one slot.
fn read_slots(b: &[u8], slots: &Vec<Option<[u8; 4]>>) -> (r: Result<
    Vec<Option<[u8; 4]>>,
    PgsError,
>)
    requires
        b@.len() >= 2,
        (b@.len() - 2) % 5 == 0,
        slots@.len() == 256,
    ensures
        ({
            let n = (b@.len() - 2) / 5;
            if repeats(b@, n) {
                r == Err::<Vec<Option<[u8; 4]>>, PgsError>(
                    PgsError::Malformed("duplicate palette entry"),
                )
            } else {
                r is Ok && r->Ok_0@ == slots_of(b@, slots@, n) && r->Ok_0@.len() == 256
            }
        }),
{
    let len: usize = b.len();
    let mut out: Vec<Option<[u8; 4]>> = Vec::new();
    let mut seen: Vec<bool> = Vec::new();
    let mut j: usize = 0;
    while j < 256
        invariant
            j <= 256,
            slots@.len() == 256,
            out@ == slots@.take(j as int),
            seen@.len() == j,
            forall|k: int| 0 <= k < j ==> !(#[trigger] seen@[k]),
        decreases 256 - j,
    {
        out.push(slots[j]);
        seen.push(false);
        j = j + 1;
        assert(slots@.take(j as int) =~= slots@.take(j - 1).push(slots@[j - 1]));
    }
    assert(out@ =~= slots@);
    let mut pos: usize = 2;
    let ghost mut n: int = 0;
    while pos < len
        invariant
            len == b@.len(),
            (len - 2) % 5 == 0,
            0 <= n,
            pos == 2 + 5 * n,
            pos <= len,
            slots@.len() == 256,
            out@ == slots_of(b@, slots@, n),
            out@.len() == 256,
            seen@.len() == 256,
            !repeats(b@, n),
            forall|e: int|
                0 <= e < 256 ==> (#[trigger] seen@[e] <==> exists|i: int|
                    0 <= i < n && #[trigger] b@[2 + 5 * i] == e),
        decreases len - pos,
    {
        let slot: usize = b[pos] as usize;
        let ghost total = (len - 2) / 5;
        assert(n < total && pos + 5 <= len);
        if seen[slot] {
            proof {
                let i = choose|i: int| 0 <= i < n && #[trigger] b@[2 + 5 * i] == slot;
                assert(b@[2 + 5 * i] == b@[2 + 5 * n]);
                assert(repeats(b@, total));
            }
            return Err(PgsError::Malformed("duplicate palette entry"));
        }
        let ghost before = seen@;
        seen.set(slot, true);
        out.set(slot, Some([b[pos + 1], b[pos + 2], b[pos + 3], b[pos + 4]]));
        proof {
            assert(out@ == slots_of(b@, slots@, n + 1)) by {
                let e = out@[slot as int]->Some_0;
                assert(e@ =~= [b@[pos + 1], b@[pos + 2], b@[pos + 3], b@[pos + 4]]@);
            }
            assert(!repeats(b@, n + 1)) by {
                if repeats(b@, n + 1) {
                    let (i, j) = choose|i: int, j: int|
                        0 <= i < j < n + 1 && #[trigger] b@[2 + 5 * i] == #[trigger] b@[2 + 5 * j];
                    if j < n {
                        assert(repeats(b@, n));
                    } else {
                        assert(before[slot as int]);
                    }
                }
            }
            assert forall|e: int| 0 <= e < 256 implies (#[trigger] seen@[e] <==> exists|i: int|
                0 <= i < n + 1 && #[trigger] b@[2 + 5 * i] == e) by {
                if e == slot {
                    assert(b@[2 + 5 * n] == e);
                } else {
                    assert(seen@[e] == before[e]);
                    if before[e] {
                        let i = choose|i: int| 0 <= i < n && #[trigger] b@[2 + 5 * i] == e;
                        assert(0 <= i < n + 1 && b@[2 + 5 * i] == e);
                    }
                }
            }
            n = n + 1;
        }
        pos = pos + 5;
    }
    Ok(out)
}

/// Reads `n` windows on a canvas of `width` by `height`.
fn read_windows(b: &[u8], n: u8, width: u16, height: u16) -> (r: Result<
    Vec<(u8, Rect)>,
    PgsError,
>)
    requires
        b@.len() >= 1,
    ensures
        match windows_at(b@, 1, n as int, width, height, Seq::empty()) {
            Ok(w) => r is Ok && r->Ok_0@ == w && windows_fit(w),
            Err(e) => r == Err::<Vec<(u8, Rect)>, PgsError>(e),
        },
{
    let mut out: Vec<(u8, Rect)> = Vec::new();
    let mut pos: usize = 1;
    let mut left: u8 = n;
    let len: usize = b.len();
    assert(out@ =~= Seq::empty());
    while left > 0
        invariant
            len == b@.len(),
            pos <= len,
            windows_fit(out@),
            windows_at(b@, 1, n as int, width, height, Seq::empty()) == windows_at(
                b@,
                pos as int,
                left as int,
                width,
                height,
                out@,
            ),
        decreases left,
    {
        if len - pos < 9 {
            return Err(PgsError::Malformed("truncated segment"));
        }
        let id: u8 = b[pos];
        let rect = read_rect(b, pos + 1);
        if rect.width == 0 || rect.height == 0 || raster::right(rect) > width as u32
            || raster::bottom(rect) > height as u32 {
            return Err(PgsError::Malformed("window outside canvas"));
        }
        let old = find_window(&out, id);
        proof {
            lemma_first_where(out@, window_is(id), 0);
        }
        if old.is_some() {
            return Err(PgsError::Malformed("duplicate window"));
        }
        out.push((id, rect));
        pos = pos + 9;
        left = left - 1;
    }
    if pos != len {
        return Err(PgsError::Malformed("segment trailing bytes"));
    }
    Ok(out)
}

/// Windows end inside the largest canvas.
spec fn windows_fit(w: Seq<(u8, Rect)>) -> bool {
    forall|i: int|
        0 <= i < w.len() ==> (#[trigger] w[i]).1.end_x() <= u16::MAX && w[i].1.end_y() <= u16::MAX
}

impl PgsDecoder {
    /// Objects have all their pixels, fragments no more than was announced, palettes
    /// all their slots, windows end inside the largest canvas, and objects are left open
    /// only while a composition is in progress.
    spec fn inv(&self) -> bool {
        &&& forall|i: int| 0 <= i < self.objects@.len() ==> (#[trigger] self.objects@[i])@.full()
        &&& forall|i: int|
            0 <= i < self.fragments@.len() ==> (#[trigger] self.fragments@[i]).data@.len()
                <= self.fragments@[i].expected
        &&& forall|i: int|
            0 <= i < self.palettes@.len() ==> (#[trigger] self.palettes@[i]).entries@.len() == 256
        &&& windows_fit(self.windows@)
        &&& self.pending is None ==> self.fragments@.len() == 0
    }

    /// A decoder holds what it needs to go on, unless it is poisoned.
    pub closed spec fn wf(&self) -> bool {
        self.poisoned || self.inv()
    }

    /// Whether an error came up.
    pub closed spec fn is_poisoned(&self) -> bool {
        self.poisoned
    }

    /// A decoder with what its view leaves out.
    pub open spec fn standing(&self) -> Standing {
        Standing { poisoned: self.is_poisoned(), view: self@ }
    }

    /// A decoder with the given bounds.
    pub fn new(limits: PgsLimits) -> (r: Self)
        ensures
            r.wf(),
            !r.is_poisoned(),
            r@ == fresh(limits),
    {
        let r = PgsDecoder {
            limits,
            objects: Vec::new(),
            fragments: Vec::new(),
            palettes: Vec::new(),
            windows: Vec::new(),
            pending: None,
            last: None,
            last_packet_time: None,
            set_bytes: 0,
            set_segments: 0,
            packets: 0,
            displays: 0,
            total_bytes: 0,
            rendered_pixels: 0,
            poisoned: false,
            shown: Ghost(Seq::empty()),
        };
        assert(r@.objects =~= Seq::empty());
        assert(r@.fragments =~= Seq::empty());
        assert(r@.palettes =~= Seq::empty());
        assert(r@.windows =~= Seq::empty());
        r
    }

    /// The composition segment.
    fn pcs(&mut self, time: u64, body: &[u8]) -> (r: Result<(), PgsError>)
        requires
            old(self).inv(),
        ensures
            final(self).shown == old(self).shown,
            final(self).poisoned == old(self).poisoned,
            match pcs_of(old(self)@, time, body@) {
                Ok(n) => r is Ok && final(self)@ == n && final(self).inv(),
                Err(e) => r == Err::<(), PgsError>(e),
            },
    {
        if self.pending.is_some() {
            return Err(PgsError::IncompleteDisplaySet);
        }
        if body.len() < 4 {
            return Err(PgsError::Malformed("truncated segment"));
        }
        let width: u16 = bytes::read_u16(body, 0);
        let height: u16 = bytes::read_u16(body, 2);
        dimensions(&self.limits, width, height)?;
        if body.len() < 8 {
            return Err(PgsError::Malformed("truncated segment"));
        }
        let rate: u8 = body[4];
        let number: u16 = bytes::read_u16(body, 5);
        let state: u8 = body[7];
        if !(state == 0 || state == 0x40 || state == 0x80) {
            return Err(PgsError::UnsupportedCompositionState(state));
        }
        if body.len() < 9 {
            return Err(PgsError::Malformed("truncated segment"));
        }
        let flag: u8 = body[8];
        if !(flag == 0 || flag == 0x80) {
            return Err(PgsError::Malformed("palette update flag"));
        }
        let update: bool = flag == 0x80;
        if body.len() < 11 {
            return Err(PgsError::Malformed("truncated segment"));
        }
        let palette: u8 = body[9];
        let count: u8 = body[10];
        bound(count as usize, self.limits.composition_objects, "composition objects")?;
        if state != 0x80 {
            if let Some(last) = &self.last {
                if last.canvas_width != width || last.canvas_height != height {
                    return Err(PgsError::Malformed("canvas changed without epoch"));
                }
            }
        }
        let mut objects = read_objects(body, 11, count)?;
        if update && count == 0 {
            if state != 0 {
                return Err(
                    PgsError::MissingState(
                        "palette update without fresh composition at epoch/acquisition",
                    ),
                );
            }
            objects = match &self.last {
                Some(last) => copy_objects(&last.objects),
                None => return Err(
                    PgsError::MissingState("palette update without committed composition"),
                ),
            };
        }
        if state != 0 {
            // A refresh: nothing decoded before it may be used again.
            self.objects.clear();
            self.fragments.clear();
            self.palettes.clear();
            self.windows.clear();
            assert(self@.objects =~= Seq::empty());
            assert(self@.fragments =~= Seq::empty());
            assert(self@.palettes =~= Seq::empty());
            assert(self@.windows =~= Seq::empty());
        }
        self.pending = Some(
            Composition { time, width, height, rate, number, state, palette, update, objects },
        );
        Ok(())
    }

    /// The palette segment.
    fn pds(&mut self, body: &[u8]) -> (r: Result<(), PgsError>)
        requires
            old(self).inv(),
        ensures
            final(self).shown == old(self).shown,
            final(self).poisoned == old(self).poisoned,
            match pds_of(old(self)@, body@) {
                Ok(n) => r is Ok && final(self)@ == n && final(self).inv(),
                Err(e) => r == Err::<(), PgsError>(e),
            },
    {
        if body.len() < 2 {
            return Err(PgsError::Malformed("truncated segment"));
        }
        let id: u8 = body[0];
        if (body.len() - 2) % 5 != 0 {
            return Err(PgsError::Malformed("palette length"));
        }
        let ghost st = self@;
        proof {
            lemma_first_where(st.palettes, palette_is(id), 0);
        }
        match find_palette(&self.palettes, id) {
            Some(i) => {
                let entries = read_slots(body, &self.palettes[i].entries)?;
                self.palettes.set(i, Palette { id, entries });
                assert(self@.palettes =~= st.palettes.update(
                    i as int,
                    PaletteView { id, entries: entries@ },
                ));
            },
            None => {
                if self.palettes.len() >= self.limits.palettes {
                    return Err(PgsError::BudgetExceeded("palettes"));
                }
                let mut blank: Vec<Option<[u8; 4]>> = Vec::new();
                let mut j: usize = 0;
                while j < 256
                    invariant
                        j <= 256,
                        blank@.len() == j,
                        forall|k: int| 0 <= k < j ==> (#[trigger] blank@[k]) is None,
                    decreases 256 - j,
                {
                    blank.push(None);
                    j = j + 1;
                }
                assert(blank@ =~= no_slots());
                let entries = read_slots(body, &blank)?;
                self.palettes.push(Palette { id, entries });
                proof {
                    let v = PaletteView { id, entries: entries@ };
                    assert(self@.palettes =~= st.palettes.push(v));
                    assert(st.palettes.push(
                        PaletteView { id, entries: no_slots() },
                    ).update(st.palettes.len() as int, v) =~= st.palettes.push(v));
                }
            },
        }
        Ok(())
    }

    /// The window segment.
    fn wds(&mut self, body: &[u8]) -> (r: Result<(), PgsError>)
        requires
            old(self).inv(),
            old(self)@.pending is Some,
        ensures
            final(self).shown == old(self).shown,
            final(self).poisoned == old(self).poisoned,
            match wds_of(old(self)@, body@) {
                Ok(n) => r is Ok && final(self)@ == n && final(self).inv(),
                Err(e) => r == Err::<(), PgsError>(e),
            },
    {
        if body.len() < 1 {
            return Err(PgsError::Malformed("truncated segment"));
        }
        let count: u8 = body[0];
        bound(count as usize, self.limits.windows, "windows")?;
        let (width, height) = match &self.pending {
            Some(c) => (c.width, c.height),
            None => (0, 0),
        };
        self.windows = read_windows(body, count, width, height)?;
        Ok(())
    }

    /// Opens the object whose first part `body` is.
    fn open_fragment(&mut self, id: u16, version: u8, body: &[u8]) -> (r: Result<(), PgsError>)
        requires
            old(self).inv(),
            old(self)@.pending is Some,
            body@.len() >= 4,
            id == bytes::get16(body@, 0),
            version == body@[2],
        ensures
            final(self).shown == old(self).shown,
            final(self).poisoned == old(self).poisoned,
            match opened(old(self)@, body@) {
                Ok(fragments) => {
                    ||| r is Ok && final(self)@ == (PgsView { fragments, ..old(self)@ }) && final(self).inv()
                    ||| r == Err::<(), PgsError>(no_data())
                },
                Err(e) => r == Err::<(), PgsError>(e),
            },
    {
        if has_fragment(&self.fragments, id) {
            return Err(PgsError::Malformed("overlapping first fragment"));
        }
        if body.len() < 7 {
            return Err(PgsError::Malformed("truncated segment"));
        }
        let announced: u32 = bytes::read_u24(body, 4);
        if announced < 4 {
            return Err(PgsError::Malformed("object data length"));
        }
        let expected: usize = (announced - 4) as usize;
        bound(expected, self.limits.object_bytes, "compressed object bytes")?;
        if body.len() < 11 {
            return Err(PgsError::Malformed("truncated segment"));
        }
        let width: u16 = bytes::read_u16(body, 7);
        let height: u16 = bytes::read_u16(body, 9);
        dimensions(&self.limits, width, height)?;
        let mut live: u128 = self.objects.len() as u128 + count_coming(
            &self.objects,
            &self.fragments,
        ) as u128;
        if !is_known(&self.objects, id) {
            live = live + 1;
        }
        if live > self.limits.objects as u128 {
            return Err(PgsError::BudgetExceeded("objects"));
        }
        let mut state: usize = state_bytes(&self.objects, &self.fragments)?;
        charge(&mut state, expected, self.limits.object_state_bytes, "object state bytes")?;
        let mut data: Vec<u8> = Vec::new();
        if !reserve_exact(&mut data, expected) {
            return Err(PgsError::BudgetExceeded("object allocation"));
        }
        let ghost st = self@;
        let f = Fragment { id, version, width, height, expected, data };
        let ghost v = f@;
        self.fragments.push(f);
        proof {
            assert(v.data =~= Seq::empty());
            assert(self@.fragments =~= st.fragments.push(v));
        }
        Ok(())
    }

    /// Adds a part to the object in fragment `index`, and decodes it if that was the
    /// last.
    fn extend_fragment(&mut self, index: usize, chunk: &[u8], last: bool) -> (r: Result<
        (),
        PgsError,
    >)
        requires
            old(self).inv(),
            index < old(self)@.fragments.len(),
        ensures
            final(self).shown == old(self).shown,
            final(self).poisoned == old(self).poisoned,
            ({
                ||| match extended(old(self)@, index as int, chunk@, last) {
                    Ok(n) => r is Ok && final(self)@ == n && final(self).inv(),
                    Err(e) => r == Err::<(), PgsError>(e),
                }
                ||| r == Err::<(), PgsError>(no_pixels()) && asks_pixels(
                    old(self)@,
                    index as int,
                    chunk@,
                    last,
                )
            }),
    {
        let ghost st = self@;
        let ghost f = st.fragments[index as int];
        assert(f == self.fragments@[index as int]@);
        if chunk.len() > self.fragments[index].expected - self.fragments[index].data.len() {
            return Err(PgsError::Malformed("object length overflow"));
        }
        let have: usize = self.fragments[index].data.len() + chunk.len();
        let expected: usize = self.fragments[index].expected;
        if !last {
            if have == expected {
                return Err(PgsError::Malformed("missing last fragment flag"));
            }
            bytes::put_slice(&mut self.fragments[index].data, chunk);
            assert(self@.fragments =~= st.fragments.update(
                index as int,
                FragmentView { data: f.data + chunk@, ..f },
            ));
            return Ok(());
        }
        if have != expected {
            return Err(PgsError::Malformed("short last fragment"));
        }
        let width: u16 = self.fragments[index].width;
        let height: u16 = self.fragments[index].height;
        let id: u16 = self.fragments[index].id;
        let pixels: usize = dimensions(&self.limits, width, height)?;
        let mut state: usize = state_bytes(&self.objects, &self.fragments)?;
        charge(&mut state, pixels, self.limits.object_state_bytes, "object state bytes")?;
        let mut out: Vec<u8> = Vec::new();
        if !reserve_exact(&mut out, pixels) {
            return Err(PgsError::BudgetExceeded("raster/index allocation"));
        }
        bytes::put_slice(&mut self.fragments[index].data, chunk);
        let decoded = raster::decode_rle(
            self.fragments[index].data.as_slice(),
            width,
            height,
            out,
        )?;
        let object = Object { id, width, height, pixels: decoded };
        let ghost v = object@;
        self.fragments.remove(index);
        proof {
            assert(self@.fragments =~= st.fragments.remove(index as int));
            lemma_first_where(st.objects, object_is(id), 0);
        }
        match find_object(&self.objects, id) {
            Some(i) => {
                self.objects.set(i, object);
                assert(self@.objects =~= st.objects.update(i as int, v));
            },
            None => {
                self.objects.push(object);
                assert(self@.objects =~= st.objects.push(v));
            },
        }
        Ok(())
    }

    /// The object segment.
    fn ods(&mut self, body: &[u8]) -> (r: Result<(), PgsError>)
        requires
            old(self).inv(),
            old(self)@.pending is Some,
        ensures
            final(self).shown == old(self).shown,
            final(self).poisoned == old(self).poisoned,
            ({
                ||| match ods_of(old(self)@, body@) {
                    Ok(n) => r is Ok && final(self)@ == n && final(self).inv(),
                    Err(e) => r == Err::<(), PgsError>(e),
                }
                ||| r is Err && object_refused(old(self)@, body@, r->Err_0)
            }),
    {
        if body.len() < 4 {
            return Err(PgsError::Malformed("truncated segment"));
        }
        let n: usize = body.len();
        let id: u16 = bytes::read_u16(body, 0);
        let version: u8 = body[2];
        let flags: u8 = body[3];
        if flags % 64 != 0 {
            return Err(PgsError::Malformed("object sequence flags"));
        }
        let last: bool = flags / 64 % 2 == 1;
        if flags >= 0x80 {
            let index: usize = self.fragments.len();
            self.open_fragment(id, version, body)?;
            assert(body@.subrange(11, n as int) =~= body@.skip(11));
            self.extend_fragment(index, &body[11..n], last)
        } else {
            let index: usize = match find_part(&self.fragments, id, version) {
                Some(i) => i,
                None => return Err(PgsError::MissingState("matching object fragment")),
            };
            assert(body@.subrange(4, n as int) =~= body@.skip(4));
            self.extend_fragment(index, &body[4..n], last)
        }
    }
}

/// The frame holds all that is shown.
proof fn lemma_frame(ps: Seq<PlacementView>)
    requires
        forall|i: int|
            0 <= i < ps.len() ==> (#[trigger] ps[i]).clip.end_x() <= u16::MAX && ps[i].clip.end_y()
                <= u16::MAX,
    ensures
        ps.len() > 0 <==> frame_of(ps) is Some,
        frame_of(ps) matches Some(r) ==> r.end_x() <= u16::MAX && r.end_y() <= u16::MAX && forall|
            i: int,
        |
            0 <= i < ps.len() ==> r.covers((#[trigger] ps[i]).clip),
    decreases ps.len(),
{
    if ps.len() > 0 {
        let rest = ps.drop_last();
        assert forall|i: int| 0 <= i < rest.len() implies (#[trigger] rest[i]).clip.end_x()
            <= u16::MAX && rest[i].clip.end_y() <= u16::MAX by {
            assert(rest[i] == ps[i]);
        }
        lemma_frame(rest);
        let l = ps[ps.len() - 1].clip;
        assert(l.end_x() <= u16::MAX && l.end_y() <= u16::MAX);
        if rest.len() > 0 {
            let r = frame_of(rest)->Some_0;
            raster::law_around(r, l);
            assert forall|i: int| 0 <= i < ps.len() implies raster::around(r, l).covers(
                (#[trigger] ps[i]).clip,
            ) by {
                if i < rest.len() {
                    assert(rest[i] == ps[i]);
                }
            }
        }
    }
}

/// What the placements found so far share.
spec fn placed_well(ps: Seq<Placement>, objects: Seq<Object>) -> bool {
    forall|i: int|
        0 <= i < ps.len() ==> (#[trigger] ps[i]).object < objects.len() && paint::placement_view(
            ps[i],
            objects,
        ).fits() && ps[i].clip.end_x() <= u16::MAX && ps[i].clip.end_y() <= u16::MAX && ps[i].clip.width > 0 && ps[i].clip.height > 0
}

impl PgsDecoder {
    /// Where a composition object goes.
    fn place(&self, o: &CompositionObject) -> (r: Result<Option<Placement>, PgsError>)
        requires
            self.inv(),
        ensures
            match placed(self@, *o) {
                Ok(None) => r is Ok && r->Ok_0 is None,
                Ok(Some(p)) => r is Ok && r->Ok_0 is Some && paint::placement_view(
                    r->Ok_0->Some_0,
                    self.objects@,
                ) == p && placed_well(seq![r->Ok_0->Some_0], self.objects@),
                Err(e) => r == Err::<Option<Placement>, PgsError>(e),
            },
    {
        proof {
            lemma_first_where(self@.windows, window_is(o.window_id), 0);
        }
        let i: usize = match find_object(&self.objects, o.object_id) {
            Some(i) => i,
            None => return Err(PgsError::MissingState("object")),
        };
        let k: usize = match find_window(&self.windows, o.window_id) {
            Some(k) => k,
            None => return Err(PgsError::MissingState("window")),
        };
        let object = &self.objects[i];
        assert(self@.objects[i as int] == object@);
        assert(object@.full());
        let window: Rect = self.windows[k].1;
        assert(self.windows@[k as int].1.end_x() <= u16::MAX);
        let crop: Rect = match o.crop {
            Some(c) => c,
            None => Rect { x: 0, y: 0, width: object.width, height: object.height },
        };
        if crop.width == 0 || crop.height == 0 || raster::right(crop) > object.width as u32
            || raster::bottom(crop) > object.height as u32 {
            return Err(PgsError::Malformed("object crop"));
        }
        // The crop picks pixels of the object; the composition says where they go.
        let dest = Rect { x: o.x, y: o.y, width: crop.width, height: crop.height };
        match raster::intersect(dest, window) {
            None => Ok(None),
            Some(clip) => Ok(Some(Placement { object: i, crop, dest, clip })),
        }
    }

    /// Where all objects of a composition go.
    fn place_all(&self, objects: &Vec<CompositionObject>) -> (r: Result<Vec<Placement>, PgsError>)
        requires
            self.inv(),
        ensures
            match placements(self@, objects@, objects@.len() as int) {
                Ok(ps) => r is Ok && paint::placement_views(r->Ok_0@, self.objects@) == ps
                    && placed_well(r->Ok_0@, self.objects@),
                Err(e) => r == Err::<Vec<Placement>, PgsError>(e),
            },
    {
        let mut ps: Vec<Placement> = Vec::new();
        let mut i: usize = 0;
        assert(paint::placement_views(ps@, self.objects@) =~= Seq::empty());
        while i < objects.len()
            invariant
                i <= objects@.len(),
                self.inv(),
                placements(self@, objects@, i as int) == Ok::<Seq<PlacementView>, PgsError>(
                    paint::placement_views(ps@, self.objects@),
                ),
                placed_well(ps@, self.objects@),
            decreases objects@.len() - i,
        {
            let placed_here = match self.place(&objects[i]) {
                Ok(p) => p,
                Err(e) => {
                    proof {
                        lemma_placements_err(self@, objects@, i + 1, objects@.len() as int);
                    }
                    return Err(e);
                },
            };
            match placed_here {
                Some(p) => {
                    let ghost before = paint::placement_views(ps@, self.objects@);
                    let ghost v = paint::placement_view(p, self.objects@);
                    assert(placed_well(seq![p], self.objects@));
                    assert(seq![p][0] == p);
                    ps.push(p);
                    assert(paint::placement_views(ps@, self.objects@) =~= before.push(v));
                },
                None => {},
            }
            i = i + 1;
        }
        Ok(ps)
    }

    /// Renders a composition, and returns how many pixels were rendered by then.
    fn render(&self, c: &Composition) -> (r: Result<(Option<PgsImage>, usize), PgsError>)
        requires
            self.inv(),
        ensures
            match rendered(self@, c@) {
                Ok((image, n)) => {
                    ||| r is Ok && image_view(r->Ok_0.0) == image && r->Ok_0.1 == n
                    ||| r == Err::<(Option<PgsImage>, usize), PgsError>(no_pixels()) && asks_image(
                        self@,
                        c@,
                    )
                },
                Err(e) => r == Err::<(Option<PgsImage>, usize), PgsError>(e),
            },
    {
        if c.objects.is_empty() {
            return Ok((None, self.rendered_pixels));
        }
        let k: usize = match find_palette(&self.palettes, c.palette) {
            Some(k) => k,
            None => return Err(PgsError::MissingState("palette")),
        };
        assert(self@.palettes[k as int] == self.palettes@[k as int]@);
        assert(self.palettes@[k as int].entries@.len() == 256);
        let ps = self.place_all(&c.objects)?;
        let ghost views = paint::placement_views(ps@, self.objects@);
        proof {
            assert forall|i: int| 0 <= i < views.len() implies (#[trigger] views[i]).clip.end_x()
                <= u16::MAX && views[i].clip.end_y() <= u16::MAX by {
                assert(ps@[i].clip == views[i].clip);
            }
            lemma_frame(views);
        }
        if ps.is_empty() {
            return Ok((None, self.rendered_pixels));
        }
        let mut rect: Rect = ps[0].clip;
        let mut i: usize = 1;
        proof {
            assert(views.take(1).drop_last() =~= Seq::empty());
            assert(views.take(1).last() == views[0]);
            assert(frame_of(views.take(1).drop_last()) is None);
        }
        while i < ps.len()
            invariant
                1 <= i <= ps@.len(),
                views == paint::placement_views(ps@, self.objects@),
                placed_well(ps@, self.objects@),
                frame_of(views.take(i as int)) == Some(rect),
                rect.end_x() <= u16::MAX,
                rect.end_y() <= u16::MAX,
            decreases ps@.len() - i,
        {
            proof {
                assert(ps@[i as int].clip.end_x() <= u16::MAX);
                assert(views.take(i + 1).drop_last() =~= views.take(i as int));
                assert(views.take(i + 1).last().clip == ps@[i as int].clip);
                raster::law_around(rect, ps@[i as int].clip);
            }
            rect = raster::unite(rect, ps[i].clip);
            i = i + 1;
        }
        assert(views.take(i as int) =~= views);
        let area: usize = dimensions(&self.limits, rect.width, rect.height)?;
        let mut total: usize = self.rendered_pixels;
        charge(&mut total, area, self.limits.total_render_pixels, "total render pixels")?;
        let live: usize = match &self.last {
            Some(d) => match &d.image {
                Some(im) => im.rgba.len(),
                None => 0,
            },
            None => 0,
        };
        if live as u128 + area as u128 * 4 > self.limits.raster_bytes as u128 {
            return Err(PgsError::BudgetExceeded("raster bytes"));
        }
        let mut pixels = zeroes(area * 4)?;
        proof {
            assert forall|j: int| 0 <= j < self.objects@.len() implies (
            #[trigger] self.objects@[j]).width * self.objects@[j].height <= usize::MAX by {
                assert(self.objects@[j]@.full());
                assert(self.objects@[j].pixels.len() == self.objects@[j].pixels@.len());
            }
            assert forall|j: int| 0 <= j < ps@.len() implies (#[trigger] ps@[j]).object
                < self.objects@.len() && paint::placement_view(ps@[j], self.objects@).fits()
                && rect.covers(ps@[j].clip) by {
                assert(views[j].clip == ps@[j].clip);
            }
        }
        paint::paint(&self.objects, &ps, &self.palettes[k].entries, rect, &mut pixels);
        if all_clear(&pixels) {
            return Ok((None, total));
        }
        Ok((Some(PgsImage { rect, rgba: pixels }), total))
    }

    /// Commits the display set.
    fn commit(&mut self) -> (r: Result<(), PgsError>)
        requires
            old(self).inv(),
            old(self)@.pending is Some,
        ensures
            final(self).poisoned == old(self).poisoned,
            match committed(old(self)@) {
                Ok(n) => {
                    ||| r is Ok && final(self)@ == n && final(self).inv()
                    ||| r is Err && commit_refused(old(self)@, r->Err_0) && final(self).shown
                        == old(self).shown
                },
                Err(e) => r == Err::<(), PgsError>(e) && final(self).shown == old(self).shown,
            },
    {
        if !self.fragments.is_empty() {
            return Err(PgsError::IncompleteDisplaySet);
        }
        let ghost st = self@;
        charge(&mut self.displays, 1, self.limits.displays, "displays")?;
        let c = match self.pending.take() {
            Some(c) => c,
            None => return Err(PgsError::IncompleteDisplaySet),
        };
        proof {
            lemma_rendered_same(st, self@, c@);
        }
        let (image, rendered_pixels) = self.render(&c)?;
        self.rendered_pixels = rendered_pixels;
        let (unchanged, previous_timestamp_ns): (bool, Option<u64>) = match &self.last {
            Some(old) => (
                old.canvas_width == c.width && old.canvas_height == c.height && same_image(
                    &old.image,
                    &image,
                ),
                Some(old.timestamp_ns),
            ),
            None => (false, None),
        };
        let d = PgsDisplay {
            timestamp_ns: c.time,
            previous_timestamp_ns,
            canvas_width: c.width,
            canvas_height: c.height,
            frame_rate_code: c.rate,
            composition_number: c.number,
            composition_state: c.state,
            palette_id: c.palette,
            palette_update: c.update,
            objects: c.objects,
            image,
            unchanged,
        };
        proof {
            self.shown@ = self.shown@.push(d@);
        }
        self.last = Some(d);
        Ok(())
    }
}

/// An error among the first objects is that of all.
proof fn lemma_placements_err(st: PgsView, objects: Seq<CompositionObject>, i: int, n: int)
    requires
        0 <= i <= n,
        placements(st, objects, i) is Err,
    ensures
        placements(st, objects, n) == placements(st, objects, i),
    decreases n - i,
{
    if i < n {
        lemma_placements_err(st, objects, i, n - 1);
    }
}

/// What is rendered depends on the resources, the bounds and the display before.
proof fn lemma_rendered_same(a: PgsView, b: PgsView, c: CompositionView)
    requires
        a.limits == b.limits,
        a.objects == b.objects,
        a.palettes == b.palettes,
        a.windows == b.windows,
        a.last == b.last,
        a.rendered_pixels == b.rendered_pixels,
    ensures
        rendered(a, c) == rendered(b, c),
        asks_image(a, c) == asks_image(b, c),
{
    lemma_placements_same(a, b, c.objects, c.objects.len() as int);
}

proof fn lemma_placements_same(a: PgsView, b: PgsView, objects: Seq<CompositionObject>, n: int)
    requires
        a.objects == b.objects,
        a.windows == b.windows,
    ensures
        placements(a, objects, n) == placements(b, objects, n),
    decreases n,
{
    if n > 0 {
        lemma_placements_same(a, b, objects, n - 1);
        assert(placed(a, objects[n - 1]) == placed(b, objects[n - 1]));
    }
}

/// `f` was called with a display of this value.
pub open spec fn emitted<F: FnMut(&PgsDisplay)>(f: F, v: DisplayView) -> bool {
    exists|d: &PgsDisplay| d@ == v && #[trigger] call_ensures(f, (d,), ())
}

/// What takes displays, one after the other.
trait Receiver: Sized {
    /// What does not change.
    type Kept;

    spec fn kept(&self) -> Self::Kept;

    spec fn ready(&self) -> bool;

    /// What was taken so far.
    spec fn received(&self) -> Seq<DisplayView>;

    fn receive(&mut self, d: &PgsDisplay)
        requires
            old(self).ready(),
        ensures
            final(self).ready(),
            final(self).kept() == old(self).kept(),
            final(self).received() == old(self).received().push(d@),
    ;
}

/// The values of displays.
pub open spec fn display_views(v: Seq<PgsDisplay>) -> Seq<DisplayView> {
    v.map_values(|d: PgsDisplay| d@)
}

fn copy_display(d: &PgsDisplay) -> (r: PgsDisplay)
    ensures
        r@ == d@,
{
    PgsDisplay {
        timestamp_ns: d.timestamp_ns,
        previous_timestamp_ns: d.previous_timestamp_ns,
        canvas_width: d.canvas_width,
        canvas_height: d.canvas_height,
        frame_rate_code: d.frame_rate_code,
        composition_number: d.composition_number,
        composition_state: d.composition_state,
        palette_id: d.palette_id,
        palette_update: d.palette_update,
        objects: copy_objects(&d.objects),
        image: match &d.image {
            None => None,
            Some(i) => Some(PgsImage { rect: i.rect, rgba: bytes::to_vec(i.rgba.as_slice()) }),
        },
        unchanged: d.unchanged,
    }
}

impl Receiver for Vec<PgsDisplay> {
    type Kept = ();

    spec fn kept(&self) -> () {
        ()
    }

    spec fn ready(&self) -> bool {
        true
    }

    spec fn received(&self) -> Seq<DisplayView> {
        display_views(self@)
    }

    fn receive(&mut self, d: &PgsDisplay) {
        let ghost before = display_views(self@);
        self.push(copy_display(d));
        assert(display_views(self@) =~= before.push(d@));
    }
}

/// Calls `emit` with each display.
struct Caller<F: FnMut(&PgsDisplay)> {
    emit: F,
    received: Ghost<Seq<DisplayView>>,
}

impl<F: FnMut(&PgsDisplay)> Receiver for Caller<F> {
    type Kept = F;

    spec fn kept(&self) -> F {
        self.emit
    }

    spec fn ready(&self) -> bool {
        &&& forall|d: &PgsDisplay| call_requires(self.emit, (d,))
        &&& forall|i: int|
            0 <= i < self.received@.len() ==> emitted(self.emit, #[trigger] self.received@[i])
    }

    spec fn received(&self) -> Seq<DisplayView> {
        self.received@
    }

    fn receive(&mut self, d: &PgsDisplay) {
        (self.emit)(d);
        self.received = Ghost(self.received@.push(d@));
    }
}

/// A decoder with what its view leaves out: whether an error came up.
pub struct Standing {
    pub poisoned: bool,
    pub view: PgsView,
}

/// What taking a packet may do. What was shown before stays shown. An error ends the use
/// of the decoder. Whether the allocator grants the memory that objects and images need
/// is up to the machine: only where some is asked for may a packet be refused for that.
pub open spec fn takes(
    a: Standing,
    time: u64,
    packet: Seq<u8>,
    r: Result<(), PgsError>,
    b: Standing,
) -> bool {
    &&& b.poisoned == r is Err
    &&& a.view.shown.is_prefix_of(b.view.shown)
    &&& if a.poisoned {
        r == Err::<(), PgsError>(PgsError::Poisoned) && b == a
    } else {
        match r {
            Ok(_) => pushed(a.view, time, packet).1 == Ok::<PgsView, PgsError>(b.view),
            Err(e) => {
                ||| pushed(a.view, time, packet).1 == Err::<PgsView, PgsError>(e) && b.view.shown
                    == pushed(a.view, time, packet).0
                ||| refused(a.view, time, packet, e, b.view.shown)
            },
        }
    }
}

/// What the end of a track does.
pub open spec fn ends(a: Standing, r: Result<(), PgsError>, b: Standing) -> bool {
    &&& b == (Standing { poisoned: r is Err, view: a.view })
    &&& r == if a.poisoned {
        Err::<(), PgsError>(PgsError::Poisoned)
    } else if a.view.pending is Some || a.view.fragments.len() > 0 {
        Err::<(), PgsError>(PgsError::IncompleteDisplaySet)
    } else {
        Ok::<(), PgsError>(())
    }
}

/// The displays that `b` has shown since `a`.
pub open spec fn gained(a: PgsView, b: PgsView) -> Seq<DisplayView> {
    b.shown.skip(a.shown.len() as int)
}

impl PgsDecoder {
    /// Takes one segment.
    fn take_segment(&mut self, time: u64, kind: u8, body: &[u8]) -> (r: Result<(), PgsError>)
        requires
            old(self).inv(),
        ensures
            final(self).poisoned == old(self).poisoned,
            r is Err ==> final(self).shown == old(self).shown,
            ({
                ||| match taken(old(self)@, time, kind, body@) {
                    Ok(n) => r is Ok && final(self)@ == n && final(self).inv(),
                    Err(e) => r == Err::<(), PgsError>(e),
                }
                ||| r is Err && segment_refused(old(self)@, kind, body@, r->Err_0)
            }),
    {
        let n: usize = body.len();
        if n > usize::MAX - 3 {
            return Err(PgsError::BudgetExceeded("display set bytes"));
        }
        charge(
            &mut self.set_bytes,
            n + 3,
            self.limits.display_set_bytes,
            "display set bytes",
        )?;
        charge(
            &mut self.set_segments,
            1,
            self.limits.segments_per_display,
            "display set segments",
        )?;
        if kind != PCS && self.pending.is_none() {
            return Err(PgsError::MissingState("segment before PCS"));
        }
        if kind == PCS {
            self.pcs(time, body)
        } else if kind == PDS {
            self.pds(body)
        } else if kind == ODS {
            self.ods(body)
        } else if kind == WDS {
            self.wds(body)
        } else if kind == END {
            if !body.is_empty() {
                return Err(PgsError::Malformed("nonempty END"));
            }
            self.commit()?;
            self.set_bytes = 0;
            self.set_segments = 0;
            Ok(())
        } else {
            Err(PgsError::UnsupportedSegment(kind))
        }
    }

    /// Takes a packet's segments from its start on, and hands each display that they
    /// commit to `out`, once and in order.
    fn push<R: Receiver>(&mut self, time: u64, packet: &[u8], out: &mut R) -> (r: Result<
        (),
        PgsError,
    >)
        requires
            old(self).inv(),
            old(out).ready(),
        ensures
            final(out).ready(),
            final(out).kept() == old(out).kept(),
            final(out).received() == old(out).received() + gained(old(self)@, final(self)@),
            final(self).poisoned == old(self).poisoned,
            old(self).shown@.is_prefix_of(final(self).shown@),
            r is Ok ==> pushed(old(self)@, time, packet@).1 == Ok::<PgsView, PgsError>(final(self)@)
                && final(self).inv(),
            r matches Err(e) ==> {
                ||| pushed(old(self)@, time, packet@).1 == Err::<PgsView, PgsError>(e) && final(
                    self).shown@ == pushed(old(self)@, time, packet@).0
                ||| refused(old(self)@, time, packet@, e, final(self).shown@)
            },
    {
        assert(out.received() =~= old(out).received() + gained(old(self)@, self@));
        if time > self.limits.max_timestamp_ns {
            return Err(PgsError::InvalidTimestamp);
        }
        if let Some(t) = self.last_packet_time {
            if time < t {
                return Err(PgsError::InvalidTimestamp);
            }
        }
        self.last_packet_time = Some(time);
        let len: usize = packet.len();
        bound(len, self.limits.packet_bytes, "packet bytes")?;
        charge(&mut self.packets, 1, self.limits.packets, "packets")?;
        charge(
            &mut self.total_bytes,
            len,
            self.limits.total_packet_bytes,
            "total packet bytes",
        )?;
        if len == 0 {
            return Err(PgsError::Malformed("empty packet"));
        }
        let ghost all = ran(self@, time, packet@, 0);
        assert(all == pushed(old(self)@, time, packet@));
        let mut pos: usize = 0;
        while pos < len
            invariant
                len == packet@.len(),
                pos <= len,
                self.inv(),
                self.poisoned == old(self).poisoned,
                all == ran(self@, time, packet@, pos as int),
                all == pushed(old(self)@, time, packet@),
                forall|e: PgsError, shown: Seq<DisplayView>| #[trigger]
                    run_refused(self@, time, packet@, pos as int, e, shown) ==> refused(
                        old(self)@,
                        time,
                        packet@,
                        e,
                        shown,
                    ),
                out.ready(),
                out.kept() == old(out).kept(),
                old(self).shown@.is_prefix_of(self.shown@),
                out.received() == old(out).received() + gained(old(self)@, self@),
            decreases len - pos,
        {
            proof {
                lemma_shown_grows(self@, time, packet@, pos as int);
            }
            if len - pos < 3 {
                return Err(PgsError::Malformed("truncated segment"));
            }
            let kind: u8 = packet[pos];
            let size: usize = bytes::read_u16(packet, pos + 1) as usize;
            if len - pos - 3 < size {
                return Err(PgsError::Malformed("truncated segment"));
            }
            let end: usize = pos + 3 + size;
            assert(segment_end(packet@, pos as int) == Some(end as int));
            let ghost before = self@;
            let segment = &packet[pos + 3..end];
            if let Err(e) = self.take_segment(time, kind, segment) {
                proof {
                    if segment_refused(before, kind, segment@, e) {
                        assert(run_refused(before, time, packet@, pos as int, e, self.shown@));
                    }
                }
                return Err(e);
            }
            proof {
                assert forall|e: PgsError, shown: Seq<DisplayView>| #[trigger]
                    run_refused(self@, time, packet@, end as int, e, shown) implies refused(
                    old(self)@,
                    time,
                    packet@,
                    e,
                    shown,
                ) by {
                    assert(run_refused(before, time, packet@, pos as int, e, shown));
                }
                lemma_taken_shows(before, time, kind, packet@.subrange(pos + 3, end as int));
            }
            if kind == END {
                match &self.last {
                    Some(d) => {
                        out.receive(d);
                    },
                    None => {},
                }
            }
            proof {
                assert(old(self).shown@.is_prefix_of(self.shown@));
                assert(out.received() =~= old(out).received() + gained(old(self)@, self@));
            }
            pos = end;
        }
        Ok(())
    }

    /// Takes a packet for `out`.
    fn take_packet<R: Receiver>(&mut self, time: u64, packet: &[u8], out: &mut R) -> (r: Result<
        (),
        PgsError,
    >)
        requires
            old(self).wf(),
            old(out).ready(),
        ensures
            final(self).wf(),
            takes(old(self).standing(), time, packet@, r, final(self).standing()),
            final(out).ready(),
            final(out).kept() == old(out).kept(),
            final(out).received() == old(out).received() + gained(old(self)@, final(self)@),
    {
        if self.poisoned {
            assert(out.received() =~= old(out).received() + gained(old(self)@, self@));
            return Err(PgsError::Poisoned);
        }
        let result = self.push(time, packet, out);
        if result.is_err() {
            self.poisoned = true;
        }
        result
    }

    /// Takes one packet and calls `emit` with each display that it commits: those are
    /// the ones that [`PgsView::shown`] gains. An error ends the use of the decoder, but
    /// not of what it showed before. That `emit` is called once for each display and in
    /// their order cannot be said of a closure: [`PgsDecoder::collect_packet`] says it of
    /// a list, and both hand displays on in the same way.
    pub fn push_packet(
        &mut self,
        timestamp_ns: u64,
        packet: &[u8],
        emit: impl FnMut(&PgsDisplay),
    ) -> (r: Result<(), PgsError>)
        requires
            old(self).wf(),
            forall|d: &PgsDisplay| call_requires(emit, (d,)),
        ensures
            final(self).wf(),
            takes(old(self).standing(), timestamp_ns, packet@, r, final(self).standing()),
            forall|i: int|
                old(self)@.shown.len() <= i < final(self)@.shown.len() ==> emitted(
                    emit,
                    #[trigger] final(self)@.shown[i],
                ),
    {
        let mut out = Caller { emit, received: Ghost(Seq::empty()) };
        let r = self.take_packet(timestamp_ns, packet, &mut out);
        proof {
            let n = old(self)@.shown.len();
            assert(out.received@ =~= gained(old(self)@, self@));
            assert forall|i: int| n <= i < self@.shown.len() implies emitted(
                emit,
                #[trigger] self@.shown[i],
            ) by {
                assert(out.received@[i - n] == self@.shown[i]);
            }
        }
        r
    }

    /// Takes one packet as [`PgsDecoder::push_packet`] does, and appends a copy of each
    /// display that it commits to `out`, once and in order, also where the packet is
    /// refused in the end.
    pub fn collect_packet(
        &mut self,
        timestamp_ns: u64,
        packet: &[u8],
        out: &mut Vec<PgsDisplay>,
    ) -> (r: Result<(), PgsError>)
        requires
            old(self).wf(),
        ensures
            final(self).wf(),
            takes(old(self).standing(), timestamp_ns, packet@, r, final(self).standing()),
            display_views(final(out)@) == display_views(old(out)@) + gained(
                old(self)@,
                final(self)@,
            ),
    {
        self.take_packet(timestamp_ns, packet, out)
    }

    /// Says whether the track ended between display sets: no composition is in progress.
    pub fn finish(&mut self) -> (r: Result<(), PgsError>)
        ensures
            old(self).wf() ==> final(self).wf(),
            ends(old(self).standing(), r, final(self).standing()),
            old(self).wf() && !old(self).is_poisoned() ==> r is Ok == old(self)@.pending is None,
    {
        if self.poisoned {
            return Err(PgsError::Poisoned);
        }
        if self.pending.is_some() || !self.fragments.is_empty() {
            self.poisoned = true;
            return Err(PgsError::IncompleteDisplaySet);
        }
        Ok(())
    }
}

/// Between display sets no object is left open.
pub proof fn law_between_sets(d: PgsDecoder)
    requires
        d.wf(),
        !d.is_poisoned(),
    ensures
        d@.pending is None ==> d@.fragments.len() == 0,
{
}

/// An error ends the use of a decoder: every later packet, and the end of the track, is
/// refused in the same words and changes nothing. What was shown before the error, by
/// the same packet too, stays shown.
pub proof fn law_error_is_final(
    a: Standing,
    time: u64,
    packet: Seq<u8>,
    r: Result<(), PgsError>,
    b: Standing,
    later: u64,
    next: Seq<u8>,
    again: Result<(), PgsError>,
    c: Standing,
)
    requires
        r is Err,
        takes(a, time, packet, r, b) || ends(a, r, b),
        takes(b, later, next, again, c) || ends(b, again, c),
    ensures
        again == Err::<(), PgsError>(PgsError::Poisoned),
        c == b,
        a.view.shown.is_prefix_of(b.view.shown),
{
}

/// What was shown stays shown.
proof fn lemma_shown_grows(st: PgsView, time: u64, packet: Seq<u8>, pos: int)
    ensures
        st.shown.is_prefix_of(ran(st, time, packet, pos).0),
    decreases packet.len() - pos,
{
    if pos < packet.len() {
        if let Some(end) = segment_end(packet, pos) {
            let b = packet.subrange(pos + 3, end);
            if let Ok(n) = taken(st, time, packet[pos], b) {
                lemma_taken_shows(st, time, packet[pos], b);
                lemma_shown_grows(n, time, packet, end);
                let all = ran(n, time, packet, end).0;
                assert(st.shown =~= n.shown.subrange(0, st.shown.len() as int));
                assert(n.shown =~= all.subrange(0, n.shown.len() as int));
                assert(st.shown =~= all.subrange(0, st.shown.len() as int));
            }
        }
    }
}

/// Only END shows something, and then one display.
proof fn lemma_taken_shows(st: PgsView, time: u64, kind: u8, b: Seq<u8>)
    ensures
        taken(st, time, kind, b) matches Ok(n) ==> if kind == END {
            n.last is Some && n.shown == st.shown.push(n.last->Some_0)
        } else {
            n.shown == st.shown && n.last == st.last
        },
{
    if kind == ODS {
        lemma_ods_shows(
            PgsView {
                set_bytes: st.set_bytes + b.len() + 3,
                set_segments: st.set_segments + 1,
                ..st
            },
            b,
        );
    }
}

proof fn lemma_ods_shows(st: PgsView, b: Seq<u8>)
    ensures
        ods_of(st, b) matches Ok(n) ==> n == (PgsView {
            objects: n.objects,
            fragments: n.fragments,
            ..st
        }),
{
}

/// The lifetime bounds and those of the display set in progress hold.
pub open spec fn within(st: PgsView) -> bool {
    &&& st.packets <= st.limits.packets
    &&& st.displays <= st.limits.displays
    &&& st.total_bytes <= st.limits.total_packet_bytes
    &&& st.rendered_pixels <= st.limits.total_render_pixels
    &&& st.set_bytes <= st.limits.display_set_bytes
    &&& st.set_segments <= st.limits.segments_per_display
}

proof fn lemma_taken_within(st: PgsView, time: u64, kind: u8, b: Seq<u8>)
    requires
        within(st),
    ensures
        taken(st, time, kind, b) matches Ok(n) ==> within(n) && n.limits == st.limits
            && n.last_packet_time == st.last_packet_time,
{
    if kind == ODS {
        lemma_ods_shows(
            PgsView {
                set_bytes: st.set_bytes + b.len() + 3,
                set_segments: st.set_segments + 1,
                ..st
            },
            b,
        );
    }
}

proof fn lemma_ran_within(st: PgsView, time: u64, packet: Seq<u8>, pos: int)
    requires
        within(st),
    ensures
        ran(st, time, packet, pos).1 matches Ok(n) ==> within(n) && n.limits == st.limits,
    decreases packet.len() - pos,
{
    if pos < packet.len() {
        if let Some(end) = segment_end(packet, pos) {
            let b = packet.subrange(pos + 3, end);
            lemma_taken_within(st, time, packet[pos], b);
            if let Ok(n) = taken(st, time, packet[pos], b) {
                lemma_ran_within(n, time, packet, end);
            }
        }
    }
}

/// No packet takes a decoder over its bounds, and none changes them.
pub proof fn law_budgets_hold(st: PgsView, time: u64, packet: Seq<u8>)
    requires
        within(st),
    ensures
        pushed(st, time, packet).1 matches Ok(n) ==> within(n) && n.limits == st.limits,
{
    if let Ok(s) = admitted(st, time, packet) {
        lemma_ran_within(s, time, packet, 0);
    }
}

/// Displays follow each other in time, each naming the time of the one before, and
/// nothing in progress is older than them.
pub open spec fn timely(st: PgsView) -> bool {
    &&& st.last == if st.shown.len() > 0 {
        Some(st.shown.last())
    } else {
        None
    }
    &&& forall|i: int|
        0 <= i < st.shown.len() ==> (#[trigger] st.shown[i]).previous_timestamp_ns == if i > 0 {
            Some(st.shown[i - 1].timestamp_ns)
        } else {
            None
        }
    &&& forall|i: int, j: int|
        0 <= i <= j < st.shown.len() ==> (#[trigger] st.shown[i]).timestamp_ns <= (
        #[trigger] st.shown[j]).timestamp_ns
    &&& forall|i: int|
        0 <= i < st.shown.len() ==> st.last_packet_time is Some && (
        #[trigger] st.shown[i]).timestamp_ns <= st.last_packet_time->Some_0
    &&& st.pending matches Some(c) ==> st.last_packet_time is Some && c.time
        <= st.last_packet_time->Some_0 && forall|i: int|
        0 <= i < st.shown.len() ==> (#[trigger] st.shown[i]).timestamp_ns <= c.time
}

proof fn lemma_taken_timely(st: PgsView, time: u64, kind: u8, b: Seq<u8>)
    requires
        timely(st),
        st.last_packet_time == Some(time),
    ensures
        taken(st, time, kind, b) matches Ok(n) ==> timely(n) && n.last_packet_time == Some(time),
{
    if kind == ODS {
        lemma_ods_shows(
            PgsView {
                set_bytes: st.set_bytes + b.len() + 3,
                set_segments: st.set_segments + 1,
                ..st
            },
            b,
        );
    }
}

proof fn lemma_ran_timely(st: PgsView, time: u64, packet: Seq<u8>, pos: int)
    requires
        timely(st),
        st.last_packet_time == Some(time),
    ensures
        ran(st, time, packet, pos).1 matches Ok(n) ==> timely(n),
    decreases packet.len() - pos,
{
    if pos < packet.len() {
        if let Some(end) = segment_end(packet, pos) {
            let b = packet.subrange(pos + 3, end);
            lemma_taken_timely(st, time, packet[pos], b);
            if let Ok(n) = taken(st, time, packet[pos], b) {
                lemma_ran_timely(n, time, packet, end);
            }
        }
    }
}

/// Displays come in the order of their times, each naming the one before it.
pub proof fn law_displays_follow(st: PgsView, time: u64, packet: Seq<u8>)
    requires
        timely(st),
    ensures
        pushed(st, time, packet).1 matches Ok(n) ==> timely(n),
{
    if let Ok(s) = admitted(st, time, packet) {
        assert(timely(s));
        lemma_ran_timely(s, time, packet, 0);
    }
}

/// A fresh decoder is within its bounds and has shown nothing.
pub proof fn law_fresh(limits: PgsLimits)
    ensures
        within(fresh(limits)),
        timely(fresh(limits)),
        fresh(limits).shown.len() == 0,
{
}

} // verus!
