//! What holds of a decoder in every state that it can come to.

use crate::bytes;
use crate::mkv::pgs;
use crate::mkv::pgs::paint::PlacementView;
use crate::mkv::pgs::raster::Rect;
use crate::mkv::pgs::{
    CompositionObject, CompositionView, DisplayView, PgsError, PgsLimits, PgsView, END, ODS, PCS, PDS,
    WDS,
};
use vstd::prelude::*;

verus! {

/// A rectangle on a canvas.
pub open spec fn on(r: Rect, width: u16, height: u16) -> bool {
    r.end_x() <= width && r.end_y() <= height
}

/// Windows on a canvas.
pub open spec fn windows_on(w: Seq<(u8, Rect)>, width: u16, height: u16) -> bool {
    forall|i: int| 0 <= i < w.len() ==> on((#[trigger] w[i]).1, width, height)
}

/// A display whose image, if it has one, lies on its canvas.
pub open spec fn image_on_canvas(d: DisplayView) -> bool {
    d.image matches Some(i) ==> on(i.rect, d.canvas_width, d.canvas_height)
}

/// The windows lie on the canvas of the composition in progress, or else of the last
/// display, and each image shown lies on the canvas of its display.
pub open spec fn on_canvas(st: PgsView) -> bool {
    &&& match st.pending {
        Some(c) => windows_on(st.windows, c.width, c.height),
        None => match st.last {
            Some(d) => windows_on(st.windows, d.canvas_width, d.canvas_height),
            None => st.windows.len() == 0,
        },
    }
    &&& forall|i: int| 0 <= i < st.shown.len() ==> image_on_canvas(#[trigger] st.shown[i])
}

proof fn lemma_windows(
    b: Seq<u8>,
    pos: int,
    n: int,
    width: u16,
    height: u16,
    seen: Seq<(u8, Rect)>,
)
    requires
        windows_on(seen, width, height),
    ensures
        pgs::windows_at(b, pos, n, width, height, seen) matches Ok(w) ==> windows_on(
            w,
            width,
            height,
        ),
    decreases n,
{
    if n > 0 && pos + 9 <= b.len() {
        let r = pgs::rect_at(b, pos + 1);
        if on(r, width, height) {
            lemma_windows(b, pos + 9, n - 1, width, height, seen.push((b[pos], r)));
        }
    }
}

/// What is shown of an object lies inside its window.
proof fn lemma_placements(
    st: PgsView,
    objects: Seq<CompositionObject>,
    n: int,
    width: u16,
    height: u16,
)
    requires
        windows_on(st.windows, width, height),
    ensures
        pgs::placements(st, objects, n) matches Ok(ps) ==> forall|i: int|
            0 <= i < ps.len() ==> on((#[trigger] ps[i]).clip, width, height),
    decreases n,
{
    if n > 0 {
        lemma_placements(st, objects, n - 1, width, height);
        let o = objects[n - 1];
        if let Some(k) = pgs::first_where(st.windows, pgs::window_is(o.window_id), 0) {
            pgs::lemma_first_where(st.windows, pgs::window_is(o.window_id), 0);
            assert(on(st.windows[k].1, width, height));
        }
    }
}

/// The frame of what lies on a canvas lies on it.
proof fn lemma_frame_on(ps: Seq<PlacementView>, width: u16, height: u16)
    requires
        forall|i: int| 0 <= i < ps.len() ==> on((#[trigger] ps[i]).clip, width, height),
    ensures
        pgs::frame_of(ps) matches Some(r) ==> on(r, width, height),
    decreases ps.len(),
{
    if ps.len() > 0 {
        let rest = ps.drop_last();
        assert forall|i: int| 0 <= i < rest.len() implies on(
            (#[trigger] rest[i]).clip,
            width,
            height,
        ) by {
            assert(rest[i] == ps[i]);
        }
        lemma_frame_on(rest, width, height);
        assert(on(ps[ps.len() - 1].clip, width, height));
    }
}

proof fn lemma_image_on(st: PgsView, c: CompositionView)
    requires
        windows_on(st.windows, c.width, c.height),
    ensures
        pgs::rendered(st, c) matches Ok((Some(i), _)) ==> on(i.rect, c.width, c.height),
{
    lemma_placements(st, c.objects, c.objects.len() as int, c.width, c.height);
    if let Ok(ps) = pgs::placements(st, c.objects, c.objects.len() as int) {
        lemma_frame_on(ps, c.width, c.height);
    }
}

proof fn lemma_taken_on_canvas(st: PgsView, time: u64, kind: u8, b: Seq<u8>)
    requires
        on_canvas(st),
    ensures
        pgs::taken(st, time, kind, b) matches Ok(n) ==> on_canvas(n),
{
    let s = PgsView {
        set_bytes: st.set_bytes + b.len() + 3,
        set_segments: st.set_segments + 1,
        ..st
    };
    if kind == ODS {
        pgs::lemma_ods_shows(s, b);
    } else if kind == WDS && st.pending is Some && b.len() > 0 {
        let c = st.pending->Some_0;
        lemma_windows(b, 1, b[0] as int, c.width, c.height, Seq::empty());
    } else if kind == END && st.pending is Some {
        lemma_image_on(s, st.pending->Some_0);
    }
}

proof fn lemma_ran_on_canvas(st: PgsView, time: u64, packet: Seq<u8>, pos: int)
    requires
        on_canvas(st),
    ensures
        pgs::ran(st, time, packet, pos).1 matches Ok(n) ==> on_canvas(n),
        forall|i: int|
            0 <= i < pgs::ran(st, time, packet, pos).0.len() ==> image_on_canvas(
                #[trigger] pgs::ran(st, time, packet, pos).0[i],
            ),
    decreases packet.len() - pos,
{
    if pos < packet.len() {
        if let Some(end) = pgs::segment_end(packet, pos) {
            let b = packet.subrange(pos + 3, end);
            lemma_taken_on_canvas(st, time, packet[pos], b);
            if let Ok(n) = pgs::taken(st, time, packet[pos], b) {
                lemma_ran_on_canvas(n, time, packet, end);
            }
        }
    }
}

/// No packet leaves a window or shows an image beyond the canvas, not even one that is
/// refused in the end.
pub proof fn law_stays_on_canvas(st: PgsView, time: u64, packet: Seq<u8>)
    requires
        on_canvas(st),
    ensures
        pgs::pushed(st, time, packet).1 matches Ok(n) ==> on_canvas(n),
        forall|i: int|
            0 <= i < pgs::pushed(st, time, packet).0.len() ==> image_on_canvas(
                #[trigger] pgs::pushed(st, time, packet).0[i],
            ),
{
    if let Ok(s) = pgs::admitted(st, time, packet) {
        lemma_ran_on_canvas(s, time, packet, 0);
    }
}

/// A fresh decoder has no window and has shown no image.
pub proof fn law_fresh_on_canvas(limits: PgsLimits)
    ensures
        on_canvas(pgs::fresh(limits)),
{
}

/// What segments, each a kind and a body, make of `st` one after the other.
pub open spec fn segments(st: PgsView, time: u64, segs: Seq<(u8, Seq<u8>)>) -> Result<
    PgsView,
    PgsError,
>
    decreases segs.len(),
{
    if segs.len() == 0 {
        Ok(st)
    } else {
        match segments(st, time, segs.drop_last()) {
            Err(e) => Err(e),
            Ok(n) => pgs::taken(n, time, segs.last().0, segs.last().1),
        }
    }
}

/// Segments that bring resources: palettes, objects and windows.
pub open spec fn resources(segs: Seq<(u8, Seq<u8>)>) -> bool {
    forall|i: int|
        0 <= i < segs.len() ==> (#[trigger] segs[i]).0 == PDS || segs[i].0 == ODS || segs[i].0
            == WDS
}

/// Whether one of the segments is for the palette `id`.
pub open spec fn brings_palette(segs: Seq<(u8, Seq<u8>)>, id: u8) -> bool {
    exists|i: int| 0 <= i < segs.len() && (#[trigger] segs[i]).0 == PDS && segs[i].1[0] == id
}

/// Whether one of the segments is for the object `id`.
pub open spec fn brings_object(segs: Seq<(u8, Seq<u8>)>, id: u16) -> bool {
    exists|i: int|
        0 <= i < segs.len() && (#[trigger] segs[i]).0 == ODS && bytes::get16(segs[i].1, 0) == id
}

/// Whether one of the segments is for windows.
pub open spec fn brings_windows(segs: Seq<(u8, Seq<u8>)>) -> bool {
    exists|i: int| 0 <= i < segs.len() && (#[trigger] segs[i]).0 == WDS
}

proof fn lemma_brings(segs: Seq<(u8, Seq<u8>)>)
    requires
        segs.len() > 0,
    ensures
        forall|id: u8| #[trigger]
            brings_palette(segs.drop_last(), id) ==> brings_palette(segs, id),
        forall|id: u16| #[trigger] brings_object(segs.drop_last(), id) ==> brings_object(segs, id),
        brings_windows(segs.drop_last()) ==> brings_windows(segs),
        segs.last().0 == PDS ==> brings_palette(segs, segs.last().1[0]),
        segs.last().0 == ODS ==> brings_object(segs, bytes::get16(segs.last().1, 0)),
        segs.last().0 == WDS ==> brings_windows(segs),
{
    let rest = segs.drop_last();
    let l = segs.len() - 1;
    assert(segs[l] == segs.last());
    assert forall|id: u8| #[trigger] brings_palette(rest, id) implies brings_palette(segs, id) by {
        let i = choose|i: int|
            0 <= i < rest.len() && (#[trigger] rest[i]).0 == PDS && rest[i].1[0] == id;
        assert(segs[i] == rest[i]);
    }
    assert forall|id: u16| #[trigger] brings_object(rest, id) implies brings_object(segs, id) by {
        let i = choose|i: int|
            0 <= i < rest.len() && (#[trigger] rest[i]).0 == ODS && bytes::get16(rest[i].1, 0) == id;
        assert(segs[i] == rest[i]);
    }
    if brings_windows(rest) {
        let i = choose|i: int| 0 <= i < rest.len() && (#[trigger] rest[i]).0 == WDS;
        assert(segs[i] == rest[i]);
    }
}

/// All resources of `st` were brought by the segments.
pub open spec fn brought(st: PgsView, segs: Seq<(u8, Seq<u8>)>) -> bool {
    &&& forall|i: int|
        0 <= i < st.palettes.len() ==> brings_palette(segs, (#[trigger] st.palettes[i]).id)
    &&& forall|i: int|
        0 <= i < st.objects.len() ==> brings_object(segs, (#[trigger] st.objects[i]).id)
    &&& forall|i: int|
        0 <= i < st.fragments.len() ==> brings_object(segs, (#[trigger] st.fragments[i]).id)
    &&& st.windows.len() > 0 ==> brings_windows(segs)
}

proof fn lemma_ods_brings(st: PgsView, b: Seq<u8>, segs: Seq<(u8, Seq<u8>)>)
    requires
        brought(st, segs),
        b.len() >= 2 ==> brings_object(segs, bytes::get16(b, 0)),
    ensures
        pgs::ods_of(st, b) matches Ok(n) ==> brought(n, segs) && n.pending == st.pending,
{
    if let Ok(n) = pgs::ods_of(st, b) {
        let id = bytes::get16(b, 0);
        let mid = if b[3] >= 0x80 {
            PgsView { fragments: pgs::opened(st, b)->Ok_0, ..st }
        } else {
            st
        };
        let i = if b[3] >= 0x80 {
            st.fragments.len() as int
        } else {
            pgs::first_where(st.fragments, pgs::part_of(id, b[2]), 0)->Some_0
        };
        pgs::lemma_first_where(st.fragments, pgs::part_of(id, b[2]), 0);
        assert(brought(mid, segs));
        assert(0 <= i < mid.fragments.len());
        assert(mid.fragments[i].id == id);
        let o = mid.objects;
        pgs::lemma_first_where(o, pgs::object_is(id), 0);
        assert forall|k: int| 0 <= k < n.objects.len() implies brings_object(
            segs,
            (#[trigger] n.objects[k]).id,
        ) by {
            if k < o.len() {
                assert(brings_object(segs, o[k].id));
            }
        }
        assert forall|k: int| 0 <= k < n.fragments.len() implies brings_object(
            segs,
            (#[trigger] n.fragments[k]).id,
        ) by {
            if k < i {
                assert(n.fragments[k].id == mid.fragments[k].id);
            } else if n.fragments.len() < mid.fragments.len() {
                assert(n.fragments[k] == mid.fragments[k + 1]);
            } else {
                assert(n.fragments[k].id == mid.fragments[k].id);
            }
        }
    }
}

proof fn lemma_segments_bring(st: PgsView, time: u64, segs: Seq<(u8, Seq<u8>)>)
    requires
        st.pending is Some,
        st.palettes.len() == 0,
        st.objects.len() == 0,
        st.fragments.len() == 0,
        st.windows.len() == 0,
        resources(segs),
    ensures
        segments(st, time, segs) matches Ok(n) ==> brought(n, segs) && n.pending == st.pending,
    decreases segs.len(),
{
    if segs.len() > 0 {
        let rest = segs.drop_last();
        assert forall|i: int| 0 <= i < rest.len() implies (#[trigger] rest[i]).0 == PDS || rest[i].0
            == ODS || rest[i].0 == WDS by {
            assert(rest[i] == segs[i]);
        }
        assert(segs[segs.len() - 1] == segs.last());
        lemma_segments_bring(st, time, rest);
        lemma_brings(segs);
        if let Ok(m) = segments(st, time, rest) {
            let (kind, b) = segs.last();
            assert(brought(m, segs));
            let s = PgsView {
                set_bytes: m.set_bytes + b.len() + 3,
                set_segments: m.set_segments + 1,
                ..m
            };
            assert(brought(s, segs));
            if kind == ODS {
                lemma_ods_brings(s, b, segs);
            } else if kind == PDS {
                pgs::lemma_first_where(s.palettes, pgs::palette_is(b[0]), 0);
            }
        }
    }
}

/// After an epoch start or an acquisition point nothing from before it serves: a display
/// set that does not bring its own palette ends in that state being missing; so does one
/// that brings the palette but lacks an object, or the windows, of its composition.
pub proof fn law_refresh_needs_its_own(
    st: PgsView,
    time: u64,
    b: Seq<u8>,
    segs: Seq<(u8, Seq<u8>)>,
    k: int,
)
    requires
        pgs::taken(st, time, PCS, b) matches Ok(m) && m.pending->Some_0.state != 0 && segments(
            m,
            time,
            segs,
        ) is Ok,
        resources(segs),
        ({
            let n = segments(pgs::taken(st, time, PCS, b)->Ok_0, time, segs)->Ok_0;
            &&& n.pending->Some_0.objects.len() > 0
            &&& 0 <= k < n.pending->Some_0.objects.len()
            &&& n.fragments.len() == 0
            &&& n.set_bytes + 3 <= n.limits.display_set_bytes
            &&& n.set_segments + 1 <= n.limits.segments_per_display
            &&& n.displays + 1 <= n.limits.displays
        }),
    ensures
        ({
            let n = segments(pgs::taken(st, time, PCS, b)->Ok_0, time, segs)->Ok_0;
            let c = n.pending->Some_0;
            let o = c.objects[k];
            let ended = pgs::taken(n, time, END, Seq::empty());
            let has_palette = pgs::first_where(n.palettes, pgs::palette_is(c.palette), 0) is Some;
            let has_object = pgs::first_where(n.objects, pgs::object_is(o.object_id), 0) is Some;
            let up_to = has_palette && pgs::placements(n, c.objects, k) is Ok;
            &&& !brings_palette(segs, c.palette) ==> ended == Err::<PgsView, PgsError>(
                PgsError::MissingState("palette"),
            )
            &&& up_to && !brings_object(segs, o.object_id) ==> ended == Err::<PgsView, PgsError>(
                PgsError::MissingState("object"),
            )
            &&& up_to && has_object && !brings_windows(segs) ==> ended == Err::<PgsView, PgsError>(
                PgsError::MissingState("window"),
            )
        }),
{
    let m = pgs::taken(st, time, PCS, b)->Ok_0;
    let n = segments(m, time, segs)->Ok_0;
    let c = n.pending->Some_0;
    let o = c.objects[k];
    lemma_segments_bring(m, time, segs);
    pgs::lemma_first_where(n.palettes, pgs::palette_is(c.palette), 0);
    pgs::lemma_first_where(n.objects, pgs::object_is(o.object_id), 0);
    pgs::lemma_first_where(n.windows, pgs::window_is(o.window_id), 0);
    let s = PgsView { set_bytes: n.set_bytes + 3, set_segments: n.set_segments + 1, ..n };
    pgs::lemma_rendered_same(s, n, c);
    if pgs::placements(n, c.objects, k) is Ok && pgs::placed(n, o) is Err {
        assert(pgs::placements(n, c.objects, k + 1) is Err);
        pgs::lemma_placements_err(n, c.objects, k + 1, c.objects.len() as int);
    }
}

/// Whether a composition is in progress behind the segments of a packet from `pos` on, if
/// one was (`open`) or was not in progress before them.
pub open spec fn open_behind(open: bool, packet: Seq<u8>, pos: int) -> bool
    decreases packet.len() - pos,
{
    if pos >= packet.len() {
        open
    } else {
        match pgs::segment_end(packet, pos) {
            None => open,
            Some(end) => open_behind(
                if packet[pos] == PCS {
                    true
                } else if packet[pos] == END {
                    false
                } else {
                    open
                },
                packet,
                end,
            ),
        }
    }
}

/// Between display sets no object is left open.
pub open spec fn settled(st: PgsView) -> bool {
    st.pending is None ==> st.fragments.len() == 0
}

proof fn lemma_ran_open(st: PgsView, time: u64, packet: Seq<u8>, pos: int)
    requires
        settled(st),
    ensures
        pgs::ran(st, time, packet, pos).1 matches Ok(n) ==> settled(n) && n.pending is Some
            == open_behind(st.pending is Some, packet, pos),
    decreases packet.len() - pos,
{
    if pos < packet.len() {
        if let Some(end) = pgs::segment_end(packet, pos) {
            let b = packet.subrange(pos + 3, end);
            let kind = packet[pos];
            if let Ok(n) = pgs::taken(st, time, kind, b) {
                if kind == ODS {
                    pgs::lemma_ods_shows(
                        PgsView {
                            set_bytes: st.set_bytes + b.len() + 3,
                            set_segments: st.set_segments + 1,
                            ..st
                        },
                        b,
                    );
                }
                lemma_ran_open(n, time, packet, end);
            }
        }
    }
}

/// A composition is in progress exactly from its composition segment to the end segment
/// that closes it, so the end of a track is accepted if and only if every composition was
/// closed: see [`PgsDecoder::finish`](pgs::PgsDecoder::finish).
pub proof fn law_open_until_closed(st: PgsView, time: u64, packet: Seq<u8>, limits: PgsLimits)
    requires
        settled(st),
    ensures
        pgs::pushed(st, time, packet).1 matches Ok(n) ==> settled(n) && n.pending is Some
            == open_behind(st.pending is Some, packet, 0),
        settled(pgs::fresh(limits)),
        pgs::fresh(limits).pending is None,
        forall|r: Result<(), PgsError>, a: pgs::Standing, b: pgs::Standing| #[trigger]
            pgs::ends(a, r, b) && !a.poisoned && settled(a.view) ==> (r is Ok
                <==> a.view.pending is None),
{
    if let Ok(s) = pgs::admitted(st, time, packet) {
        lemma_ran_open(s, time, packet, 0);
    }
}

/// Placements need the objects and windows of a state alone.
proof fn lemma_same_placements(
    a: PgsView,
    b: PgsView,
    objects: Seq<CompositionObject>,
    n: int,
)
    requires
        a.objects == b.objects,
        a.windows == b.windows,
    ensures
        pgs::placements(a, objects, n) == pgs::placements(b, objects, n),
    decreases n,
{
    if n > 0 {
        lemma_same_placements(a, b, objects, n - 1);
    }
}

/// A normal display set reuses what is there. If it names the composition of the display
/// before it again, its end alone shows that display's image once more, and the display
/// says so; only a bound can be in the way.
pub proof fn law_normal_set_reuses(
    before: PgsView,
    st: PgsView,
    then: u64,
    time: u64,
    b: Seq<u8>,
)
    requires
        pgs::taken(before, then, END, Seq::empty()) == Ok::<PgsView, PgsError>(st),
        pgs::taken(st, time, PCS, b) matches Ok(m) && m.pending->Some_0.state == 0
            && m.pending->Some_0.palette == st.last->Some_0.palette_id
            && m.pending->Some_0.objects == st.last->Some_0.objects,
    ensures
        ({
            let m = pgs::taken(st, time, PCS, b)->Ok_0;
            match pgs::taken(m, time, END, Seq::empty()) {
                Ok(n) => {
                    let d = n.last->Some_0;
                    &&& n.shown == st.shown.push(d)
                    &&& d.image == st.last->Some_0.image
                    &&& d.unchanged
                },
                Err(e) => e is BudgetExceeded,
            }
        }),
{
    let m = pgs::taken(st, time, PCS, b)->Ok_0;
    let c = before.pending->Some_0;
    let e = m.pending->Some_0;
    assert(m.objects == before.objects && m.windows == before.windows && m.palettes
        == before.palettes);
    let x = PgsView {
        set_bytes: before.set_bytes + 3,
        set_segments: before.set_segments + 1,
        ..before
    };
    let y = PgsView { set_bytes: m.set_bytes + 3, set_segments: m.set_segments + 1, ..m };
    lemma_same_placements(x, y, c.objects, c.objects.len() as int);
    assert(e.objects == c.objects && e.palette == c.palette);
    assert(pgs::rendered(x, c) is Ok);
    match pgs::rendered(y, e) {
        Ok((image, _)) => {
            assert(image == pgs::rendered(x, c)->Ok_0.0);
        },
        Err(f) => {
            assert(f is BudgetExceeded);
        },
    }
}

/// Compositions have three states; one that says another is refused by its number.
pub proof fn law_other_states_are_refused(st: PgsView, time: u64, b: Seq<u8>)
    requires
        st.pending is None,
        b.len() >= 8,
        pgs::area_of(st.limits, bytes::get16(b, 0), bytes::get16(b, 2)) is Ok,
    ensures
        pgs::pcs_of(st, time, b) == Err::<PgsView, PgsError>(
            PgsError::UnsupportedCompositionState(b[7]),
        ) <==> b[7] != 0 && b[7] != 0x40 && b[7] != 0x80,
{
    if b[7] == 0 || b[7] == 0x40 || b[7] == 0x80 {
        lemma_objects_error(b, 11, b[10] as int, Seq::empty());
    }
}

proof fn lemma_objects_error(b: Seq<u8>, pos: int, n: int, seen: Seq<CompositionObject>)
    ensures
        pgs::objects_at(b, pos, n, seen) matches Err(e) ==> e is Malformed,
    decreases n,
{
    if n > 0 && pos + 8 <= b.len() {
        let o = CompositionObject {
            object_id: bytes::get16(b, pos),
            window_id: b[pos + 2],
            forced: b[pos + 3] / 64 % 2 == 1,
            x: bytes::get16(b, pos + 4),
            y: bytes::get16(b, pos + 6),
            crop: if b[pos + 3] >= 0x80 {
                Some(pgs::rect_at(b, pos + 8))
            } else {
                None
            },
        };
        let end = if b[pos + 3] >= 0x80 {
            pos + 16
        } else {
            pos + 8
        };
        lemma_objects_error(b, end, n - 1, seen.push(o));
    }
}

/// A segment on the wire: its kind, the length of its body, and its body.
pub open spec fn segment_bytes(seg: (u8, Seq<u8>)) -> Seq<u8> {
    seq![seg.0] + bytes::be16(seg.1.len() as u16) + seg.1
}

/// Segments on the wire.
pub open spec fn packet_of(segs: Seq<(u8, Seq<u8>)>) -> Seq<u8>
    decreases segs.len(),
{
    if segs.len() == 0 {
        Seq::empty()
    } else {
        segment_bytes(segs[0]) + packet_of(segs.skip(1))
    }
}

/// Whether all bodies have a length that can be written.
pub open spec fn writable(segs: Seq<(u8, Seq<u8>)>) -> bool {
    forall|i: int| 0 <= i < segs.len() ==> (#[trigger] segs[i]).1.len() <= u16::MAX
}

/// What is shown when segments have been taken, up to the first error.
pub open spec fn shown_by(st: PgsView, time: u64, segs: Seq<(u8, Seq<u8>)>) -> Seq<DisplayView>
    decreases segs.len(),
{
    if segs.len() == 0 {
        st.shown
    } else {
        match segments(st, time, segs.drop_last()) {
            Err(_) => shown_by(st, time, segs.drop_last()),
            Ok(n) => match pgs::taken(n, time, segs.last().0, segs.last().1) {
                Err(_) => n.shown,
                Ok(m) => m.shown,
            },
        }
    }
}

/// The first segment, and then the rest.
pub(crate) proof fn lemma_first_segment(st: PgsView, time: u64, segs: Seq<(u8, Seq<u8>)>)
    requires
        segs.len() > 0,
    ensures
        match pgs::taken(st, time, segs[0].0, segs[0].1) {
            Err(e) => segments(st, time, segs) == Err::<PgsView, PgsError>(e) && shown_by(
                st,
                time,
                segs,
            ) == st.shown,
            Ok(n) => segments(st, time, segs) == segments(n, time, segs.skip(1)) && shown_by(
                st,
                time,
                segs,
            ) == shown_by(n, time, segs.skip(1)),
        },
    decreases segs.len(),
{
    reveal_with_fuel(segments, 2);
    reveal_with_fuel(shown_by, 2);
    let rest = segs.drop_last();
    if segs.len() == 1 {
        assert(rest =~= Seq::empty());
        assert(segs.skip(1) =~= Seq::empty());
    } else {
        lemma_first_segment(st, time, rest);
        assert(rest[0] == segs[0]);
        assert(rest.skip(1) =~= segs.skip(1).drop_last());
        assert(segs.skip(1).last() == segs.last());
    }
}

#[verifier::spinoff_prover]
proof fn lemma_ran_segments(
    st: PgsView,
    time: u64,
    packet: Seq<u8>,
    pos: int,
    segs: Seq<(u8, Seq<u8>)>,
)
    requires
        0 <= pos <= packet.len(),
        packet.skip(pos) == packet_of(segs),
        writable(segs),
    ensures
        pgs::ran(st, time, packet, pos) == (shown_by(st, time, segs), segments(st, time, segs)),
    decreases segs.len(),
{
    if segs.len() > 0 {
        let b = segs[0].1;
        let n = b.len() as u16;
        let rest = segs.skip(1);
        let tail = packet.skip(pos);
        let end = pos + 3 + n;
        bytes::lemma_be16(n);
        assert(tail[0] == segs[0].0);
        assert(tail[1] == bytes::be16(n)[0]);
        assert(tail[2] == bytes::be16(n)[1]);
        assert(packet[pos] == tail[0]);
        assert(packet[pos + 1] == tail[1]);
        assert(packet[pos + 2] == tail[2]);
        assert(bytes::get16(packet, pos + 1) == n);
        assert(packet.subrange(pos + 3, end) =~= b) by {
            assert forall|i: int| 0 <= i < b.len() implies packet[pos + 3 + i] == b[i] by {
                assert(tail[3 + i] == b[i]);
            }
        }
        assert(packet.skip(end) =~= packet_of(rest)) by {
            assert forall|i: int| 0 <= i < packet_of(rest).len() implies packet[end + i]
                == packet_of(rest)[i] by {
                assert(tail[3 + n + i] == packet_of(rest)[i]);
            }
        }
        assert(pgs::segment_end(packet, pos) == Some(end));
        lemma_first_segment(st, time, segs);
        assert(writable(rest)) by {
            assert forall|i: int| 0 <= i < rest.len() implies (#[trigger] rest[i]).1.len()
                <= u16::MAX by {
                assert(rest[i] == segs[i + 1]);
            }
        }
        if let Ok(m) = pgs::taken(st, time, segs[0].0, b) {
            lemma_ran_segments(m, time, packet, end, rest);
        }
    } else {
        assert(packet.skip(pos).len() == 0);
    }
}

/// A packet that is admitted does what its segments do one after the other.
pub proof fn law_packet_is_its_segments(st: PgsView, time: u64, segs: Seq<(u8, Seq<u8>)>)
    requires
        writable(segs),
    ensures
        pgs::admitted(st, time, packet_of(segs)) matches Ok(s) ==> pgs::pushed(
            st,
            time,
            packet_of(segs),
        ) == (shown_by(s, time, segs), segments(s, time, segs)),
{
    if let Ok(s) = pgs::admitted(st, time, packet_of(segs)) {
        assert(packet_of(segs).skip(0) =~= packet_of(segs));
        lemma_ran_segments(s, time, packet_of(segs), 0, segs);
    }
}

/// Whether no segment has this kind.
pub open spec fn lacks(segs: Seq<(u8, Seq<u8>)>, kind: u8) -> bool {
    forall|i: int| 0 <= i < segs.len() ==> (#[trigger] segs[i]).0 != kind
}

/// Resources show nothing.
proof fn lemma_resources_show_nothing(st: PgsView, time: u64, segs: Seq<(u8, Seq<u8>)>)
    requires
        resources(segs),
    ensures
        segments(st, time, segs) matches Ok(n) ==> n.shown == st.shown,
    decreases segs.len(),
{
    if segs.len() > 0 {
        let rest = segs.drop_last();
        assert forall|i: int| 0 <= i < rest.len() implies (#[trigger] rest[i]).0 == PDS || rest[i].0
            == ODS || rest[i].0 == WDS by {
            assert(rest[i] == segs[i]);
        }
        assert(segs[segs.len() - 1] == segs.last());
        lemma_resources_show_nothing(st, time, rest);
        if let Ok(n) = segments(st, time, rest) {
            pgs::lemma_taken_shows(n, time, segs.last().0, segs.last().1);
        }
    }
}

/// A display set that lacks windows, palettes or objects of its own ends in a state that
/// is missing.
#[verifier::spinoff_prover]
proof fn lemma_lacking(m: PgsView, time: u64, segs: Seq<(u8, Seq<u8>)>)
    requires
        m.pending is Some,
        m.palettes.len() == 0,
        m.objects.len() == 0,
        m.fragments.len() == 0,
        m.windows.len() == 0,
        m.pending->Some_0.objects.len() > 0,
        resources(segs),
        lacks(segs, WDS) || lacks(segs, PDS) || lacks(segs, ODS),
        segments(m, time, segs) matches Ok(n) && n.fragments.len() == 0 && n.set_bytes + 3
            <= n.limits.display_set_bytes && n.set_segments + 1 <= n.limits.segments_per_display
            && n.displays + 1 <= n.limits.displays,
    ensures
        pgs::taken(segments(m, time, segs)->Ok_0, time, END, Seq::empty()) matches Err(e)
            && e is MissingState,
{
    let n = segments(m, time, segs)->Ok_0;
    let c = n.pending->Some_0;
    let o = c.objects[0];
    lemma_segments_bring(m, time, segs);
    let s = PgsView { set_bytes: n.set_bytes + 3, set_segments: n.set_segments + 1, ..n };
    pgs::lemma_rendered_same(s, n, c);
    if lacks(segs, PDS) {
        assert(n.palettes.len() == 0) by {
            if n.palettes.len() > 0 {
                assert(brings_palette(segs, n.palettes[0].id));
            }
        }
    } else {
        if lacks(segs, ODS) {
            assert(n.objects.len() == 0) by {
                if n.objects.len() > 0 {
                    assert(brings_object(segs, n.objects[0].id));
                }
            }
        } else {
            assert(n.windows.len() == 0) by {
                assert(!brings_windows(segs));
            }
        }
        reveal_with_fuel(pgs::placements, 2);
        assert(pgs::placements(n, c.objects, 1) is Err);
        pgs::lemma_placements_err(n, c.objects, 1, c.objects.len() as int);
    }
}

/// A display set in one packet: a composition, resources and an end.
pub open spec fn display_set(b: Seq<u8>, segs: Seq<(u8, Seq<u8>)>) -> Seq<(u8, Seq<u8>)> {
    seq![(PCS, b)] + segs + seq![(END, Seq::<u8>::empty())]
}

/// A display set does what its composition does, then its resources, then its end.
proof fn lemma_display_set(st: PgsView, time: u64, b: Seq<u8>, segs: Seq<(u8, Seq<u8>)>)
    requires
        resources(segs),
    ensures
        match pgs::taken(st, time, PCS, b) {
            Err(e) => segments(st, time, display_set(b, segs)) == Err::<PgsView, PgsError>(e)
                && shown_by(st, time, display_set(b, segs)) == st.shown,
            Ok(m) => match segments(m, time, segs) {
                Err(_) => true,
                Ok(n) => {
                    let last = pgs::taken(n, time, END, Seq::empty());
                    &&& segments(st, time, display_set(b, segs)) == last
                    &&& shown_by(st, time, display_set(b, segs)) == match last {
                        Err(_) => st.shown,
                        Ok(k) => k.shown,
                    }
                },
            },
        },
{
    let whole = display_set(b, segs);
    let front = seq![(PCS, b)] + segs;
    assert(whole.drop_last() =~= front);
    assert(whole.last() == (END, Seq::<u8>::empty()));
    assert(front[0] == (PCS, b));
    assert(front.skip(1) =~= segs);
    lemma_first_segment(st, time, front);
    if let Ok(m) = pgs::taken(st, time, PCS, b) {
        pgs::lemma_taken_shows(st, time, PCS, b);
        lemma_resources_show_nothing(m, time, segs);
    }
}

/// A packet that is admitted keeps what the display set before it has left.
proof fn lemma_admitted_behind_end(
    before: PgsView,
    then: u64,
    kept: PgsView,
    time: u64,
    packet: Seq<u8>,
) -> (other: PgsView)
    requires
        pgs::taken(before, then, END, Seq::empty()) == Ok::<PgsView, PgsError>(kept),
        pgs::admitted(kept, time, packet) is Ok,
    ensures
        pgs::taken(other, then, END, Seq::empty()) == pgs::admitted(kept, time, packet),
{
    let st = pgs::admitted(kept, time, packet)->Ok_0;
    let other = PgsView {
        last_packet_time: st.last_packet_time,
        packets: st.packets,
        total_bytes: st.total_bytes,
        ..before
    };
    let c = before.pending->Some_0;
    let x = PgsView {
        set_bytes: before.set_bytes + 3,
        set_segments: before.set_segments + 1,
        ..before
    };
    let y = PgsView {
        set_bytes: other.set_bytes + 3,
        set_segments: other.set_segments + 1,
        ..other
    };
    pgs::lemma_rendered_same(x, y, c);
    other
}

/// What the state of a composition means for a packet that holds one display set and comes
/// after another display set has ended.
/// - An epoch start or an acquisition point drops all windows, palettes and objects. Where
///   its resources bring no windows, no palette or no object, the packet ends in a state
///   that is missing, and nothing of it is shown.
/// - A normal composition that names the one before it again needs no resources: the same
///   image is shown, and the display says that nothing changed. Only a bound can be in the
///   way.
/// - Any other state is refused by its number.
#[verifier::spinoff_prover]
pub proof fn law_composition_states(
    before: PgsView,
    then: u64,
    kept: PgsView,
    time: u64,
    b: Seq<u8>,
    segs: Seq<(u8, Seq<u8>)>,
)
    requires
        pgs::taken(before, then, END, Seq::empty()) == Ok::<PgsView, PgsError>(kept),
        resources(segs),
        writable(display_set(b, segs)),
        b.len() >= 8,
        pgs::area_of(kept.limits, bytes::get16(b, 0), bytes::get16(b, 2)) is Ok,
        b.len() + 3 <= kept.limits.display_set_bytes,
        1 <= kept.limits.segments_per_display,
        pgs::admitted(kept, time, packet_of(display_set(b, segs))) is Ok,
    ensures
        ({
            let packet = packet_of(display_set(b, segs));
            let st = pgs::admitted(kept, time, packet)->Ok_0;
            let r = pgs::pushed(kept, time, packet);
            &&& b[7] != 0 && b[7] != 0x40 && b[7] != 0x80 ==> r == (
                kept.shown,
                Err::<PgsView, PgsError>(PgsError::UnsupportedCompositionState(b[7])),
            )
            &&& pgs::taken(st, time, PCS, b) matches Ok(m) ==> {
                let c = m.pending->Some_0;
                &&& c.state == b[7]
                &&& b[7] != 0 ==> m.windows.len() == 0 && m.palettes.len() == 0 && m.objects.len()
                    == 0
                &&& (b[7] != 0 && c.objects.len() > 0 && (lacks(segs, WDS) || lacks(segs, PDS)
                    || lacks(segs, ODS)) && (segments(m, time, segs) matches Ok(n)
                    && n.fragments.len() == 0 && n.set_bytes + 3 <= n.limits.display_set_bytes
                    && n.set_segments + 1 <= n.limits.segments_per_display && n.displays + 1
                    <= n.limits.displays)) ==> r.0 == kept.shown && (r.1 matches Err(e)
                    && e is MissingState)
                &&& (b[7] == 0 && segs.len() == 0 && c.palette == kept.last->Some_0.palette_id
                    && c.objects == kept.last->Some_0.objects) ==> match r.1 {
                    Ok(n) => {
                        let d = n.last->Some_0;
                        &&& r.0 == kept.shown.push(d)
                        &&& d.image == kept.last->Some_0.image
                        &&& d.unchanged
                    },
                    Err(e) => e is BudgetExceeded && r.0 == kept.shown,
                }
            }
        }),
{
    let whole = display_set(b, segs);
    let packet = packet_of(whole);
    let st = pgs::admitted(kept, time, packet)->Ok_0;
    let s = PgsView {
        set_bytes: st.set_bytes + b.len() + 3,
        set_segments: st.set_segments + 1,
        ..st
    };
    law_packet_is_its_segments(kept, time, whole);
    lemma_display_set(st, time, b, segs);
    law_other_states_are_refused(s, time, b);
    if let Ok(m) = pgs::taken(st, time, PCS, b) {
        let c = m.pending->Some_0;
        if b[7] != 0 && c.objects.len() > 0 && (lacks(segs, WDS) || lacks(segs, PDS) || lacks(
            segs,
            ODS,
        )) && (segments(m, time, segs) matches Ok(n) && n.fragments.len() == 0 && n.set_bytes + 3
            <= n.limits.display_set_bytes && n.set_segments + 1 <= n.limits.segments_per_display
            && n.displays + 1 <= n.limits.displays) {
            lemma_lacking(m, time, segs);
        }
        if b[7] == 0 && segs.len() == 0 && c.palette == kept.last->Some_0.palette_id && c.objects
            == kept.last->Some_0.objects {
            let other = lemma_admitted_behind_end(before, then, kept, time, packet);
            law_normal_set_reuses(other, st, then, time, b);
        }
    }
}

} // verus!
