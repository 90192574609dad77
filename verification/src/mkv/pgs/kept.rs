//! What segments keep and what they change among palettes, objects and windows.

use crate::mkv::pgs;
use crate::mkv::pgs::paint::ObjectView;
use crate::mkv::pgs::raster::Rect;
use crate::mkv::pgs::wire::n16;
use crate::mkv::pgs::{CompositionObject, FragmentView, PaletteView, PgsError, PgsView};
use vstd::prelude::*;

verus! {

/// The slots of the first palette with a number.
pub open spec fn palette(ps: Seq<PaletteView>, id: u8) -> Option<Seq<Option<[u8; 4]>>>
    decreases ps.len(),
{
    if ps.len() == 0 {
        None
    } else if ps[0].id == id {
        Some(ps[0].entries)
    } else {
        palette(ps.skip(1), id)
    }
}

/// The first object with a number.
pub open spec fn object(os: Seq<ObjectView>, id: u16) -> Option<ObjectView>
    decreases os.len(),
{
    if os.len() == 0 {
        None
    } else if os[0].id == id {
        Some(os[0])
    } else {
        object(os.skip(1), id)
    }
}

/// Where a search finds the first match, or that there is none.
proof fn lemma_search<T>(s: Seq<T>, p: spec_fn(T) -> bool, from: int)
    requires
        0 <= from,
    ensures
        match pgs::first_where(s, p, from) {
            Some(i) => from <= i < s.len() && p(s[i]) && forall|j: int|
                from <= j < i ==> !p(#[trigger] s[j]),
            None => forall|j: int| from <= j < s.len() ==> !p(#[trigger] s[j]),
        },
    decreases s.len() - from,
{
    if from < s.len() && !p(s[from]) {
        lemma_search(s, p, from + 1);
    }
}

proof fn lemma_palette_at(ps: Seq<PaletteView>, id: u8, i: int)
    requires
        0 <= i < ps.len(),
        ps[i].id == id,
        forall|j: int| 0 <= j < i ==> (#[trigger] ps[j]).id != id,
    ensures
        palette(ps, id) == Some(ps[i].entries),
    decreases ps.len(),
{
    if i > 0 {
        let r = ps.skip(1);
        assert forall|j: int| 0 <= j < i - 1 implies (#[trigger] r[j]).id != id by {
            assert(r[j] == ps[j + 1]);
        }
        lemma_palette_at(r, id, i - 1);
    }
}

proof fn lemma_no_palette(ps: Seq<PaletteView>, id: u8)
    requires
        forall|j: int| 0 <= j < ps.len() ==> (#[trigger] ps[j]).id != id,
    ensures
        palette(ps, id) is None,
    decreases ps.len(),
{
    if ps.len() > 0 {
        let r = ps.skip(1);
        assert forall|j: int| 0 <= j < r.len() implies (#[trigger] r[j]).id != id by {
            assert(r[j] == ps[j + 1]);
        }
        lemma_no_palette(r, id);
    }
}

/// Palettes with other numbers are where they were.
proof fn lemma_other_palettes(ps: Seq<PaletteView>, qs: Seq<PaletteView>, i: int, id: u8)
    requires
        0 <= i <= ps.len(),
        qs.len() == if i == ps.len() {
            ps.len() + 1
        } else {
            ps.len()
        },
        forall|j: int| 0 <= j < ps.len() && j != i ==> #[trigger] qs[j] == ps[j],
        i < ps.len() ==> ps[i].id != id,
        qs[i].id != id,
    ensures
        palette(qs, id) == palette(ps, id),
    decreases ps.len(),
{
    if ps.len() == 0 {
        assert(qs.skip(1) =~= Seq::empty());
        assert(palette(qs.skip(1), id) is None);
    } else {
        let p = ps.skip(1);
        let q = qs.skip(1);
        if i == 0 {
            assert(q =~= p) by {
                assert forall|j: int| 0 <= j < p.len() implies q[j] == p[j] by {
                    assert(qs[j + 1] == ps[j + 1]);
                }
            }
        } else {
            assert(qs[0] == ps[0]);
            assert forall|j: int| 0 <= j < p.len() && j != i - 1 implies #[trigger] q[j]
                == p[j] by {
                assert(qs[j + 1] == ps[j + 1]);
            }
            lemma_other_palettes(p, q, i - 1, id);
        }
    }
}

proof fn lemma_slots(b: Seq<u8>, slots: Seq<Option<[u8; 4]>>, n: int)
    requires
        0 <= n,
        slots.len() == 256,
        b.len() >= 2 + 5 * n,
        !pgs::repeats(b, n),
    ensures
        ({
            let r = pgs::slots_of(b, slots, n);
            &&& r.len() == 256
            &&& forall|k: int|
                0 <= k < n ==> r[(#[trigger] b[2 + 5 * k]) as int] == Some(
                    [b[3 + 5 * k], b[4 + 5 * k], b[5 + 5 * k], b[6 + 5 * k]],
                )
            &&& forall|s: int|
                0 <= s < 256 && (forall|k: int| 0 <= k < n ==> #[trigger] b[2 + 5 * k] != s)
                    ==> #[trigger] r[s] == slots[s]
        }),
    decreases n,
{
    if n > 0 {
        let m = n - 1;
        assert(!pgs::repeats(b, m)) by {
            if pgs::repeats(b, m) {
                let (i, j) = choose|i: int, j: int|
                    0 <= i < j < m && #[trigger] b[2 + 5 * i] == #[trigger] b[2 + 5 * j];
                assert(0 <= i < j < n && b[2 + 5 * i] == b[2 + 5 * j]);
            }
        }
        lemma_slots(b, slots, m);
        let q = pgs::slots_of(b, slots, m);
        let r = pgs::slots_of(b, slots, n);
        assert forall|k: int| 0 <= k < n implies r[(#[trigger] b[2 + 5 * k]) as int] == Some(
            [b[3 + 5 * k], b[4 + 5 * k], b[5 + 5 * k], b[6 + 5 * k]],
        ) by {
            if k < m {
                assert(b[2 + 5 * k] != b[2 + 5 * m]);
            }
        }
        assert forall|s: int|
            0 <= s < 256 && (forall|k: int|
                0 <= k < n ==> #[trigger] b[2 + 5 * k] != s) implies #[trigger] r[s]
            == slots[s] by {
            assert(b[2 + 5 * m] != s);
            assert(q[s] == slots[s]);
        }
    }
}

/// A palette segment sets the slots that it names and keeps the others, which are empty in
/// a palette that is new. Palettes with other numbers, and all else, stay as they were.
#[verifier::spinoff_prover]
pub proof fn law_palette_is_updated(st: PgsView, b: Seq<u8>)
    requires
        pgs::pds_of(st, b) is Ok,
        forall|j: int| 0 <= j < st.palettes.len() ==> (#[trigger] st.palettes[j]).entries.len()
            == 256,
    ensures
        ({
            let after = pgs::pds_of(st, b)->Ok_0;
            let n = (b.len() - 2) / 5;
            let old = match palette(st.palettes, b[0]) {
                Some(e) => e,
                None => Seq::new(256, |i: int| None::<[u8; 4]>),
            };
            &&& palette(after.palettes, b[0]) matches Some(new) && {
                &&& new.len() == 256
                &&& forall|k: int|
                    0 <= k < n ==> new[(#[trigger] b[2 + 5 * k]) as int] == Some(
                        [b[3 + 5 * k], b[4 + 5 * k], b[5 + 5 * k], b[6 + 5 * k]],
                    )
                &&& forall|s: int|
                    0 <= s < 256 && (forall|k: int| 0 <= k < n ==> #[trigger] b[2 + 5 * k] != s)
                        ==> #[trigger] new[s] == old[s]
            }
            &&& forall|id: u8|
                id != b[0] ==> #[trigger] palette(after.palettes, id) == palette(st.palettes, id)
            &&& after == (PgsView { palettes: after.palettes, ..st })
        }),
{
    let id = b[0];
    let i = pgs::palette_place(st.palettes, id);
    let n = (b.len() - 2) / 5;
    lemma_search(st.palettes, pgs::palette_is(id), 0);
    let ps = if i == st.palettes.len() {
        st.palettes.push(PaletteView { id, entries: pgs::no_slots() })
    } else {
        st.palettes
    };
    let after = pgs::pds_of(st, b)->Ok_0;
    let old = match palette(st.palettes, id) {
        Some(e) => e,
        None => Seq::new(256, |k: int| None::<[u8; 4]>),
    };
    if i == st.palettes.len() {
        assert forall|j: int| 0 <= j < st.palettes.len() implies (#[trigger] st.palettes[j]).id
            != id by {
            assert(!pgs::palette_is(id)(st.palettes[j]));
        }
        lemma_no_palette(st.palettes, id);
        assert(ps[i].entries =~= old);
    } else {
        assert forall|j: int| 0 <= j < i implies (#[trigger] st.palettes[j]).id != id by {
            assert(!pgs::palette_is(id)(st.palettes[j]));
        }
        lemma_palette_at(st.palettes, id, i);
        assert(ps[i].entries == old);
    }
    lemma_slots(b, ps[i].entries, n);
    assert forall|j: int| 0 <= j < i implies (#[trigger] after.palettes[j]).id != id by {
        assert(after.palettes[j] == st.palettes[j]);
        assert(!pgs::palette_is(id)(st.palettes[j]));
    }
    lemma_palette_at(after.palettes, id, i);
    assert forall|x: u8| x != id implies #[trigger] palette(after.palettes, x) == palette(
        st.palettes,
        x,
    ) by {
        lemma_other_palettes(st.palettes, after.palettes, i, x);
    }
}

proof fn lemma_object_at(os: Seq<ObjectView>, id: u16, i: int)
    requires
        0 <= i < os.len(),
        os[i].id == id,
        forall|j: int| 0 <= j < i ==> (#[trigger] os[j]).id != id,
    ensures
        object(os, id) == Some(os[i]),
    decreases os.len(),
{
    if i > 0 {
        let r = os.skip(1);
        assert forall|j: int| 0 <= j < i - 1 implies (#[trigger] r[j]).id != id by {
            assert(r[j] == os[j + 1]);
        }
        lemma_object_at(r, id, i - 1);
    }
}

proof fn lemma_other_objects(os: Seq<ObjectView>, qs: Seq<ObjectView>, i: int, id: u16)
    requires
        0 <= i <= os.len(),
        qs.len() == if i == os.len() {
            os.len() + 1
        } else {
            os.len()
        },
        forall|j: int| 0 <= j < os.len() && j != i ==> #[trigger] qs[j] == os[j],
        i < os.len() ==> os[i].id != id,
        qs[i].id != id,
    ensures
        object(qs, id) == object(os, id),
    decreases os.len(),
{
    if os.len() == 0 {
        assert(qs.skip(1) =~= Seq::empty());
        assert(object(qs.skip(1), id) is None);
    } else {
        let p = os.skip(1);
        let q = qs.skip(1);
        if i == 0 {
            assert(q =~= p) by {
                assert forall|j: int| 0 <= j < p.len() implies q[j] == p[j] by {
                    assert(qs[j + 1] == os[j + 1]);
                }
            }
        } else {
            assert(qs[0] == os[0]);
            assert forall|j: int| 0 <= j < p.len() && j != i - 1 implies #[trigger] q[j]
                == p[j] by {
                assert(qs[j + 1] == os[j + 1]);
            }
            lemma_other_objects(p, q, i - 1, id);
        }
    }
}

/// An object takes the place of the one with its number; all others stay.
pub proof fn law_object_is_replaced(os: Seq<ObjectView>, o: ObjectView)
    ensures
        object(pgs::stored(os, o), o.id) == Some(o),
        forall|id: u16| id != o.id ==> #[trigger] object(pgs::stored(os, o), id) == object(os, id),
        pgs::stored(os, o).len() <= os.len() + 1,
{
    lemma_search(os, pgs::object_is(o.id), 0);
    let qs = pgs::stored(os, o);
    let i = match pgs::first_where(os, pgs::object_is(o.id), 0) {
        Some(i) => i,
        None => os.len() as int,
    };
    assert forall|j: int| 0 <= j < i implies (#[trigger] qs[j]).id != o.id by {
        assert(qs[j] == os[j]);
        assert(!pgs::object_is(o.id)(os[j]));
    }
    lemma_object_at(qs, o.id, i);
    assert forall|id: u16| id != o.id implies #[trigger] object(qs, id) == object(os, id) by {
        lemma_other_objects(os, qs, i, id);
    }
}

proof fn lemma_same_total(a: Seq<FragmentView>, b: Seq<FragmentView>)
    requires
        a.len() == b.len(),
        forall|i: int| 0 <= i < a.len() ==> (#[trigger] a[i]).expected == b[i].expected,
    ensures
        pgs::fragment_total(a) == pgs::fragment_total(b),
    decreases a.len(),
{
    if a.len() > 0 {
        assert forall|i: int| 0 <= i < a.drop_last().len() implies (
        #[trigger] a.drop_last()[i]).expected == b.drop_last()[i].expected by {
            assert(a[i].expected == b[i].expected);
        }
        lemma_same_total(a.drop_last(), b.drop_last());
        assert(a[a.len() - 1].expected == b[b.len() - 1].expected);
    }
}

/// It does not matter how the data of an object is cut into parts: two parts one after the
/// other do what both do in one.
pub proof fn law_parts_join(st: PgsView, i: int, a: Seq<u8>, b: Seq<u8>, last: bool)
    requires
        0 <= i < st.fragments.len(),
        pgs::extended(st, i, a, false) is Ok,
    ensures
        pgs::extended(pgs::extended(st, i, a, false)->Ok_0, i, b, last) == pgs::extended(
            st,
            i,
            a + b,
            last,
        ),
{
    let f = st.fragments[i];
    let mid = pgs::extended(st, i, a, false)->Ok_0;
    let g = mid.fragments[i];
    assert(g.data + b =~= f.data + (a + b));
    lemma_same_total(mid.fragments, st.fragments);
    assert(mid.fragments.update(i, FragmentView { data: g.data + b, ..g }) =~= st.fragments.update(
        i,
        FragmentView { data: f.data + (a + b), ..f },
    ));
    assert(mid.fragments.remove(i) =~= st.fragments.remove(i));
}

proof fn lemma_part(st: PgsView, id: u16, version: u8)
    requires
        st.fragments.len() > 0,
        st.fragments.last().id == id,
        st.fragments.last().version == version,
        forall|i: int|
            0 <= i < st.fragments.len() - 1 ==> (#[trigger] st.fragments[i]).id != id,
    ensures
        pgs::first_where(st.fragments, pgs::part_of(id, version), 0) == Some(
            st.fragments.len() - 1,
        ),
{
    let p = pgs::part_of(id, version);
    lemma_search(st.fragments, p, 0);
    let n = st.fragments.len() - 1;
    assert(p(st.fragments[n]));
    assert forall|j: int| 0 <= j < n implies !p(#[trigger] st.fragments[j]) by {
        assert(st.fragments[j].id != id);
    }
}

/// An object in two segments is the same as in one: the first has the flag of a first part,
/// the second that of a last one, and both the number and the version of the object.
#[verifier::spinoff_prover]
pub proof fn law_object_comes_in_parts(
    st: PgsView,
    whole: Seq<u8>,
    first: Seq<u8>,
    second: Seq<u8>,
)
    requires
        whole.len() >= 11,
        first.len() >= 11,
        second.len() >= 4,
        whole == first.update(3, 0xC0) + second.skip(4),
        first[3] == 0x80,
        second[3] == 0x40,
        second[0] == first[0] && second[1] == first[1] && second[2] == first[2],
        pgs::ods_of(st, first) is Ok,
    ensures
        pgs::ods_of(pgs::ods_of(st, first)->Ok_0, second) == pgs::ods_of(st, whole),
{
    let id = crate::bytes::get16(first, 0);
    let n = st.fragments.len() as int;
    assert forall|i: int| 0 <= i < first.len() && i != 3 implies #[trigger] whole[i] == first[i] by {}
    assert(whole[3] == 0xC0);
    assert(pgs::opened(st, whole) == pgs::opened(st, first)) by {
        assert(crate::bytes::get16(whole, 0) == id);
        assert(crate::bytes::get24(whole, 4) == crate::bytes::get24(first, 4));
        assert(crate::bytes::get16(whole, 7) == crate::bytes::get16(first, 7));
        assert(crate::bytes::get16(whole, 9) == crate::bytes::get16(first, 9));
    }
    let fragments = pgs::opened(st, first)->Ok_0;
    let s = PgsView { fragments, ..st };
    let mid = pgs::extended(s, n, first.skip(11), false)->Ok_0;
    assert(pgs::ods_of(st, first)->Ok_0 == mid);
    assert(mid.fragments.len() == n + 1);
    assert(mid.fragments[n].id == id && mid.fragments[n].version == first[2]);
    assert forall|i: int| 0 <= i < n implies (#[trigger] mid.fragments[i]).id != id by {
        assert(mid.fragments[i] == st.fragments[i]);
    }
    lemma_part(mid, id, first[2]);
    assert(crate::bytes::get16(second, 0) == id);
    law_parts_join(s, n, first.skip(11), second.skip(4), true);
    assert(whole.skip(11) =~= first.skip(11) + second.skip(4));
}

/// A window segment replaces all windows by those that it lists, in order: a number, and
/// where the window is and how large. All else stays as it was.
pub proof fn law_windows_are_replaced(st: PgsView, b: Seq<u8>)
    requires
        pgs::wds_of(st, b) is Ok,
    ensures
        ({
            let after = pgs::wds_of(st, b)->Ok_0;
            &&& b.len() == 1 + 9 * b[0]
            &&& after.windows.len() == b[0]
            &&& forall|i: int|
                0 <= i < b[0] ==> (#[trigger] after.windows[i]).0 == b[1 + 9 * i]
                    && after.windows[i].1.x == n16(b, 2 + 9 * i) && after.windows[i].1.y == n16(
                    b,
                    4 + 9 * i,
                ) && after.windows[i].1.width == n16(b, 6 + 9 * i) && after.windows[i].1.height
                    == n16(b, 8 + 9 * i)
            &&& after == (PgsView { windows: after.windows, ..st })
        }),
{
    let c = st.pending->Some_0;
    lemma_windows(b, 0, c.width, c.height, Seq::empty());
}

proof fn lemma_windows(b: Seq<u8>, k: int, width: u16, height: u16, seen: Seq<(u8, Rect)>)
    requires
        b.len() > 0,
        0 <= k <= b[0],
        seen.len() == k,
        forall|i: int|
            0 <= i < k ==> (#[trigger] seen[i]).0 == b[1 + 9 * i] && seen[i].1.x == n16(
                b,
                2 + 9 * i,
            ) && seen[i].1.y == n16(b, 4 + 9 * i) && seen[i].1.width == n16(b, 6 + 9 * i)
                && seen[i].1.height == n16(b, 8 + 9 * i),
    ensures
        pgs::windows_at(b, 1 + 9 * k, b[0] - k, width, height, seen) matches Ok(r) ==> {
            &&& b.len() == 1 + 9 * b[0]
            &&& r.len() == b[0]
            &&& forall|i: int|
                0 <= i < b[0] ==> (#[trigger] r[i]).0 == b[1 + 9 * i] && r[i].1.x == n16(
                    b,
                    2 + 9 * i,
                ) && r[i].1.y == n16(b, 4 + 9 * i) && r[i].1.width == n16(b, 6 + 9 * i)
                    && r[i].1.height == n16(b, 8 + 9 * i)
        },
    decreases b[0] - k,
{
    if k < b[0] {
        let r = pgs::rect_at(b, 2 + 9 * k);
        let more = seen.push((b[1 + 9 * k], r));
        lemma_windows(b, k + 1, width, height, more);
    }
}

/// A composition that updates the palette alone keeps the objects of the last display. One
/// that starts an epoch, or that can be joined at, drops palettes, objects and windows; any
/// other keeps them.
pub proof fn law_composition_keeps(st: PgsView, time: u64, b: Seq<u8>)
    requires
        pgs::pcs_of(st, time, b) is Ok,
    ensures
        ({
            let after = pgs::pcs_of(st, time, b)->Ok_0;
            let c = after.pending->0;
            &&& after.pending is Some
            &&& c.time == time
            &&& c.width == n16(b, 0)
            &&& c.height == n16(b, 2)
            &&& c.number == n16(b, 5)
            &&& c.palette == b[9]
            &&& b[8] == 0x80 && b[10] == 0 ==> st.last is Some && c.objects == st.last->0.objects
            &&& !(b[8] == 0x80 && b[10] == 0) ==> c.objects.len() == b[10]
            &&& b[7] == 0 ==> after == (PgsView { pending: after.pending, ..st })
            &&& b[7] != 0 ==> after.palettes.len() == 0 && after.objects.len() == 0
                && after.windows.len() == 0 && after.fragments.len() == 0 && after.last == st.last
                && after.shown == st.shown
        }),
{
    lemma_objects(b, 11, b[10] as int, Seq::empty());
}

proof fn lemma_objects(b: Seq<u8>, pos: int, n: int, seen: Seq<CompositionObject>)
    requires
        0 <= n,
    ensures
        pgs::objects_at(b, pos, n, seen) matches Ok((r, _)) ==> r.len() == seen.len() + n,
    decreases n,
{
    if n > 0 && pos + 8 <= b.len() {
        let cropped = b[pos + 3] >= 0x80;
        let o = CompositionObject {
            object_id: crate::bytes::get16(b, pos),
            window_id: b[pos + 2],
            forced: b[pos + 3] / 64 % 2 == 1,
            x: crate::bytes::get16(b, pos + 4),
            y: crate::bytes::get16(b, pos + 6),
            crop: if cropped {
                Some(pgs::rect_at(b, pos + 8))
            } else {
                None
            },
        };
        lemma_objects(
            b,
            if cropped {
                pos + 16
            } else {
                pos + 8
            },
            n - 1,
            seen.push(o),
        );
    }
}

/// The two bytes of a number, most significant first.
pub open spec fn pair(v: u16) -> Seq<u8> {
    seq![(v / 256) as u8, (v % 256) as u8]
}

/// An object of a composition on the wire: its number, its window, flags, where it goes,
/// and the part that is shown if it is not all of it.
pub open spec fn object_bytes(o: CompositionObject) -> Seq<u8> {
    let forced = if o.forced {
        0x40int
    } else {
        0
    };
    match o.crop {
        None => pair(o.object_id) + seq![o.window_id, forced as u8] + pair(o.x) + pair(o.y),
        Some(c) => pair(o.object_id) + seq![o.window_id, (0x80 + forced) as u8] + pair(o.x)
            + pair(o.y) + pair(c.x) + pair(c.y) + pair(c.width) + pair(c.height),
    }
}

/// Objects one after the other.
pub open spec fn list_bytes(os: Seq<CompositionObject>) -> Seq<u8>
    decreases os.len(),
{
    if os.len() == 0 {
        Seq::empty()
    } else {
        object_bytes(os[0]) + list_bytes(os.skip(1))
    }
}

/// The objects of a composition are read as they were listed.
#[verifier::spinoff_prover]
pub proof fn law_objects_are_listed(
    front: Seq<u8>,
    os: Seq<CompositionObject>,
    seen: Seq<CompositionObject>,
)
    ensures
        pgs::objects_at(
            front + list_bytes(os),
            front.len() as int,
            os.len() as int,
            seen,
        ) == Ok::<(Seq<CompositionObject>, int), PgsError>(
            (seen + os, (front.len() + list_bytes(os).len()) as int),
        ),
    decreases os.len(),
{
    let b = front + list_bytes(os);
    if os.len() == 0 {
        assert(seen + os =~= seen);
    } else {
        let o = os[0];
        let e = object_bytes(o);
        let rest = list_bytes(os.skip(1));
        let p = front.len() as int;
        assert(b =~= (front + e) + rest);
        assert forall|i: int| 0 <= i < e.len() implies #[trigger] b[p + i] == e[i] by {}
        assert(b[p + 0] == e[0] && b[p + 1] == e[1] && b[p + 2] == e[2] && b[p + 3] == e[3]);
        assert(b[p + 4] == e[4] && b[p + 5] == e[5] && b[p + 6] == e[6] && b[p + 7] == e[7]);
        if let Some(c) = o.crop {
            assert(b[p + 8] == e[8] && b[p + 9] == e[9] && b[p + 10] == e[10] && b[p + 11]
                == e[11]);
            assert(b[p + 12] == e[12] && b[p + 13] == e[13] && b[p + 14] == e[14] && b[p + 15]
                == e[15]);
            assert(pgs::rect_at(b, p + 8) == c);
        }
        law_objects_are_listed(front + e, os.skip(1), seen.push(o));
        assert(seen.push(o) + os.skip(1) =~= seen + os);
    }
}

} // verus!
