//! What the bytes of a HEIF file mean for what is read from it.

use crate::bytes;
use crate::isobmff::boxes::kinds;
use crate::isobmff::heif;
use crate::isobmff::heif::cursor;
use crate::isobmff::heif::cursor::Head;
use crate::isobmff::heif::item;
use crate::isobmff::heif::item::{
    FileView, InfoView, ItemExtent, LocationView, MetaView, ReferenceView,
};
use crate::isobmff::heif::property;
use crate::isobmff::heif::property::{
    ColourView, Links, MirrorAxis, Property, PropertyView, TableView,
};
use crate::isobmff::parse::boxed::{box_bytes, code, n16, pack, writable, Boxes};
use crate::isobmff::parse::listed::n32;
use crate::text;
use vstd::prelude::*;

verus! {

/// The box at the front of what is left.
proof fn lemma_front(b: Seq<u8>, at: int, kind: Seq<u8>, body: Seq<u8>, rest: Seq<u8>)
    requires
        0 <= at <= b.len(),
        kind.len() == 4,
        body.len() + 8 <= u32::MAX,
        b.skip(at) == box_bytes(kind, body) + rest,
    ensures
        cursor::loose_head(b, at) == Ok::<Head, Seq<char>>(
            Head { kind, start: at + 8, len: body.len() },
        ),
        cursor::head_at(b, at) == cursor::loose_head(b, at),
        at + 8 + body.len() <= b.len(),
        b.subrange(at + 8, at + 8 + body.len()) == body,
        b.skip(at + 8 + body.len()) == rest,
{
    let n = (body.len() + 8) as u32;
    let tail = b.skip(at);
    let head = bytes::be32(n);
    let w = box_bytes(kind, body);
    bytes::lemma_be32(n);
    assert(w.len() == 8 + body.len());
    assert(tail.len() == w.len() + rest.len());
    assert forall|i: int| 0 <= i < w.len() implies #[trigger] b[at + i] == w[i] by {
        assert(tail[i] == (w + rest)[i]);
    }
    assert forall|i: int| 0 <= i < rest.len() implies #[trigger] b[at + w.len() + i] == rest[i] by {
        assert(tail[w.len() + i] == (w + rest)[w.len() + i]);
    }
    assert(bytes::get32(b, at) == n) by {
        assert(b[at + 0] == w[0] && b[at + 1] == w[1] && b[at + 2] == w[2] && b[at + 3] == w[3]);
        assert(w[0] == head[0] && w[1] == head[1] && w[2] == head[2] && w[3] == head[3]);
    }
    assert(b.subrange(at + 4, at + 8) =~= kind) by {
        assert forall|i: int| 0 <= i < 4 implies #[trigger] b.subrange(at + 4, at + 8)[i]
            == kind[i] by {
            assert(b[at + (4 + i)] == w[4 + i]);
            assert(w[4 + i] == kind[i]);
        }
    }
    assert(b.subrange(at + 8, at + 8 + body.len()) =~= body) by {
        assert forall|i: int| 0 <= i < body.len() implies #[trigger] b.subrange(
            at + 8,
            at + 8 + body.len(),
        )[i] == body[i] by {
            assert(b[at + (8 + i)] == w[8 + i]);
            assert(w[8 + i] == body[i]);
        }
    }
    assert(b.skip(at + 8 + body.len()) =~= rest) by {
        assert forall|i: int| 0 <= i < rest.len() implies #[trigger] b.skip(at + 8 + body.len())[i]
            == rest[i] by {
            assert(b[at + w.len() + i] == rest[i]);
        }
    }
    reveal_with_fuel(cursor::lack, 3);
}

proof fn lemma_tail(list: Boxes)
    requires
        writable(list),
        list.len() > 0,
    ensures
        writable(list.skip(1)),
        list[0].0.len() == 4,
        list[0].1.len() + 8 <= u32::MAX,
{
    let rest = list.skip(1);
    assert forall|i: int| 0 <= i < rest.len() implies (#[trigger] rest[i]).0.len() == 4
        && rest[i].1.len() + 8 <= u32::MAX by {
        assert(rest[i] == list[i + 1]);
    }
}

/// The size of an image is its width and then its height, behind the version and flags.
pub proof fn law_size_is_read(b: Seq<u8>)
    requires
        b.len() >= 12,
    ensures
        property::property_of(code('i', 's', 'p', 'e'), b) matches Ok(
            PropertyView::Ispe { width, height },
        ) && width == n32(b, 4) && height == n32(b, 8),
{
    lemma_kinds();
    reveal_with_fuel(cursor::lack, 4);
}

/// The codes of properties are what their names say, and differ from each other.
proof fn lemma_kinds()
    ensures
        kinds::ISPE@ == code('i', 's', 'p', 'e'),
        kinds::PIXI@ == code('p', 'i', 'x', 'i'),
        kinds::COLR@ == code('c', 'o', 'l', 'r'),
        kinds::PASP@ == code('p', 'a', 's', 'p'),
        kinds::AUXC@ == code('a', 'u', 'x', 'C'),
        kinds::IROT@ == code('i', 'r', 'o', 't'),
        kinds::IMIR@ == code('i', 'm', 'i', 'r'),
        kinds::CLAP@ == code('c', 'l', 'a', 'p'),
        kinds::NCLX@ == code('n', 'c', 'l', 'x'),
        kinds::PROF@ == code('p', 'r', 'o', 'f'),
        kinds::RICC@ == code('r', 'I', 'C', 'C'),
        forall|a: char, b: char, c: char, d: char, e: char, f: char, g: char, h: char|
            #![trigger code(a, b, c, d), code(e, f, g, h)]
            code(a, b, c, d) == code(e, f, g, h) ==> a as u8 == e as u8 && b as u8 == f as u8 && c
                as u8 == g as u8 && d as u8 == h as u8,
{
    assert(kinds::ISPE@ =~= code('i', 's', 'p', 'e'));
    assert(kinds::PIXI@ =~= code('p', 'i', 'x', 'i'));
    assert(kinds::COLR@ =~= code('c', 'o', 'l', 'r'));
    assert(kinds::PASP@ =~= code('p', 'a', 's', 'p'));
    assert(kinds::AUXC@ =~= code('a', 'u', 'x', 'C'));
    assert(kinds::IROT@ =~= code('i', 'r', 'o', 't'));
    assert(kinds::IMIR@ =~= code('i', 'm', 'i', 'r'));
    assert(kinds::CLAP@ =~= code('c', 'l', 'a', 'p'));
    assert(kinds::NCLX@ =~= code('n', 'c', 'l', 'x'));
    assert(kinds::PROF@ =~= code('p', 'r', 'o', 'f'));
    assert(kinds::RICC@ =~= code('r', 'I', 'C', 'C'));
    assert forall|a: char, b: char, c: char, d: char, e: char, f: char, g: char, h: char|
        #![trigger code(a, b, c, d), code(e, f, g, h)]
        code(a, b, c, d) == code(e, f, g, h) implies a as u8 == e as u8 && b as u8 == f as u8 && c
        as u8 == g as u8 && d as u8 == h as u8 by {
        let x = code(a, b, c, d);
        let y = code(e, f, g, h);
        assert(x[0] == y[0] && x[1] == y[1] && x[2] == y[2] && x[3] == y[3]);
    }
}

/// What the other properties say: the depths of the channels, as many as announced; what
/// colours mean, or an ICC profile; the shape of a pixel; by how many quarter turns and
/// about which axis an image is turned. A property of another kind is kept as it is.
pub proof fn law_properties_are_read_by_kind(b: Seq<u8>, kind: Seq<u8>)
    ensures
        b.len() >= 5 && b.len() >= 5 + b[4] ==> (property::property_of(
            code('p', 'i', 'x', 'i'),
            b,
        ) matches Ok(PropertyView::Pixi { channel_depths }) && channel_depths == b.subrange(
            5,
            5 + b[4],
        )),
        b.len() >= 11 && b.subrange(0, 4) == code('n', 'c', 'l', 'x') ==> (property::property_of(
            code('c', 'o', 'l', 'r'),
            b,
        ) matches Ok(
            PropertyView::Colr(ColourView::Nclx { primaries, transfer, matrix, full_range }),
        ) && primaries == n16(b, 4) && transfer == n16(b, 6) && matrix == n16(b, 8) && full_range
            == (b[10] / 128 == 1)),
        b.len() >= 4 && (b.subrange(0, 4) == code('p', 'r', 'o', 'f') || b.subrange(0, 4) == code(
            'r',
            'I',
            'C',
            'C',
        )) ==> (property::property_of(code('c', 'o', 'l', 'r'), b) matches Ok(
            PropertyView::Colr(ColourView::Icc(p)),
        ) && p == b.skip(4)),
        b.len() >= 8 ==> (property::property_of(code('p', 'a', 's', 'p'), b) matches Ok(
            PropertyView::Pasp { h, v },
        ) && h == n32(b, 0) && v == n32(b, 4)),
        b.len() >= 1 ==> (property::property_of(code('i', 'r', 'o', 't'), b) matches Ok(
            PropertyView::Irot { angle_quarter_turns },
        ) && angle_quarter_turns == b[0] % 4),
        b.len() >= 1 ==> (property::property_of(code('i', 'm', 'i', 'r'), b) matches Ok(
            PropertyView::Imir { axis },
        ) && (axis == MirrorAxis::Vertical <==> b[0] % 2 == 0)),
        property::property_of(code('c', 'l', 'a', 'p'), b) == Ok::<PropertyView, Seq<char>>(
            PropertyView::Clap,
        ),
        kind != code('i', 's', 'p', 'e') && kind != code('p', 'i', 'x', 'i') && kind != code(
            'c',
            'o',
            'l',
            'r',
        ) && kind != code('p', 'a', 's', 'p') && kind != code('a', 'u', 'x', 'C') && kind != code(
            'i',
            'r',
            'o',
            't',
        ) && kind != code('i', 'm', 'i', 'r') && kind != code('c', 'l', 'a', 'p')
            ==> property::property_of(kind, b) == Ok::<PropertyView, Seq<char>>(
            PropertyView::Other { four_cc: kind, data: b },
        ),
{
    lemma_kinds();
    reveal_with_fuel(cursor::lack, 5);
}

/// What an auxiliary image is for is the text behind the version and flags, up to its zero.
pub proof fn law_purpose_is_read(head: Seq<u8>, t: Seq<u8>, rest: Seq<u8>)
    requires
        head.len() == 4,
        forall|i: int| 0 <= i < t.len() ==> #[trigger] t[i] != 0,
    ensures
        property::property_of(code('a', 'u', 'x', 'C'), head + t + seq![0u8] + rest) == Ok::<
            PropertyView,
            Seq<char>,
        >(PropertyView::AuxC { aux_type: text::lossy_text(t) }),
{
    lemma_kinds();
    reveal_with_fuel(cursor::lack, 2);
    let b = head + t + seq![0u8] + rest;
    lemma_zero(b, 4, 4int + t.len());
    assert(b.subrange(4, 4int + t.len()) =~= t);
}

/// The first zero from `at` on.
proof fn lemma_zero(b: Seq<u8>, at: int, z: int)
    requires
        0 <= at <= z < b.len(),
        b[z] == 0,
        forall|i: int| at <= i < z ==> #[trigger] b[i] != 0,
    ensures
        cursor::zero_from(b, at) == Some(z),
    decreases z - at,
{
    if at < z {
        lemma_zero(b, at + 1, z);
    }
}

proof fn lemma_properties(b: Seq<u8>, at: int, list: Boxes, acc: Seq<PropertyView>)
    requires
        0 <= at <= b.len(),
        writable(list),
        b.skip(at) == pack(list),
        forall|i: int|
            0 <= i < list.len() ==> property::property_of((#[trigger] list[i]).0, list[i].1) is Ok,
    ensures
        property::properties_from(b, at, acc) matches Ok(v) && v.len() == acc.len() + list.len()
            && v.take(acc.len() as int) == acc && forall|i: int|
            0 <= i < list.len() ==> property::property_of((#[trigger] list[i]).0, list[i].1)
                == Ok::<PropertyView, Seq<char>>(v[acc.len() + i]),
    decreases list.len(),
{
    if list.len() == 0 {
        assert(b.skip(at).len() == 0);
        assert(acc.take(acc.len() as int) =~= acc);
    } else {
        let (k, body) = list[0];
        let rest = list.skip(1);
        lemma_tail(list);
        lemma_front(b, at, k, body, pack(rest));
        let p = property::property_of(k, body)->Ok_0;
        assert(property::property_of(list[0].0, list[0].1) is Ok);
        let more = acc.push(p);
        assert forall|i: int| 0 <= i < rest.len() implies property::property_of(
            (#[trigger] rest[i]).0,
            rest[i].1,
        ) is Ok by {
            assert(rest[i] == list[i + 1]);
        }
        lemma_properties(b, at + 8 + body.len(), rest, more);
        let v = property::properties_from(b, at, acc)->Ok_0;
        assert(v.take(acc.len() as int) =~= acc) by {
            assert forall|i: int| 0 <= i < acc.len() implies v[i] == acc[i] by {
                assert(v.take(more.len() as int)[i] == more[i]);
            }
        }
        assert forall|i: int| 0 <= i < list.len() implies property::property_of(
            (#[trigger] list[i]).0,
            list[i].1,
        ) == Ok::<PropertyView, Seq<char>>(v[acc.len() + i]) by {
            if i == 0 {
                assert(v.take(more.len() as int)[acc.len() as int] == more[acc.len() as int]);
            } else {
                assert(rest[i - 1] == list[i]);
            }
        }
    }
}

/// The properties of a file are read from their boxes, all of them and in order.
pub proof fn law_properties_are_read(list: Boxes)
    requires
        writable(list),
        forall|i: int|
            0 <= i < list.len() ==> property::property_of((#[trigger] list[i]).0, list[i].1) is Ok,
    ensures
        property::properties_from(pack(list), 0, Seq::empty()) matches Ok(v) && v.len()
            == list.len() && forall|i: int|
            0 <= i < list.len() ==> property::property_of((#[trigger] list[i]).0, list[i].1)
                == Ok::<PropertyView, Seq<char>>(v[i]),
{
    assert(pack(list).skip(0) =~= pack(list));
    lemma_properties(pack(list), 0, list, Seq::empty());
    let v = property::properties_from(pack(list), 0, Seq::empty())->Ok_0;
    assert forall|i: int| 0 <= i < list.len() implies property::property_of(
        (#[trigger] list[i]).0,
        list[i].1,
    ) == Ok::<PropertyView, Seq<char>>(v[i]) by {
        assert(v[Seq::<PropertyView>::empty().len() + i] == v[i]);
    }
}

/// Bytes at the front of what is left.
proof fn lemma_split(b: Seq<u8>, at: int, w: Seq<u8>, rest: Seq<u8>)
    requires
        0 <= at <= b.len(),
        b.skip(at) == w + rest,
    ensures
        at + w.len() <= b.len(),
        b.subrange(at, at + w.len()) == w,
        b.skip(at + w.len()) == rest,
        forall|i: int| 0 <= i < w.len() ==> #[trigger] w[i] == b[at + i],
{
    let tail = b.skip(at);
    assert(tail.len() == w.len() + rest.len());
    assert forall|i: int| 0 <= i < w.len() implies #[trigger] w[i] == b[at + i] by {
        assert(tail[i] == (w + rest)[i]);
    }
    assert(b.subrange(at, at + w.len()) =~= w);
    assert(b.skip(at + w.len()) =~= rest) by {
        assert forall|i: int| 0 <= i < rest.len() implies #[trigger] b.skip(at + w.len())[i]
            == rest[i] by {
            assert(tail[w.len() + i] == (w + rest)[w.len() + i]);
        }
    }
}

/// Two bytes at the front of what is left.
proof fn lemma_two(b: Seq<u8>, at: int, v: u16, rest: Seq<u8>)
    requires
        0 <= at <= b.len(),
        b.skip(at) == bytes::be16(v) + rest,
    ensures
        at + 2 <= b.len(),
        bytes::get16(b, at) == v,
        b.skip(at + 2) == rest,
{
    let w = bytes::be16(v);
    bytes::lemma_be16(v);
    lemma_split(b, at, w, rest);
    assert(w[0] == b[at] && w[1] == b[at + 1]);
}

/// Four bytes at the front of what is left.
proof fn lemma_four(b: Seq<u8>, at: int, v: u32, rest: Seq<u8>)
    requires
        0 <= at <= b.len(),
        b.skip(at) == bytes::be32(v) + rest,
    ensures
        at + 4 <= b.len(),
        bytes::get32(b, at) == v,
        b.skip(at + 4) == rest,
{
    let w = bytes::be32(v);
    bytes::lemma_be32(v);
    lemma_split(b, at, w, rest);
    assert(w[0] == b[at] && w[1] == b[at + 1] && w[2] == b[at + 2] && w[3] == b[at + 3]);
}

/// The identity of an item, in two bytes or four.
pub open spec fn id_bytes(id: u32, wide: bool) -> Seq<u8> {
    if wide {
        bytes::be32(id)
    } else {
        bytes::be16(id as u16)
    }
}

/// The identity of an item at the front of what is left.
proof fn lemma_id(b: Seq<u8>, at: int, id: u32, wide: bool, rest: Seq<u8>)
    requires
        0 <= at <= b.len(),
        wide || id <= 0xFFFF,
        b.skip(at) == id_bytes(id, wide) + rest,
    ensures
        id_bytes(id, wide).len() == if wide {
            4int
        } else {
            2int
        },
        at + id_bytes(id, wide).len() <= b.len(),
        id == if wide {
            bytes::get32(b, at)
        } else {
            bytes::get16(b, at) as u32
        },
        b.skip(at + id_bytes(id, wide).len()) == rest,
{
    bytes::lemma_be32(id);
    if wide {
        lemma_four(b, at, id, rest);
    } else {
        lemma_two(b, at, id as u16, rest);
    }
}

/// The number of a property and whether it is essential: the high bit.
pub open spec fn link_bytes(l: (u16, bool), large: bool) -> Seq<u8> {
    if large {
        bytes::be16(
            (l.0 + (if l.1 {
                0x8000int
            } else {
                0
            })) as u16,
        )
    } else {
        seq![
            (l.0 + (if l.1 {
                0x80int
            } else {
                0
            })) as u8,
        ]
    }
}

/// The properties of an item on the wire.
pub open spec fn links_bytes(l: Links, large: bool) -> Seq<u8>
    decreases l.len(),
{
    if l.len() == 0 {
        Seq::empty()
    } else {
        link_bytes(l[0], large) + links_bytes(l.skip(1), large)
    }
}

/// Numbers of properties that can be written.
pub open spec fn links_fit(l: Links, large: bool) -> bool {
    &&& l.len() <= 255
    &&& forall|i: int|
        0 <= i < l.len() ==> (#[trigger] l[i]).0 < if large {
            0x8000int
        } else {
            0x80int
        }
}

proof fn lemma_links(b: Seq<u8>, at: int, l: Links, large: bool, rest: Seq<u8>, acc: Links)
    requires
        0 <= at <= b.len(),
        links_fit(l, large),
        b.skip(at) == links_bytes(l, large) + rest,
    ensures
        property::links_from(b, at, l.len(), large, acc) == Ok::<(Links, int), Seq<char>>(
            (acc + l, at + links_bytes(l, large).len()),
        ),
        at + links_bytes(l, large).len() <= b.len(),
        b.skip(at + links_bytes(l, large).len()) == rest,
    decreases l.len(),
{
    reveal_with_fuel(cursor::lack, 2);
    if l.len() == 0 {
        assert(acc + l =~= acc);
        assert(links_bytes(l, large) + rest =~= rest);
    } else {
        let x = l[0];
        let more = l.skip(1);
        let w = link_bytes(x, large);
        assert(b.skip(at) =~= w + (links_bytes(more, large) + rest));
        assert forall|i: int| 0 <= i < more.len() implies (#[trigger] more[i]).0 < (if large {
            0x8000int
        } else {
            0x80int
        }) by {
            assert(more[i] == l[i + 1]);
        }
        lemma_split(b, at, w, links_bytes(more, large) + rest);
        if large {
            lemma_two(
                b,
                at,
                (x.0 + (if x.1 {
                    0x8000int
                } else {
                    0
                })) as u16,
                links_bytes(more, large) + rest,
            );
        } else {
            assert(w[0] == b[at]);
        }
        lemma_links(b, at + w.len(), more, large, rest, acc.push(x));
        assert(acc.push(x) + more =~= acc + l);
    }
}

/// Items and the numbers of their properties on the wire.
pub open spec fn associations_bytes(
    list: Seq<(u32, Links)>,
    wide: bool,
    large: bool,
) -> Seq<u8>
    decreases list.len(),
{
    if list.len() == 0 {
        Seq::empty()
    } else {
        id_bytes(list[0].0, wide) + seq![list[0].1.len() as u8] + links_bytes(list[0].1, large)
            + associations_bytes(list.skip(1), wide, large)
    }
}

/// They can be written.
pub open spec fn associations_fit(list: Seq<(u32, Links)>, wide: bool, large: bool) -> bool {
    forall|i: int|
        0 <= i < list.len() ==> (wide || (#[trigger] list[i]).0 <= 0xFFFF) && links_fit(
            list[i].1,
            large,
        )
}

proof fn lemma_associations(
    b: Seq<u8>,
    at: int,
    list: Seq<(u32, Links)>,
    wide: bool,
    large: bool,
    acc: Seq<(u32, Links)>,
)
    requires
        0 <= at <= b.len(),
        associations_fit(list, wide, large),
        b.skip(at) == associations_bytes(list, wide, large),
    ensures
        property::associations_from(b, at, list.len(), wide, large, acc) == Ok::<
            Seq<(u32, Links)>,
            Seq<char>,
        >(acc + list),
    decreases list.len(),
{
    if list.len() == 0 {
        assert(acc + list =~= acc);
    } else {
        let (id, l) = list[0];
        let more = list.skip(1);
        let tail = associations_bytes(more, wide, large);
        let w = id_bytes(id, wide);
        assert(links_fit(list[0].1, large));
        assert(associations_fit(more, wide, large)) by {
            assert forall|i: int| 0 <= i < more.len() implies (wide || (#[trigger] more[i]).0
                <= 0xFFFF) && links_fit(more[i].1, large) by {
                assert(more[i] == list[i + 1]);
            }
        }
        let n = seq![l.len() as u8];
        assert(b.skip(at) =~= w + (n + (links_bytes(l, large) + tail)));
        lemma_id(b, at, id, wide, n + (links_bytes(l, large) + tail));
        lemma_split(b, at + w.len(), n, links_bytes(l, large) + tail);
        assert(n[0] == b[at + w.len()]);
        lemma_links(b, at + w.len() + 1, l, large, tail, Seq::empty());
        assert(Seq::<(u16, bool)>::empty() + l =~= l);
        reveal_with_fuel(cursor::lack, 3);
        let end = at + w.len() + 1 + links_bytes(l, large).len();
        lemma_associations(b, end, more, wide, large, acc.push((id, l)));
        assert(acc.push((id, l)) + more =~= acc + list);
    }
}

/// Which item has which properties is read back: a version other than zero has wide
/// identities, and the lowest flag has wide numbers.
pub proof fn law_associations_are_read(
    version: u8,
    f0: u8,
    f1: u8,
    f2: u8,
    list: Seq<(u32, Links)>,
    acc: Seq<(u32, Links)>,
)
    requires
        list.len() <= u32::MAX,
        associations_fit(list, version != 0, f2 % 2 == 1),
    ensures
        property::ipma_of(
            seq![version, f0, f1, f2] + bytes::be32(list.len() as u32) + associations_bytes(
                list,
                version != 0,
                f2 % 2 == 1,
            ),
            acc,
        ) == Ok::<Seq<(u32, Links)>, Seq<char>>(acc + list),
{
    let h = seq![version, f0, f1, f2];
    let n = bytes::be32(list.len() as u32);
    let t = associations_bytes(list, version != 0, f2 % 2 == 1);
    let b = h + n + t;
    bytes::lemma_be32(list.len() as u32);
    assert(b.skip(0) =~= h + (n + t));
    lemma_split(b, 0, h, n + t);
    assert(b[0] == version && b[3] == f2);
    lemma_four(b, 4, list.len() as u32, t);
    reveal_with_fuel(cursor::lack, 4);
    lemma_associations(b, 8, list, version != 0, f2 % 2 == 1, acc);
}

/// The properties of an item are those that its numbers name, counted from one, in the
/// order in which it lists them.
pub proof fn law_numbers_name_properties(links: Links, all: Seq<Property>)
    requires
        forall|i: int| 0 <= i < links.len() ==> 1 <= (#[trigger] links[i]).0 <= all.len(),
    ensures
        item::linked(links, all).len() == links.len(),
        forall|i: int|
            0 <= i < links.len() ==> #[trigger] item::linked(links, all)[i] == all[links[i].0 - 1],
    decreases links.len(),
{
    if links.len() > 0 {
        let rest = links.drop_last();
        assert forall|i: int| 0 <= i < rest.len() implies 1 <= (#[trigger] rest[i]).0
            <= all.len() by {
            assert(rest[i] == links[i]);
        }
        assert(links[links.len() - 1] == links.last());
        law_numbers_name_properties(rest, all);
    }
}

/// The primary item is named in two bytes, or in four in a version other than zero.
pub proof fn law_primary_item_is_read(version: u8, f: Seq<u8>, id: u32, rest: Seq<u8>)
    requires
        f.len() == 3,
        version != 0 || id <= 0xFFFF,
    ensures
        item::primary_of(seq![version] + f + id_bytes(id, version != 0) + rest) == Ok::<
            u32,
            Seq<char>,
        >(id),
{
    let h = seq![version] + f;
    let w = id_bytes(id, version != 0);
    let b = h + w + rest;
    assert(b.skip(0) =~= h + (w + rest));
    lemma_split(b, 0, h, w + rest);
    assert(b[0] == version);
    lemma_id(b, 4, id, version != 0, rest);
    reveal_with_fuel(cursor::lack, 3);
}

/// An item on the wire, with wide identities in version 3.
pub open spec fn info_bytes(
    wide: bool,
    f: Seq<u8>,
    id: u32,
    protection: u16,
    kind: Seq<u8>,
    name: Seq<u8>,
    rest: Seq<u8>,
) -> Seq<u8> {
    seq![
        if wide {
            3u8
        } else {
            2u8
        },
    ] + f + id_bytes(id, wide) + bytes::be16(protection) + kind + name + seq![0u8] + rest
}

/// What is said of an item is read back: its identity, its type, and its name up to its
/// zero.
pub proof fn law_item_is_read(
    wide: bool,
    f: Seq<u8>,
    id: u32,
    protection: u16,
    kind: Seq<u8>,
    name: Seq<u8>,
    rest: Seq<u8>,
)
    requires
        f.len() == 3,
        wide || id <= 0xFFFF,
        kind.len() == 4,
        forall|i: int| 0 <= i < name.len() ==> #[trigger] name[i] != 0,
    ensures
        item::info_of(info_bytes(wide, f, id, protection, kind, name, rest)) == Ok::<
            InfoView,
            Seq<char>,
        >(InfoView { id, item_type: kind, name: Some(text::lossy_text(name)) }),
{
    let v: u8 = if wide {
        3
    } else {
        2
    };
    let h = seq![v] + f;
    let w = id_bytes(id, wide);
    let p = bytes::be16(protection);
    let t = kind + (name + (seq![0u8] + rest));
    let b = info_bytes(wide, f, id, protection, kind, name, rest);
    bytes::lemma_be16(protection);
    bytes::lemma_be32(id);
    assert(b.skip(0) =~= h + (w + (p + t)));
    lemma_split(b, 0, h, w + (p + t));
    assert(b[0] == v);
    lemma_id(b, 4, id, wide, p + t);
    lemma_split(b, 4 + w.len() as int, p, t);
    let q = 6 + w.len() as int;
    lemma_split(b, q, kind, name + (seq![0u8] + rest));
    let at = q + 4;
    lemma_split(b, at, name, seq![0u8] + rest);
    lemma_split(b, at + name.len(), seq![0u8], rest);
    assert(seq![0u8][0] == b[at + name.len()]);
    assert forall|i: int| at <= i < at + name.len() implies #[trigger] b[i] != 0 by {
        assert(name[i - at] == b[at + (i - at)]);
    }
    lemma_zero(b, at, at + name.len());
    reveal_with_fuel(cursor::lack, 4);
    assert(b.subrange(at, at + name.len()) == name);
}

proof fn lemma_infos(b: Seq<u8>, at: int, list: Boxes, acc: Seq<InfoView>)
    requires
        0 <= at <= b.len(),
        writable(list),
        b.skip(at) == pack(list),
        forall|i: int|
            0 <= i < list.len() ==> (#[trigger] list[i]).0 == code('i', 'n', 'f', 'e')
                && item::info_of(list[i].1) is Ok,
    ensures
        item::infos_from(b, at, list.len(), acc) matches Ok(v) && v.len() == acc.len() + list.len()
            && v.take(acc.len() as int) == acc && forall|i: int|
            0 <= i < list.len() ==> item::info_of((#[trigger] list[i]).1) == Ok::<
                InfoView,
                Seq<char>,
            >(v[acc.len() + i]),
    decreases list.len(),
{
    assert(kinds::INFE@ =~= code('i', 'n', 'f', 'e'));
    if list.len() == 0 {
        assert(acc.take(acc.len() as int) =~= acc);
    } else {
        let (k, body) = list[0];
        let rest = list.skip(1);
        lemma_tail(list);
        lemma_front(b, at, k, body, pack(rest));
        assert(list[0].0 == code('i', 'n', 'f', 'e'));
        let more = acc.push(item::info_of(body)->Ok_0);
        assert forall|i: int| 0 <= i < rest.len() implies (#[trigger] rest[i]).0 == code(
            'i',
            'n',
            'f',
            'e',
        ) && item::info_of(rest[i].1) is Ok by {
            assert(rest[i] == list[i + 1]);
        }
        lemma_infos(b, at + 8 + body.len(), rest, more);
        let v = item::infos_from(b, at, list.len(), acc)->Ok_0;
        assert(v.take(acc.len() as int) =~= acc) by {
            assert forall|i: int| 0 <= i < acc.len() implies v[i] == acc[i] by {
                assert(v.take(more.len() as int)[i] == more[i]);
            }
        }
        assert forall|i: int| 0 <= i < list.len() implies item::info_of((#[trigger] list[i]).1)
            == Ok::<InfoView, Seq<char>>(v[acc.len() + i]) by {
            if i == 0 {
                assert(v.take(more.len() as int)[acc.len() as int] == more[acc.len() as int]);
            } else {
                assert(rest[i - 1] == list[i]);
            }
        }
    }
}

/// The items of a file are read from their boxes, all of them and in order.
pub proof fn law_items_are_read(version: u8, f: Seq<u8>, list: Boxes)
    requires
        f.len() == 3,
        writable(list),
        list.len() <= if version >= 1 {
            u32::MAX as int
        } else {
            0xFFFF
        },
        forall|i: int|
            0 <= i < list.len() ==> (#[trigger] list[i]).0 == code('i', 'n', 'f', 'e')
                && item::info_of(list[i].1) is Ok,
    ensures
        item::items_in(
            seq![version] + f + id_bytes(list.len() as u32, version >= 1) + pack(list),
        ) matches Ok(v) && v.len() == list.len() && forall|i: int|
            0 <= i < list.len() ==> item::info_of((#[trigger] list[i]).1) == Ok::<
                InfoView,
                Seq<char>,
            >(v[i]),
{
    let n = list.len() as u32;
    let h = seq![version] + f;
    let w = id_bytes(n, version >= 1);
    let b = h + w + pack(list);
    lemma_items_head(version, f, n, pack(list));
    lemma_infos(b, 4 + w.len() as int, list, Seq::empty());
    lemma_behind_nothing(list, item::items_in(b)->Ok_0);
}

/// Nothing stands before what was read.
proof fn lemma_behind_nothing(list: Boxes, v: Seq<InfoView>)
    requires
        forall|i: int|
            0 <= i < list.len() ==> item::info_of((#[trigger] list[i]).1) == Ok::<
                InfoView,
                Seq<char>,
            >(v[Seq::<InfoView>::empty().len() + i]),
    ensures
        forall|i: int|
            0 <= i < list.len() ==> item::info_of((#[trigger] list[i]).1) == Ok::<
                InfoView,
                Seq<char>,
            >(v[i]),
{
}

proof fn lemma_items_head(version: u8, f: Seq<u8>, n: u32, rest: Seq<u8>)
    requires
        f.len() == 3,
        version >= 1 || n <= 0xFFFF,
    ensures
        ({
            let w = id_bytes(n, version >= 1);
            let b = seq![version] + f + w + rest;
            &&& 4 + w.len() <= b.len()
            &&& b.skip(4 + w.len() as int) == rest
            &&& item::items_in(b) == item::infos_from(
                b,
                4 + w.len() as int,
                n as nat,
                Seq::empty(),
            )
        }),
{
    let h = seq![version] + f;
    let w = id_bytes(n, version >= 1);
    let b = h + w + rest;
    assert(b.skip(0) =~= h + (w + rest));
    lemma_split(b, 0, h, w + rest);
    assert(b[0] == version);
    lemma_id(b, 4, n, version >= 1, rest);
    reveal_with_fuel(cursor::lack, 3);
}

/// The bytes of a field of a place: as many as the width says.
pub open spec fn field(v: u64, width: nat) -> Seq<u8> {
    bytes::fixed(v as nat, width)
}

/// A number fits into a field.
pub open spec fn fits(v: u64, width: nat) -> bool {
    width <= 8 && v < bytes::pow256(width)
}

proof fn lemma_field(b: Seq<u8>, at: int, v: u64, width: nat, rest: Seq<u8>)
    requires
        0 <= at <= b.len(),
        fits(v, width),
        b.skip(at) == field(v, width) + rest,
    ensures
        field(v, width).len() == width,
        cursor::uint_at(b, at, width) == Ok::<u64, Seq<char>>(v),
        at + width <= b.len(),
        b.skip(at + width) == rest,
{
    bytes::lemma_uint_fixed(v as nat, width);
    bytes::lemma_pow256();
    lemma_split(b, at, field(v, width), rest);
    reveal_with_fuel(cursor::lack, 2);
}

/// Extents on the wire, each with an index in the versions that have one.
pub open spec fn extents_bytes(
    list: Seq<(Seq<u8>, ItemExtent)>,
    w: item::Widths,
) -> Seq<u8>
    decreases list.len(),
{
    if list.len() == 0 {
        Seq::empty()
    } else {
        list[0].0 + field(list[0].1.offset, w.offset) + field(list[0].1.length, w.length)
            + extents_bytes(list.skip(1), w)
    }
}

/// They can be written.
pub open spec fn extents_fit(list: Seq<(Seq<u8>, ItemExtent)>, indexed: bool, w: item::Widths) -> bool {
    &&& list.len() <= 0xFFFF
    &&& forall|i: int|
        0 <= i < list.len() ==> (#[trigger] list[i]).0.len() == (if indexed {
            w.index
        } else {
            0
        }) && fits(list[i].1.offset, w.offset) && fits(list[i].1.length, w.length)
}

/// The extents of a list.
pub open spec fn extents_of(list: Seq<(Seq<u8>, ItemExtent)>) -> Seq<ItemExtent> {
    Seq::new(list.len(), |i: int| list[i].1)
}

#[verifier::spinoff_prover]
#[verifier::rlimit(40)]
proof fn lemma_extents(
    b: Seq<u8>,
    at: int,
    list: Seq<(Seq<u8>, ItemExtent)>,
    indexed: bool,
    w: item::Widths,
    rest: Seq<u8>,
    acc: Seq<ItemExtent>,
)
    requires
        0 <= at <= b.len(),
        extents_fit(list, indexed, w),
        b.skip(at) == extents_bytes(list, w) + rest,
    ensures
        item::extents_from(b, at, list.len(), indexed, w, acc) == Ok::<
            (Seq<ItemExtent>, int),
            Seq<char>,
        >((acc + extents_of(list), at + extents_bytes(list, w).len())),
        at + extents_bytes(list, w).len() <= b.len(),
        b.skip(at + extents_bytes(list, w).len()) == rest,
    decreases list.len(),
{
    if list.len() == 0 {
        assert(acc + extents_of(list) =~= acc);
        assert(extents_bytes(list, w) + rest =~= rest);
    } else {
        let (x, e) = list[0];
        let more = list.skip(1);
        let o = field(e.offset, w.offset);
        let l = field(e.length, w.length);
        let tail = extents_bytes(more, w) + rest;
        assert(list[0].0.len() == if indexed {
            w.index
        } else {
            0
        });
        assert(extents_fit(more, indexed, w)) by {
            assert forall|i: int| 0 <= i < more.len() implies (#[trigger] more[i]).0.len() == (
            if indexed {
                w.index
            } else {
                0
            }) && fits(more[i].1.offset, w.offset) && fits(more[i].1.length, w.length) by {
                assert(more[i] == list[i + 1]);
            }
        }
        assert(b.skip(at) =~= x + (o + (l + tail)));
        lemma_split(b, at, x, o + (l + tail));
        let p = at + x.len();
        lemma_field(b, p, e.offset, w.offset, l + tail);
        lemma_field(b, p + w.offset, e.length, w.length, tail);
        reveal_with_fuel(cursor::lack, 2);
        lemma_extents(b, p + w.offset + w.length, more, indexed, w, rest, acc.push(e));
        assert(acc.push(e) + extents_of(more) =~= acc + extents_of(list));
    }
}

/// Where an item is, to be written.
pub struct Place {
    pub id: u32,
    /// What offsets count from, and what is reserved beside it.
    pub method: u8,
    pub reserved: u16,
    pub data_reference: u16,
    pub base: u64,
    pub extents: Seq<(Seq<u8>, ItemExtent)>,
}

/// A place on the wire.
pub open spec fn place_bytes(p: Place, version: u8, w: item::Widths) -> Seq<u8> {
    id_bytes(p.id, version >= 2) + (if version == 1 || version == 2 {
        bytes::be16((p.reserved * 16 + p.method) as u16)
    } else {
        Seq::empty()
    }) + bytes::be16(p.data_reference) + field(p.base, w.base) + bytes::be16(
        p.extents.len() as u16,
    ) + extents_bytes(p.extents, w)
}

/// It can be written.
pub open spec fn place_fits(p: Place, version: u8, w: item::Widths) -> bool {
    let indexed = version == 1 || version == 2;
    &&& version >= 2 || p.id <= 0xFFFF
    &&& p.method < 16
    &&& p.reserved < 4096
    &&& !indexed ==> p.method == 0
    &&& fits(p.base, w.base)
    &&& extents_fit(p.extents, indexed, w)
}

/// What is read of a place.
pub open spec fn location_of(p: Place) -> LocationView {
    LocationView {
        id: p.id,
        construction_method: p.method,
        base_offset: p.base,
        extents: extents_of(p.extents),
    }
}

/// What a place starts with, up to its base.
pub open spec fn place_front(p: Place, version: u8) -> Seq<u8> {
    id_bytes(p.id, version >= 2) + (if version == 1 || version == 2 {
        bytes::be16((p.reserved * 16 + p.method) as u16)
    } else {
        Seq::empty()
    }) + bytes::be16(p.data_reference)
}

#[verifier::spinoff_prover]
proof fn lemma_place_front(b: Seq<u8>, at: int, p: Place, version: u8, rest: Seq<u8>)
    requires
        0 <= at <= b.len(),
        version >= 2 || p.id <= 0xFFFF,
        p.method < 16,
        p.reserved < 4096,
        !(version == 1 || version == 2) ==> p.method == 0,
        b.skip(at) == place_front(p, version) + rest,
    ensures
        item::place_head(b, at, version) == Ok::<(u32, u8, int), Seq<char>>(
            (p.id, p.method, at + place_front(p, version).len()),
        ),
        at + place_front(p, version).len() <= b.len(),
        b.skip(at + place_front(p, version).len()) == rest,
{
    let indexed = version == 1 || version == 2;
    let i = id_bytes(p.id, version >= 2);
    let mv = (p.reserved * 16 + p.method) as u16;
    let m = if indexed {
        bytes::be16(mv)
    } else {
        Seq::empty()
    };
    let d = bytes::be16(p.data_reference);
    bytes::lemma_be16(p.data_reference);
    bytes::lemma_be16(mv);
    assert(b.skip(at) =~= i + (m + (d + rest)));
    lemma_id(b, at, p.id, version >= 2, m + (d + rest));
    let a1 = at + i.len();
    lemma_split(b, a1, m, d + rest);
    if indexed {
        lemma_two(b, a1, mv, d + rest);
    }
    lemma_two(b, a1 + m.len(), p.data_reference, rest);
    lemma_lack_place(b, at, version);
}

proof fn lemma_lack_place(b: Seq<u8>, at: int, version: u8)
    requires
        0 <= at,
        at + (if version < 2 {
            2int
        } else {
            4int
        }) + (if version == 1 || version == 2 {
            4int
        } else {
            2int
        }) <= b.len(),
    ensures
        ({
            let idw: nat = if version < 2 {
                2
            } else {
                4
            };
            cursor::lack(
                b,
                at,
                if version == 1 || version == 2 {
                    seq![idw, 2nat, 2]
                } else {
                    seq![idw, 2nat]
                },
            ) is None
        }),
{
    reveal_with_fuel(cursor::lack, 4);
}

proof fn lemma_place(b: Seq<u8>, at: int, p: Place, version: u8, w: item::Widths, rest: Seq<u8>)
    requires
        0 <= at <= b.len(),
        place_fits(p, version, w),
        b.skip(at) == place_bytes(p, version, w) + rest,
    ensures
        item::place_at(b, at, version, w) == Ok::<(LocationView, int), Seq<char>>(
            (location_of(p), at + place_bytes(p, version, w).len()),
        ),
        at + place_bytes(p, version, w).len() <= b.len(),
        b.skip(at + place_bytes(p, version, w).len()) == rest,
{
    let indexed = version == 1 || version == 2;
    let g = place_front(p, version);
    let f = field(p.base, w.base);
    let n = bytes::be16(p.extents.len() as u16);
    let e = extents_bytes(p.extents, w);
    bytes::lemma_be16(p.extents.len() as u16);
    assert(b.skip(at) =~= g + (f + (n + (e + rest))));
    lemma_place_front(b, at, p, version, f + (n + (e + rest)));
    let a3 = at + g.len();
    lemma_field(b, a3, p.base, w.base, n + (e + rest));
    let a4 = a3 + w.base;
    lemma_two(b, a4, p.extents.len() as u16, e + rest);
    lemma_extents(b, a4 + 2, p.extents, indexed, w, rest, Seq::empty());
    assert(Seq::<ItemExtent>::empty() + extents_of(p.extents) =~= extents_of(p.extents));
    assert(cursor::lack(b, a4, seq![2nat]) is None) by {
        reveal_with_fuel(cursor::lack, 2);
    }
}

/// Places on the wire.
pub open spec fn places_bytes(list: Seq<Place>, version: u8, w: item::Widths) -> Seq<u8>
    decreases list.len(),
{
    if list.len() == 0 {
        Seq::empty()
    } else {
        place_bytes(list[0], version, w) + places_bytes(list.skip(1), version, w)
    }
}

proof fn lemma_places(
    b: Seq<u8>,
    at: int,
    list: Seq<Place>,
    version: u8,
    w: item::Widths,
    acc: Seq<LocationView>,
)
    requires
        0 <= at <= b.len(),
        forall|i: int| 0 <= i < list.len() ==> place_fits(#[trigger] list[i], version, w),
        b.skip(at) == places_bytes(list, version, w),
    ensures
        item::places_from(b, at, list.len(), version, w, acc) == Ok::<
            Seq<LocationView>,
            Seq<char>,
        >(acc + Seq::new(list.len(), |i: int| location_of(list[i]))),
    decreases list.len(),
{
    let want = Seq::new(list.len(), |i: int| location_of(list[i]));
    if list.len() == 0 {
        assert(acc + want =~= acc);
    } else {
        let p = list[0];
        let more = list.skip(1);
        assert(place_fits(list[0], version, w));
        assert forall|i: int| 0 <= i < more.len() implies place_fits(
            #[trigger] more[i],
            version,
            w,
        ) by {
            assert(more[i] == list[i + 1]);
        }
        lemma_place(b, at, p, version, w, places_bytes(more, version, w));
        let end = at + place_bytes(p, version, w).len();
        lemma_places(b, end, more, version, w, acc.push(location_of(p)));
        assert(acc.push(location_of(p)) + Seq::new(more.len(), |i: int| location_of(more[i]))
            =~= acc + want);
    }
}

/// The places of items are read back: for each its identity, what its offsets count from,
/// its base, and its extents in order, all in fields of the widths that were announced.
pub proof fn law_places_are_read(
    version: u8,
    f: Seq<u8>,
    w: item::Widths,
    reserved: u8,
    list: Seq<Place>,
)
    requires
        version <= 2,
        f.len() == 3,
        w.offset <= 8 && w.length <= 8 && w.base <= 8 && w.index <= 8,
        reserved < 16,
        version == 0 ==> w.index == 0,
        list.len() <= if version < 2 {
            0xFFFFint
        } else {
            u32::MAX as int
        },
        forall|i: int| 0 <= i < list.len() ==> place_fits(#[trigger] list[i], version, w),
    ensures
        item::places_in(
            seq![version] + f + seq![
                (w.offset * 16 + w.length) as u8,
                (w.base * 16 + if version == 0 {
                    reserved as nat
                } else {
                    w.index
                }) as u8,
            ] + id_bytes(list.len() as u32, version >= 2) + places_bytes(list, version, w),
        ) == Ok::<Seq<LocationView>, Seq<char>>(
            Seq::new(list.len(), |i: int| location_of(list[i])),
        ),
{
    let h = seq![version] + f + seq![
        (w.offset * 16 + w.length) as u8,
        (w.base * 16 + if version == 0 {
            reserved as nat
        } else {
            w.index
        }) as u8,
    ];
    let n = id_bytes(list.len() as u32, version >= 2);
    let t = places_bytes(list, version, w);
    let b = h + n + t;
    assert(b.skip(0) =~= h + (n + t));
    lemma_split(b, 0, h, n + t);
    assert(b[0] == version && b[4] == h[4] && b[5] == h[5]);
    lemma_id(b, 6, list.len() as u32, version >= 2, t);
    lemma_places_head(b, w, reserved, list.len());
    lemma_places(b, 6 + n.len() as int, list, version, w, Seq::empty());
    let want = Seq::new(list.len(), |i: int| location_of(list[i]));
    assert(Seq::<LocationView>::empty() + want =~= want);
}

#[verifier::spinoff_prover]
proof fn lemma_places_head(b: Seq<u8>, w: item::Widths, reserved: u8, count: nat)
    requires
        b.len() >= 8,
        b[0] <= 2,
        b[0] == 2 ==> b.len() >= 10,
        w.offset <= 8 && w.length <= 8 && w.base <= 8 && w.index <= 8,
        reserved < 16,
        b[0] == 0 ==> w.index == 0,
        b[4] == w.offset * 16 + w.length,
        b[5] == w.base * 16 + if b[0] == 0 {
            reserved as nat
        } else {
            w.index
        },
        count == if b[0] < 2 {
            bytes::get16(b, 6) as nat
        } else {
            bytes::get32(b, 6) as nat
        },
    ensures
        item::places_head(b) == Ok::<(u8, item::Widths, nat, int), Seq<char>>(
            (
                b[0],
                w,
                count,
                if b[0] < 2 {
                    8
                } else {
                    10
                },
            ),
        ),
{
    reveal_with_fuel(cursor::lack, 6);
}

/// Identities on the wire.
pub open spec fn ids_bytes(ids: Seq<u32>, wide: bool) -> Seq<u8>
    decreases ids.len(),
{
    if ids.len() == 0 {
        Seq::empty()
    } else {
        id_bytes(ids[0], wide) + ids_bytes(ids.skip(1), wide)
    }
}

proof fn lemma_ids(b: Seq<u8>, at: int, ids: Seq<u32>, wide: bool, acc: Seq<u32>, rest: Seq<u8>)
    requires
        0 <= at <= b.len(),
        wide || forall|i: int| 0 <= i < ids.len() ==> #[trigger] ids[i] <= 0xFFFF,
        b.skip(at) == ids_bytes(ids, wide) + rest,
    ensures
        item::ids_from(b, at, ids.len(), wide, acc) == Ok::<Seq<u32>, Seq<char>>(acc + ids),
    decreases ids.len(),
{
    if ids.len() == 0 {
        assert(acc + ids =~= acc);
    } else {
        let more = ids.skip(1);
        let tail = ids_bytes(more, wide) + rest;
        assert(b.skip(at) =~= id_bytes(ids[0], wide) + tail);
        lemma_id(b, at, ids[0], wide, tail);
        reveal_with_fuel(cursor::lack, 2);
        if !wide {
            assert forall|i: int| 0 <= i < more.len() implies #[trigger] more[i] <= 0xFFFF by {
                assert(more[i] == ids[i + 1]);
            }
        }
        lemma_ids(b, at + id_bytes(ids[0], wide).len(), more, wide, acc.push(ids[0]), rest);
        assert(acc.push(ids[0]) + more =~= acc + ids);
    }
}

/// A reference is read back: the item that refers, and those to which it refers, in order.
pub proof fn law_reference_is_read(
    kind: Seq<u8>,
    from: u32,
    to: Seq<u32>,
    wide: bool,
    rest: Seq<u8>,
)
    requires
        wide || from <= 0xFFFF,
        wide || forall|i: int| 0 <= i < to.len() ==> #[trigger] to[i] <= 0xFFFF,
        to.len() <= 0xFFFF,
    ensures
        item::reference_of(
            kind,
            id_bytes(from, wide) + bytes::be16(to.len() as u16) + ids_bytes(to, wide) + rest,
            wide,
        ) == Ok::<ReferenceView, Seq<char>>(ReferenceView { from, ref_type: kind, to }),
{
    let i = id_bytes(from, wide);
    let n = bytes::be16(to.len() as u16);
    let t = ids_bytes(to, wide) + rest;
    let b = i + n + ids_bytes(to, wide) + rest;
    assert(b.skip(0) =~= i + (n + t));
    lemma_id(b, 0, from, wide, n + t);
    lemma_two(b, i.len() as int, to.len() as u16, t);
    reveal_with_fuel(cursor::lack, 3);
    lemma_ids(b, i.len() as int + 2, to, wide, Seq::empty(), rest);
    assert(Seq::<u32>::empty() + to =~= to);
}

proof fn lemma_references(b: Seq<u8>, at: int, list: Boxes, wide: bool, acc: Seq<ReferenceView>)
    requires
        0 <= at <= b.len(),
        writable(list),
        b.skip(at) == pack(list),
        forall|i: int|
            0 <= i < list.len() ==> item::reference_of((#[trigger] list[i]).0, list[i].1, wide)
                is Ok,
    ensures
        item::references_from(b, at, wide, acc) matches Ok(v) && v.len() == acc.len() + list.len()
            && v.take(acc.len() as int) == acc && forall|i: int|
            0 <= i < list.len() ==> item::reference_of((#[trigger] list[i]).0, list[i].1, wide)
                == Ok::<ReferenceView, Seq<char>>(v[acc.len() + i]),
    decreases list.len(),
{
    if list.len() == 0 {
        assert(b.skip(at).len() == 0);
        assert(acc.take(acc.len() as int) =~= acc);
    } else {
        let (k, body) = list[0];
        let rest = list.skip(1);
        lemma_tail(list);
        lemma_front(b, at, k, body, pack(rest));
        assert(item::reference_of(list[0].0, list[0].1, wide) is Ok);
        let more = acc.push(item::reference_of(k, body, wide)->Ok_0);
        assert forall|i: int| 0 <= i < rest.len() implies item::reference_of(
            (#[trigger] rest[i]).0,
            rest[i].1,
            wide,
        ) is Ok by {
            assert(rest[i] == list[i + 1]);
        }
        lemma_references(b, at + 8 + body.len(), rest, wide, more);
        let v = item::references_from(b, at, wide, acc)->Ok_0;
        assert(v.take(acc.len() as int) =~= acc) by {
            assert forall|i: int| 0 <= i < acc.len() implies v[i] == acc[i] by {
                assert(v.take(more.len() as int)[i] == more[i]);
            }
        }
        assert forall|i: int| 0 <= i < list.len() implies item::reference_of(
            (#[trigger] list[i]).0,
            list[i].1,
            wide,
        ) == Ok::<ReferenceView, Seq<char>>(v[acc.len() + i]) by {
            if i == 0 {
                assert(v.take(more.len() as int)[acc.len() as int] == more[acc.len() as int]);
            } else {
                assert(rest[i - 1] == list[i]);
            }
        }
    }
}

/// The references of a file are read from their boxes, all of them and in order; identities
/// are wide in a version other than zero.
pub proof fn law_references_are_read(version: u8, f: Seq<u8>, list: Boxes)
    requires
        f.len() == 3,
        writable(list),
        forall|i: int|
            0 <= i < list.len() ==> item::reference_of(
                (#[trigger] list[i]).0,
                list[i].1,
                version != 0,
            ) is Ok,
    ensures
        item::references_in(seq![version] + f + pack(list)) matches Ok(v) && v.len() == list.len()
            && forall|i: int|
            0 <= i < list.len() ==> item::reference_of(
                (#[trigger] list[i]).0,
                list[i].1,
                version != 0,
            ) == Ok::<ReferenceView, Seq<char>>(v[i]),
{
    let h = seq![version] + f;
    let b = h + pack(list);
    assert(b.skip(0) =~= h + pack(list));
    lemma_split(b, 0, h, pack(list));
    assert(b[0] == version);
    assert(cursor::lack(b, 0, seq![1nat, 3]) is None) by {
        reveal_with_fuel(cursor::lack, 3);
    }
    lemma_references(b, 4, list, version != 0, Seq::empty());
    let v = item::references_in(b)->Ok_0;
    assert forall|i: int| 0 <= i < list.len() implies item::reference_of(
        (#[trigger] list[i]).0,
        list[i].1,
        version != 0,
    ) == Ok::<ReferenceView, Seq<char>>(v[i]) by {
        assert(v[Seq::<ReferenceView>::empty().len() + i] == v[i]);
    }
}

/// The properties of a file and which item has which are read from their boxes.
pub proof fn law_property_table_is_read(
    ipco: Seq<u8>,
    ipma: Seq<u8>,
    properties: Seq<PropertyView>,
    associations: Seq<(u32, Links)>,
)
    requires
        ipco.len() + 8 <= u32::MAX,
        ipma.len() + 8 <= u32::MAX,
        property::properties_from(ipco, 0, Seq::empty()) == Ok::<Seq<PropertyView>, Seq<char>>(
            properties,
        ),
        property::ipma_of(ipma, Seq::empty()) == Ok::<Seq<(u32, Links)>, Seq<char>>(associations),
    ensures
        property::table_from(
            box_bytes(code('i', 'p', 'c', 'o'), ipco) + box_bytes(code('i', 'p', 'm', 'a'), ipma),
            0,
            property::no_properties(),
        ) == Ok::<TableView, Seq<char>>(TableView { properties, associations }),
{
    assert(kinds::IPCO@ =~= code('i', 'p', 'c', 'o'));
    assert(kinds::IPMA@ =~= code('i', 'p', 'm', 'a'));
    lemma_kinds();
    let x = box_bytes(code('i', 'p', 'c', 'o'), ipco);
    let y = box_bytes(code('i', 'p', 'm', 'a'), ipma);
    let b = x + y;
    assert(b.skip(0) =~= x + y);
    lemma_front(b, 0, code('i', 'p', 'c', 'o'), ipco, y);
    let at = 8 + ipco.len() as int;
    assert(y =~= y + Seq::<u8>::empty());
    lemma_front(b, at, code('i', 'p', 'm', 'a'), ipma, Seq::empty());
    assert(b.skip(at + 8 + ipma.len()).len() == 0);
    reveal_with_fuel(property::table_from, 3);
}

/// The body of the last box of a kind.
pub open spec fn last_of(list: Boxes, kind: Seq<u8>) -> Option<Seq<u8>>
    decreases list.len(),
{
    if list.len() == 0 {
        None
    } else if last_of(list.skip(1), kind) is Some {
        last_of(list.skip(1), kind)
    } else if list[0].0 == kind {
        Some(list[0].1)
    } else {
        None
    }
}

/// The children of the `meta` box can be read.
pub open spec fn children_fit(list: Boxes) -> bool {
    &&& writable(list)
    &&& forall|i: int|
        0 <= i < list.len() ==> {
            let (k, x) = #[trigger] list[i];
            &&& k == code('p', 'i', 't', 'm') ==> item::primary_of(x) is Ok
            &&& k == code('i', 'i', 'n', 'f') ==> item::items_in(x) is Ok
            &&& k == code('i', 'l', 'o', 'c') ==> item::places_in(x) is Ok
            &&& k == code('i', 'r', 'e', 'f') ==> item::references_in(x) is Ok
            &&& k == code('i', 'p', 'r', 'p') ==> property::table_from(
                x,
                0,
                property::no_properties(),
            ) is Ok
        }
}

/// What the `meta` box says if it said `m` and `idat` before: the last box of each kind
/// counts.
pub open spec fn meta_says(
    list: Boxes,
    m: MetaView,
    idat: Option<Seq<u8>>,
    r: MetaView,
    i: Option<Seq<u8>>,
) -> bool {
    &&& match last_of(list, code('p', 'i', 't', 'm')) {
        Some(x) => item::primary_of(x) == Ok::<u32, Seq<char>>(r.primary_item),
        None => r.primary_item == m.primary_item,
    }
    &&& match last_of(list, code('i', 'i', 'n', 'f')) {
        Some(x) => item::items_in(x) == Ok::<Seq<InfoView>, Seq<char>>(r.items),
        None => r.items == m.items,
    }
    &&& match last_of(list, code('i', 'l', 'o', 'c')) {
        Some(x) => item::places_in(x) == Ok::<Seq<LocationView>, Seq<char>>(r.locations),
        None => r.locations == m.locations,
    }
    &&& match last_of(list, code('i', 'r', 'e', 'f')) {
        Some(x) => item::references_in(x) == Ok::<Seq<ReferenceView>, Seq<char>>(r.references),
        None => r.references == m.references,
    }
    &&& match last_of(list, code('i', 'p', 'r', 'p')) {
        Some(x) => property::table_from(x, 0, property::no_properties()) == Ok::<
            TableView,
            Seq<char>,
        >(r.properties),
        None => r.properties == m.properties,
    }
    &&& match last_of(list, code('i', 'd', 'a', 't')) {
        Some(x) => i == Some(x),
        None => i == idat,
    }
}

/// The codes of the children of a `meta` box.
proof fn lemma_meta_kinds()
    ensures
        kinds::PITM@ == code('p', 'i', 't', 'm'),
        kinds::IINF@ == code('i', 'i', 'n', 'f'),
        kinds::ILOC@ == code('i', 'l', 'o', 'c'),
        kinds::IREF@ == code('i', 'r', 'e', 'f'),
        kinds::IPRP@ == code('i', 'p', 'r', 'p'),
        kinds::IDAT@ == code('i', 'd', 'a', 't'),
        kinds::FTYP@ == code('f', 't', 'y', 'p'),
        kinds::META@ == code('m', 'e', 't', 'a'),
        kinds::MDAT@ == code('m', 'd', 'a', 't'),
{
    assert(kinds::PITM@ =~= code('p', 'i', 't', 'm'));
    assert(kinds::IINF@ =~= code('i', 'i', 'n', 'f'));
    assert(kinds::ILOC@ =~= code('i', 'l', 'o', 'c'));
    assert(kinds::IREF@ =~= code('i', 'r', 'e', 'f'));
    assert(kinds::IPRP@ =~= code('i', 'p', 'r', 'p'));
    assert(kinds::IDAT@ =~= code('i', 'd', 'a', 't'));
    assert(kinds::FTYP@ =~= code('f', 't', 'y', 'p'));
    assert(kinds::META@ =~= code('m', 'e', 't', 'a'));
    assert(kinds::MDAT@ =~= code('m', 'd', 'a', 't'));
}

/// One child of a `meta` box.
proof fn lemma_changed(k: Seq<u8>, x: Seq<u8>, m: MetaView)
    requires
        children_fit(seq![(k, x)]),
    ensures
        item::changed(m, k, x) matches Ok(n) && meta_says(seq![(k, x)], m, None, n, if k == code(
            'i',
            'd',
            'a',
            't',
        ) {
            Some(x)
        } else {
            None
        }),
{
    lemma_meta_kinds();
    lemma_kinds();
    let one = seq![(k, x)];
    assert(one[0] == (k, x));
    assert(one.skip(1) =~= Seq::empty());
    reveal_with_fuel(last_of, 2);
}

#[verifier::spinoff_prover]
proof fn lemma_meta(b: Seq<u8>, at: int, list: Boxes, m: MetaView, idat: Option<Seq<u8>>)
    requires
        0 <= at <= b.len(),
        children_fit(list),
        b.skip(at) == pack(list),
    ensures
        item::meta_from(b, at, m, idat) matches Ok((r, i)) && meta_says(list, m, idat, r, i),
    decreases list.len(),
{
    if list.len() == 0 {
        assert(b.skip(at).len() == 0);
    } else {
        let (k, x) = list[0];
        let rest = list.skip(1);
        lemma_tail(list);
        lemma_front(b, at, k, x, pack(rest));
        assert(children_fit(rest)) by {
            assert forall|i: int| 0 <= i < rest.len() implies ({
                let (k, x) = #[trigger] rest[i];
                &&& k == code('p', 'i', 't', 'm') ==> item::primary_of(x) is Ok
                &&& k == code('i', 'i', 'n', 'f') ==> item::items_in(x) is Ok
                &&& k == code('i', 'l', 'o', 'c') ==> item::places_in(x) is Ok
                &&& k == code('i', 'r', 'e', 'f') ==> item::references_in(x) is Ok
                &&& k == code('i', 'p', 'r', 'p') ==> property::table_from(
                    x,
                    0,
                    property::no_properties(),
                ) is Ok
            }) by {
                assert(rest[i] == list[i + 1]);
            }
        }
        let one = seq![(k, x)];
        assert(one[0] == list[0]);
        assert(children_fit(one));
        lemma_changed(k, x, m);
        let n = item::changed(m, k, x)->Ok_0;
        lemma_meta_kinds();
        let next = if k == code('i', 'd', 'a', 't') {
            Some(x)
        } else {
            idat
        };
        lemma_meta(b, at + 8 + x.len(), rest, n, next);
        lemma_last(list, code('p', 'i', 't', 'm'));
        lemma_last(list, code('i', 'i', 'n', 'f'));
        lemma_last(list, code('i', 'l', 'o', 'c'));
        lemma_last(list, code('i', 'r', 'e', 'f'));
        lemma_last(list, code('i', 'p', 'r', 'p'));
        lemma_last(list, code('i', 'd', 'a', 't'));
    }
}

proof fn lemma_last(list: Boxes, kind: Seq<u8>)
    requires
        list.len() > 0,
    ensures
        last_of(list, kind) == match last_of(list.skip(1), kind) {
            Some(x) => Some(x),
            None => last_of(seq![list[0]], kind),
        },
{
    let one = seq![list[0]];
    assert(one.skip(1) =~= Seq::empty());
    reveal_with_fuel(last_of, 2);
}

/// What the `meta` box says is read from its children: the last of each kind counts.
pub proof fn law_meta_is_read(head: Seq<u8>, list: Boxes)
    requires
        head.len() == 4,
        children_fit(list),
    ensures
        item::meta_of(head + pack(list)) matches Ok((r, i)) && meta_says(
            list,
            item::no_items(),
            None,
            r,
            i,
        ),
{
    let b = head + pack(list);
    assert(b.skip(4) =~= pack(list));
    reveal_with_fuel(cursor::lack, 2);
    lemma_meta(b, 4, list, item::no_items(), None);
}

/// The codes of a list of brands are read in order.
proof fn lemma_codes(b: Seq<u8>, at: int, n: nat, acc: Seq<Seq<u8>>)
    requires
        0 <= at,
        at + 4 * n == b.len(),
    ensures
        item::codes_from(b, at, acc) == Ok::<Seq<Seq<u8>>, Seq<char>>(
            acc + Seq::new(n, |i: int| b.subrange(at + 4 * i, at + 4 * i + 4)),
        ),
    decreases n,
{
    let want = Seq::new(n, |i: int| b.subrange(at + 4 * i, at + 4 * i + 4));
    if n == 0 {
        assert(acc + want =~= acc);
    } else {
        reveal_with_fuel(cursor::lack, 2);
        let x = b.subrange(at, at + 4);
        lemma_codes(b, at + 4, (n - 1) as nat, acc.push(x));
        let more = Seq::new(
            (n - 1) as nat,
            |i: int| b.subrange(at + 4 + 4 * i, at + 4 + 4 * i + 4),
        );
        assert(acc.push(x) + more =~= acc + want) by {
            assert forall|i: int| 0 <= i < n implies (acc.push(x) + more)[acc.len() + i]
                == #[trigger] want[i] by {
                if i > 0 {
                    assert(more[i - 1] == want[i]);
                }
            }
        }
    }
}

/// Whether reading a file goes on from one place and what was found there to another. It
/// only hides how.
#[verifier::opaque]
spec fn goes(b: Seq<u8>, at: int, f: FileView, to: int, g: FileView) -> bool {
    item::file_from(b, at, f) == item::file_from(b, to, g)
}

proof fn lemma_goes(
    b: Seq<u8>,
    at: int,
    f: FileView,
    to: int,
    g: FileView,
    end: int,
    h: FileView,
)
    requires
        goes(b, at, f, to, g),
        goes(b, to, g, end, h),
    ensures
        goes(b, at, f, end, h),
{
    reveal(goes);
}

proof fn lemma_file_passed(b: Seq<u8>, at: int, list: Boxes, rest: Seq<u8>, f: FileView)
    requires
        0 <= at <= b.len(),
        others(list),
        b.skip(at) == pack(list) + rest,
    ensures
        goes(b, at, f, at + pack(list).len(), f),
        at + pack(list).len() <= b.len(),
        b.skip(at + pack(list).len()) == rest,
    decreases list.len(),
{
    reveal(goes);
    if list.len() == 0 {
        assert(pack(list) + rest =~= rest);
    } else {
        let (k, x) = list[0];
        let more = list.skip(1);
        lemma_tail(list);
        assert(b.skip(at) =~= box_bytes(k, x) + (pack(more) + rest));
        bytes::lemma_be32((x.len() + 8) as u32);
        lemma_front(b, at, k, x, pack(more) + rest);
        lemma_meta_kinds();
        assert(list[0].0 == k);
        assert(others(more)) by {
            assert forall|i: int| 0 <= i < more.len() implies (#[trigger] more[i]).0 != code(
                'f',
                't',
                'y',
                'p',
            ) && more[i].0 != code('m', 'e', 't', 'a') && more[i].0 != code('m', 'd', 'a', 't') by {
                assert(more[i] == list[i + 1]);
            }
        }
        reveal(item::added);
        lemma_file_passed(b, at + 8 + x.len(), more, rest, f);
    }
}

/// The parts of a file: an `ftyp`, a `meta` and an `mdat`, with other boxes around them.
pub struct Parts {
    pub before: Boxes,
    pub ftyp: Seq<u8>,
    pub between: Boxes,
    pub meta: Seq<u8>,
    pub after: Boxes,
    pub mdat: Seq<u8>,
    pub behind: Boxes,
}

/// A file on the wire.
pub open spec fn file_bytes(p: Parts) -> Seq<u8> {
    pack(p.before) + box_bytes(code('f', 't', 'y', 'p'), p.ftyp) + pack(p.between) + box_bytes(
        code('m', 'e', 't', 'a'),
        p.meta,
    ) + pack(p.after) + box_bytes(code('m', 'd', 'a', 't'), p.mdat) + pack(p.behind)
}

/// Other boxes only.
pub open spec fn others(list: Boxes) -> bool {
    &&& writable(list)
    &&& forall|i: int|
        0 <= i < list.len() ==> (#[trigger] list[i]).0 != code('f', 't', 'y', 'p') && list[i].0
            != code('m', 'e', 't', 'a') && list[i].0 != code('m', 'd', 'a', 't')
}

/// A file is read from its boxes: the brands, what the `meta` box says, and the media data
/// with the place where it starts. Other boxes are passed over.
#[verifier::spinoff_prover]
#[verifier::rlimit(40)]
pub proof fn law_file_is_read(p: Parts, n: nat, m: (MetaView, Option<Seq<u8>>))
    requires
        others(p.before),
        others(p.between),
        others(p.after),
        others(p.behind),
        p.ftyp.len() == 8 + 4 * n,
        p.ftyp.len() + 8 <= u32::MAX,
        p.meta.len() + 8 <= u32::MAX,
        p.mdat.len() + 8 <= u32::MAX,
        item::meta_of(p.meta) == Ok::<(MetaView, Option<Seq<u8>>), Seq<char>>(m),
    ensures
        item::file_of(file_bytes(p)) matches Ok(f) && {
            let at = pack(p.before).len() + p.ftyp.len() + pack(p.between).len() + p.meta.len()
                + pack(p.after).len() + 24;
            &&& f.major == p.ftyp.subrange(0, 4)
            &&& f.compatible.len() == n
            &&& forall|i: int|
                0 <= i < n ==> #[trigger] f.compatible[i] == p.ftyp.subrange(8 + 4 * i, 12 + 4 * i)
            &&& f.meta == Some(m)
            &&& f.mdat == Some((at as int, p.mdat))
            &&& file_bytes(p).subrange(at as int, (at + p.mdat.len()) as int) == p.mdat
        },
{
    let b = file_bytes(p);
    let x1 = box_bytes(code('f', 't', 'y', 'p'), p.ftyp);
    let x2 = box_bytes(code('m', 'e', 't', 'a'), p.meta);
    let x3 = box_bytes(code('m', 'd', 'a', 't'), p.mdat);
    let r6 = pack(p.behind);
    let r5 = x3 + r6;
    let r4 = pack(p.after) + r5;
    let r3 = x2 + r4;
    let r2 = pack(p.between) + r3;
    let r1 = x1 + r2;
    let f0 = item::nothing();
    assert(b.skip(0) =~= pack(p.before) + r1);
    lemma_file_passed(b, 0, p.before, r1, f0);
    let a1 = pack(p.before).len() as int;
    lemma_front(b, a1, code('f', 't', 'y', 'p'), p.ftyp, r2);
    lemma_codes(p.ftyp, 8, n, Seq::empty());
    let brands = Seq::new(n, |i: int| p.ftyp.subrange(8 + 4 * i, 8 + 4 * i + 4));
    assert(Seq::<Seq<u8>>::empty() + brands =~= brands);
    let f1 = FileView { ftyp: true, major: p.ftyp.subrange(0, 4), compatible: brands, ..f0 };
    let a2 = a1 + 8 + p.ftyp.len();
    lemma_step_ftyp(b, a1, p.ftyp, f0, f1);
    lemma_goes(b, 0, f0, a1, f0, a2, f1);
    lemma_file_passed(b, a2, p.between, r3, f1);
    let a3 = a2 + pack(p.between).len();
    lemma_goes(b, 0, f0, a2, f1, a3, f1);
    lemma_front(b, a3, code('m', 'e', 't', 'a'), p.meta, r4);
    let f2 = FileView { meta: Some(m), ..f1 };
    lemma_step_meta(b, a3, p.meta, f1, m);
    let a4 = a3 + 8 + p.meta.len();
    lemma_goes(b, 0, f0, a3, f1, a4, f2);
    lemma_file_passed(b, a4, p.after, r5, f2);
    let a5 = a4 + pack(p.after).len();
    lemma_goes(b, 0, f0, a4, f2, a5, f2);
    lemma_front(b, a5, code('m', 'd', 'a', 't'), p.mdat, r6);
    let f3 = FileView { mdat: Some((a5 + 8, p.mdat)), ..f2 };
    lemma_step_mdat(b, a5, p.mdat, f2);
    let a6 = a5 + 8 + p.mdat.len();
    lemma_goes(b, 0, f0, a5, f2, a6, f3);
    assert(r6 =~= pack(p.behind) + Seq::<u8>::empty());
    lemma_file_passed(b, a6, p.behind, Seq::empty(), f3);
    let end = a6 + pack(p.behind).len();
    lemma_goes(b, 0, f0, a6, f3, end, f3);
    assert(b.skip(end).len() == 0);
    lemma_end(b, f0, end, f3);
}

proof fn lemma_end(b: Seq<u8>, f: FileView, end: int, g: FileView)
    requires
        f == item::nothing(),
        goes(b, 0, f, end, g),
        end == b.len(),
        g.ftyp,
        g.meta is Some,
        g.mdat is Some,
    ensures
        item::file_of(b) == Ok::<FileView, Seq<char>>(g),
{
    reveal(goes);
    assert(item::file_from(b, end, g) == Ok::<FileView, Seq<char>>(g));
}

proof fn lemma_step_ftyp(b: Seq<u8>, at: int, body: Seq<u8>, f: FileView, n: FileView)
    requires
        0 <= at,
        at + 8 + body.len() <= b.len(),
        cursor::loose_head(b, at) == Ok::<Head, Seq<char>>(
            Head { kind: code('f', 't', 'y', 'p'), start: at + 8, len: body.len() },
        ),
        b.subrange(at + 8, at + 8 + body.len()) == body,
        body.len() >= 8,
        item::codes_from(body, 8, f.compatible) == Ok::<Seq<Seq<u8>>, Seq<char>>(n.compatible),
        n == (FileView {
            ftyp: true,
            major: body.subrange(0, 4),
            compatible: n.compatible,
            ..f
        }),
    ensures
        goes(b, at, f, at + 8 + body.len(), n),
{
    lemma_meta_kinds();
    let h = Head { kind: code('f', 't', 'y', 'p'), start: at + 8, len: body.len() };
    assert(item::brands_of(body, f.compatible) == Ok::<(Seq<u8>, Seq<Seq<u8>>), Seq<char>>(
        (body.subrange(0, 4), n.compatible),
    )) by {
        reveal_with_fuel(cursor::lack, 3);
    }
    assert(cursor::lack(b, at + 8, seq![body.len()]) is None) by {
        reveal_with_fuel(cursor::lack, 2);
    }
    assert(item::added(f, b, h) == Ok::<FileView, Seq<char>>(n)) by {
        reveal(item::added);
    }
    reveal(goes);
}

proof fn lemma_step_meta(
    b: Seq<u8>,
    at: int,
    body: Seq<u8>,
    f: FileView,
    m: (MetaView, Option<Seq<u8>>),
)
    requires
        0 <= at,
        at + 8 + body.len() <= b.len(),
        cursor::loose_head(b, at) == Ok::<Head, Seq<char>>(
            Head { kind: code('m', 'e', 't', 'a'), start: at + 8, len: body.len() },
        ),
        b.subrange(at + 8, at + 8 + body.len()) == body,
        item::meta_of(body) == Ok::<(MetaView, Option<Seq<u8>>), Seq<char>>(m),
    ensures
        goes(b, at, f, at + 8 + body.len(), FileView { meta: Some(m), ..f }),
{
    lemma_meta_kinds();
    lemma_kinds();
    let h = Head { kind: code('m', 'e', 't', 'a'), start: at + 8, len: body.len() };
    let n = FileView { meta: Some(m), ..f };
    assert(cursor::lack(b, at + 8, seq![body.len()]) is None) by {
        reveal_with_fuel(cursor::lack, 2);
    }
    assert(item::added(f, b, h) == Ok::<FileView, Seq<char>>(n)) by {
        reveal(item::added);
    }
    reveal(goes);
}

proof fn lemma_step_mdat(b: Seq<u8>, at: int, body: Seq<u8>, f: FileView)
    requires
        0 <= at,
        at + 8 + body.len() <= b.len(),
        cursor::loose_head(b, at) == Ok::<Head, Seq<char>>(
            Head { kind: code('m', 'd', 'a', 't'), start: at + 8, len: body.len() },
        ),
        b.subrange(at + 8, at + 8 + body.len()) == body,
        f.mdat is None,
    ensures
        goes(b, at, f, at + 8 + body.len(), FileView { mdat: Some((at + 8, body)), ..f }),
{
    lemma_meta_kinds();
    lemma_kinds();
    let h = Head { kind: code('m', 'd', 'a', 't'), start: at + 8, len: body.len() };
    let n = FileView { mdat: Some((at + 8, body)), ..f };
    assert(item::added(f, b, h) == Ok::<FileView, Seq<char>>(n)) by {
        reveal(item::added);
    }
    reveal(goes);
}

/// How many bytes the first `n` extents have.
pub open spec fn extents_len(extents: Seq<ItemExtent>, n: int) -> int
    decreases n,
{
    if n <= 0 {
        0
    } else {
        extents_len(extents, n - 1) + extents[n - 1].length
    }
}

proof fn lemma_extents_len(extents: Seq<ItemExtent>, k: int, n: int)
    requires
        0 <= k <= n,
    ensures
        0 <= extents_len(extents, k) <= extents_len(extents, n),
    decreases n,
{
    if k < n {
        lemma_extents_len(extents, k, n - 1);
    } else if n > 0 {
        lemma_extents_len(extents, n - 1, n - 1);
    }
}

/// The bytes of an item in a file are those of its extents, one after the other: where each
/// starts counts from the start of the file.
pub proof fn law_item_is_its_extents(
    file: Seq<u8>,
    start: u64,
    len: nat,
    base: u64,
    extents: Seq<ItemExtent>,
    n: nat,
    k: int,
)
    requires
        start + len <= file.len(),
        0 <= k < n <= extents.len(),
        forall|i: int|
            0 <= i < n ==> start <= base + (#[trigger] extents[i]).offset && base
                + extents[i].offset + extents[i].length <= start + len && base + extents[i].offset
                + extents[i].length <= u64::MAX,
    ensures
        heif::from_mdat(
            file.subrange(start as int, start + len),
            start,
            base,
            extents,
            n,
        ) matches Ok(b) && b.len() == extents_len(extents, n as int) && b.subrange(
            extents_len(extents, k),
            extents_len(extents, k + 1),
        ) == file.subrange(
            base + extents[k].offset,
            base + extents[k].offset + extents[k].length,
        ),
    decreases n,
{
    let mdat = file.subrange(start as int, start + len);
    lemma_extents_len(extents, k, k + 1);
    lemma_extents_len(extents, k + 1, n as int);
    let e = extents[n - 1];
    assert(start <= base + e.offset && base + e.offset + e.length <= start + len);
    let part = mdat.subrange(base + e.offset - start, base + e.offset + e.length - start);
    assert(part =~= file.subrange(base + e.offset, base + e.offset + e.length));
    if n == 1 {
        assert(heif::from_mdat(mdat, start, base, extents, 0) == Ok::<Seq<u8>, Seq<char>>(
            Seq::empty(),
        ));
        assert(k == 0);
        let b = heif::from_mdat(mdat, start, base, extents, n)->Ok_0;
        assert(b =~= part);
        reveal_with_fuel(extents_len, 3);
        assert(b.subrange(0, b.len() as int) =~= b);
    } else {
        let m = (n - 1) as nat;
        let j = if k < m {
            k
        } else {
            0
        };
        law_item_is_its_extents(file, start, len, base, extents, m, j);
        let a = heif::from_mdat(mdat, start, base, extents, m)->Ok_0;
        let b = heif::from_mdat(mdat, start, base, extents, n)->Ok_0;
        assert(b == a + part);
        let from = extents_len(extents, k);
        let to = extents_len(extents, k + 1);
        if k < m {
            lemma_extents_len(extents, k + 1, m as int);
            assert(b.subrange(from, to) =~= a.subrange(from, to));
        } else {
            assert(b.subrange(from, to) =~= part);
        }
    }
}

/// The bytes of an item beside the items are those of its extents, one after the other:
/// where each starts counts from the start of the small data.
pub proof fn law_small_item_is_its_extents(
    idat: Seq<u8>,
    base: u64,
    extents: Seq<ItemExtent>,
    n: nat,
    k: int,
)
    requires
        0 <= k < n <= extents.len(),
        forall|i: int|
            0 <= i < n ==> base + (#[trigger] extents[i]).offset <= u64::MAX && base
                + extents[i].offset + extents[i].length <= idat.len(),
    ensures
        heif::from_idat(idat, base, extents, n) matches Ok(b) && b.len() == extents_len(
            extents,
            n as int,
        ) && b.subrange(extents_len(extents, k), extents_len(extents, k + 1)) == idat.subrange(
            base + extents[k].offset,
            base + extents[k].offset + extents[k].length,
        ),
    decreases n,
{
    lemma_extents_len(extents, k, k + 1);
    lemma_extents_len(extents, k + 1, n as int);
    let e = extents[n - 1];
    assert(base + e.offset <= u64::MAX && base + e.offset + e.length <= idat.len());
    let part = idat.subrange(base + e.offset, base + e.offset + e.length);
    if n == 1 {
        assert(heif::from_idat(idat, base, extents, 0) == Ok::<Seq<u8>, Seq<char>>(Seq::empty()));
        assert(k == 0);
        let b = heif::from_idat(idat, base, extents, n)->Ok_0;
        assert(b =~= part);
        reveal_with_fuel(extents_len, 3);
        assert(b.subrange(0, b.len() as int) =~= b);
    } else {
        let m = (n - 1) as nat;
        let j = if k < m {
            k
        } else {
            0
        };
        law_small_item_is_its_extents(idat, base, extents, m, j);
        let a = heif::from_idat(idat, base, extents, m)->Ok_0;
        let b = heif::from_idat(idat, base, extents, n)->Ok_0;
        assert(b == a + part);
        let from = extents_len(extents, k);
        let to = extents_len(extents, k + 1);
        if k < m {
            lemma_extents_len(extents, k + 1, m as int);
            assert(b.subrange(from, to) =~= a.subrange(from, to));
        } else {
            assert(b.subrange(from, to) =~= part);
        }
    }
}

/// A picture of tiles says its rows and columns, less one, and its size, which is wide if
/// the lowest flag is set.
pub proof fn law_grid_is_read(b: Seq<u8>)
    requires
        b.len() >= 8,
        b[1] % 2 == 1 ==> b.len() >= 12,
    ensures
        heif::grid_of(b) matches Ok(g) && g.rows == b[2] + 1 && g.columns == b[3] + 1 && if b[1] % 2
            == 1 {
            g.output_width == n32(b, 4) && g.output_height == n32(b, 8)
        } else {
            g.output_width == n16(b, 4) && g.output_height == n16(b, 6)
        },
{
}

} // verus!
