//! Items of a file: their types, places and references.

use crate::bytes;
use crate::isobmff::boxes::kinds;
use crate::isobmff::error;
use crate::isobmff::heif::cursor;
use crate::isobmff::heif::cursor::{heif_err, Cursor};
use crate::isobmff::heif::property;
use crate::isobmff::heif::property::{parse_iprp, Property, PropertyTable, TableView};
use crate::isobmff::heif::HeifFile;
use crate::isobmff::IsobmffResult;
use crate::text;
use vstd::prelude::*;

verus! {

/// What the `meta` box says of items.
#[derive(Debug, Clone)]
pub struct HeifMeta {
    pub primary_item: u32,
    pub items: Vec<ItemInfo>,
    pub locations: Vec<ItemLocation>,
    pub references: Vec<ItemReference>,
    pub properties: PropertyTable,
}

/// An item.
#[derive(Debug, Clone)]
pub struct ItemInfo {
    pub id: u32,
    pub item_type: [u8; 4],
    pub name: Option<String>,
}

/// Where the bytes of an item are.
#[derive(Debug, Clone)]
pub struct ItemLocation {
    pub id: u32,
    /// 0: offsets count from the start of the file; 1: from the start of the `idat`;
    /// 2: from the start of another item.
    pub construction_method: u8,
    pub base_offset: u64,
    pub extents: Vec<ItemExtent>,
}

/// A part of the bytes of an item.
#[derive(Debug, Clone, Copy)]
pub struct ItemExtent {
    pub offset: u64,
    pub length: u64,
}

/// That an item refers to others.
#[derive(Debug, Clone)]
pub struct ItemReference {
    pub from: u32,
    pub ref_type: [u8; 4],
    pub to: Vec<u32>,
}

#[verifier::ext_equal]
pub struct InfoView {
    pub id: u32,
    pub item_type: Seq<u8>,
    pub name: Option<Seq<char>>,
}

impl View for ItemInfo {
    type V = InfoView;

    open spec fn view(&self) -> InfoView {
        InfoView { id: self.id, item_type: self.item_type@, name: text::opt_chars(self.name) }
    }
}

#[verifier::ext_equal]
pub struct LocationView {
    pub id: u32,
    pub construction_method: u8,
    pub base_offset: u64,
    pub extents: Seq<ItemExtent>,
}

impl View for ItemLocation {
    type V = LocationView;

    open spec fn view(&self) -> LocationView {
        LocationView {
            id: self.id,
            construction_method: self.construction_method,
            base_offset: self.base_offset,
            extents: self.extents@,
        }
    }
}

#[verifier::ext_equal]
pub struct ReferenceView {
    pub from: u32,
    pub ref_type: Seq<u8>,
    pub to: Seq<u32>,
}

impl View for ItemReference {
    type V = ReferenceView;

    open spec fn view(&self) -> ReferenceView {
        ReferenceView { from: self.from, ref_type: self.ref_type@, to: self.to@ }
    }
}

pub open spec fn infos(s: Seq<ItemInfo>) -> Seq<InfoView> {
    Seq::new(s.len(), |i: int| s[i]@)
}

pub open spec fn locations_of(s: Seq<ItemLocation>) -> Seq<LocationView> {
    Seq::new(s.len(), |i: int| s[i]@)
}

pub open spec fn references_of(s: Seq<ItemReference>) -> Seq<ReferenceView> {
    Seq::new(s.len(), |i: int| s[i]@)
}

#[verifier::ext_equal]
pub struct MetaView {
    pub primary_item: u32,
    pub items: Seq<InfoView>,
    pub locations: Seq<LocationView>,
    pub references: Seq<ReferenceView>,
    pub properties: TableView,
}

impl View for HeifMeta {
    type V = MetaView;

    open spec fn view(&self) -> MetaView {
        MetaView {
            primary_item: self.primary_item,
            items: infos(self.items@),
            locations: locations_of(self.locations@),
            references: references_of(self.references@),
            properties: self.properties@,
        }
    }
}

/// A `meta` box that says nothing.
pub open spec fn no_items() -> MetaView {
    MetaView {
        primary_item: 0,
        items: Seq::empty(),
        locations: Seq::empty(),
        references: Seq::empty(),
        properties: property::no_properties(),
    }
}

impl Default for HeifMeta {
    fn default() -> (r: Self)
        ensures
            r@ == no_items(),
    {
        let r = HeifMeta {
            primary_item: 0,
            items: Vec::new(),
            locations: Vec::new(),
            references: Vec::new(),
            properties: PropertyTable { properties: Vec::new(), associations: Vec::new() },
        };
        assert(infos(r.items@) =~= Seq::empty());
        assert(locations_of(r.locations@) =~= Seq::empty());
        assert(references_of(r.references@) =~= Seq::empty());
        assert(property::property_views(r.properties.properties@) =~= Seq::empty());
        assert(property::link_views(r.properties.associations@) =~= Seq::empty());
        r
    }
}

/// The properties with these numbers; numbers that no property has are passed over.
pub open spec fn linked(links: Seq<(u16, bool)>, all: Seq<Property>) -> Seq<Property>
    decreases links.len(),
{
    if links.len() == 0 {
        Seq::empty()
    } else {
        let i = links.last().0;
        let rest = linked(links.drop_last(), all);
        if i == 0 || i > all.len() {
            rest
        } else {
            rest.push(all[i - 1])
        }
    }
}

impl HeifMeta {
    /// The first item with an identity.
    pub fn item(&self, id: u32) -> (r: Option<&ItemInfo>)
        ensures
            match r {
                None => forall|i: int| 0 <= i < self.items@.len() ==> self.items@[i].id != id,
                Some(x) => exists|i: int|
                    0 <= i < self.items@.len() && x == #[trigger] self.items@[i] && x.id == id
                        && forall|j: int| 0 <= j < i ==> (#[trigger] self.items@[j]).id != id,
            },
    {
        let mut i: usize = 0;
        while i < self.items.len()
            invariant
                i <= self.items@.len(),
                forall|j: int| 0 <= j < i ==> (#[trigger] self.items@[j]).id != id,
            decreases self.items@.len() - i,
        {
            if self.items[i].id == id {
                return Some(&self.items[i]);
            }
            i = i + 1;
        }
        None
    }

    /// The first place of an item.
    pub fn location(&self, id: u32) -> (r: Option<&ItemLocation>)
        ensures
            match r {
                None => forall|i: int|
                    0 <= i < self.locations@.len() ==> self.locations@[i].id != id,
                Some(x) => exists|i: int|
                    0 <= i < self.locations@.len() && x == #[trigger] self.locations@[i] && x.id
                        == id && forall|j: int|
                        0 <= j < i ==> (#[trigger] self.locations@[j]).id != id,
            },
    {
        let mut i: usize = 0;
        while i < self.locations.len()
            invariant
                i <= self.locations@.len(),
                forall|j: int| 0 <= j < i ==> (#[trigger] self.locations@[j]).id != id,
            decreases self.locations@.len() - i,
        {
            if self.locations[i].id == id {
                return Some(&self.locations[i]);
            }
            i = i + 1;
        }
        None
    }

    /// The properties of an item, in the order in which it lists them. The first list of
    /// an item counts.
    pub fn properties_for(&self, id: u32) -> (r: Vec<&Property>)
        ensures
            ({
                let a = self.properties.associations@;
                &&& (forall|i: int| 0 <= i < a.len() ==> (#[trigger] a[i]).0 != id) ==> r@.len()
                    == 0
                &&& forall|i: int|
                    0 <= i < a.len() && (#[trigger] a[i]).0 == id && (forall|j: int|
                        0 <= j < i ==> (#[trigger] a[j]).0 != id) ==> r@.len() == linked(
                        a[i].1@,
                        self.properties.properties@,
                    ).len() && forall|k: int|
                        0 <= k < r@.len() ==> *#[trigger] r@[k] == linked(
                            a[i].1@,
                            self.properties.properties@,
                        )[k]
            }),
    {
        let all = &self.properties.properties;
        let mut i: usize = 0;
        while i < self.properties.associations.len() && self.properties.associations[i].0 != id
            invariant
                i <= self.properties.associations@.len(),
                forall|j: int|
                    0 <= j < i ==> (#[trigger] self.properties.associations@[j]).0 != id,
            decreases self.properties.associations@.len() - i,
        {
            i = i + 1;
        }
        let mut out: Vec<&Property> = Vec::new();
        if i == self.properties.associations.len() {
            return out;
        }
        let links = &self.properties.associations[i].1;
        let mut k: usize = 0;
        assert(links@.take(0) =~= Seq::empty());
        while k < links.len()
            invariant
                k <= links@.len(),
                out@.len() == linked(links@.take(k as int), all@).len(),
                forall|n: int|
                    0 <= n < out@.len() ==> *#[trigger] out@[n] == linked(
                        links@.take(k as int),
                        all@,
                    )[n],
            decreases links@.len() - k,
        {
            assert(links@.take(k + 1).drop_last() =~= links@.take(k as int));
            let n: usize = links[k].0 as usize;
            if n != 0 && n <= all.len() {
                out.push(&all[n - 1]);
            }
            k = k + 1;
        }
        assert(links@.take(k as int) =~= links@);
        out
    }
}

/// The identity of the primary item.
pub open spec fn primary_of(b: Seq<u8>) -> Result<u32, Seq<char>> {
    match cursor::lack(b, 0, seq![1nat, 3]) {
        Some(m) => Err(m),
        None => if b[0] == 0 {
            match cursor::lack(b, 4, seq![2nat]) {
                Some(m) => Err(m),
                None => Ok(bytes::get16(b, 4) as u32),
            }
        } else {
            match cursor::lack(b, 4, seq![4nat]) {
                Some(m) => Err(m),
                None => Ok(bytes::get32(b, 4)),
            }
        },
    }
}

fn parse_pitm(b: &[u8]) -> (r: IsobmffResult<u32>)
    ensures
        match primary_of(b@) {
            Ok(v) => r is Ok && r->Ok_0 == v,
            Err(m) => error::heif(r, m),
        },
{
    proof {
        reveal_with_fuel(cursor::lack, 3);
    }
    let mut c = Cursor::new(b);
    let version: u8 = c.read_u8()?;
    let _s = c.consume(3)?;
    if version == 0 {
        Ok(c.read_u16_be()? as u32)
    } else {
        c.read_u32_be()
    }
}

/// What an `infe` says of an item. Without a type four zeros stand for it; a name that
/// does not end is none.
pub open spec fn info_of(b: Seq<u8>) -> Result<InfoView, Seq<char>> {
    match cursor::lack(b, 0, seq![1nat, 3]) {
        Some(m) => Err(m),
        None => {
            let v = b[0];
            let w: nat = if v > 2 {
                4
            } else {
                2
            };
            let fields = if v < 2 {
                seq![w, 2nat]
            } else {
                seq![w, 2nat, 4]
            };
            match cursor::lack(b, 4, fields) {
                Some(m) => Err(m),
                None => {
                    let at: int = if v < 2 {
                        8
                    } else {
                        10 + w as int
                    };
                    Ok(
                        InfoView {
                            id: if v > 2 {
                                bytes::get32(b, 4)
                            } else {
                                bytes::get16(b, 4) as u32
                            },
                            item_type: if v < 2 {
                                seq![0u8, 0, 0, 0]
                            } else {
                                b.subrange(at - 4, at)
                            },
                            name: match cursor::zero_from(b, at) {
                                None => None,
                                Some(z) => Some(text::lossy_text(b.subrange(at, z))),
                            },
                        },
                    )
                },
            }
        },
    }
}

fn parse_infe(b: &[u8]) -> (r: IsobmffResult<ItemInfo>)
    ensures
        match info_of(b@) {
            Ok(v) => r is Ok && r->Ok_0@ == v,
            Err(m) => error::heif(r, m),
        },
{
    proof {
        reveal_with_fuel(cursor::lack, 4);
    }
    let mut c = Cursor::new(b);
    let version: u8 = c.read_u8()?;
    let _s = c.consume(3)?;
    let id: u32 = if version > 2 {
        c.read_u32_be()?
    } else {
        c.read_u16_be()? as u32
    };
    let _p = c.consume(2)?;
    let item_type: [u8; 4] = if version < 2 {
        [0, 0, 0, 0]
    } else {
        c.read_code()?
    };
    assert(version < 2 ==> item_type@ =~= seq![0u8, 0, 0, 0]);
    let name: Option<String> = match c.null_terminated() {
        None => None,
        Some(s) => Some(text::lossy_string(s)),
    };
    Ok(ItemInfo { id, item_type, name })
}

/// `k` entries of an `iinf` from `at` on, behind `acc`. Boxes of other kinds are passed
/// over.
pub open spec fn infos_from(b: Seq<u8>, at: int, k: nat, acc: Seq<InfoView>) -> Result<
    Seq<InfoView>,
    Seq<char>,
>
    decreases k,
{
    if k == 0 {
        Ok(acc)
    } else {
        match cursor::head_at(b, at) {
            Err(m) => Err(m),
            Ok(h) => if h.kind != kinds::INFE@ {
                infos_from(b, h.start + h.len, (k - 1) as nat, acc)
            } else {
                match info_of(b.subrange(h.start, h.start + h.len)) {
                    Err(m) => Err(m),
                    Ok(v) => infos_from(b, h.start + h.len, (k - 1) as nat, acc.push(v)),
                }
            },
        }
    }
}

/// The items of an `iinf`.
pub open spec fn items_in(b: Seq<u8>) -> Result<Seq<InfoView>, Seq<char>> {
    match cursor::lack(b, 0, seq![1nat, 3]) {
        Some(m) => Err(m),
        None => {
            let wide = b[0] >= 1;
            let w: nat = if wide {
                4
            } else {
                2
            };
            match cursor::lack(b, 4, seq![w]) {
                Some(m) => Err(m),
                None => infos_from(
                    b,
                    4 + w as int,
                    if wide {
                        bytes::get32(b, 4) as nat
                    } else {
                        bytes::get16(b, 4) as nat
                    },
                    Seq::empty(),
                ),
            }
        },
    }
}

fn parse_iinf(b: &[u8]) -> (r: IsobmffResult<Vec<ItemInfo>>)
    ensures
        match items_in(b@) {
            Ok(v) => r is Ok && infos(r->Ok_0@) == v,
            Err(m) => error::heif(r, m),
        },
{
    proof {
        reveal_with_fuel(cursor::lack, 3);
    }
    let mut c = Cursor::new(b);
    let version: u8 = c.read_u8()?;
    let _s = c.consume(3)?;
    let count: u32 = if version < 1 {
        c.read_u16_be()? as u32
    } else {
        c.read_u32_be()?
    };
    let mut out: Vec<ItemInfo> = Vec::new();
    let mut i: u32 = 0;
    assert(infos(out@) =~= Seq::empty());
    while i < count
        invariant
            c.wf(),
            c.buf@ == b@,
            i <= count,
            items_in(b@) == infos_from(b@, c.pos as int, (count - i) as nat, infos(out@)),
        decreases count - i,
    {
        let (kind, body) = c.read_child()?;
        if bytes::same4(&kind, &kinds::INFE) {
            let one = parse_infe(body)?;
            let ghost made = infos(out@);
            let ghost v = one@;
            out.push(one);
            assert(infos(out@) =~= made.push(v));
        }
        i = i + 1;
    }
    Ok(out)
}

/// How wide the fields of an `iloc` are.
pub struct Widths {
    pub offset: nat,
    pub length: nat,
    pub base: nat,
    pub index: nat,
}

/// `k` extents from `at` on, behind `acc`, and where they end.
pub open spec fn extents_from(
    b: Seq<u8>,
    at: int,
    k: nat,
    indexed: bool,
    w: Widths,
    acc: Seq<ItemExtent>,
) -> Result<(Seq<ItemExtent>, int), Seq<char>>
    decreases k,
{
    if k == 0 {
        Ok((acc, at))
    } else {
        let skip = if indexed {
            cursor::lack(b, at, seq![w.index])
        } else {
            None
        };
        let p = if indexed {
            at + w.index
        } else {
            at
        };
        if skip is Some {
            Err(skip->0)
        } else {
            match cursor::uint_at(b, p, w.offset) {
                Err(m) => Err(m),
                Ok(offset) => match cursor::uint_at(b, p + w.offset, w.length) {
                    Err(m) => Err(m),
                    Ok(length) => extents_from(
                        b,
                        p + w.offset + w.length,
                        (k - 1) as nat,
                        indexed,
                        w,
                        acc.push(ItemExtent { offset, length }),
                    ),
                },
            }
        }
    }
}

/// The identity of an item, the place of its base and what offsets count from, at `at`
/// in an `iloc`.
pub open spec fn place_head(b: Seq<u8>, at: int, version: u8) -> Result<
    (u32, u8, int),
    Seq<char>,
> {
    let indexed = version == 1 || version == 2;
    let idw: nat = if version < 2 {
        2
    } else {
        4
    };
    let fields = if indexed {
        seq![idw, 2nat, 2]
    } else {
        seq![idw, 2nat]
    };
    match cursor::lack(b, at, fields) {
        Some(m) => Err(m),
        None => Ok(
            (
                if version < 2 {
                    bytes::get16(b, at) as u32
                } else {
                    bytes::get32(b, at)
                },
                if indexed {
                    (bytes::get16(b, at + idw) % 16) as u8
                } else {
                    0
                },
                at + idw + (if indexed {
                    4int
                } else {
                    2
                }),
            ),
        ),
    }
}

/// What an `iloc` says of one item at `at`, and where that ends.
pub open spec fn place_at(b: Seq<u8>, at: int, version: u8, w: Widths) -> Result<
    (LocationView, int),
    Seq<char>,
> {
    match place_head(b, at, version) {
        Err(m) => Err(m),
        Ok((id, construction_method, p)) => match cursor::uint_at(b, p, w.base) {
            Err(m) => Err(m),
            Ok(base_offset) => match cursor::lack(b, p + w.base, seq![2nat]) {
                Some(m) => Err(m),
                None => match extents_from(
                    b,
                    p + w.base + 2,
                    bytes::get16(b, p + w.base) as nat,
                    version == 1 || version == 2,
                    w,
                    Seq::empty(),
                ) {
                    Err(m) => Err(m),
                    Ok((extents, end)) => Ok(
                        (LocationView { id, construction_method, base_offset, extents }, end),
                    ),
                },
            },
        },
    }
}

/// `k` items of an `iloc` from `at` on, behind `acc`.
pub open spec fn places_from(
    b: Seq<u8>,
    at: int,
    k: nat,
    version: u8,
    w: Widths,
    acc: Seq<LocationView>,
) -> Result<Seq<LocationView>, Seq<char>>
    decreases k,
{
    if k == 0 {
        Ok(acc)
    } else {
        match place_at(b, at, version, w) {
            Err(m) => Err(m),
            Ok((l, end)) => places_from(b, end, (k - 1) as nat, version, w, acc.push(l)),
        }
    }
}

/// What an `iloc` starts with: its version, the widths of its fields, how many items it
/// lists, and where they start.
pub open spec fn places_head(b: Seq<u8>) -> Result<(u8, Widths, nat, int), Seq<char>> {
    let countw: nat = if b[0] < 2 {
        2
    } else {
        4
    };
    match cursor::lack(b, 0, seq![1nat, 3, 1, 1, countw]) {
        Some(m) => Err(m),
        None => {
            let v = b[0];
            let w = Widths {
                offset: (b[4] / 16) as nat,
                length: (b[4] % 16) as nat,
                base: (b[5] / 16) as nat,
                index: if v == 1 || v == 2 {
                    (b[5] % 16) as nat
                } else {
                    0
                },
            };
            let count = if v < 2 {
                bytes::get16(b, 6) as nat
            } else {
                bytes::get32(b, 6) as nat
            };
            Ok((v, w, count, 6 + countw as int))
        },
    }
}

/// The items of an `iloc`.
pub open spec fn places_in(b: Seq<u8>) -> Result<Seq<LocationView>, Seq<char>> {
    match places_head(b) {
        Err(m) => Err(m),
        Ok((v, w, count, at)) => places_from(b, at, count, v, w, Seq::empty()),
    }
}

struct Sizes {
    offset: u8,
    length: u8,
    base: u8,
    index: u8,
}

impl Sizes {
    spec fn widths(&self) -> Widths {
        Widths {
            offset: self.offset as nat,
            length: self.length as nat,
            base: self.base as nat,
            index: self.index as nat,
        }
    }
}

fn read_extents(c: &mut Cursor<'_>, n: u16, indexed: bool, w: &Sizes) -> (r: IsobmffResult<
    Vec<ItemExtent>,
>)
    requires
        old(c).wf(),
    ensures
        final(c).wf(),
        final(c).buf == old(c).buf,
        match extents_from(
            old(c).buf@,
            old(c).pos as int,
            n as nat,
            indexed,
            w.widths(),
            Seq::empty(),
        ) {
            Ok((e, at)) => r is Ok && r->Ok_0@ == e && final(c).pos == at,
            Err(m) => error::heif(r, m),
        },
{
    let mut out: Vec<ItemExtent> = Vec::new();
    let mut i: u16 = 0;
    while i < n
        invariant
            c.wf(),
            c.buf == old(c).buf,
            i <= n,
            extents_from(
                old(c).buf@,
                old(c).pos as int,
                n as nat,
                indexed,
                w.widths(),
                Seq::empty(),
            ) == extents_from(
                c.buf@,
                c.pos as int,
                (n - i) as nat,
                indexed,
                w.widths(),
                out@,
            ),
        decreases n - i,
    {
        proof {
            reveal_with_fuel(cursor::lack, 2);
        }
        if indexed {
            let _s = c.consume(w.index as u64)?;
        }
        let offset: u64 = c.read_uint_be(w.offset)?;
        let length: u64 = c.read_uint_be(w.length)?;
        out.push(ItemExtent { offset, length });
        i = i + 1;
    }
    Ok(out)
}

fn read_place_head(c: &mut Cursor<'_>, version: u8) -> (r: IsobmffResult<(u32, u8)>)
    requires
        old(c).wf(),
    ensures
        final(c).wf(),
        final(c).buf == old(c).buf,
        match place_head(old(c).buf@, old(c).pos as int, version) {
            Ok((id, method, at)) => r is Ok && r->Ok_0.0 == id && r->Ok_0.1 == method
                && final(c).pos == at,
            Err(m) => error::heif(r, m),
        },
{
    proof {
        reveal_with_fuel(cursor::lack, 4);
    }
    let id: u32 = if version < 2 {
        c.read_u16_be()? as u32
    } else {
        c.read_u32_be()?
    };
    let construction_method: u8 = if version == 1 || version == 2 {
        (c.read_u16_be()? % 16) as u8
    } else {
        0
    };
    let _s = c.consume(2)?;
    Ok((id, construction_method))
}

fn read_place(c: &mut Cursor<'_>, version: u8, w: &Sizes) -> (r: IsobmffResult<ItemLocation>)
    requires
        old(c).wf(),
    ensures
        final(c).wf(),
        final(c).buf == old(c).buf,
        match place_at(old(c).buf@, old(c).pos as int, version, w.widths()) {
            Ok((l, at)) => r is Ok && r->Ok_0@ == l && final(c).pos == at,
            Err(m) => error::heif(r, m),
        },
{
    let (id, construction_method) = read_place_head(c, version)?;
    let base_offset: u64 = c.read_uint_be(w.base)?;
    proof {
        reveal_with_fuel(cursor::lack, 2);
    }
    let n: u16 = c.read_u16_be()?;
    let extents = read_extents(c, n, version == 1 || version == 2, w)?;
    Ok(ItemLocation { id, construction_method, base_offset, extents })
}

#[verifier::spinoff_prover]
fn read_places_head(c: &mut Cursor<'_>) -> (r: IsobmffResult<(u8, Sizes, u32)>)
    requires
        old(c).wf(),
        old(c).pos == 0,
    ensures
        final(c).wf(),
        final(c).buf == old(c).buf,
        match places_head(old(c).buf@) {
            Err(m) => error::heif(r, m),
            Ok((v, w, count, at)) => r is Ok && r->Ok_0.0 == v && r->Ok_0.1.widths() == w
                && r->Ok_0.2 == count && final(c).pos == at,
        },
{
    proof {
        reveal_with_fuel(cursor::lack, 6);
    }
    let version: u8 = c.read_u8()?;
    let _s = c.consume(3)?;
    let packed: u8 = c.read_u8()?;
    let packed2: u8 = c.read_u8()?;
    let w = Sizes {
        offset: packed / 16,
        length: packed % 16,
        base: packed2 / 16,
        index: if version == 1 || version == 2 {
            packed2 % 16
        } else {
            0
        },
    };
    let count: u32 = if version < 2 {
        c.read_u16_be()? as u32
    } else {
        c.read_u32_be()?
    };
    Ok((version, w, count))
}

fn parse_iloc(b: &[u8]) -> (r: IsobmffResult<Vec<ItemLocation>>)
    ensures
        match places_in(b@) {
            Ok(v) => r is Ok && locations_of(r->Ok_0@) == v,
            Err(m) => error::heif(r, m),
        },
{
    let mut c = Cursor::new(b);
    let (version, w, count) = read_places_head(&mut c)?;
    let mut out: Vec<ItemLocation> = Vec::new();
    let mut i: u32 = 0;
    assert(locations_of(out@) =~= Seq::empty());
    while i < count
        invariant
            c.wf(),
            c.buf@ == b@,
            i <= count,
            places_in(b@) == places_from(
                b@,
                c.pos as int,
                (count - i) as nat,
                version,
                w.widths(),
                locations_of(out@),
            ),
        decreases count - i,
    {
        let one = read_place(&mut c, version, &w)?;
        let ghost made = locations_of(out@);
        let ghost v = one@;
        out.push(one);
        assert(locations_of(out@) =~= made.push(v));
        i = i + 1;
    }
    Ok(out)
}

/// `k` identities from `at` on, behind `acc`.
pub open spec fn ids_from(b: Seq<u8>, at: int, k: nat, wide: bool, acc: Seq<u32>) -> Result<
    Seq<u32>,
    Seq<char>,
>
    decreases k,
{
    let w: nat = if wide {
        4
    } else {
        2
    };
    if k == 0 {
        Ok(acc)
    } else {
        match cursor::lack(b, at, seq![w]) {
            Some(m) => Err(m),
            None => ids_from(
                b,
                at + w,
                (k - 1) as nat,
                wide,
                acc.push(
                    if wide {
                        bytes::get32(b, at)
                    } else {
                        bytes::get16(b, at) as u32
                    },
                ),
            ),
        }
    }
}

/// What a reference box says.
pub open spec fn reference_of(kind: Seq<u8>, b: Seq<u8>, wide: bool) -> Result<
    ReferenceView,
    Seq<char>,
> {
    let w: nat = if wide {
        4
    } else {
        2
    };
    match cursor::lack(b, 0, seq![w, 2nat]) {
        Some(m) => Err(m),
        None => match ids_from(
            b,
            w as int + 2,
            bytes::get16(b, w as int) as nat,
            wide,
            Seq::empty(),
        ) {
            Err(m) => Err(m),
            Ok(to) => Ok(
                ReferenceView {
                    from: if wide {
                        bytes::get32(b, 0)
                    } else {
                        bytes::get16(b, 0) as u32
                    },
                    ref_type: kind,
                    to,
                },
            ),
        },
    }
}

fn read_id(c: &mut Cursor<'_>, wide: bool) -> (r: IsobmffResult<u32>)
    requires
        old(c).wf(),
    ensures
        old(c).passed(
            if wide {
                4
            } else {
                2
            },
            final(c),
            r,
        ),
        r matches Ok(v) ==> v == if wide {
            bytes::get32(old(c).buf@, old(c).pos as int)
        } else {
            bytes::get16(old(c).buf@, old(c).pos as int) as u32
        },
{
    if wide {
        c.read_u32_be()
    } else {
        Ok(c.read_u16_be()? as u32)
    }
}

fn read_reference(kind: [u8; 4], b: &[u8], wide: bool) -> (r: IsobmffResult<ItemReference>)
    ensures
        match reference_of(kind@, b@, wide) {
            Ok(v) => r is Ok && r->Ok_0@ == v,
            Err(m) => error::heif(r, m),
        },
{
    proof {
        reveal_with_fuel(cursor::lack, 3);
    }
    let mut c = Cursor::new(b);
    let from: u32 = read_id(&mut c, wide)?;
    let n: u16 = c.read_u16_be()?;
    let mut to: Vec<u32> = Vec::new();
    let mut i: u16 = 0;
    let ghost start = c.pos as int;
    while i < n
        invariant
            c.wf(),
            c.buf@ == b@,
            i <= n,
            ids_from(b@, start, n as nat, wide, Seq::empty()) == ids_from(
                b@,
                c.pos as int,
                (n - i) as nat,
                wide,
                to@,
            ),
            reference_of(kind@, b@, wide) == (match ids_from(
                b@,
                start,
                n as nat,
                wide,
                Seq::empty(),
            ) {
                Err(m) => Err::<ReferenceView, Seq<char>>(m),
                Ok(to) => Ok(ReferenceView { from, ref_type: kind@, to }),
            }),
        decreases n - i,
    {
        proof {
            reveal_with_fuel(cursor::lack, 2);
        }
        let v: u32 = read_id(&mut c, wide)?;
        to.push(v);
        i = i + 1;
    }
    Ok(ItemReference { from, ref_type: kind, to })
}

/// The references of an `iref` from `at` on, behind `acc`.
pub open spec fn references_from(b: Seq<u8>, at: int, wide: bool, acc: Seq<ReferenceView>) -> Result<
    Seq<ReferenceView>,
    Seq<char>,
>
    decreases b.len() - at,
{
    if at >= b.len() {
        Ok(acc)
    } else {
        match cursor::head_at(b, at) {
            Err(m) => Err(m),
            Ok(h) => match reference_of(h.kind, b.subrange(h.start, h.start + h.len), wide) {
                Err(m) => Err(m),
                Ok(v) => if h.start + h.len <= at {
                    Ok(acc)
                } else {
                    references_from(b, h.start + h.len, wide, acc.push(v))
                },
            },
        }
    }
}

/// The references of an `iref`.
pub open spec fn references_in(b: Seq<u8>) -> Result<Seq<ReferenceView>, Seq<char>> {
    match cursor::lack(b, 0, seq![1nat, 3]) {
        Some(m) => Err(m),
        None => references_from(b, 4, b[0] != 0, Seq::empty()),
    }
}

fn parse_iref(b: &[u8]) -> (r: IsobmffResult<Vec<ItemReference>>)
    ensures
        match references_in(b@) {
            Ok(v) => r is Ok && references_of(r->Ok_0@) == v,
            Err(m) => error::heif(r, m),
        },
{
    proof {
        reveal_with_fuel(cursor::lack, 3);
    }
    let mut c = Cursor::new(b);
    let version: u8 = c.read_u8()?;
    let _s = c.consume(3)?;
    let wide: bool = version != 0;
    let mut out: Vec<ItemReference> = Vec::new();
    assert(references_of(out@) =~= Seq::empty());
    while c.pos < c.buf.len()
        invariant
            c.wf(),
            c.buf@ == b@,
            references_in(b@) == references_from(b@, c.pos as int, wide, references_of(out@)),
        decreases b@.len() - c.pos,
    {
        assert(c.buf@.len() == c.buf.len());
        let (kind, body) = c.read_child()?;
        let one = read_reference(kind, body, wide)?;
        let ghost made = references_of(out@);
        let ghost v = one@;
        out.push(one);
        assert(references_of(out@) =~= made.push(v));
    }
    Ok(out)
}

/// What a child of the `meta` box changes.
pub open spec fn changed(m: MetaView, kind: Seq<u8>, b: Seq<u8>) -> Result<MetaView, Seq<char>> {
    if kind == kinds::PITM@ {
        match primary_of(b) {
            Err(e) => Err(e),
            Ok(v) => Ok(MetaView { primary_item: v, ..m }),
        }
    } else if kind == kinds::IINF@ {
        match items_in(b) {
            Err(e) => Err(e),
            Ok(v) => Ok(MetaView { items: v, ..m }),
        }
    } else if kind == kinds::ILOC@ {
        match places_in(b) {
            Err(e) => Err(e),
            Ok(v) => Ok(MetaView { locations: v, ..m }),
        }
    } else if kind == kinds::IREF@ {
        match references_in(b) {
            Err(e) => Err(e),
            Ok(v) => Ok(MetaView { references: v, ..m }),
        }
    } else if kind == kinds::IPRP@ {
        match property::table_from(b, 0, property::no_properties()) {
            Err(e) => Err(e),
            Ok(v) => Ok(MetaView { properties: v, ..m }),
        }
    } else {
        Ok(m)
    }
}

/// What the `meta` box says from `at` on, and its `idat`. The last box of each kind
/// counts.
pub open spec fn meta_from(b: Seq<u8>, at: int, m: MetaView, idat: Option<Seq<u8>>) -> Result<
    (MetaView, Option<Seq<u8>>),
    Seq<char>,
>
    decreases b.len() - at,
{
    if at >= b.len() {
        Ok((m, idat))
    } else {
        match cursor::head_at(b, at) {
            Err(e) => Err(e),
            Ok(h) => {
                let child = b.subrange(h.start, h.start + h.len);
                match changed(m, h.kind, child) {
                    Err(e) => Err(e),
                    Ok(n) => if h.start + h.len <= at {
                        Ok((n, idat))
                    } else {
                        meta_from(
                            b,
                            h.start + h.len,
                            n,
                            if h.kind == kinds::IDAT@ {
                                Some(child)
                            } else {
                                idat
                            },
                        )
                    },
                }
            },
        }
    }
}

/// What a `meta` box says.
pub open spec fn meta_of(b: Seq<u8>) -> Result<(MetaView, Option<Seq<u8>>), Seq<char>> {
    match cursor::lack(b, 0, seq![4nat]) {
        Some(m) => Err(m),
        None => meta_from(b, 4, no_items(), None),
    }
}

fn change(m: &mut HeifMeta, kind: &[u8; 4], b: &[u8]) -> (r: IsobmffResult<()>)
    ensures
        match changed(old(m)@, kind@, b@) {
            Ok(v) => r is Ok && final(m)@ == v,
            Err(e) => error::heif(r, e),
        },
{
    if bytes::same4(kind, &kinds::PITM) {
        m.primary_item = parse_pitm(b)?;
    } else if bytes::same4(kind, &kinds::IINF) {
        m.items = parse_iinf(b)?;
    } else if bytes::same4(kind, &kinds::ILOC) {
        m.locations = parse_iloc(b)?;
    } else if bytes::same4(kind, &kinds::IREF) {
        m.references = parse_iref(b)?;
    } else if bytes::same4(kind, &kinds::IPRP) {
        m.properties = parse_iprp(b)?;
    }
    Ok(())
}

pub open spec fn opt_slice(b: Option<&[u8]>) -> Option<Seq<u8>> {
    match b {
        None => None,
        Some(s) => Some(s@),
    }
}

fn parse_meta<'a>(b: &'a [u8]) -> (r: IsobmffResult<(HeifMeta, Option<&'a [u8]>)>)
    ensures
        match meta_of(b@) {
            Ok((m, d)) => r is Ok && r->Ok_0.0@ == m && opt_slice(r->Ok_0.1) == d,
            Err(e) => error::heif(r, e),
        },
{
    proof {
        reveal_with_fuel(cursor::lack, 2);
    }
    let mut c = Cursor::new(b);
    let _s = c.consume(4)?;
    let mut m: HeifMeta = HeifMeta::default();
    let mut idat: Option<&'a [u8]> = None;
    while c.pos < c.buf.len()
        invariant
            c.wf(),
            c.buf@ == b@,
            meta_of(b@) == meta_from(b@, c.pos as int, m@, opt_slice(idat)),
        decreases b@.len() - c.pos,
    {
        assert(c.buf@.len() == c.buf.len());
        let (kind, child) = c.read_child()?;
        change(&mut m, &kind, child)?;
        if bytes::same4(&kind, &kinds::IDAT) {
            idat = Some(child);
        }
    }
    Ok((m, idat))
}

/// What has been found of a file.
#[verifier::ext_equal]
pub struct FileView {
    pub ftyp: bool,
    pub major: Seq<u8>,
    pub compatible: Seq<Seq<u8>>,
    pub meta: Option<(MetaView, Option<Seq<u8>>)>,
    pub mdat: Option<(int, Seq<u8>)>,
}

pub open spec fn codes_of(s: Seq<[u8; 4]>) -> Seq<Seq<u8>> {
    Seq::new(s.len(), |i: int| s[i]@)
}

/// The codes from `at` on, behind `acc`.
pub open spec fn codes_from(b: Seq<u8>, at: int, acc: Seq<Seq<u8>>) -> Result<
    Seq<Seq<u8>>,
    Seq<char>,
>
    decreases b.len() - at,
{
    if at >= b.len() {
        Ok(acc)
    } else {
        match cursor::lack(b, at, seq![4nat]) {
            Some(m) => Err(m),
            None => codes_from(b, at + 4, acc.push(b.subrange(at, at + 4))),
        }
    }
}

/// The major brand of an `ftyp`, and the compatible ones behind earlier ones.
pub open spec fn brands_of(b: Seq<u8>, acc: Seq<Seq<u8>>) -> Result<
    (Seq<u8>, Seq<Seq<u8>>),
    Seq<char>,
> {
    match cursor::lack(b, 0, seq![4nat, 4]) {
        Some(m) => Err(m),
        None => match codes_from(b, 8, acc) {
            Err(m) => Err(m),
            Ok(c) => Ok((b.subrange(0, 4), c)),
        },
    }
}

fn read_brands(b: &[u8], compatible: &mut Vec<[u8; 4]>) -> (r: IsobmffResult<[u8; 4]>)
    ensures
        match brands_of(b@, codes_of(old(compatible)@)) {
            Ok((major, c)) => r is Ok && r->Ok_0@ == major && codes_of(final(compatible)@) == c,
            Err(m) => error::heif(r, m),
        },
{
    proof {
        reveal_with_fuel(cursor::lack, 3);
    }
    let mut c = Cursor::new(b);
    let major: [u8; 4] = c.read_code()?;
    let _minor: u32 = c.read_u32_be()?;
    while c.pos < c.buf.len()
        invariant
            c.wf(),
            c.buf@ == b@,
            codes_from(b@, 8, codes_of(old(compatible)@)) == codes_from(
                b@,
                c.pos as int,
                codes_of(compatible@),
            ),
            cursor::lack(b@, 0, seq![4nat, 4]) is None,
            major@ == b@.subrange(0, 4),
        decreases b@.len() - c.pos,
    {
        proof {
            reveal_with_fuel(cursor::lack, 2);
        }
        assert(c.buf@.len() == c.buf.len());
        let code: [u8; 4] = c.read_code()?;
        let ghost made = codes_of(compatible@);
        compatible.push(code);
        assert(codes_of(compatible@) =~= made.push(code@));
    }
    Ok(major)
}

/// Where a body that may be cut off ends.
pub open spec fn cut_end(b: Seq<u8>, h: cursor::Head) -> int {
    if h.start + h.len > b.len() {
        b.len() as int
    } else {
        h.start + h.len
    }
}

/// What a top-level box adds. The first `mdat` counts, but an empty one gives way to one
/// that holds something.
#[verifier::opaque]
pub open spec fn added(f: FileView, b: Seq<u8>, h: cursor::Head) -> Result<FileView, Seq<char>> {
    let body = b.subrange(h.start, h.start + h.len);
    if h.kind == kinds::FTYP@ {
        match cursor::lack(b, h.start, seq![h.len]) {
            Some(m) => Err(m),
            None => match brands_of(body, f.compatible) {
                Err(m) => Err(m),
                Ok((major, compatible)) => Ok(FileView { ftyp: true, major, compatible, ..f }),
            },
        }
    } else if h.kind == kinds::META@ {
        match cursor::lack(b, h.start, seq![h.len]) {
            Some(m) => Err(m),
            None => match meta_of(body) {
                Err(m) => Err(m),
                Ok(m) => Ok(FileView { meta: Some(m), ..f }),
            },
        }
    } else if h.kind == kinds::MDAT@ {
        let d = b.subrange(h.start, cut_end(b, h));
        let counts = match f.mdat {
            None => true,
            Some((_, before)) => before.len() == 0 && d.len() > 0,
        };
        if counts {
            Ok(FileView { mdat: Some((h.start, d)), ..f })
        } else {
            Ok(f)
        }
    } else {
        Ok(f)
    }
}

/// What has been found of a file from `at` on. The `ftyp` and the `meta` have to be
/// there in full; others may be cut off by the end.
pub open spec fn file_from(b: Seq<u8>, at: int, f: FileView) -> Result<FileView, Seq<char>>
    decreases b.len() - at,
{
    if at >= b.len() {
        Ok(f)
    } else {
        match cursor::loose_head(b, at) {
            Err(m) => Err(m),
            Ok(h) => match added(f, b, h) {
                Err(m) => Err(m),
                Ok(n) => if cut_end(b, h) <= at {
                    Ok(n)
                } else {
                    file_from(b, cut_end(b, h), n)
                },
            },
        }
    }
}

/// A file of which nothing has been found.
pub open spec fn nothing() -> FileView {
    FileView {
        ftyp: false,
        major: seq![0u8, 0, 0, 0],
        compatible: Seq::empty(),
        meta: None,
        mdat: None,
    }
}

/// What a HEIF file holds.
pub open spec fn file_of(b: Seq<u8>) -> Result<FileView, Seq<char>> {
    match file_from(b, 0, nothing()) {
        Err(m) => Err(m),
        Ok(f) => if !f.ftyp {
            Err("no ftyp box"@)
        } else if f.meta is None {
            Err("no meta box"@)
        } else if f.mdat is None {
            Err("no mdat box"@)
        } else {
            Ok(f)
        },
    }
}

/// A file is what has been found.
pub open spec fn holds(x: HeifFile, f: FileView) -> bool {
    &&& x.major_brand@ == f.major
    &&& codes_of(x.compatible_brands@) == f.compatible
    &&& f.meta == Some((x.meta@, opt_slice(x.idat)))
    &&& f.mdat == Some((x.mdat_offset as int, x.mdat@))
}

/// What has been found, in executable form.
struct Found<'a> {
    ftyp: bool,
    major: [u8; 4],
    compatible: Vec<[u8; 4]>,
    meta: Option<(HeifMeta, Option<&'a [u8]>)>,
    mdat: Option<(u64, &'a [u8])>,
}

impl<'a> Found<'a> {
    spec fn found(&self) -> FileView {
        FileView {
            ftyp: self.ftyp,
            major: self.major@,
            compatible: codes_of(self.compatible@),
            meta: match self.meta {
                None => None,
                Some((m, d)) => Some((m@, opt_slice(d))),
            },
            mdat: match self.mdat {
                None => None,
                Some((at, b)) => Some((at as int, b@)),
            },
        }
    }
}

impl<'a> Found<'a> {
    /// The media data ends within `n` bytes.
    spec fn fits(&self, n: nat) -> bool {
        self.mdat matches Some((at, d)) ==> at + d@.len() <= n
    }
}

/// Takes one top-level box.
fn take_box<'a>(f: &mut Found<'a>, c: &mut Cursor<'a>) -> (r: IsobmffResult<()>)
    requires
        old(c).wf(),
    ensures
        final(c).wf(),
        final(c).buf == old(c).buf,
        match cursor::loose_head(old(c).buf@, old(c).pos as int) {
            Err(m) => error::heif(r, m),
            Ok(h) => match added(old(f).found(), old(c).buf@, h) {
                Err(m) => error::heif(r, m),
                Ok(n) => r is Ok && final(f).found() == n && final(c).pos == cut_end(
                    old(c).buf@,
                    h,
                ) && old(c).pos < final(c).pos,
            },
        },
        old(f).fits(old(c).buf@.len()) ==> final(f).fits(old(c).buf@.len()),
{
    proof {
        reveal(added);
        reveal_with_fuel(cursor::lack, 2);
    }
    let (kind, len) = c.read_box_header_lenient()?;
    let at: usize = c.pos;
    assert(c.buf@.len() == c.buf.len());
    if bytes::same4(&kind, &kinds::FTYP) {
        let body = c.consume(len)?;
        f.major = read_brands(body, &mut f.compatible)?;
        f.ftyp = true;
        return Ok(());
    }
    if bytes::same4(&kind, &kinds::META) {
        let body = c.consume(len)?;
        f.meta = Some(parse_meta(body)?);
        return Ok(());
    }
    let left: usize = c.buf.len() - at;
    let n: usize = if len > left as u64 {
        left
    } else {
        len as usize
    };
    let body = c.consume(n as u64)?;
    if bytes::same4(&kind, &kinds::MDAT) {
        let counts = match f.mdat {
            None => true,
            Some((_, before)) => before.len() == 0 && body.len() > 0,
        };
        if counts {
            f.mdat = Some((at as u64, body));
        }
    }
    Ok(())
}

/// Reads a HEIF file. Boxes that are not needed are passed over, and so are empty `mdat`
/// boxes before the first that holds something. The media data may be cut off: then the
/// bytes of some items cannot be read.
pub fn read_heif(b: &[u8]) -> (r: IsobmffResult<HeifFile<'_>>)
    ensures
        match file_of(b@) {
            Ok(f) => r is Ok && holds(r->Ok_0, f),
            Err(m) => error::heif(r, m),
        },
        r matches Ok(f) ==> f.mdat_offset + f.mdat@.len() <= u64::MAX,
{
    let mut c = Cursor::new(b);
    let mut f = Found {
        ftyp: false,
        major: [0, 0, 0, 0],
        compatible: Vec::new(),
        meta: None,
        mdat: None,
    };
    assert(f.major@ =~= seq![0u8, 0, 0, 0]);
    assert(codes_of(f.compatible@) =~= Seq::empty());
    assert(f.found() =~= nothing());
    while c.pos < c.buf.len()
        invariant
            c.wf(),
            c.buf@ == b@,
            file_from(b@, 0, nothing()) == file_from(b@, c.pos as int, f.found()),
            f.fits(b@.len()),
        decreases b@.len() - c.pos,
    {
        assert(c.buf@.len() == c.buf.len());
        take_box(&mut f, &mut c)?;
    }
    if !f.ftyp {
        return Err(heif_err("no ftyp box"));
    }
    let (meta, idat) = match f.meta {
        None => return Err(heif_err("no meta box")),
        Some(m) => m,
    };
    let (mdat_offset, mdat) = match f.mdat {
        None => return Err(heif_err("no mdat box")),
        Some(m) => m,
    };
    assert(b@.len() == b.len());
    Ok(
        HeifFile {
            major_brand: f.major,
            compatible_brands: f.compatible,
            meta,
            mdat,
            mdat_offset,
            idat,
        },
    )
}

} // verus!
