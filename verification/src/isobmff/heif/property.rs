//! Properties of items.

use crate::bytes;
use crate::isobmff::boxes::kinds;
use crate::isobmff::error;
use crate::isobmff::heif::cursor;
use crate::isobmff::heif::cursor::Cursor;
use crate::isobmff::IsobmffResult;
use crate::text;
use vstd::prelude::*;

verus! {

/// A property of an item.
#[derive(Debug, Clone)]
pub enum Property {
    /// How large an image is.
    Ispe { width: u32, height: u32 },
    /// How many bits each channel has.
    Pixi { channel_depths: Vec<u8> },
    Colr(ColrPayload),
    /// The shape of a pixel.
    Pasp { h: u32, v: u32 },
    /// What an auxiliary image is for.
    AuxC { aux_type: String },
    /// By how many quarter turns an image is turned, counter-clockwise.
    Irot { angle_quarter_turns: u8 },
    Imir { axis: MirrorAxis },
    Clap,
    /// Any other, as it is.
    Other { four_cc: [u8; 4], data: Vec<u8> },
}

/// What colours mean.
#[derive(Debug, Clone)]
pub enum ColrPayload {
    /// An ICC profile.
    Icc(Vec<u8>),
    Nclx { primaries: u16, transfer: u16, matrix: u16, full_range: bool },
}

/// How an image is mirrored.
#[derive(Debug, Clone, Copy, PartialEq, Eq)]
pub enum MirrorAxis {
    /// About the horizontal axis.
    Vertical,
    /// About the vertical axis.
    Horizontal,
}

/// The properties of a file, and which item has which: properties are counted from one.
#[derive(Debug, Clone, Default)]
pub struct PropertyTable {
    pub properties: Vec<Property>,
    /// An item, and for each of its properties the number and whether it is essential.
    pub associations: Vec<(u32, Vec<(u16, bool)>)>,
}

/// What colours mean.
pub enum ColourView {
    Icc(Seq<u8>),
    Nclx { primaries: u16, transfer: u16, matrix: u16, full_range: bool },
}

/// A property.
pub enum PropertyView {
    Ispe { width: u32, height: u32 },
    Pixi { channel_depths: Seq<u8> },
    Colr(ColourView),
    Pasp { h: u32, v: u32 },
    AuxC { aux_type: Seq<char> },
    Irot { angle_quarter_turns: u8 },
    Imir { axis: MirrorAxis },
    Clap,
    Other { four_cc: Seq<u8>, data: Seq<u8> },
}

impl View for Property {
    type V = PropertyView;

    open spec fn view(&self) -> PropertyView {
        match *self {
            Property::Ispe { width, height } => PropertyView::Ispe { width, height },
            Property::Pixi { channel_depths } => PropertyView::Pixi {
                channel_depths: channel_depths@,
            },
            Property::Colr(ColrPayload::Icc(p)) => PropertyView::Colr(ColourView::Icc(p@)),
            Property::Colr(ColrPayload::Nclx { primaries, transfer, matrix, full_range }) => {
                PropertyView::Colr(ColourView::Nclx { primaries, transfer, matrix, full_range })
            },
            Property::Pasp { h, v } => PropertyView::Pasp { h, v },
            Property::AuxC { aux_type } => PropertyView::AuxC { aux_type: aux_type@ },
            Property::Irot { angle_quarter_turns } => PropertyView::Irot { angle_quarter_turns },
            Property::Imir { axis } => PropertyView::Imir { axis },
            Property::Clap => PropertyView::Clap,
            Property::Other { four_cc, data } => PropertyView::Other {
                four_cc: four_cc@,
                data: data@,
            },
        }
    }
}

/// The numbers of an item's properties.
pub type Links = Seq<(u16, bool)>;

#[verifier::ext_equal]
pub struct TableView {
    pub properties: Seq<PropertyView>,
    pub associations: Seq<(u32, Links)>,
}

pub open spec fn property_views(s: Seq<Property>) -> Seq<PropertyView> {
    Seq::new(s.len(), |i: int| s[i]@)
}

pub open spec fn link_views(s: Seq<(u32, Vec<(u16, bool)>)>) -> Seq<(u32, Links)> {
    Seq::new(s.len(), |i: int| (s[i].0, s[i].1@))
}

impl View for PropertyTable {
    type V = TableView;

    open spec fn view(&self) -> TableView {
        TableView {
            properties: property_views(self.properties@),
            associations: link_views(self.associations@),
        }
    }
}

/// The call gave this property, or failed with the text.
pub open spec fn gives(r: IsobmffResult<Property>, s: Result<PropertyView, Seq<char>>) -> bool {
    match s {
        Ok(v) => r is Ok && r->Ok_0@ == v,
        Err(m) => error::heif(r, m),
    }
}

/// A property that is passed through.
pub open spec fn other(kind: Seq<u8>, b: Seq<u8>) -> PropertyView {
    PropertyView::Other { four_cc: kind, data: b }
}

/// What an `ispe` says.
pub open spec fn ispe_of(b: Seq<u8>) -> Result<PropertyView, Seq<char>> {
    match cursor::lack(b, 0, seq![4nat, 4, 4]) {
        Some(m) => Err(m),
        None => Ok(
            PropertyView::Ispe { width: bytes::get32(b, 4), height: bytes::get32(b, 8) },
        ),
    }
}

fn parse_ispe(b: &[u8]) -> (r: IsobmffResult<Property>)
    ensures
        gives(r, ispe_of(b@)),
{
    proof {
        reveal_with_fuel(cursor::lack, 4);
    }
    let mut c = Cursor::new(b);
    let _s = c.consume(4)?;
    let width: u32 = c.read_u32_be()?;
    let height: u32 = c.read_u32_be()?;
    Ok(Property::Ispe { width, height })
}

/// What a `pixi` says: as many bytes as it announces, which are missed one by one.
pub open spec fn pixi_of(b: Seq<u8>) -> Result<PropertyView, Seq<char>> {
    match cursor::lack(b, 0, seq![4nat, 1]) {
        Some(m) => Err(m),
        None => if b.len() < 5 + b[4] {
            Err(cursor::short(1, b.len(), 0))
        } else {
            Ok(PropertyView::Pixi { channel_depths: b.subrange(5, 5 + b[4]) })
        },
    }
}

fn parse_pixi(b: &[u8]) -> (r: IsobmffResult<Property>)
    ensures
        gives(r, pixi_of(b@)),
{
    proof {
        reveal_with_fuel(cursor::lack, 3);
    }
    let mut c = Cursor::new(b);
    let _s = c.consume(4)?;
    let n: u8 = c.read_u8()?;
    let mut depths: Vec<u8> = Vec::new();
    let mut i: u8 = 0;
    assert(depths@ =~= b@.subrange(5, 5));
    while i < n
        invariant
            c.wf(),
            c.buf@ == b@,
            c.pos == 5 + i,
            i <= n,
            n == b@[4],
            b@.len() >= 5,
            cursor::lack(b@, 0, seq![4nat, 1]) is None,
            depths@ == b@.subrange(5, 5 + i),
        decreases n - i,
    {
        let v: u8 = c.read_u8()?;
        depths.push(v);
        assert(depths@ =~= b@.subrange(5, 5 + i + 1));
        i = i + 1;
    }
    Ok(Property::Pixi { channel_depths: depths })
}

/// What a `colr` says.
pub open spec fn colr_of(b: Seq<u8>) -> Result<PropertyView, Seq<char>> {
    match cursor::lack(b, 0, seq![4nat]) {
        Some(m) => Err(m),
        None => {
            let form = b.subrange(0, 4);
            if form == kinds::NCLX@ {
                match cursor::lack(b, 4, seq![2nat, 2, 2, 1]) {
                    Some(m) => Err(m),
                    None => Ok(
                        PropertyView::Colr(
                            ColourView::Nclx {
                                primaries: bytes::get16(b, 4),
                                transfer: bytes::get16(b, 6),
                                matrix: bytes::get16(b, 8),
                                full_range: b[10] >= 128,
                            },
                        ),
                    ),
                }
            } else if form == kinds::PROF@ || form == kinds::RICC@ {
                Ok(PropertyView::Colr(ColourView::Icc(b.skip(4))))
            } else {
                Ok(other(kinds::COLR@, b))
            }
        },
    }
}

fn parse_colr(b: &[u8]) -> (r: IsobmffResult<Property>)
    ensures
        gives(r, colr_of(b@)),
{
    proof {
        reveal_with_fuel(cursor::lack, 5);
    }
    let mut c = Cursor::new(b);
    let form: [u8; 4] = c.read_code()?;
    if bytes::same4(&form, &kinds::NCLX) {
        let primaries: u16 = c.read_u16_be()?;
        let transfer: u16 = c.read_u16_be()?;
        let matrix: u16 = c.read_u16_be()?;
        let full_range: bool = c.read_u8()? >= 128;
        return Ok(
            Property::Colr(ColrPayload::Nclx { primaries, transfer, matrix, full_range }),
        );
    }
    if bytes::same4(&form, &kinds::PROF) || bytes::same4(&form, &kinds::RICC) {
        let (_, icc) = b.split_at(4);
        assert(icc@ =~= b@.skip(4));
        return Ok(Property::Colr(ColrPayload::Icc(bytes::to_vec(icc))));
    }
    Ok(Property::Other { four_cc: kinds::COLR, data: bytes::to_vec(b) })
}

/// What a `pasp` says.
pub open spec fn pasp_of(b: Seq<u8>) -> Result<PropertyView, Seq<char>> {
    match cursor::lack(b, 0, seq![4nat, 4]) {
        Some(m) => Err(m),
        None => Ok(PropertyView::Pasp { h: bytes::get32(b, 0), v: bytes::get32(b, 4) }),
    }
}

fn parse_pasp(b: &[u8]) -> (r: IsobmffResult<Property>)
    ensures
        gives(r, pasp_of(b@)),
{
    proof {
        reveal_with_fuel(cursor::lack, 3);
    }
    let mut c = Cursor::new(b);
    let h: u32 = c.read_u32_be()?;
    let v: u32 = c.read_u32_be()?;
    Ok(Property::Pasp { h, v })
}

/// What an `auxC` says. A text that does not end is empty.
pub open spec fn auxc_of(b: Seq<u8>) -> Result<PropertyView, Seq<char>> {
    match cursor::lack(b, 0, seq![4nat]) {
        Some(m) => Err(m),
        None => Ok(
            PropertyView::AuxC {
                aux_type: text::lossy_text(
                    match cursor::zero_from(b, 4) {
                        Some(z) => b.subrange(4, z),
                        None => Seq::empty(),
                    },
                ),
            },
        ),
    }
}

fn parse_auxc(b: &[u8]) -> (r: IsobmffResult<Property>)
    ensures
        gives(r, auxc_of(b@)),
{
    proof {
        reveal_with_fuel(cursor::lack, 2);
    }
    let mut c = Cursor::new(b);
    let _s = c.consume(4)?;
    let aux_type: String = match c.null_terminated() {
        Some(s) => text::lossy_string(s),
        None => {
            let (none, _) = b.split_at(0);
            assert(none@ =~= Seq::empty());
            text::lossy_string(none)
        },
    };
    Ok(Property::AuxC { aux_type })
}

/// What an `irot` says.
pub open spec fn irot_of(b: Seq<u8>) -> Result<PropertyView, Seq<char>> {
    match cursor::lack(b, 0, seq![1nat]) {
        Some(m) => Err(m),
        None => Ok(PropertyView::Irot { angle_quarter_turns: b[0] % 4 }),
    }
}

fn parse_irot(b: &[u8]) -> (r: IsobmffResult<Property>)
    ensures
        gives(r, irot_of(b@)),
{
    proof {
        reveal_with_fuel(cursor::lack, 2);
    }
    let mut c = Cursor::new(b);
    let angle: u8 = c.read_u8()? % 4;
    Ok(Property::Irot { angle_quarter_turns: angle })
}

/// What an `imir` says.
pub open spec fn imir_of(b: Seq<u8>) -> Result<PropertyView, Seq<char>> {
    match cursor::lack(b, 0, seq![1nat]) {
        Some(m) => Err(m),
        None => Ok(
            PropertyView::Imir {
                axis: if b[0] % 2 == 0 {
                    MirrorAxis::Vertical
                } else {
                    MirrorAxis::Horizontal
                },
            },
        ),
    }
}

fn parse_imir(b: &[u8]) -> (r: IsobmffResult<Property>)
    ensures
        gives(r, imir_of(b@)),
{
    proof {
        reveal_with_fuel(cursor::lack, 2);
    }
    let mut c = Cursor::new(b);
    let axis: MirrorAxis = if c.read_u8()? % 2 == 0 {
        MirrorAxis::Vertical
    } else {
        MirrorAxis::Horizontal
    };
    Ok(Property::Imir { axis })
}

/// What a property box says.
pub open spec fn property_of(kind: Seq<u8>, b: Seq<u8>) -> Result<PropertyView, Seq<char>> {
    if kind == kinds::ISPE@ {
        ispe_of(b)
    } else if kind == kinds::PIXI@ {
        pixi_of(b)
    } else if kind == kinds::COLR@ {
        colr_of(b)
    } else if kind == kinds::PASP@ {
        pasp_of(b)
    } else if kind == kinds::AUXC@ {
        auxc_of(b)
    } else if kind == kinds::IROT@ {
        irot_of(b)
    } else if kind == kinds::IMIR@ {
        imir_of(b)
    } else if kind == kinds::CLAP@ {
        Ok(PropertyView::Clap)
    } else {
        Ok(other(kind, b))
    }
}

fn parse_property(four_cc: [u8; 4], b: &[u8]) -> (r: IsobmffResult<Property>)
    ensures
        gives(r, property_of(four_cc@, b@)),
{
    if bytes::same4(&four_cc, &kinds::ISPE) {
        parse_ispe(b)
    } else if bytes::same4(&four_cc, &kinds::PIXI) {
        parse_pixi(b)
    } else if bytes::same4(&four_cc, &kinds::COLR) {
        parse_colr(b)
    } else if bytes::same4(&four_cc, &kinds::PASP) {
        parse_pasp(b)
    } else if bytes::same4(&four_cc, &kinds::AUXC) {
        parse_auxc(b)
    } else if bytes::same4(&four_cc, &kinds::IROT) {
        parse_irot(b)
    } else if bytes::same4(&four_cc, &kinds::IMIR) {
        parse_imir(b)
    } else if bytes::same4(&four_cc, &kinds::CLAP) {
        Ok(Property::Clap)
    } else {
        Ok(Property::Other { four_cc, data: bytes::to_vec(b) })
    }
}

/// The properties in an `ipco` from `at` on, behind `acc`.
pub open spec fn properties_from(b: Seq<u8>, at: int, acc: Seq<PropertyView>) -> Result<
    Seq<PropertyView>,
    Seq<char>,
>
    decreases b.len() - at,
{
    if at >= b.len() {
        Ok(acc)
    } else {
        match cursor::head_at(b, at) {
            Err(m) => Err(m),
            Ok(h) => match property_of(h.kind, b.subrange(h.start, h.start + h.len)) {
                Err(m) => Err(m),
                Ok(p) => if h.start + h.len <= at {
                    Ok(acc)
                } else {
                    properties_from(b, h.start + h.len, acc.push(p))
                },
            },
        }
    }
}

fn parse_ipco(b: &[u8]) -> (r: IsobmffResult<Vec<Property>>)
    ensures
        match properties_from(b@, 0, Seq::empty()) {
            Ok(s) => r is Ok && property_views(r->Ok_0@) == s,
            Err(m) => error::heif(r, m),
        },
{
    let mut c = Cursor::new(b);
    let mut out: Vec<Property> = Vec::new();
    assert(property_views(out@) =~= Seq::empty());
    while c.pos < c.buf.len()
        invariant
            c.wf(),
            c.buf@ == b@,
            properties_from(b@, 0, Seq::empty()) == properties_from(
                b@,
                c.pos as int,
                property_views(out@),
            ),
        decreases b@.len() - c.pos,
    {
        assert(c.buf@.len() == c.buf.len());
        let (kind, body) = c.read_child()?;
        let p = parse_property(kind, body)?;
        let ghost made = property_views(out@);
        let ghost v = p@;
        out.push(p);
        assert(property_views(out@) =~= made.push(v));
    }
    Ok(out)
}

/// `k` links from `at` on, behind `acc`, and where they end.
pub open spec fn links_from(b: Seq<u8>, at: int, k: nat, large: bool, acc: Links) -> Result<
    (Links, int),
    Seq<char>,
>
    decreases k,
{
    if k == 0 {
        Ok((acc, at))
    } else if large {
        match cursor::lack(b, at, seq![2nat]) {
            Some(m) => Err(m),
            None => {
                let v = bytes::get16(b, at);
                links_from(b, at + 2, (k - 1) as nat, large, acc.push((v % 0x8000, v >= 0x8000)))
            },
        }
    } else {
        match cursor::lack(b, at, seq![1nat]) {
            Some(m) => Err(m),
            None => {
                let v = b[at];
                links_from(
                    b,
                    at + 1,
                    (k - 1) as nat,
                    large,
                    acc.push(((v % 0x80) as u16, v >= 0x80)),
                )
            },
        }
    }
}

fn read_links(c: &mut Cursor<'_>, n: u8, large: bool) -> (r: IsobmffResult<Vec<(u16, bool)>>)
    requires
        old(c).wf(),
    ensures
        final(c).wf(),
        final(c).buf == old(c).buf,
        match links_from(old(c).buf@, old(c).pos as int, n as nat, large, Seq::empty()) {
            Ok((l, at)) => r is Ok && r->Ok_0@ == l && final(c).pos == at,
            Err(m) => error::heif(r, m),
        },
{
    let mut out: Vec<(u16, bool)> = Vec::new();
    let mut i: u8 = 0;
    while i < n
        invariant
            c.wf(),
            c.buf == old(c).buf,
            i <= n,
            links_from(old(c).buf@, old(c).pos as int, n as nat, large, Seq::empty())
                == links_from(c.buf@, c.pos as int, (n - i) as nat, large, out@),
        decreases n - i,
    {
        proof {
            reveal_with_fuel(cursor::lack, 2);
        }
        if large {
            let v: u16 = c.read_u16_be()?;
            out.push((v % 0x8000, v >= 0x8000));
        } else {
            let v: u8 = c.read_u8()?;
            out.push(((v % 0x80) as u16, v >= 0x80));
        }
        i = i + 1;
    }
    Ok(out)
}

/// An item and its links at `at`, and where they end.
pub open spec fn association_at(b: Seq<u8>, at: int, wide: bool, large: bool) -> Result<
    (u32, Links, int),
    Seq<char>,
> {
    let w: nat = if wide {
        4
    } else {
        2
    };
    match cursor::lack(b, at, seq![w, 1nat]) {
        Some(m) => Err(m),
        None => match links_from(b, at + w + 1, b[at + w] as nat, large, Seq::empty()) {
            Err(m) => Err(m),
            Ok((l, end)) => Ok(
                (
                    if wide {
                        bytes::get32(b, at)
                    } else {
                        bytes::get16(b, at) as u32
                    },
                    l,
                    end,
                ),
            ),
        },
    }
}

/// `k` items and their links from `at` on, behind `acc`.
pub open spec fn associations_from(
    b: Seq<u8>,
    at: int,
    k: nat,
    wide: bool,
    large: bool,
    acc: Seq<(u32, Links)>,
) -> Result<Seq<(u32, Links)>, Seq<char>>
    decreases k,
{
    if k == 0 {
        Ok(acc)
    } else {
        match association_at(b, at, wide, large) {
            Err(m) => Err(m),
            Ok((id, l, end)) => associations_from(
                b,
                end,
                (k - 1) as nat,
                wide,
                large,
                acc.push((id, l)),
            ),
        }
    }
}

fn read_association(c: &mut Cursor<'_>, wide: bool, large: bool) -> (r: IsobmffResult<
    (u32, Vec<(u16, bool)>),
>)
    requires
        old(c).wf(),
    ensures
        final(c).wf(),
        final(c).buf == old(c).buf,
        match association_at(old(c).buf@, old(c).pos as int, wide, large) {
            Ok((id, l, at)) => r is Ok && r->Ok_0.0 == id && r->Ok_0.1@ == l && final(c).pos == at,
            Err(m) => error::heif(r, m),
        },
{
    proof {
        reveal_with_fuel(cursor::lack, 3);
    }
    let id: u32 = if wide {
        c.read_u32_be()?
    } else {
        c.read_u16_be()? as u32
    };
    let n: u8 = c.read_u8()?;
    let links = read_links(c, n, large)?;
    Ok((id, links))
}

/// What an `ipma` adds to earlier associations.
pub open spec fn ipma_of(b: Seq<u8>, acc: Seq<(u32, Links)>) -> Result<
    Seq<(u32, Links)>,
    Seq<char>,
> {
    match cursor::lack(b, 0, seq![1nat, 3, 4]) {
        Some(m) => Err(m),
        None => associations_from(
            b,
            8,
            bytes::get32(b, 4) as nat,
            b[0] != 0,
            b[3] % 2 == 1,
            acc,
        ),
    }
}

fn parse_ipma_into(b: &[u8], out: &mut Vec<(u32, Vec<(u16, bool)>)>) -> (r: IsobmffResult<()>)
    ensures
        match ipma_of(b@, link_views(old(out)@)) {
            Ok(s) => r is Ok && link_views(final(out)@) == s,
            Err(m) => error::heif(r, m),
        },
{
    proof {
        reveal_with_fuel(cursor::lack, 4);
    }
    let mut c = Cursor::new(b);
    let version: u8 = c.read_u8()?;
    let flags = c.consume(3)?;
    let large: bool = flags[2] % 2 == 1;
    assert(flags@[2] == b@[3]);
    let count: u32 = c.read_u32_be()?;
    let wide: bool = version != 0;
    let mut i: u32 = 0;
    while i < count
        invariant
            c.wf(),
            c.buf@ == b@,
            i <= count,
            ipma_of(b@, link_views(old(out)@)) == associations_from(
                b@,
                c.pos as int,
                (count - i) as nat,
                wide,
                large,
                link_views(out@),
            ),
        decreases count - i,
    {
        let (id, links) = read_association(&mut c, wide, large)?;
        let ghost made = link_views(out@);
        let ghost l = links@;
        out.push((id, links));
        assert(link_views(out@) =~= made.push((id, l)));
        i = i + 1;
    }
    Ok(())
}

/// The properties in an `iprp` from `at` on. The last `ipco` counts, and each `ipma`
/// adds to those before it.
pub open spec fn table_from(b: Seq<u8>, at: int, t: TableView) -> Result<TableView, Seq<char>>
    decreases b.len() - at,
{
    if at >= b.len() {
        Ok(t)
    } else {
        match cursor::head_at(b, at) {
            Err(m) => Err(m),
            Ok(h) => {
                let child = b.subrange(h.start, h.start + h.len);
                let next: Result<TableView, Seq<char>> = if h.kind == kinds::IPCO@ {
                    match properties_from(child, 0, Seq::empty()) {
                        Err(m) => Err(m),
                        Ok(p) => Ok(TableView { properties: p, ..t }),
                    }
                } else if h.kind == kinds::IPMA@ {
                    match ipma_of(child, t.associations) {
                        Err(m) => Err(m),
                        Ok(a) => Ok(TableView { associations: a, ..t }),
                    }
                } else {
                    Ok(t)
                };
                match next {
                    Err(m) => Err(m),
                    Ok(n) => if h.start + h.len <= at {
                        Ok(n)
                    } else {
                        table_from(b, h.start + h.len, n)
                    },
                }
            },
        }
    }
}

/// A table without properties.
pub open spec fn no_properties() -> TableView {
    TableView { properties: Seq::empty(), associations: Seq::empty() }
}

pub(crate) fn parse_iprp(b: &[u8]) -> (r: IsobmffResult<PropertyTable>)
    ensures
        match table_from(b@, 0, no_properties()) {
            Ok(t) => r is Ok && r->Ok_0@ == t,
            Err(m) => error::heif(r, m),
        },
{
    let mut c = Cursor::new(b);
    let mut properties: Vec<Property> = Vec::new();
    let mut associations: Vec<(u32, Vec<(u16, bool)>)> = Vec::new();
    assert(property_views(properties@) =~= Seq::empty());
    assert(link_views(associations@) =~= Seq::empty());
    while c.pos < c.buf.len()
        invariant
            c.wf(),
            c.buf@ == b@,
            table_from(b@, 0, no_properties()) == table_from(
                b@,
                c.pos as int,
                TableView {
                    properties: property_views(properties@),
                    associations: link_views(associations@),
                },
            ),
        decreases b@.len() - c.pos,
    {
        assert(c.buf@.len() == c.buf.len());
        let (kind, child) = c.read_child()?;
        if bytes::same4(&kind, &kinds::IPCO) {
            properties = parse_ipco(child)?;
        } else if bytes::same4(&kind, &kinds::IPMA) {
            parse_ipma_into(child, &mut associations)?;
        }
    }
    Ok(PropertyTable { properties, associations })
}

} // verus!
