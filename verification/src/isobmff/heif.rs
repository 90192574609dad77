//! HEIF files: still images that are items of a `meta` box.
//!
//! An item has a type (`iinf`), a place (`iloc`), references to other items (`iref`) and
//! properties (`iprp`). Its bytes are in the media data or in an `idat`.

pub mod cursor;
pub mod item;
pub mod property;
pub mod wire;

pub use item::{read_heif, HeifMeta, ItemExtent, ItemInfo, ItemLocation, ItemReference};
pub use property::{ColrPayload, MirrorAxis, Property, PropertyTable};

use crate::bytes;
use crate::isobmff::error;
use crate::isobmff::{IsobmffError, IsobmffResult};
use crate::text;
use cursor::heif_err;
use vstd::prelude::*;
use vstd::string::*;

verus! {

/// What the top-level boxes of a file say.
#[derive(Debug, Clone)]
pub struct HeifFile<'a> {
    pub major_brand: [u8; 4],
    pub compatible_brands: Vec<[u8; 4]>,
    pub meta: HeifMeta,
    /// The media data, and where it starts in the file.
    pub mdat: &'a [u8],
    pub mdat_offset: u64,
    /// The small data next to the items, if there is any.
    pub idat: Option<&'a [u8]>,
}

/// The text of the error for an extent outside the media data.
pub open spec fn mdat_text(from: nat, to: nat, start: nat, end: nat) -> Seq<char> {
    "iloc extent ["@ + text::decimal(from) + ".."@ + text::decimal(to) + ") outside mdat ["@
        + text::decimal(start) + ".."@ + text::decimal(end) + ")"@
}

/// The text of the error for an extent outside the small data.
pub open spec fn idat_text(from: nat, to: nat, len: nat) -> Seq<char> {
    "idat extent ["@ + text::decimal(from) + ".."@ + text::decimal(to) + ") outside idat (len "@
        + text::decimal(len) + ")"@
}

/// The bytes of the first `n` extents, whose offsets count from the start of the file.
pub open spec fn from_mdat(
    mdat: Seq<u8>,
    start: u64,
    base: u64,
    extents: Seq<ItemExtent>,
    n: nat,
) -> Result<Seq<u8>, Seq<char>>
    decreases n,
{
    if n == 0 {
        Ok(Seq::empty())
    } else {
        match from_mdat(mdat, start, base, extents, (n - 1) as nat) {
            Err(m) => Err(m),
            Ok(done) => {
                let e = extents[n - 1];
                let from = base + e.offset;
                let to = from + e.length;
                if from > u64::MAX {
                    Err("iloc extent offset overflow"@)
                } else if to > u64::MAX {
                    Err("iloc extent length overflow"@)
                } else if from < start || to > start + mdat.len() {
                    Err(mdat_text(from as nat, to as nat, start as nat, start as nat + mdat.len()))
                } else {
                    Ok(done + mdat.subrange(from - start, to - start))
                }
            },
        }
    }
}

/// The bytes of the first `n` extents, whose offsets count from the start of the small
/// data.
pub open spec fn from_idat(idat: Seq<u8>, base: u64, extents: Seq<ItemExtent>, n: nat) -> Result<
    Seq<u8>,
    Seq<char>,
>
    decreases n,
{
    if n == 0 {
        Ok(Seq::empty())
    } else {
        match from_idat(idat, base, extents, (n - 1) as nat) {
            Err(m) => Err(m),
            Ok(done) => {
                let e = extents[n - 1];
                let from = base + e.offset;
                let to = from + e.length;
                if from > u64::MAX {
                    Err("idat extent offset overflow"@)
                } else if to > idat.len() {
                    Err(idat_text(from as nat, to as nat, idat.len()))
                } else {
                    Ok(done + idat.subrange(from, to))
                }
            },
        }
    }
}

/// The bytes of an item.
pub open spec fn item_bytes(f: HeifFile, l: ItemLocation) -> Result<Seq<u8>, Seq<char>> {
    if l.construction_method == 0 {
        from_mdat(f.mdat@, f.mdat_offset, l.base_offset, l.extents@, l.extents@.len())
    } else if l.construction_method == 1 {
        match f.idat {
            None => Err("iloc method=1 but no idat box"@),
            Some(d) => from_idat(d@, l.base_offset, l.extents@, l.extents@.len()),
        }
    } else {
        Err(
            "iloc construction_method = "@ + text::decimal(l.construction_method as nat)
                + " (item-relative not supported)"@,
        )
    }
}

/// The call gave these bytes, or failed with the text.
pub open spec fn gives(r: IsobmffResult<Vec<u8>>, s: Result<Seq<u8>, Seq<char>>) -> bool {
    match s {
        Ok(b) => r is Ok && r->Ok_0@ == b,
        Err(m) => error::heif(r, m),
    }
}

proof fn lemma_mdat_err(
    mdat: Seq<u8>,
    start: u64,
    base: u64,
    extents: Seq<ItemExtent>,
    i: nat,
    n: nat,
)
    requires
        i <= n,
        from_mdat(mdat, start, base, extents, i) is Err,
    ensures
        from_mdat(mdat, start, base, extents, n) == from_mdat(mdat, start, base, extents, i),
    decreases n - i,
{
    if i < n {
        lemma_mdat_err(mdat, start, base, extents, i, (n - 1) as nat);
    }
}

proof fn lemma_idat_err(idat: Seq<u8>, base: u64, extents: Seq<ItemExtent>, i: nat, n: nat)
    requires
        i <= n,
        from_idat(idat, base, extents, i) is Err,
    ensures
        from_idat(idat, base, extents, n) == from_idat(idat, base, extents, i),
    decreases n - i,
{
    if i < n {
        lemma_idat_err(idat, base, extents, i, (n - 1) as nat);
    }
}

/// Whether an item is looked for in the media data: it has an extent there, and the end
/// of the first can be told.
pub open spec fn asks_mdat(l: ItemLocation) -> bool {
    &&& l.construction_method == 0
    &&& l.extents@.len() > 0
    &&& l.base_offset + l.extents@[0].offset + l.extents@[0].length <= u64::MAX
}

impl<'a> HeifFile<'a> {
    /// The bytes of an item: those of its extents one after the other. Extents are in
    /// the media data or in the small data; those that count from another item are not
    /// supported. The end of media data that is looked into has to fit 64 bits.
    pub fn read_item_bytes(&self, loc: &ItemLocation) -> (r: IsobmffResult<Vec<u8>>)
        requires
            asks_mdat(*loc) ==> self.mdat_offset + self.mdat@.len() <= u64::MAX,
        ensures
            gives(r, item_bytes(*self, *loc)),
    {
        match loc.construction_method {
            0 => self.read_extents_from_mdat(loc),
            1 => self.read_extents_from_idat(loc),
            other => {
                let mut s: String = "iloc construction_method = ".to_owned();
                text::put_decimal(&mut s, other as u64);
                s.append(" (item-relative not supported)");
                Err(IsobmffError::Heif(s))
            },
        }
    }

    fn read_extents_from_mdat(&self, loc: &ItemLocation) -> (r: IsobmffResult<Vec<u8>>)
        requires
            loc.construction_method == 0,
            asks_mdat(*loc) ==> self.mdat_offset + self.mdat@.len() <= u64::MAX,
        ensures
            gives(
                r,
                from_mdat(
                    self.mdat@,
                    self.mdat_offset,
                    loc.base_offset,
                    loc.extents@,
                    loc.extents@.len(),
                ),
            ),
    {
        let base: u64 = loc.base_offset;
        let start: u64 = self.mdat_offset;
        let mdat: &[u8] = self.mdat;
        assert(mdat@.len() == mdat.len());
        let mut out: Vec<u8> = Vec::new();
        let mut i: usize = 0;
        while i < loc.extents.len()
            invariant
                i <= loc.extents@.len(),
                base == loc.base_offset,
                mdat@ == self.mdat@,
                start == self.mdat_offset,
                mdat@.len() == mdat.len(),
                loc.construction_method == 0,
                asks_mdat(*loc) ==> start + mdat@.len() <= u64::MAX,
                i > 0 ==> asks_mdat(*loc),
                from_mdat(mdat@, start, base, loc.extents@, i as nat) == Ok::<
                    Seq<u8>,
                    Seq<char>,
                >(out@),
            decreases loc.extents@.len() - i,
        {
            let e: ItemExtent = loc.extents[i];
            proof {
                if from_mdat(mdat@, start, base, loc.extents@, (i + 1) as nat) is Err {
                    lemma_mdat_err(
                        mdat@,
                        start,
                        base,
                        loc.extents@,
                        (i + 1) as nat,
                        loc.extents@.len(),
                    );
                }
            }
            if e.offset > u64::MAX - base {
                return Err(heif_err("iloc extent offset overflow"));
            }
            let from: u64 = base + e.offset;
            if e.length > u64::MAX - from {
                return Err(heif_err("iloc extent length overflow"));
            }
            let to: u64 = from + e.length;
            let mdat_end: u64 = start + mdat.len() as u64;
            if from < start || to > mdat_end {
                let mut s: String = "iloc extent [".to_owned();
                text::put_decimal(&mut s, from);
                s.append("..");
                text::put_decimal(&mut s, to);
                s.append(") outside mdat [");
                text::put_decimal(&mut s, start);
                s.append("..");
                text::put_decimal(&mut s, mdat_end);
                s.append(")");
                return Err(IsobmffError::Heif(s));
            }
            let (head, _) = mdat.split_at((to - start) as usize);
            let (_, part) = head.split_at((from - start) as usize);
            assert(part@ =~= mdat@.subrange(from - start, to - start));
            bytes::put_slice(&mut out, part);
            i = i + 1;
        }
        Ok(out)
    }

    fn read_extents_from_idat(&self, loc: &ItemLocation) -> (r: IsobmffResult<Vec<u8>>)
        ensures
            gives(
                r,
                match self.idat {
                    None => Err("iloc method=1 but no idat box"@),
                    Some(d) => from_idat(d@, loc.base_offset, loc.extents@, loc.extents@.len()),
                },
            ),
    {
        let idat: &[u8] = match self.idat {
            None => return Err(heif_err("iloc method=1 but no idat box")),
            Some(d) => d,
        };
        assert(idat@.len() == idat.len());
        let base: u64 = loc.base_offset;
        let mut out: Vec<u8> = Vec::new();
        let mut i: usize = 0;
        while i < loc.extents.len()
            invariant
                i <= loc.extents@.len(),
                base == loc.base_offset,
                self.idat is Some,
                idat@ == self.idat->0@,
                idat@.len() == idat.len(),
                from_idat(idat@, base, loc.extents@, i as nat) == Ok::<Seq<u8>, Seq<char>>(out@),
            decreases loc.extents@.len() - i,
        {
            let e: ItemExtent = loc.extents[i];
            proof {
                if from_idat(idat@, base, loc.extents@, (i + 1) as nat) is Err {
                    lemma_idat_err(
                        idat@,
                        base,
                        loc.extents@,
                        (i + 1) as nat,
                        loc.extents@.len(),
                    );
                }
            }
            if e.offset > u64::MAX - base {
                return Err(heif_err("idat extent offset overflow"));
            }
            let from: u64 = base + e.offset;
            let to: u128 = from as u128 + e.length as u128;
            if to > idat.len() as u128 {
                let mut s: String = "idat extent [".to_owned();
                text::put_decimal(&mut s, from);
                s.append("..");
                text::put_wide(&mut s, to);
                s.append(") outside idat (len ");
                text::put_decimal(&mut s, idat.len() as u64);
                s.append(")");
                return Err(IsobmffError::Heif(s));
            }
            let (head, _) = idat.split_at(to as usize);
            let (_, part) = head.split_at(from as usize);
            assert(part@ =~= idat@.subrange(from as int, to as int));
            bytes::put_slice(&mut out, part);
            i = i + 1;
        }
        Ok(out)
    }
}

/// A picture that is made of tiles, in rows and columns, and its size.
#[derive(Debug, Clone)]
pub struct Grid {
    pub rows: u32,
    pub columns: u32,
    pub output_width: u32,
    pub output_height: u32,
}

/// What the bytes of a `grid` item say.
pub open spec fn grid_of(b: Seq<u8>) -> Result<Grid, Seq<char>> {
    if b.len() < 8 {
        Err("grid descriptor < 8 bytes"@)
    } else {
        let large = b[1] % 2 == 1;
        if large && b.len() < 12 {
            Err("grid descriptor < 12 bytes with large flag"@)
        } else {
            Ok(
                Grid {
                    rows: (b[2] + 1) as u32,
                    columns: (b[3] + 1) as u32,
                    output_width: if large {
                        bytes::get32(b, 4)
                    } else {
                        bytes::get16(b, 4) as u32
                    },
                    output_height: if large {
                        bytes::get32(b, 8)
                    } else {
                        bytes::get16(b, 6) as u32
                    },
                },
            )
        }
    }
}

/// Reads the bytes of a `grid` item.
pub fn parse_grid_descriptor(b: &[u8]) -> (r: IsobmffResult<Grid>)
    ensures
        match grid_of(b@) {
            Ok(g) => r is Ok && r->Ok_0 == g,
            Err(m) => error::heif(r, m),
        },
{
    assert(b@.len() == b.len());
    if b.len() < 8 {
        return Err(heif_err("grid descriptor < 8 bytes"));
    }
    let rows: u32 = b[2] as u32 + 1;
    let columns: u32 = b[3] as u32 + 1;
    if b[1] % 2 == 1 {
        if b.len() < 12 {
            return Err(heif_err("grid descriptor < 12 bytes with large flag"));
        }
        Ok(
            Grid {
                rows,
                columns,
                output_width: bytes::read_u32(b, 4),
                output_height: bytes::read_u32(b, 8),
            },
        )
    } else {
        Ok(
            Grid {
                rows,
                columns,
                output_width: bytes::read_u16(b, 4) as u32,
                output_height: bytes::read_u16(b, 6) as u32,
            },
        )
    }
}

/// Bytes of an item that could be read are as many as its extents say.
pub proof fn law_extents_add_up(
    mdat: Seq<u8>,
    start: u64,
    base: u64,
    extents: Seq<ItemExtent>,
    n: nat,
)
    requires
        0 < n <= extents.len(),
        from_mdat(mdat, start, base, extents, n) is Ok,
    ensures
        from_mdat(mdat, start, base, extents, (n - 1) as nat) is Ok,
        from_mdat(mdat, start, base, extents, n)->Ok_0.len() == from_mdat(
            mdat,
            start,
            base,
            extents,
            (n - 1) as nat,
        )->Ok_0.len() + extents[n - 1].length,
{
}

} // verus!
