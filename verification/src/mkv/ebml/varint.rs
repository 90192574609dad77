//! EBML variable-length integers.
//!
//! A VINT is one to eight bytes long. The leading zero bits of its first byte
//! give the width less one; the first one-bit is the width marker and the bits
//! behind it are the payload.
//!
//! IDs keep the marker, so that `0x83` and `0x4083` are distinct. Sizes lose
//! it, and the payload of all ones is reserved for "unknown length".

use crate::bytes;
use crate::mkv::Error;
use vstd::prelude::*;

verus! {

/// A decoded VINT with its width on the wire.
#[derive(Debug, Clone, Copy)]
pub struct Vint {
    pub value: u64,
    pub width: u8,
}

/// The width that a VINT's first byte announces.
pub open spec fn width_of(first: u8) -> int {
    if first >= 0x80 {
        1
    } else if first >= 0x40 {
        2
    } else if first >= 0x20 {
        3
    } else if first >= 0x10 {
        4
    } else if first >= 0x08 {
        5
    } else if first >= 0x04 {
        6
    } else if first >= 0x02 {
        7
    } else {
        8
    }
}

/// What the width marker weighs in a VINT of `w` bytes: two to the power `7w`.
pub open spec fn marker(w: int) -> nat {
    if w <= 1 {
        0x80
    } else if w == 2 {
        0x4000
    } else if w == 3 {
        0x20_0000
    } else if w == 4 {
        0x1000_0000
    } else if w == 5 {
        0x8_0000_0000
    } else if w == 6 {
        0x400_0000_0000
    } else if w == 7 {
        0x2_0000_0000_0000
    } else {
        0x100_0000_0000_0000
    }
}

/// The bytes of the VINT at `pos`, or what is wrong there.
pub open spec fn vint_bytes(s: Seq<u8>, pos: int) -> Result<Seq<u8>, Error> {
    if pos >= s.len() {
        Err(Error::UnexpectedEof("VINT"))
    } else if s[pos] == 0 {
        Err(Error::InvalidVint)
    } else if pos + width_of(s[pos]) > s.len() {
        Err(Error::UnexpectedEof("VINT"))
    } else {
        Ok(s.subrange(pos, pos + width_of(s[pos])))
    }
}

/// The marker-stripped value at `pos`, its width, and whether every payload bit
/// is set.
pub open spec fn vint_at(s: Seq<u8>, pos: int) -> Result<(u64, u8, bool), Error> {
    match vint_bytes(s, pos) {
        Err(e) => Err(e),
        Ok(b) => {
            let value = bytes::uint(b) - marker(b.len() as int);
            Ok((value as u64, b.len() as u8, value + 1 == marker(b.len() as int)))
        },
    }
}

/// The ID at `pos`, marker included.
pub open spec fn id_at(s: Seq<u8>, pos: int) -> Result<Vint, Error> {
    match vint_bytes(s, pos) {
        Err(e) => Err(e),
        Ok(b) => Ok(Vint { value: bytes::uint(b) as u64, width: b.len() as u8 }),
    }
}

/// The size at `pos`; `None` is the reserved "unknown length".
pub open spec fn size_at(s: Seq<u8>, pos: int) -> Result<Option<u64>, Error> {
    match vint_at(s, pos) {
        Err(e) => Err(e),
        Ok((value, _, unknown)) => Ok(
            if unknown {
                None
            } else {
                Some(value)
            },
        ),
    }
}

/// The first byte of a VINT fixes its width, and so bounds its value.
pub proof fn lemma_vint_range(b: Seq<u8>)
    requires
        0 < b.len() <= 8,
        b[0] != 0,
        b.len() == width_of(b[0]),
    ensures
        marker(b.len() as int) <= bytes::uint(b) < 2 * marker(b.len() as int),
        bytes::uint(b) < 0x200_0000_0000_0000,
{
    bytes::lemma_first_digit(b);
    bytes::lemma_pow256();
    let p = bytes::pow256((b.len() - 1) as nat);
    let f = b[0] as int;
    if b.len() == 1 {
        assert(f * p == f * 1 && (f + 1) * p == (f + 1) * 1) by (nonlinear_arith)
            requires
                p == 1,
        ;
    } else if b.len() == 2 {
        assert(f * p == f * 0x100 && (f + 1) * p == (f + 1) * 0x100) by (nonlinear_arith)
            requires
                p == 0x100,
        ;
    } else if b.len() == 3 {
        assert(f * p == f * 0x1_0000 && (f + 1) * p == (f + 1) * 0x1_0000) by (nonlinear_arith)
            requires
                p == 0x1_0000,
        ;
    } else if b.len() == 4 {
        assert(f * p == f * 0x100_0000 && (f + 1) * p == (f + 1) * 0x100_0000) by (nonlinear_arith)
            requires
                p == 0x100_0000,
        ;
    } else if b.len() == 5 {
        assert(f * p == f * 0x1_0000_0000 && (f + 1) * p == (f + 1) * 0x1_0000_0000) by (nonlinear_arith)
            requires
                p == 0x1_0000_0000,
        ;
    } else if b.len() == 6 {
        assert(f * p == f * 0x100_0000_0000 && (f + 1) * p == (f + 1) * 0x100_0000_0000) by (nonlinear_arith)
            requires
                p == 0x100_0000_0000,
        ;
    } else if b.len() == 7 {
        assert(f * p == f * 0x1_0000_0000_0000 && (f + 1) * p == (f + 1) * 0x1_0000_0000_0000) by (nonlinear_arith)
            requires
                p == 0x1_0000_0000_0000,
        ;
    } else {
        assert(f * p == f * 0x100_0000_0000_0000 && (f + 1) * p == (f + 1) * 0x100_0000_0000_0000) by (nonlinear_arith)
            requires
                p == 0x100_0000_0000_0000,
        ;
    }
}

/// Conversely, a value in range has a first byte that announces the width.
pub proof fn lemma_width_of_value(b: Seq<u8>)
    requires
        0 < b.len() <= 8,
        marker(b.len() as int) <= bytes::uint(b) < 2 * marker(b.len() as int),
    ensures
        b[0] != 0,
        width_of(b[0]) == b.len(),
{
    bytes::lemma_first_digit(b);
    bytes::lemma_pow256();
    let p = bytes::pow256((b.len() - 1) as nat);
    let f = b[0] as int;
    if b.len() == 1 {
        assert(f * p == f * 1 && (f + 1) * p == (f + 1) * 1) by (nonlinear_arith)
            requires
                p == 1,
        ;
    } else if b.len() == 2 {
        assert(f * p == f * 0x100 && (f + 1) * p == (f + 1) * 0x100) by (nonlinear_arith)
            requires
                p == 0x100,
        ;
    } else if b.len() == 3 {
        assert(f * p == f * 0x1_0000 && (f + 1) * p == (f + 1) * 0x1_0000) by (nonlinear_arith)
            requires
                p == 0x1_0000,
        ;
    } else if b.len() == 4 {
        assert(f * p == f * 0x100_0000 && (f + 1) * p == (f + 1) * 0x100_0000) by (nonlinear_arith)
            requires
                p == 0x100_0000,
        ;
    } else if b.len() == 5 {
        assert(f * p == f * 0x1_0000_0000 && (f + 1) * p == (f + 1) * 0x1_0000_0000) by (nonlinear_arith)
            requires
                p == 0x1_0000_0000,
        ;
    } else if b.len() == 6 {
        assert(f * p == f * 0x100_0000_0000 && (f + 1) * p == (f + 1) * 0x100_0000_0000) by (nonlinear_arith)
            requires
                p == 0x100_0000_0000,
        ;
    } else if b.len() == 7 {
        assert(f * p == f * 0x1_0000_0000_0000 && (f + 1) * p == (f + 1) * 0x1_0000_0000_0000) by (nonlinear_arith)
            requires
                p == 0x1_0000_0000_0000,
        ;
    } else {
        assert(f * p == f * 0x100_0000_0000_0000 && (f + 1) * p == (f + 1) * 0x100_0000_0000_0000) by (nonlinear_arith)
            requires
                p == 0x100_0000_0000_0000,
        ;
    }
}

/// The width that a VINT's first byte announces.
pub(crate) fn width(first: u8) -> (w: usize)
    ensures
        w == width_of(first),
        1 <= w <= 8,
{
    if first >= 0x80 {
        1
    } else if first >= 0x40 {
        2
    } else if first >= 0x20 {
        3
    } else if first >= 0x10 {
        4
    } else if first >= 0x08 {
        5
    } else if first >= 0x04 {
        6
    } else if first >= 0x02 {
        7
    } else {
        8
    }
}

/// What the width marker weighs in a VINT of `w` bytes.
pub(crate) fn marker_weight(w: usize) -> (m: u64)
    requires
        1 <= w <= 8,
    ensures
        m == marker(w as int),
{
    if w == 1 {
        0x80
    } else if w == 2 {
        0x4000
    } else if w == 3 {
        0x20_0000
    } else if w == 4 {
        0x1000_0000
    } else if w == 5 {
        0x8_0000_0000
    } else if w == 6 {
        0x400_0000_0000
    } else if w == 7 {
        0x2_0000_0000_0000
    } else {
        0x100_0000_0000_0000
    }
}

/// The bytes of the VINT at `pos`.
fn vint_slice(src: &[u8], pos: usize) -> (r: Result<&[u8], Error>)
    ensures
        match vint_bytes(src@, pos as int) {
            Err(e) => r == Err::<&[u8], Error>(e),
            Ok(b) => r is Ok && r->Ok_0@ == b && 0 < b.len() <= 8 && pos + b.len() <= src@.len()
                && b[0] != 0 && b.len() == width_of(b[0]),
        },
{
    if pos >= src.len() {
        return Err(Error::UnexpectedEof("VINT"));
    }
    let first = src[pos];
    if first == 0 {
        return Err(Error::InvalidVint);
    }
    let w: usize = width(first);
    if w > src.len() - pos {
        return Err(Error::UnexpectedEof("VINT"));
    }
    Ok(&src[pos..pos + w])
}

/// Reads a VINT: the value without its marker, the width, and whether every
/// payload bit was set. `pos` moves past it on success only.
pub fn read_vint_raw(src: &[u8], pos: &mut usize) -> (r: Result<(u64, u8, bool), Error>)
    ensures
        r == vint_at(src@, *old(pos) as int),
        match r {
            Ok((_, width, _)) => *final(pos) == *old(pos) + width && *final(pos) <= src@.len() && 1
                <= width <= 8,
            Err(_) => *final(pos) == *old(pos),
        },
{
    let b = vint_slice(src, *pos)?;
    let w: usize = b.len();
    proof {
        lemma_vint_range(b@);
    }
    let m: u64 = marker_weight(w);
    let value: u64 = bytes::read_uint(b) - m;
    assert(src@.len() == src.len());
    *pos = *pos + w;
    Ok((value, w as u8, value + 1 == m))
}

/// Reads an element ID, marker included. `pos` moves past it on success only.
pub fn read_vint_id(src: &[u8], pos: &mut usize) -> (r: Result<Vint, Error>)
    ensures
        r == id_at(src@, *old(pos) as int),
        match r {
            Ok(v) => *final(pos) == *old(pos) + v.width && *final(pos) <= src@.len() && 1 <= v.width
                <= 8,
            Err(_) => *final(pos) == *old(pos),
        },
{
    let b = vint_slice(src, *pos)?;
    let w: usize = b.len();
    proof {
        lemma_vint_range(b@);
    }
    assert(src@.len() == src.len());
    *pos = *pos + w;
    Ok(Vint { value: bytes::read_uint(b), width: w as u8 })
}

/// Reads an element size; `None` is the reserved "unknown length". `pos` moves
/// past it on success only.
pub fn read_vint_size(src: &[u8], pos: &mut usize) -> (r: Result<Option<u64>, Error>)
    ensures
        r == size_at(src@, *old(pos) as int),
        match vint_bytes(src@, *old(pos) as int) {
            Ok(b) => *final(pos) == *old(pos) + b.len() && *final(pos) <= src@.len() && 1 <= b.len()
                <= 8,
            Err(_) => *final(pos) == *old(pos),
        },
{
    let (value, _width, unknown) = read_vint_raw(src, pos)?;
    Ok(
        if unknown {
            None
        } else {
            Some(value)
        },
    )
}

} // verus!
