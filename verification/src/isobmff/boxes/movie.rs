//! The movie and what it is made of.

use crate::bytes;
use crate::isobmff::boxes;
use crate::isobmff::boxes::codec::Stsd;
use crate::isobmff::boxes::header;
use crate::isobmff::boxes::header::{Dinf, Edts, Hdlr, Mdhd, Mvhd, Smhd, Tkhd, Trex, Vmhd};
use crate::isobmff::boxes::table::{Stco, Stsc, Stsz, Stts};
use crate::isobmff::boxes::{
    encode_all, encode_full, encode_opt, kinds, write_only, Atom, Encode, FullBox, Wire,
};
use crate::isobmff::error;
use crate::isobmff::{IsobmffError, IsobmffResult};
use vstd::prelude::*;

verus! {

/// Three boxes, the second of which may be missing.
fn encode_parts<A: Encode, B: Encode, C: Encode>(
    a: &A,
    b: &Option<B>,
    c: &C,
    buf: &mut Vec<u8>,
) -> (r: IsobmffResult<()>)
    ensures
        boxes::wrote(
            boxes::joined(boxes::joined(a.wire(), boxes::opt_wire(*b)), c.wire()),
            old(buf)@,
            final(buf)@,
            r,
        ),
{
    broadcast use boxes::group_wire;

    a.encode(buf)?;
    encode_opt(b, buf)?;
    c.encode(buf)
}

/// A box, a list of boxes and a box that may be missing.
fn encode_list<A: Encode, B: Encode, C: Encode>(
    a: &A,
    b: &Vec<B>,
    c: &Option<C>,
    buf: &mut Vec<u8>,
) -> (r: IsobmffResult<()>)
    ensures
        boxes::wrote(
            boxes::joined(boxes::joined(a.wire(), boxes::all_wire(b@)), boxes::opt_wire(*c)),
            old(buf)@,
            final(buf)@,
            r,
        ),
{
    broadcast use boxes::group_wire;

    a.encode(buf)?;
    encode_all(b, buf)?;
    encode_opt(c, buf)
}

/// Three boxes.
fn encode_three<A: Encode, B: Encode, C: Encode>(a: &A, b: &B, c: &C, buf: &mut Vec<u8>) -> (r:
    IsobmffResult<()>)
    ensures
        boxes::wrote(
            boxes::joined(boxes::joined(a.wire(), b.wire()), c.wire()),
            old(buf)@,
            final(buf)@,
            r,
        ),
{
    broadcast use boxes::group_wire;

    a.encode(buf)?;
    b.encode(buf)?;
    c.encode(buf)
}

/// Two boxes that may be missing and two that may not.
fn encode_info<A: Encode, B: Encode, C: Encode, D: Encode>(
    a: &Option<A>,
    b: &Option<B>,
    c: &C,
    d: &D,
    buf: &mut Vec<u8>,
) -> (r: IsobmffResult<()>)
    ensures
        boxes::wrote(
            boxes::joined(
                boxes::joined(
                    boxes::joined(boxes::opt_wire(*a), boxes::opt_wire(*b)),
                    c.wire(),
                ),
                d.wire(),
            ),
            old(buf)@,
            final(buf)@,
            r,
        ),
{
    broadcast use boxes::group_wire;

    encode_opt(a, buf)?;
    encode_opt(b, buf)?;
    c.encode(buf)?;
    d.encode(buf)
}

/// Four boxes and one that may be missing.
fn encode_tables<A: Encode, B: Encode, C: Encode, D: Encode, E: Encode>(
    a: &A,
    b: &B,
    c: &C,
    d: &D,
    e: &Option<E>,
    buf: &mut Vec<u8>,
) -> (r: IsobmffResult<()>)
    ensures
        boxes::wrote(
            boxes::joined(
                boxes::joined(
                    boxes::joined(boxes::joined(a.wire(), b.wire()), c.wire()),
                    d.wire(),
                ),
                boxes::opt_wire(*e),
            ),
            old(buf)@,
            final(buf)@,
            r,
        ),
{
    broadcast use boxes::group_wire;

    a.encode(buf)?;
    b.encode(buf)?;
    c.encode(buf)?;
    d.encode(buf)?;
    encode_opt(e, buf)
}

/// The tables of a track's samples.
#[derive(Debug, Clone, Default, PartialEq, Eq)]
pub struct Stbl {
    pub stsd: Stsd,
    pub stts: Stts,
    pub stsc: Stsc,
    pub stsz: Stsz,
    pub stco: Option<Stco>,
}

impl Atom for Stbl {
    const KIND: [u8; 4] = kinds::STBL;

    open spec fn kind() -> Seq<u8> {
        kinds::STBL@
    }

    proof fn kind_is_code() {
    }

    open spec fn body(&self) -> Wire {
        boxes::joined(boxes::joined(boxes::joined(boxes::joined(self.stsd.wire(), self.stts.wire()), self.stsc.wire()), self.stsz.wire()), boxes::opt_wire(self.stco))
    }

    open spec fn reads_body(b: Seq<u8>, r: IsobmffResult<Self>) -> bool {
        error::malformed(r, "Stbl decode not implemented"@)
    }

    fn encode_body(&self, buf: &mut Vec<u8>) -> (r: IsobmffResult<()>) {
        encode_tables(&self.stsd, &self.stts, &self.stsc, &self.stsz, &self.stco, buf)
    }

    fn decode_body(_buf: &[u8]) -> (r: IsobmffResult<Self>) {
        write_only("Stbl decode not implemented")
    }
}

/// What is known of a track's media. Audio has a sound header, video a video header.
#[derive(Debug, Clone, Default, PartialEq, Eq)]
pub struct Minf {
    pub smhd: Option<Smhd>,
    pub vmhd: Option<Vmhd>,
    pub dinf: Dinf,
    pub stbl: Stbl,
}

impl Atom for Minf {
    const KIND: [u8; 4] = kinds::MINF;

    open spec fn kind() -> Seq<u8> {
        kinds::MINF@
    }

    proof fn kind_is_code() {
    }

    open spec fn body(&self) -> Wire {
        boxes::joined(boxes::joined(boxes::joined(boxes::opt_wire(self.smhd), boxes::opt_wire(self.vmhd)), self.dinf.wire()), self.stbl.wire())
    }

    open spec fn reads_body(b: Seq<u8>, r: IsobmffResult<Self>) -> bool {
        error::malformed(r, "Minf decode not implemented"@)
    }

    fn encode_body(&self, buf: &mut Vec<u8>) -> (r: IsobmffResult<()>) {
        encode_info(&self.smhd, &self.vmhd, &self.dinf, &self.stbl, buf)
    }

    fn decode_body(_buf: &[u8]) -> (r: IsobmffResult<Self>) {
        write_only("Minf decode not implemented")
    }
}

/// A track's media.
#[derive(Debug, Clone, Default, PartialEq, Eq)]
pub struct Mdia {
    pub mdhd: Mdhd,
    pub hdlr: Hdlr,
    pub minf: Minf,
}

impl Atom for Mdia {
    const KIND: [u8; 4] = kinds::MDIA;

    open spec fn kind() -> Seq<u8> {
        kinds::MDIA@
    }

    proof fn kind_is_code() {
    }

    open spec fn body(&self) -> Wire {
        boxes::joined(boxes::joined(self.mdhd.wire(), self.hdlr.wire()), self.minf.wire())
    }

    open spec fn reads_body(b: Seq<u8>, r: IsobmffResult<Self>) -> bool {
        error::malformed(r, "Mdia decode not implemented"@)
    }

    fn encode_body(&self, buf: &mut Vec<u8>) -> (r: IsobmffResult<()>) {
        encode_three(&self.mdhd, &self.hdlr, &self.minf, buf)
    }

    fn decode_body(_buf: &[u8]) -> (r: IsobmffResult<Self>) {
        write_only("Mdia decode not implemented")
    }
}

/// A track.
#[derive(Debug, Clone, Default, PartialEq, Eq)]
pub struct Trak {
    pub tkhd: Tkhd,
    pub edts: Option<Edts>,
    pub mdia: Mdia,
}

impl Atom for Trak {
    const KIND: [u8; 4] = kinds::TRAK;

    open spec fn kind() -> Seq<u8> {
        kinds::TRAK@
    }

    proof fn kind_is_code() {
    }

    open spec fn body(&self) -> Wire {
        boxes::joined(boxes::joined(self.tkhd.wire(), boxes::opt_wire(self.edts)), self.mdia.wire())
    }

    open spec fn reads_body(b: Seq<u8>, r: IsobmffResult<Self>) -> bool {
        error::malformed(r, "Trak decode not implemented"@)
    }

    fn encode_body(&self, buf: &mut Vec<u8>) -> (r: IsobmffResult<()>) {
        encode_parts(&self.tkhd, &self.edts, &self.mdia, buf)
    }

    fn decode_body(_buf: &[u8]) -> (r: IsobmffResult<Self>) {
        write_only("Trak decode not implemented")
    }
}

/// How long a fragmented movie is, in the time scale of the movie. The durations in
/// the headers only count samples that are listed there, of which such a movie has
/// none.
#[derive(Debug, Clone, Default, PartialEq, Eq)]
pub struct Mehd {
    pub fragment_duration: u64,
}

impl FullBox for Mehd {
    const KIND: [u8; 4] = kinds::MEHD;

    open spec fn version_of(&self) -> u8 {
        if self.fragment_duration > u32::MAX {
            1
        } else {
            0
        }
    }

    open spec fn flags_of(&self) -> u32 {
        0
    }

    open spec fn full_body(&self) -> Wire {
        Ok(header::time_bytes(self.fragment_duration <= u32::MAX, self.fragment_duration))
    }

    open spec fn reads_full_body(version: u8, flags: u32, b: Seq<u8>, r: IsobmffResult<Self>) -> bool {
        if version == 1 {
            if b.len() < 8 {
                error::malformed(r, "mehd v1 body short"@)
            } else {
                r is Ok && r->Ok_0.fragment_duration == bytes::get64(b, 0)
            }
        } else {
            if b.len() < 4 {
                error::malformed(r, "mehd v0 body short"@)
            } else {
                r is Ok && r->Ok_0.fragment_duration == bytes::get32(b, 0)
            }
        }
    }

    fn version(&self) -> (r: u8) {
        if self.fragment_duration > u32::MAX as u64 {
            1
        } else {
            0
        }
    }

    fn flags(&self) -> (r: u32) {
        0
    }

    fn encode_full_body(&self, buf: &mut Vec<u8>) -> (r: IsobmffResult<()>) {
        if self.fragment_duration <= u32::MAX as u64 {
            bytes::put_u32(buf, self.fragment_duration as u32);
        } else {
            bytes::put_u64(buf, self.fragment_duration);
        }
        Ok(())
    }

    fn decode_full_body(version: u8, _flags: u32, buf: &[u8]) -> (r: IsobmffResult<Self>) {
        if version == 1 {
            if buf.len() < 8 {
                return Err(IsobmffError::Malformed("mehd v1 body short".to_owned()));
            }
            return Ok(Mehd { fragment_duration: bytes::read_u64(buf, 0) });
        }
        if buf.len() < 4 {
            return Err(IsobmffError::Malformed("mehd v0 body short".to_owned()));
        }
        Ok(Mehd { fragment_duration: bytes::read_u32(buf, 0) as u64 })
    }
}

impl Encode for Mehd {
    open spec fn wire(&self) -> Wire {
        boxes::full_boxed(kinds::MEHD@, self.version_of(), self.flags_of(), self.full_body())
    }

    fn encode(&self, buf: &mut Vec<u8>) -> (r: IsobmffResult<()>) {
        encode_full(self, buf)
    }
}

/// A fragmented movie's length that was written reads back.
pub proof fn law_mehd_reads_back(x: Mehd, r: IsobmffResult<Mehd>)
    requires
        Mehd::reads_full_body(x.version_of(), x.flags_of(), x.full_body()->Ok_0, r),
    ensures
        r == Ok::<Mehd, IsobmffError>(x),
{
    bytes::lemma_be64(x.fragment_duration);
    bytes::lemma_be32(x.fragment_duration as u32);
}

/// That a movie is fragmented, and the defaults of its tracks. Its length comes first,
/// if it is known.
#[derive(Debug, Clone, Default, PartialEq, Eq)]
pub struct Mvex {
    pub mehd: Option<Mehd>,
    pub trex: Vec<Trex>,
}

impl Atom for Mvex {
    const KIND: [u8; 4] = kinds::MVEX;

    open spec fn kind() -> Seq<u8> {
        kinds::MVEX@
    }

    proof fn kind_is_code() {
    }

    open spec fn body(&self) -> Wire {
        boxes::joined(boxes::opt_wire(self.mehd), boxes::all_wire(self.trex@))
    }

    open spec fn reads_body(b: Seq<u8>, r: IsobmffResult<Self>) -> bool {
        error::malformed(r, "Mvex decode not implemented"@)
    }

    fn encode_body(&self, buf: &mut Vec<u8>) -> (r: IsobmffResult<()>) {
        broadcast use boxes::group_wire;

        encode_opt(&self.mehd, buf)?;
        encode_all(&self.trex, buf)
    }

    fn decode_body(_buf: &[u8]) -> (r: IsobmffResult<Self>) {
        write_only("Mvex decode not implemented")
    }
}

/// A movie.
#[derive(Debug, Clone, Default, PartialEq, Eq)]
pub struct Moov {
    pub mvhd: Mvhd,
    pub trak: Vec<Trak>,
    pub mvex: Option<Mvex>,
}

impl Atom for Moov {
    const KIND: [u8; 4] = kinds::MOOV;

    open spec fn kind() -> Seq<u8> {
        kinds::MOOV@
    }

    proof fn kind_is_code() {
    }

    open spec fn body(&self) -> Wire {
        boxes::joined(boxes::joined(self.mvhd.wire(), boxes::all_wire(self.trak@)), boxes::opt_wire(self.mvex))
    }

    open spec fn reads_body(b: Seq<u8>, r: IsobmffResult<Self>) -> bool {
        error::malformed(r, "Moov decode not implemented"@)
    }

    fn encode_body(&self, buf: &mut Vec<u8>) -> (r: IsobmffResult<()>) {
        encode_list(&self.mvhd, &self.trak, &self.mvex, buf)
    }

    fn decode_body(_buf: &[u8]) -> (r: IsobmffResult<Self>) {
        write_only("Moov decode not implemented")
    }
}

} // verus!
