//! A position in a body of bytes, and the boxes from there on.

use crate::bytes;
use crate::isobmff::error;
use crate::isobmff::{IsobmffError, IsobmffResult};
use crate::text;
use vstd::prelude::*;
use vstd::string::*;

verus! {

/// The text of the error for too few bytes.
pub open spec fn short(need: nat, at: nat, have: nat) -> Seq<char> {
    "short read: need "@ + text::decimal(need) + " bytes at pos "@ + text::decimal(at) + ", have "@
        + text::decimal(have)
}

/// What is lacking for reads of these lengths one after the other, if anything is.
pub open spec fn lack(b: Seq<u8>, at: int, ns: Seq<nat>) -> Option<Seq<char>>
    decreases ns.len(),
{
    if ns.len() == 0 {
        None
    } else if b.len() - at < ns[0] {
        Some(short(ns[0], at as nat, (b.len() - at) as nat))
    } else {
        lack(b, at + ns[0], ns.skip(1))
    }
}

/// The header of a box: its code, where its body starts and how long that claims to be.
#[verifier::ext_equal]
pub struct Head {
    pub kind: Seq<u8>,
    pub start: int,
    pub len: nat,
}

/// The text of the error for a box that is shorter than its header.
pub open spec fn shrunk(total: nat, header: nat) -> Seq<char> {
    "box total "@ + text::decimal(total) + " < header "@ + text::decimal(header)
}

/// The text of the error for a box that is longer than what is there.
pub open spec fn past_end(kind: Seq<u8>, total: nat, header: nat) -> Seq<char> {
    text::array_text(kind) + ": body extends past EOF (total "@ + text::decimal(total)
        + ", header "@ + text::decimal(header) + ")"@
}

/// The header of the box at `at`. With a length of zero the body takes all bytes that
/// are left.
pub open spec fn loose_head(b: Seq<u8>, at: int) -> Result<Head, Seq<char>> {
    match lack(b, at, seq![4nat, 4]) {
        Some(m) => Err(m),
        None => {
            let n = bytes::get32(b, at);
            let kind = b.subrange(at + 4, at + 8);
            if n == 0 {
                Ok(Head { kind, start: at + 8, len: (b.len() - (at + 8)) as nat })
            } else if n == 1 && lack(b, at + 8, seq![8nat]) is Some {
                Err(lack(b, at + 8, seq![8nat])->0)
            } else {
                let header: nat = if n == 1 {
                    16
                } else {
                    8
                };
                let total: nat = if n == 1 {
                    bytes::get64(b, at + 8) as nat
                } else {
                    n as nat
                };
                if total < header {
                    Err(shrunk(total, header))
                } else {
                    Ok(Head { kind, start: at + header, len: (total - header) as nat })
                }
            }
        },
    }
}

/// The header of the box at `at`, whose body is all there.
pub open spec fn head_at(b: Seq<u8>, at: int) -> Result<Head, Seq<char>> {
    match loose_head(b, at) {
        Err(m) => Err(m),
        Ok(h) => if h.start + h.len > b.len() {
            Err(past_end(h.kind, (h.len + (h.start - at)) as nat, (h.start - at) as nat))
        } else {
            Ok(h)
        },
    }
}

pub(crate) fn heif_err(s: &str) -> (e: IsobmffError)
    ensures
        e matches IsobmffError::Heif(t) && t@ == s@,
{
    IsobmffError::Heif(s.to_owned())
}

fn short_err(need: u64, at: usize, have: usize) -> (e: IsobmffError)
    ensures
        e matches IsobmffError::Heif(t) && t@ == short(need as nat, at as nat, have as nat),
{
    let mut s: String = "short read: need ".to_owned();
    text::put_decimal(&mut s, need);
    s.append(" bytes at pos ");
    text::put_decimal(&mut s, at as u64);
    s.append(", have ");
    text::put_decimal(&mut s, have as u64);
    IsobmffError::Heif(s)
}

fn past_end_err(kind: &[u8; 4], total: u128, header: u64) -> (e: IsobmffError)
    ensures
        e matches IsobmffError::Heif(t) && t@ == past_end(kind@, total as nat, header as nat),
{
    let mut s: String = String::new();
    text::put_array(&mut s, kind);
    s.append(": body extends past EOF (total ");
    text::put_wide(&mut s, total);
    s.append(", header ");
    text::put_decimal(&mut s, header);
    s.append(")");
    proof {
        assert(Seq::<char>::empty() + text::array_text(kind@) =~= text::array_text(kind@));
    }
    IsobmffError::Heif(s)
}

/// A position in a body of bytes.
pub struct Cursor<'a> {
    pub buf: &'a [u8],
    pub pos: usize,
}

impl<'a> Cursor<'a> {
    pub open spec fn wf(&self) -> bool {
        self.pos <= self.buf@.len()
    }

    pub fn new(buf: &'a [u8]) -> (r: Self)
        ensures
            r.wf(),
            r.buf == buf,
            r.pos == 0,
    {
        Cursor { buf, pos: 0 }
    }

    /// `n` bytes have been passed, or there were too few.
    pub open spec fn passed<T>(&self, n: int, after: &Self, r: IsobmffResult<T>) -> bool {
        &&& after.wf()
        &&& after.buf == self.buf
        &&& if self.buf@.len() - self.pos < n {
            error::heif(
                r,
                short(n as nat, self.pos as nat, (self.buf@.len() - self.pos) as nat),
            ) && after.pos == self.pos
        } else {
            r is Ok && after.pos == self.pos + n
        }
    }

    pub fn consume(&mut self, n: u64) -> (r: IsobmffResult<&'a [u8]>)
        requires
            old(self).wf(),
        ensures
            old(self).passed(n as int, final(self), r),
            r matches Ok(s) ==> s@ == old(self).buf@.subrange(
                old(self).pos as int,
                old(self).pos + n,
            ),
    {
        assert(self.buf@.len() == self.buf.len());
        let have: usize = self.buf.len() - self.pos;
        if n > have as u64 {
            return Err(short_err(n, self.pos, have));
        }
        let (_, tail) = self.buf.split_at(self.pos);
        let (s, _) = tail.split_at(n as usize);
        assert(s@ =~= self.buf@.subrange(self.pos as int, self.pos + n));
        self.pos = self.pos + n as usize;
        Ok(s)
    }

    pub fn read_u8(&mut self) -> (r: IsobmffResult<u8>)
        requires
            old(self).wf(),
        ensures
            old(self).passed(1, final(self), r),
            r matches Ok(v) ==> v == old(self).buf@[old(self).pos as int],
    {
        let at: usize = self.pos;
        let _s = self.consume(1)?;
        Ok(self.buf[at])
    }

    pub fn read_u16_be(&mut self) -> (r: IsobmffResult<u16>)
        requires
            old(self).wf(),
        ensures
            old(self).passed(2, final(self), r),
            r matches Ok(v) ==> v == bytes::get16(old(self).buf@, old(self).pos as int),
    {
        let at: usize = self.pos;
        let _s = self.consume(2)?;
        Ok(bytes::read_u16(self.buf, at))
    }

    pub fn read_u32_be(&mut self) -> (r: IsobmffResult<u32>)
        requires
            old(self).wf(),
        ensures
            old(self).passed(4, final(self), r),
            r matches Ok(v) ==> v == bytes::get32(old(self).buf@, old(self).pos as int),
    {
        let at: usize = self.pos;
        let _s = self.consume(4)?;
        Ok(bytes::read_u32(self.buf, at))
    }

    pub fn read_u64_be(&mut self) -> (r: IsobmffResult<u64>)
        requires
            old(self).wf(),
        ensures
            old(self).passed(8, final(self), r),
            r matches Ok(v) ==> v == bytes::get64(old(self).buf@, old(self).pos as int),
    {
        let at: usize = self.pos;
        let _s = self.consume(8)?;
        Ok(bytes::read_u64(self.buf, at))
    }

    pub fn read_code(&mut self) -> (r: IsobmffResult<[u8; 4]>)
        requires
            old(self).wf(),
        ensures
            old(self).passed(4, final(self), r),
            r matches Ok(v) ==> v@ == old(self).buf@.subrange(
                old(self).pos as int,
                old(self).pos + 4,
            ),
    {
        let at: usize = self.pos;
        let _s = self.consume(4)?;
        assert(self.buf@.len() == self.buf.len());
        let v: [u8; 4] = [self.buf[at], self.buf[at + 1], self.buf[at + 2], self.buf[at + 3]];
        assert(v@ =~= self.buf@.subrange(at as int, at + 4));
        Ok(v)
    }

    /// Reads the header of a box, whose body may be longer than what is there.
    pub fn read_box_header_lenient(&mut self) -> (r: IsobmffResult<([u8; 4], u64)>)
        requires
            old(self).wf(),
        ensures
            final(self).wf(),
            final(self).buf == old(self).buf,
            match loose_head(old(self).buf@, old(self).pos as int) {
                Err(m) => error::heif(r, m),
                Ok(h) => r is Ok && r->Ok_0.0@ == h.kind && r->Ok_0.1 == h.len && final(self).pos
                    == h.start && old(self).pos + 8 <= h.start <= old(self).pos + 16,
            },
    {
        proof {
            reveal_with_fuel(lack, 3);
        }
        assert(self.buf@.len() == self.buf.len());
        let n: u32 = self.read_u32_be()?;
        let kind: [u8; 4] = self.read_code()?;
        if n == 0 {
            return Ok((kind, (self.buf.len() - self.pos) as u64));
        }
        let (total, header): (u64, u64) = if n == 1 {
            (self.read_u64_be()?, 16)
        } else {
            (n as u64, 8)
        };
        if total < header {
            let mut s: String = "box total ".to_owned();
            text::put_decimal(&mut s, total);
            s.append(" < header ");
            text::put_decimal(&mut s, header);
            return Err(IsobmffError::Heif(s));
        }
        Ok((kind, total - header))
    }

    /// Passes a box.
    pub fn read_child(&mut self) -> (r: IsobmffResult<([u8; 4], &'a [u8])>)
        requires
            old(self).wf(),
        ensures
            final(self).wf(),
            final(self).buf == old(self).buf,
            match head_at(old(self).buf@, old(self).pos as int) {
                Err(m) => error::heif(r, m),
                Ok(h) => r is Ok && r->Ok_0.0@ == h.kind && r->Ok_0.1@ == old(
                    self,
                ).buf@.subrange(h.start, h.start + h.len) && final(self).pos == h.start + h.len
                    && old(self).pos < final(self).pos,
            },
    {
        let at: usize = self.pos;
        let (kind, len) = self.read_box_header_lenient()?;
        assert(self.buf@.len() == self.buf.len());
        if len > (self.buf.len() - self.pos) as u64 {
            let header: u64 = (self.pos - at) as u64;
            return Err(past_end_err(&kind, len as u128 + header as u128, header));
        }
        let body = self.consume(len)?;
        Ok((kind, body))
    }
}

/// An unsigned number of `n` bytes at `at`.
pub open spec fn uint_at(b: Seq<u8>, at: int, n: nat) -> Result<u64, Seq<char>> {
    if n == 0 {
        Ok(0)
    } else if n > 8 {
        Err("read_uint_be: n="@ + text::decimal(n) + " > 8"@)
    } else {
        match lack(b, at, seq![n]) {
            Some(m) => Err(m),
            None => Ok(bytes::uint(b.subrange(at, at + n)) as u64),
        }
    }
}

impl<'a> Cursor<'a> {
    /// Reads an unsigned number of `n` bytes.
    pub fn read_uint_be(&mut self, n: u8) -> (r: IsobmffResult<u64>)
        requires
            old(self).wf(),
        ensures
            final(self).wf(),
            final(self).buf == old(self).buf,
            match uint_at(old(self).buf@, old(self).pos as int, n as nat) {
                Err(m) => error::heif(r, m),
                Ok(v) => r is Ok && r->Ok_0 == v && final(self).pos == old(self).pos + n,
            },
    {
        if n == 0 {
            return Ok(0);
        }
        if n > 8 {
            let mut s: String = "read_uint_be: n=".to_owned();
            text::put_decimal(&mut s, n as u64);
            s.append(" > 8");
            return Err(IsobmffError::Heif(s));
        }
        proof {
            reveal_with_fuel(lack, 2);
        }
        let s = self.consume(n as u64)?;
        Ok(bytes::read_uint(s))
    }
}

/// The first zero at or behind `at`.
pub open spec fn zero_from(b: Seq<u8>, at: int) -> Option<int>
    decreases b.len() - at,
{
    if at >= b.len() {
        None
    } else if b[at] == 0 {
        Some(at)
    } else {
        zero_from(b, at + 1)
    }
}

impl<'a> Cursor<'a> {
    /// The bytes up to the next zero, if there is one.
    pub fn null_terminated(&self) -> (r: Option<&'a [u8]>)
        requires
            self.wf(),
        ensures
            match zero_from(self.buf@, self.pos as int) {
                None => r is None,
                Some(z) => r is Some && r->0@ == self.buf@.subrange(self.pos as int, z)
                    && self.pos <= z < self.buf@.len(),
            },
    {
        assert(self.buf@.len() == self.buf.len());
        let mut z: usize = self.pos;
        while z < self.buf.len()
            invariant
                self.wf(),
                self.buf@.len() == self.buf.len(),
                self.pos <= z <= self.buf@.len(),
                zero_from(self.buf@, self.pos as int) == zero_from(self.buf@, z as int),
            decreases self.buf@.len() - z,
        {
            if self.buf[z] == 0 {
                let (_, tail) = self.buf.split_at(self.pos);
                let (s, _) = tail.split_at(z - self.pos);
                assert(s@ =~= self.buf@.subrange(self.pos as int, z as int));
                return Some(s);
            }
            z = z + 1;
        }
        None
    }
}

} // verus!
