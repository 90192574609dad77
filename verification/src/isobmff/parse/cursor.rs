//! A position in a body of bytes, and the boxes from there on.

use crate::bytes;
use crate::isobmff::error;
use crate::isobmff::{IsobmffError, IsobmffResult};
use crate::text;
use vstd::prelude::*;
use vstd::string::*;

verus! {

/// The text of the error for too few bytes.
pub open spec fn short(need: nat, have: nat) -> Seq<char> {
    "short read: need "@ + text::decimal(need) + ", have "@ + text::decimal(have)
}

/// What is lacking for reads of these lengths one after the other, if anything is.
pub open spec fn lack(b: Seq<u8>, at: int, ns: Seq<nat>) -> Option<Seq<char>>
    decreases ns.len(),
{
    if ns.len() == 0 {
        None
    } else if b.len() - at < ns[0] {
        Some(short(ns[0], (b.len() - at) as nat))
    } else {
        lack(b, at + ns[0], ns.skip(1))
    }
}

/// The text of the error for a box that is shorter than its header.
pub open spec fn shrunk(kind: Seq<u8>, total: nat, header: nat) -> Seq<char> {
    "box "@ + text::array_text(kind) + " total "@ + text::decimal(total) + " < header "@
        + text::decimal(header)
}

/// The code, the start and the end of the body of the box at `at`.
pub open spec fn box_at(b: Seq<u8>, at: int) -> Result<(Seq<u8>, int, int), Seq<char>> {
    match lack(b, at, seq![4nat, 4]) {
        Some(m) => Err(m),
        None => {
            let n = bytes::get32(b, at);
            let kind = b.subrange(at + 4, at + 8);
            if n == 0 {
                Ok((kind, at + 8, b.len() as int))
            } else if n == 1 && lack(b, at + 8, seq![8nat]) is Some {
                Err(lack(b, at + 8, seq![8nat])->0)
            } else {
                let header: nat = if n == 1 {
                    16
                } else {
                    8
                };
                let total: nat = if n == 1 {
                    bytes::get64(b, at + 8) as nat
                } else {
                    n as nat
                };
                if total < header {
                    Err(shrunk(kind, total, header))
                } else if total - header > b.len() - (at + header) {
                    Err(short((total - header) as nat, (b.len() - (at + header)) as nat))
                } else {
                    Ok((kind, at + header, at + total))
                }
            }
        },
    }
}

/// The body of the first box of a kind, from `at` on.
pub open spec fn find_from(b: Seq<u8>, at: int, kind: Seq<u8>) -> Result<
    Option<Seq<u8>>,
    Seq<char>,
>
    decreases b.len() - at,
{
    if at >= b.len() {
        Ok(None)
    } else {
        match box_at(b, at) {
            Err(m) => Err(m),
            Ok((k, start, end)) => if k == kind {
                Ok(Some(b.subrange(start, end)))
            } else if end <= at {
                Ok(None)
            } else {
                find_from(b, end, kind)
            },
        }
    }
}

/// The body of the first box of a kind, which must be there.
pub open spec fn need(b: Seq<u8>, kind: Seq<u8>) -> Result<Seq<u8>, Seq<char>> {
    match find_from(b, 0, kind) {
        Err(m) => Err(m),
        Ok(None) => Err("missing required child box "@ + text::array_text(kind)),
        Ok(Some(x)) => Ok(x),
    }
}

pub(crate) fn parse_err(s: &str) -> (e: IsobmffError)
    ensures
        e matches IsobmffError::Heif(t) && t@ == s@,
{
    IsobmffError::Heif(s.to_owned())
}

fn short_err(need: u64, have: u64) -> (e: IsobmffError)
    ensures
        e matches IsobmffError::Heif(t) && t@ == short(need as nat, have as nat),
{
    let mut s: String = "short read: need ".to_owned();
    text::put_decimal(&mut s, need);
    s.append(", have ");
    text::put_decimal(&mut s, have);
    IsobmffError::Heif(s)
}

pub(crate) fn shrunk_err(kind: &[u8; 4], total: u64, header: u64) -> (e: IsobmffError)
    ensures
        e matches IsobmffError::Heif(t) && t@ == shrunk(kind@, total as nat, header as nat),
{
    let mut s: String = "box ".to_owned();
    text::put_array(&mut s, kind);
    s.append(" total ");
    text::put_decimal(&mut s, total);
    s.append(" < header ");
    text::put_decimal(&mut s, header);
    IsobmffError::Heif(s)
}

/// A position in a body of bytes.
pub struct Cursor<'a> {
    pub buf: &'a [u8],
    pub pos: usize,
}

impl<'a> Cursor<'a> {
    pub open spec fn wf(&self) -> bool {
        self.pos <= self.buf@.len()
    }

    pub fn new(buf: &'a [u8]) -> (r: Self)
        ensures
            r.wf(),
            r.buf == buf,
            r.pos == 0,
    {
        Cursor { buf, pos: 0 }
    }

    /// `n` bytes have been passed, or there were too few.
    pub open spec fn passed<T>(&self, n: int, after: &Self, r: IsobmffResult<T>) -> bool {
        &&& after.wf()
        &&& after.buf == self.buf
        &&& if self.buf@.len() - self.pos < n {
            error::heif(r, short(n as nat, (self.buf@.len() - self.pos) as nat)) && after.pos
                == self.pos
        } else {
            r is Ok && after.pos == self.pos + n
        }
    }

    pub fn read_slice(&mut self, n: usize) -> (r: IsobmffResult<&'a [u8]>)
        requires
            old(self).wf(),
        ensures
            old(self).passed(n as int, final(self), r),
            r matches Ok(s) ==> s@ == old(self).buf@.subrange(
                old(self).pos as int,
                old(self).pos + n,
            ),
    {
        assert(self.buf@.len() == self.buf.len());
        let have: usize = self.buf.len() - self.pos;
        if n > have {
            return Err(short_err(n as u64, have as u64));
        }
        let (_, tail) = self.buf.split_at(self.pos);
        let (s, _) = tail.split_at(n);
        assert(s@ =~= self.buf@.subrange(self.pos as int, self.pos + n));
        self.pos = self.pos + n;
        Ok(s)
    }

    pub fn skip(&mut self, n: usize) -> (r: IsobmffResult<()>)
        requires
            old(self).wf(),
        ensures
            old(self).passed(n as int, final(self), r),
    {
        let _s = self.read_slice(n)?;
        Ok(())
    }

    pub fn read_u8(&mut self) -> (r: IsobmffResult<u8>)
        requires
            old(self).wf(),
        ensures
            old(self).passed(1, final(self), r),
            r matches Ok(v) ==> v == old(self).buf@[old(self).pos as int],
    {
        let at: usize = self.pos;
        self.skip(1)?;
        Ok(self.buf[at])
    }

    pub fn read_u16(&mut self) -> (r: IsobmffResult<u16>)
        requires
            old(self).wf(),
        ensures
            old(self).passed(2, final(self), r),
            r matches Ok(v) ==> v == bytes::get16(old(self).buf@, old(self).pos as int),
    {
        let at: usize = self.pos;
        self.skip(2)?;
        Ok(bytes::read_u16(self.buf, at))
    }

    pub fn read_u32(&mut self) -> (r: IsobmffResult<u32>)
        requires
            old(self).wf(),
        ensures
            old(self).passed(4, final(self), r),
            r matches Ok(v) ==> v == bytes::get32(old(self).buf@, old(self).pos as int),
    {
        let at: usize = self.pos;
        self.skip(4)?;
        Ok(bytes::read_u32(self.buf, at))
    }

    pub fn read_u64(&mut self) -> (r: IsobmffResult<u64>)
        requires
            old(self).wf(),
        ensures
            old(self).passed(8, final(self), r),
            r matches Ok(v) ==> v == bytes::get64(old(self).buf@, old(self).pos as int),
    {
        let at: usize = self.pos;
        self.skip(8)?;
        Ok(bytes::read_u64(self.buf, at))
    }

    pub fn read_code(&mut self) -> (r: IsobmffResult<[u8; 4]>)
        requires
            old(self).wf(),
        ensures
            old(self).passed(4, final(self), r),
            r matches Ok(v) ==> v@ == old(self).buf@.subrange(
                old(self).pos as int,
                old(self).pos + 4,
            ),
    {
        let at: usize = self.pos;
        self.skip(4)?;
        assert(self.buf@.len() == self.buf.len());
        let v: [u8; 4] = [self.buf[at], self.buf[at + 1], self.buf[at + 2], self.buf[at + 3]];
        assert(v@ =~= self.buf@.subrange(at as int, at + 4));
        Ok(v)
    }

    /// Passes a box.
    pub fn read_box(&mut self) -> (r: IsobmffResult<([u8; 4], &'a [u8])>)
        requires
            old(self).wf(),
        ensures
            final(self).wf(),
            final(self).buf == old(self).buf,
            match box_at(old(self).buf@, old(self).pos as int) {
                Err(m) => error::heif(r, m),
                Ok((k, start, end)) => r is Ok && r->Ok_0.0@ == k && r->Ok_0.1@
                    == old(self).buf@.subrange(start, end) && final(self).pos == end
                    && old(self).pos < end,
            },
    {
        proof {
            reveal_with_fuel(lack, 3);
        }
        let n: u32 = self.read_u32()?;
        let kind: [u8; 4] = self.read_code()?;
        assert(self.buf@.len() == self.buf.len());
        if n == 0 {
            let rest: usize = self.buf.len() - self.pos;
            let body = self.read_slice(rest)?;
            return Ok((kind, body));
        }
        let (total, header): (u64, u64) = if n == 1 {
            (self.read_u64()?, 16)
        } else {
            (n as u64, 8)
        };
        if total < header {
            return Err(shrunk_err(&kind, total, header));
        }
        let size: u64 = total - header;
        let have: usize = self.buf.len() - self.pos;
        if size > have as u64 {
            return Err(short_err(size, have as u64));
        }
        let body = self.read_slice(size as usize)?;
        Ok((kind, body))
    }
}

/// Finds the first box of a kind, from a position on.
pub(crate) fn find_box<'a>(b: &'a [u8], from: usize, wanted: &[u8; 4]) -> (r: IsobmffResult<
    Option<&'a [u8]>,
>)
    requires
        from <= b@.len(),
    ensures
        match find_from(b@, from as int, wanted@) {
            Err(m) => error::heif(r, m),
            Ok(None) => r is Ok && r->Ok_0 is None,
            Ok(Some(x)) => r is Ok && r->Ok_0 is Some && r->Ok_0->0@ == x,
        },
{
    let mut c = Cursor { buf: b, pos: from };
    while c.pos < c.buf.len()
        invariant
            c.wf(),
            c.buf@ == b@,
            find_from(b@, from as int, wanted@) == find_from(b@, c.pos as int, wanted@),
        decreases b@.len() - c.pos,
    {
        assert(c.buf@.len() == c.buf.len());
        let (kind, body) = c.read_box()?;
        if bytes::same4(&kind, wanted) {
            return Ok(Some(body));
        }
    }
    Ok(None)
}

pub(crate) fn require_child<'a>(b: &'a [u8], wanted: &[u8; 4]) -> (r: IsobmffResult<&'a [u8]>)
    ensures
        match need(b@, wanted@) {
            Err(m) => error::heif(r, m),
            Ok(x) => r is Ok && r->Ok_0@ == x,
        },
{
    match find_box(b, 0, wanted)? {
        Some(x) => Ok(x),
        None => {
            let mut s: String = "missing required child box ".to_owned();
            text::put_array(&mut s, wanted);
            Err(IsobmffError::Heif(s))
        },
    }
}

} // verus!
