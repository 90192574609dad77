//! EBML element headers and typed payload readers.

use crate::bytes;
use crate::mkv::ebml::varint;
use crate::mkv::ebml::varint::{read_vint_id, read_vint_size, Vint};
use crate::mkv::Error;
use crate::text;
use vstd::arithmetic::power2::{
    lemma2_to64, lemma_pow2_strictly_increases, lemma_pow2_unfold, pow2,
};
use vstd::prelude::*;
use vstd::utf8::*;

verus! {

/// One element header. A size of `None` is "unknown length", which only
/// Segment and Cluster may declare: their children go on until an element of
/// their own level, or the end of the stream.
#[derive(Debug, Clone, Copy)]
pub struct ElementHeader {
    pub id: Vint,
    pub size: Option<u64>,
    /// Offset of the element's first byte in the reader's slice.
    pub element_start: usize,
    /// Offset of the payload's first byte in the reader's slice.
    pub payload_start: usize,
}

/// A float payload as stored: the bits of a single or of a double.
#[derive(Debug, Clone, Copy, PartialEq, Eq, Structural)]
pub enum FloatBits {
    Single(u32),
    Double(u64),
}

/// The exponent and the fraction of a double whose value is `m`/2^23 times 2 to the
/// power of `e` - 1023, `m` at most 2^24 - 1 and not zero.
pub open spec fn normalised(m: nat, e: int) -> (int, int)
    decreases 0x100_0000 - m,
{
    if m == 0 || m >= 0x80_0000 {
        (e, (m - 0x80_0000) * 0x2000_0000)
    } else {
        normalised(2 * m, e - 1)
    }
}

/// The bits of the double with the value of the single with the given bits. An
/// infinity stays one, and what is not a number keeps its payload.
#[verifier::opaque]
pub open spec fn widened(b: u32) -> int {
    let negative = b / 0x8000_0000;
    let exponent = b / 0x80_0000 % 256;
    let fraction = b % 0x80_0000;
    let (e, f): (int, int) = if exponent == 255 {
        (2047, fraction * 0x2000_0000)
    } else if exponent > 0 {
        (exponent + 896, fraction * 0x2000_0000)
    } else if fraction == 0 {
        (0, 0)
    } else {
        normalised(fraction as nat, 897)
    };
    negative * 0x8000_0000_0000_0000 + e * 0x10_0000_0000_0000 + f
}

/// Fewer than 24 doublings bring a fraction to one.
proof fn lemma_doublings(m: nat, k: nat)
    requires
        m < 0x80_0000,
        m >= pow2(k),
    ensures
        k < 23,
        2 * m >= pow2(k + 1),
{
    lemma2_to64();
    lemma_pow2_unfold(k + 1);
    if k > 23 {
        lemma_pow2_strictly_increases(23, k);
    }
}

/// Doubling a fraction until it reaches one takes as many steps as the exponent goes down.
proof fn lemma_normalised(m: nat, e: int) -> (k: nat)
    requires
        0 < m < 0x100_0000,
    ensures
        0x80_0000 <= m * pow2(k) < 0x100_0000,
        normalised(m, e) == (e - k, (m * pow2(k) - 0x80_0000) * 0x2000_0000),
        m < 0x80_0000 ==> k > 0,
    decreases 0x100_0000 - m,
{
    lemma2_to64();
    if m >= 0x80_0000 {
        0
    } else {
        let j = lemma_normalised(2 * m, e - 1);
        lemma_pow2_unfold(j + 1);
        assert(2 * m * pow2(j) == m * (2 * pow2(j))) by (nonlinear_arith);
        j + 1
    }
}

/// A double has the sign and the value of the single that it was made from: a fraction of 23
/// bits behind a one becomes one of 52 bits, and the exponent counts from another zero. What
/// is too small for that one in a single has room for it in a double. Zero stays zero, and
/// what is no number, or beyond all numbers, stays that.
pub proof fn law_value_is_kept(b: u32) -> (k: nat)
    ensures
        ({
            let d = widened(b);
            let e = b / 0x80_0000 % 256;
            let f = b % 0x80_0000;
            let exponent = d / 0x10_0000_0000_0000 % 2048;
            let fraction = d % 0x10_0000_0000_0000;
            &&& 0 <= d <= u64::MAX
            &&& d / 0x8000_0000_0000_0000 == b / 0x8000_0000
            &&& 1 <= e <= 254 ==> 0x10_0000_0000_0000 + fraction == (0x80_0000 + f) * 0x2000_0000
                && exponent - 1023 == e - 127
            &&& e == 0 && f == 0 ==> exponent == 0 && fraction == 0
            &&& e == 0 && f > 0 ==> 0x10_0000_0000_0000 + fraction == f * pow2(k) * 0x2000_0000
                && exponent - 1023 == -126 - k
            &&& e == 255 ==> exponent == 2047 && fraction == f * 0x2000_0000
        }),
{
    reveal(widened);
    let f = (b % 0x80_0000) as nat;
    if b / 0x80_0000 % 256 == 0 && f > 0 {
        let k = lemma_normalised(f, 897);
        assert(k < 24) by {
            if k >= 24 {
                lemma2_to64();
                if k > 24 {
                    lemma_pow2_strictly_increases(24, k);
                }
                assert(f * pow2(k) >= pow2(k)) by (nonlinear_arith)
                    requires
                        f >= 1,
                        pow2(k) >= 0,
                ;
            }
        }
        k
    } else {
        0
    }
}

impl FloatBits {
    /// The bits of the double with the same value.
    pub open spec fn wide(self) -> u64 {
        match self {
            FloatBits::Single(b) => widened(b) as u64,
            FloatBits::Double(b) => b,
        }
    }

    /// The bits of the double with the same value.
    pub fn to_double(self) -> (r: u64)
        ensures
            r == self.wide(),
    {
        match self {
            FloatBits::Single(b) => widen(b),
            FloatBits::Double(b) => b,
        }
    }
}

fn widen(b: u32) -> (r: u64)
    ensures
        r == widened(b),
{
    reveal(widened);
    let negative: u64 = (b / 0x8000_0000) as u64;
    let exponent: u64 = (b / 0x80_0000 % 256) as u64;
    let fraction: u64 = (b % 0x80_0000) as u64;
    let sign: u64 = negative * 0x8000_0000_0000_0000;
    if exponent == 255 {
        return sign + 2047 * 0x10_0000_0000_0000 + fraction * 0x2000_0000;
    }
    if exponent > 0 {
        return sign + (exponent + 896) * 0x10_0000_0000_0000 + fraction * 0x2000_0000;
    }
    if fraction == 0 {
        return sign;
    }
    let mut m: u64 = fraction;
    let mut e: u64 = 897;
    proof {
        lemma2_to64();
    }
    while m < 0x80_0000
        invariant
            0 < m < 0x100_0000,
            874 <= e <= 897,
            m >= pow2((897 - e) as nat),
            normalised(m as nat, e as int) == normalised(fraction as nat, 897),
        decreases 0x100_0000 - m,
    {
        proof {
            lemma_doublings(m as nat, (897 - e) as nat);
        }
        m = 2 * m;
        e = e - 1;
    }
    sign + e * 0x10_0000_0000_0000 + (m - 0x80_0000) * 0x2000_0000
}

impl ElementHeader {
    /// One past the payload's last byte; `None` if the size is unknown. An end
    /// beyond every address is the last address.
    pub open spec fn end(self) -> Option<int> {
        match self.size {
            None => None,
            Some(n) => Some(
                if self.payload_start + n <= usize::MAX {
                    self.payload_start + n
                } else {
                    usize::MAX as int
                },
            ),
        }
    }

    /// One past the payload's last byte, or `None` if the size is unknown.
    pub fn payload_end(&self) -> (r: Option<usize>)
        ensures
            match self.end() {
                None => r is None,
                Some(e) => r == Some(e as usize) && self.payload_start <= e <= usize::MAX,
            },
    {
        match self.size {
            None => None,
            Some(n) => {
                if n <= (usize::MAX - self.payload_start) as u64 {
                    Some(self.payload_start + n as usize)
                } else {
                    Some(usize::MAX)
                }
            },
        }
    }
}

/// The header that stands at `pos`, or what is wrong there.
pub open spec fn header_at(s: Seq<u8>, pos: int) -> Result<ElementHeader, Error> {
    match varint::id_at(s, pos) {
        Err(e) => Err(e),
        Ok(id) => match varint::vint_bytes(s, pos + id.width) {
            Err(e) => Err(e),
            Ok(b) => Ok(
                ElementHeader {
                    id,
                    size: varint::size_at(s, pos + id.width)->Ok_0,
                    element_start: pos as usize,
                    payload_start: (pos + id.width + b.len()) as usize,
                },
            ),
        },
    }
}

/// The bytes that `h` delimits in `s`; `unknown` is the complaint about an
/// unknown size.
pub open spec fn payload_or(s: Seq<u8>, h: ElementHeader, unknown: Error) -> Result<
    Seq<u8>,
    Error,
> {
    match h.end() {
        None => Err(unknown),
        Some(e) => if e > s.len() {
            Err(Error::SizeOverflow)
        } else {
            Ok(s.subrange(h.payload_start as int, e))
        },
    }
}

/// The bytes that `h` delimits in `s`.
pub open spec fn payload_of(s: Seq<u8>, h: ElementHeader) -> Result<Seq<u8>, Error> {
    payload_or(s, h, Error::Malformed("payload requested for unknown-size element"))
}

/// The bytes of the master element that `h` delimits in `s`.
pub open spec fn children_of(s: Seq<u8>, h: ElementHeader) -> Result<Seq<u8>, Error> {
    payload_or(s, h, Error::Malformed("descend into unknown-size element"))
}

/// The unsigned integer in the payload that `h` delimits.
pub open spec fn uint_of(s: Seq<u8>, h: ElementHeader) -> Result<u64, Error> {
    match payload_of(s, h) {
        Err(e) => Err(e),
        Ok(b) => if b.len() > 8 {
            Err(Error::Malformed("uint > 8 bytes"))
        } else {
            Ok(bytes::uint(b) as u64)
        },
    }
}

/// The two's complement integer whose big-endian digits are `b`.
pub open spec fn signed(b: Seq<u8>) -> int {
    if b.len() > 0 && b[0] >= 0x80 {
        bytes::uint(b) - bytes::pow256(b.len())
    } else {
        bytes::uint(b) as int
    }
}

/// The signed integer in the payload that `h` delimits.
pub open spec fn int_of(s: Seq<u8>, h: ElementHeader) -> Result<i64, Error> {
    match payload_of(s, h) {
        Err(e) => Err(e),
        Ok(b) => if b.len() > 8 {
            Err(Error::Malformed("int > 8 bytes"))
        } else {
            Ok(signed(b) as i64)
        },
    }
}

/// The float in the payload that `h` delimits. An empty payload is zero.
pub open spec fn float_of(s: Seq<u8>, h: ElementHeader) -> Result<FloatBits, Error> {
    match payload_of(s, h) {
        Err(e) => Err(e),
        Ok(b) => if b.len() == 0 {
            Ok(FloatBits::Double(0))
        } else if b.len() == 4 {
            Ok(FloatBits::Single(bytes::get32(b, 0)))
        } else if b.len() == 8 {
            Ok(FloatBits::Double(bytes::get64(b, 0)))
        } else {
            Err(Error::Malformed("float length must be 0/4/8"))
        },
    }
}

/// The index of the first zero byte at or after `i`, or the length.
pub open spec fn nul_from(s: Seq<u8>, i: int) -> int
    decreases s.len() - i,
{
    if i >= s.len() {
        s.len() as int
    } else if s[i] == 0 {
        i
    } else {
        nul_from(s, i + 1)
    }
}

/// `s` up to its first zero byte.
pub open spec fn until_nul(s: Seq<u8>) -> Seq<u8> {
    s.subrange(0, nul_from(s, 0))
}

/// The NUL-trimmed text in the payload that `h` delimits; `bad` is the
/// complaint about a payload that is not UTF-8.
pub open spec fn text_of(s: Seq<u8>, h: ElementHeader, bad: Error) -> Result<Seq<char>, Error> {
    match payload_of(s, h) {
        Err(e) => Err(e),
        Ok(b) => if valid_utf8(until_nul(b)) {
            Ok(decode_utf8(until_nul(b)))
        } else {
            Err(bad)
        },
    }
}

/// The text of an ASCII element.
pub open spec fn ascii_of(s: Seq<u8>, h: ElementHeader) -> Result<Seq<char>, Error> {
    text_of(s, h, Error::Malformed("ascii not UTF-8 safe"))
}

/// The text of a UTF-8 element.
pub open spec fn utf8_of(s: Seq<u8>, h: ElementHeader) -> Result<Seq<char>, Error> {
    text_of(s, h, Error::Malformed("utf8"))
}

/// Where the element after `h` starts: behind its payload, or at its first
/// child if its size is unknown.
pub open spec fn after(s: Seq<u8>, h: ElementHeader) -> Result<int, Error> {
    match h.end() {
        None => Ok(h.payload_start as int),
        Some(e) => if e > s.len() {
            Err(Error::SizeOverflow)
        } else {
            Ok(e)
        },
    }
}

/// What a walk over the elements of `s` from `pos` makes of `st`: each element
/// is handed to `f`, then passed over. Running out of bytes inside a header ends
/// the walk.
pub open spec fn walk<S>(
    s: Seq<u8>,
    pos: int,
    st: S,
    f: spec_fn(Seq<u8>, ElementHeader, S) -> Result<S, Error>,
) -> Result<S, Error>
    decreases s.len() - pos,
{
    if pos >= s.len() {
        Ok(st)
    } else {
        match header_at(s, pos) {
            Err(e) => if e is UnexpectedEof {
                Ok(st)
            } else {
                Err(e)
            },
            Ok(h) => match f(s, h, st) {
                Err(e) => Err(e),
                Ok(next) => match after(s, h) {
                    Err(e) => Err(e),
                    Ok(p) => if pos < p <= s.len() {
                        walk(s, p, next, f)
                    } else {
                        Ok(next)
                    },
                },
            },
        }
    }
}

/// A header lies inside the bytes that it was read from.
pub proof fn lemma_header_at(s: Seq<u8>, pos: int)
    requires
        0 <= pos,
        s.len() <= usize::MAX,
    ensures
        header_at(s, pos) matches Ok(h) ==> {
            &&& h.element_start == pos
            &&& pos + 2 <= h.payload_start <= s.len()
            &&& 1 <= h.id.width <= 8
            &&& h.size matches Some(n) ==> n < 0x100_0000_0000_0000
        },
{
    match varint::id_at(s, pos) {
        Err(_) => {},
        Ok(id) => {
            match varint::vint_bytes(s, pos + id.width) {
                Err(_) => {},
                Ok(b) => {
                    varint::lemma_vint_range(b);
                },
            }
        },
    }
}

/// The index of the first zero byte of `bytes`, or its length.
fn find_nul(bytes: &[u8]) -> (n: usize)
    ensures
        n == nul_from(bytes@, 0),
        n <= bytes@.len(),
{
    let mut i: usize = 0;
    while i < bytes.len() && bytes[i] != 0
        invariant
            i <= bytes@.len(),
            nul_from(bytes@, 0) == nul_from(bytes@, i as int),
        decreases bytes@.len() - i,
    {
        i = i + 1;
    }
    i
}

/// `bytes` up to its first zero byte.
fn trim_nul(bytes: &[u8]) -> (r: &[u8])
    ensures
        r@ == until_nul(bytes@),
{
    let n: usize = find_nul(bytes);
    &bytes[0..n]
}

/// The largest number of `n` bytes.
pub(crate) fn max_of_width(n: usize) -> (m: u64)
    requires
        1 <= n <= 8,
    ensures
        m + 1 == bytes::pow256(n as nat),
{
    proof {
        bytes::lemma_pow256();
    }
    if n == 1 {
        0xFF
    } else if n == 2 {
        0xFFFF
    } else if n == 3 {
        0xFF_FFFF
    } else if n == 4 {
        0xFFFF_FFFF
    } else if n == 5 {
        0xFF_FFFF_FFFF
    } else if n == 6 {
        0xFFFF_FFFF_FFFF
    } else if n == 7 {
        0xFF_FFFF_FFFF_FFFF
    } else {
        0xFFFF_FFFF_FFFF_FFFF
    }
}

/// The sign bit splits the numbers of a width in half.
pub proof fn lemma_sign(b: Seq<u8>)
    requires
        0 < b.len() <= 8,
    ensures
        b[0] >= 0x80 <==> 2 * bytes::uint(b) >= bytes::pow256(b.len()),
        bytes::pow256(b.len()) <= 0x1_0000_0000_0000_0000,
{
    bytes::lemma_first_digit(b);
    bytes::lemma_pow256();
    let p = bytes::pow256((b.len() - 1) as nat);
    let f = b[0] as int;
    let u = bytes::uint(b) as int;
    assert(bytes::pow256(b.len()) == 256 * p);
    if f >= 0x80 {
        assert(f * p >= 0x80 * p) by (nonlinear_arith)
            requires
                f >= 0x80,
                p >= 0,
        ;
    } else {
        assert((f + 1) * p <= 0x80 * p) by (nonlinear_arith)
            requires
                f + 1 <= 0x80,
                p >= 0,
        ;
    }
}

/// A cursor over a byte slice that hands out element headers and payloads.
pub struct Reader<'a> {
    buf: &'a [u8],
    pos: usize,
}

impl<'a> Reader<'a> {
    /// The bytes under the cursor.
    pub closed spec fn data(self) -> Seq<u8> {
        self.buf@
    }

    /// The cursor's offset.
    pub closed spec fn at(self) -> int {
        self.pos as int
    }

    /// A cursor at the start of `buf`.
    pub fn new(buf: &'a [u8]) -> (r: Self)
        ensures
            r.data() == buf@,
            r.at() == 0,
    {
        Reader { buf, pos: 0 }
    }

    /// A cursor over `buf` that starts at `start`; offsets stay those of `buf`.
    pub fn new_at(buf: &'a [u8], start: usize) -> (r: Self)
        ensures
            r.data() == buf@,
            r.at() == start,
    {
        Reader { buf, pos: start }
    }

    /// The cursor's offset.
    pub fn position(&self) -> (r: usize)
        ensures
            r == self.at(),
    {
        self.pos
    }

    /// All the bytes under the cursor, whatever its offset.
    pub(crate) fn all(&self) -> (r: &'a [u8])
        ensures
            r@ == self.data(),
    {
        self.buf
    }

    /// How many bytes lie ahead.
    pub fn remaining(&self) -> (r: usize)
        ensures
            r == if self.at() < self.data().len() {
                self.data().len() - self.at()
            } else {
                0
            },
    {
        if self.pos < self.buf.len() {
            self.buf.len() - self.pos
        } else {
            0
        }
    }

    /// Whether no byte lies ahead.
    pub fn eof(&self) -> (r: bool)
        ensures
            r == (self.at() >= self.data().len()),
            self.data().len() <= usize::MAX,
            0 <= self.at(),
    {
        self.pos >= self.buf.len()
    }

    /// Reads the header under the cursor and moves to the payload. On a bad size
    /// the cursor is left behind the ID.
    pub fn read_header(&mut self) -> (r: Result<ElementHeader, Error>)
        ensures
            r == header_at(old(self).data(), old(self).at()),
            final(self).data() == old(self).data(),
            match r {
                Ok(h) => final(self).at() == h.payload_start && h.element_start == old(self).at()
                    && old(self).at() + 2 <= h.payload_start <= old(self).data().len(),
                Err(_) => match varint::id_at(old(self).data(), old(self).at()) {
                    Ok(id) => final(self).at() == old(self).at() + id.width,
                    Err(_) => final(self).at() == old(self).at(),
                },
            },
            old(self).data().len() <= usize::MAX,
            0 <= old(self).at(),
    {
        assert(self.buf@.len() == self.buf.len());
        let element_start: usize = self.pos;
        let id = read_vint_id(self.buf, &mut self.pos)?;
        let size = read_vint_size(self.buf, &mut self.pos)?;
        Ok(ElementHeader { id, size, element_start, payload_start: self.pos })
    }

    /// Moves behind the payload of `hdr`. An unknown size leaves the cursor where
    /// it is.
    pub fn skip_payload(&mut self, hdr: &ElementHeader) -> (r: Result<(), Error>)
        ensures
            final(self).data() == old(self).data(),
            match hdr.end() {
                None => r is Ok && final(self).at() == old(self).at(),
                Some(e) => if e > old(self).data().len() {
                    r == Err::<(), Error>(Error::SizeOverflow) && final(self).at() == old(self).at()
                } else {
                    r is Ok && final(self).at() == e
                },
            },
    {
        match hdr.payload_end() {
            None => Ok(()),
            Some(end) => {
                if end > self.buf.len() {
                    return Err(Error::SizeOverflow);
                }
                self.pos = end;
                Ok(())
            },
        }
    }

    /// The payload that `hdr` delimits, `unknown` being the complaint about an
    /// unknown size.
    fn delimited<'b>(&'b self, hdr: &ElementHeader, unknown: Error) -> (r: Result<&'b [u8], Error>)
        ensures
            match payload_or(self.data(), *hdr, unknown) {
                Ok(b) => r is Ok && r->Ok_0@ == b,
                Err(e) => r == Err::<&[u8], Error>(e),
            },
    {
        match hdr.payload_end() {
            None => Err(unknown),
            Some(end) => {
                if end > self.buf.len() {
                    return Err(Error::SizeOverflow);
                }
                Ok(&self.buf[hdr.payload_start..end])
            },
        }
    }

    /// The raw payload of `hdr`.
    pub fn payload<'b>(&'b self, hdr: &ElementHeader) -> (r: Result<&'b [u8], Error>)
        ensures
            match payload_of(self.data(), *hdr) {
                Ok(b) => r is Ok && r->Ok_0@ == b,
                Err(e) => r == Err::<&[u8], Error>(e),
            },
    {
        self.delimited(hdr, Error::Malformed("payload requested for unknown-size element"))
    }

    /// A cursor over the payload of `hdr` alone.
    pub fn descend<'b>(&'b self, hdr: &ElementHeader) -> (r: Result<Reader<'b>, Error>)
        ensures
            match children_of(self.data(), *hdr) {
                Ok(b) => r is Ok && r->Ok_0.data() == b && r->Ok_0.at() == 0,
                Err(e) => r == Err::<Reader<'b>, Error>(e),
            },
    {
        let slice = self.delimited(hdr, Error::Malformed("descend into unknown-size element"))?;
        Ok(Reader::new(slice))
    }

    /// A cursor over all bytes behind the header, whatever its size.
    pub fn descend_unbounded<'b>(&'b self, hdr: &ElementHeader) -> (r: Reader<'b>)
        ensures
            r.data() == if hdr.payload_start <= self.data().len() {
                self.data().skip(hdr.payload_start as int)
            } else {
                Seq::<u8>::empty()
            },
            r.at() == 0,
    {
        let n: usize = self.buf.len();
        let start: usize = if hdr.payload_start <= n {
            hdr.payload_start
        } else {
            n
        };
        let r = Reader::new(&self.buf[start..n]);
        assert(start == n ==> self.buf@.subrange(n as int, n as int) =~= Seq::<u8>::empty());
        r
    }

    /// A big-endian unsigned integer of up to eight bytes; no bytes are zero.
    pub fn read_uint(&self, hdr: &ElementHeader) -> (r: Result<u64, Error>)
        ensures
            r == uint_of(self.data(), *hdr),
    {
        let b = self.payload(hdr)?;
        if b.len() > 8 {
            return Err(Error::Malformed("uint > 8 bytes"));
        }
        Ok(bytes::read_uint(b))
    }

    /// A big-endian two's complement integer of up to eight bytes; no bytes are
    /// zero.
    pub fn read_int(&self, hdr: &ElementHeader) -> (r: Result<i64, Error>)
        ensures
            r == int_of(self.data(), *hdr),
    {
        let b = self.payload(hdr)?;
        if b.len() > 8 {
            return Err(Error::Malformed("int > 8 bytes"));
        }
        if b.len() == 0 {
            assert(bytes::uint(b@) == 0);
            return Ok(0);
        }
        let v: u64 = bytes::read_uint(b);
        proof {
            lemma_sign(b@);
            bytes::lemma_uint_bound(b@);
        }
        if b[0] >= 0x80 {
            let rest: u64 = max_of_width(b.len()) - v;
            Ok(-(rest as i64) - 1)
        } else {
            Ok(v as i64)
        }
    }

    /// An IEEE float of zero, four or eight bytes.
    pub fn read_float(&self, hdr: &ElementHeader) -> (r: Result<FloatBits, Error>)
        ensures
            r == float_of(self.data(), *hdr),
    {
        let b = self.payload(hdr)?;
        let n: usize = b.len();
        if n == 0 {
            Ok(FloatBits::Double(0))
        } else if n == 4 {
            Ok(FloatBits::Single(bytes::read_u32(b, 0)))
        } else if n == 8 {
            Ok(FloatBits::Double(bytes::read_u64(b, 0)))
        } else {
            Err(Error::Malformed("float length must be 0/4/8"))
        }
    }

    /// ASCII text up to the first NUL.
    pub fn read_ascii(&self, hdr: &ElementHeader) -> (r: Result<&str, Error>)
        ensures
            match ascii_of(self.data(), *hdr) {
                Ok(t) => r is Ok && r->Ok_0@ == t,
                Err(e) => r == Err::<&str, Error>(e),
            },
    {
        let b = self.payload(hdr)?;
        match text::from_utf8(trim_nul(b)) {
            Ok(t) => Ok(t),
            Err(_) => Err(Error::Malformed("ascii not UTF-8 safe")),
        }
    }

    /// UTF-8 text up to the first NUL.
    pub fn read_utf8(&self, hdr: &ElementHeader) -> (r: Result<&str, Error>)
        ensures
            match utf8_of(self.data(), *hdr) {
                Ok(t) => r is Ok && r->Ok_0@ == t,
                Err(e) => r == Err::<&str, Error>(e),
            },
    {
        let b = self.payload(hdr)?;
        match text::from_utf8(trim_nul(b)) {
            Ok(t) => Ok(t),
            Err(_) => Err(Error::Malformed("utf8")),
        }
    }
}

} // verus!
