//! Boxes and how they are written and read.
//!
//! A box is its length, a four-character code and a body. A full box starts its body
//! with a version and 24 bits of flags.

pub mod codec;
pub mod esds;
pub mod fields;
pub mod fragment;
pub mod header;
pub mod kinds;
pub mod movie;
pub mod table;

pub use codec::{
    Audio, Av01, Av1C, Avc1, Avc3, AvcC, Btrt, Codec, Dfla, Dops, Esds, Flac, FlacMetadataBlock,
    Hev1, Hvc1, HvcC, Mp4a, Opus, Pasp, Stsd, Visual,
};
pub use fragment::{Ftyp, Mdat, Mfhd, Moof, Styp, Tfdt, Tfhd, Traf, Trun, TrunEntry};
pub use header::{
    Dinf, Dref, Edts, Elst, ElstEntry, Hdlr, Matrix, Mdhd, Mvhd, Smhd, Tkhd, Trex, Url, Vmhd,
};
pub use movie::{Mdia, Mehd, Minf, Moov, Mvex, Stbl, Trak};
pub use table::{Stco, Stsc, StscEntry, Stsz, StszSamples, Stts, SttsEntry};

use crate::bytes;
use crate::isobmff::error;
use crate::isobmff::{IsobmffError, IsobmffResult};
use crate::text;
use vstd::prelude::*;
use vstd::string::*;

verus! {

/// A four-character code.
#[derive(Debug, Clone, Copy, PartialEq, Eq, Hash)]
pub struct FourCC(pub [u8; 4]);

impl FourCC {
    /// The code of these four bytes.
    pub fn new(value: &[u8; 4]) -> (r: Self)
        ensures
            r == FourCC(*value),
    {
        FourCC(*value)
    }

    /// The four bytes.
    pub fn as_ref(&self) -> (r: &[u8; 4])
        ensures
            *r == self.0,
    {
        &self.0
    }

    /// The code as text, with a replacement character for each part that is no UTF-8.
    pub fn text(&self) -> (r: String)
        ensures
            r@ == text::lossy_text(self.0@),
    {
        text::lossy_string(&self.0)
    }
}

impl From<[u8; 4]> for FourCC {
    fn from(v: [u8; 4]) -> (r: Self) {
        FourCC(v)
    }
}

impl vstd::std_specs::convert::FromSpecImpl<[u8; 4]> for FourCC {
    open spec fn obeys_from_spec() -> bool {
        true
    }

    open spec fn from_spec(v: [u8; 4]) -> Self {
        FourCC(v)
    }
}

impl From<&[u8; 4]> for FourCC {
    fn from(v: &[u8; 4]) -> (r: Self) {
        FourCC(*v)
    }
}

impl vstd::std_specs::convert::FromSpecImpl<&[u8; 4]> for FourCC {
    open spec fn obeys_from_spec() -> bool {
        true
    }

    open spec fn from_spec(v: &[u8; 4]) -> Self {
        FourCC(*v)
    }
}

/// The code whose bytes are those of a 32-bit number.
pub open spec fn code_of(v: u32) -> FourCC {
    FourCC(
        [
            (v / 0x100_0000) as u8,
            (v / 65536 % 256) as u8,
            (v / 256 % 256) as u8,
            (v % 256) as u8,
        ],
    )
}

/// The 32-bit number of a code's bytes.
pub open spec fn number_of(c: FourCC) -> u32 {
    (c.0[0] * 0x100_0000 + c.0[1] * 65536 + c.0[2] * 256 + c.0[3]) as u32
}

impl From<u32> for FourCC {
    fn from(v: u32) -> (r: Self) {
        FourCC(
            [
                (v / 0x100_0000) as u8,
                (v / 65536 % 256) as u8,
                (v / 256 % 256) as u8,
                (v % 256) as u8,
            ],
        )
    }
}

impl vstd::std_specs::convert::FromSpecImpl<u32> for FourCC {
    open spec fn obeys_from_spec() -> bool {
        true
    }

    open spec fn from_spec(v: u32) -> Self {
        code_of(v)
    }
}

impl From<FourCC> for u32 {
    fn from(c: FourCC) -> (r: Self) {
        c.0[0] as u32 * 0x100_0000 + c.0[1] as u32 * 65536 + c.0[2] as u32 * 256 + c.0[3] as u32
    }
}

impl vstd::std_specs::convert::FromSpecImpl<FourCC> for u32 {
    open spec fn obeys_from_spec() -> bool {
        true
    }

    open spec fn from_spec(c: FourCC) -> Self {
        number_of(c)
    }
}

/// Codes and 32-bit numbers stand for each other.
pub proof fn law_codes_are_numbers(v: u32, c: FourCC)
    ensures
        number_of(code_of(v)) == v,
        code_of(number_of(c)) == c,
{
    assert(code_of(number_of(c)).0@ =~= c.0@);
    assert(code_of(number_of(c)).0 =~= c.0);
}

/// A 24-bit number.
#[allow(non_camel_case_types)]
#[derive(Debug, Clone, Copy, PartialEq, Eq)]
pub struct u24(pub [u8; 3]);

/// The largest 24-bit number.
pub const U24_MAX: u32 = 0x00FF_FFFF;

impl u24 {
    pub const MAX: u32 = U24_MAX;
}

impl Default for u24 {
    fn default() -> (r: Self)
        ensures
            r == u24([0, 0, 0]),
    {
        u24([0, 0, 0])
    }
}

impl From<[u8; 3]> for u24 {
    fn from(v: [u8; 3]) -> (r: Self) {
        u24(v)
    }
}

impl vstd::std_specs::convert::FromSpecImpl<[u8; 3]> for u24 {
    open spec fn obeys_from_spec() -> bool {
        true
    }

    open spec fn from_spec(v: [u8; 3]) -> Self {
        u24(v)
    }
}

impl From<u24> for u32 {
    fn from(v: u24) -> (r: Self) {
        v.0[0] as u32 * 65536 + v.0[1] as u32 * 256 + v.0[2] as u32
    }
}

impl vstd::std_specs::convert::FromSpecImpl<u24> for u32 {
    open spec fn obeys_from_spec() -> bool {
        true
    }

    open spec fn from_spec(v: u24) -> Self {
        (v.0[0] * 65536 + v.0[1] * 256 + v.0[2]) as u32
    }
}

impl TryFrom<u32> for u24 {
    type Error = ();

    fn try_from(v: u32) -> (r: Result<Self, ()>) {
        if v > U24_MAX {
            return Err(());
        }
        Ok(u24([(v / 65536) as u8, (v / 256 % 256) as u8, (v % 256) as u8]))
    }
}

impl vstd::std_specs::convert::TryFromSpecImpl<u32> for u24 {
    open spec fn obeys_try_from_spec() -> bool {
        true
    }

    open spec fn try_from_spec(v: u32) -> Result<Self, ()> {
        if v > U24_MAX {
            Err(())
        } else {
            Ok(u24([(v / 65536) as u8, (v / 256 % 256) as u8, (v % 256) as u8]))
        }
    }
}

/// A fixed-point number by its whole and its fractional part.
#[derive(Debug, Clone, Copy, Default, PartialEq, Eq)]
pub struct FixedPoint<T> {
    pub whole: T,
    pub fraction: T,
}

impl<T: Copy> FixedPoint<T> {
    /// The number with these parts.
    pub fn new(whole: T, fraction: T) -> (r: Self)
        ensures
            r == (FixedPoint { whole, fraction }),
    {
        FixedPoint { whole, fraction }
    }

    /// The whole part.
    pub fn integer(&self) -> (r: T)
        ensures
            r == self.whole,
    {
        self.whole
    }

    /// The fractional part.
    pub fn decimal(&self) -> (r: T)
        ensures
            r == self.fraction,
    {
        self.fraction
    }
}

/// What is written, or the text of the error.
pub type Wire = Result<Seq<u8>, Seq<char>>;

/// One after the other; the first error counts.
pub open spec fn joined(a: Wire, b: Wire) -> Wire {
    match a {
        Err(m) => Err(m),
        Ok(x) => match b {
            Err(m) => Err(m),
            Ok(y) => Ok(x + y),
        },
    }
}

/// `after` starts with `before`.
pub open spec fn extends(before: Seq<u8>, after: Seq<u8>) -> bool {
    before.len() <= after.len() && after.take(before.len() as int) == before
}

/// A call that had to append `w` to `before` has done so, or has failed.
pub open spec fn wrote(w: Wire, before: Seq<u8>, after: Seq<u8>, r: IsobmffResult<()>) -> bool {
    match w {
        Ok(b) => r is Ok && after == before + b,
        Err(m) => error::malformed(r, m) && extends(before, after),
    }
}

/// What follows an extension extends the start as well.
pub broadcast proof fn lemma_extends(a: Seq<u8>, b: Seq<u8>, c: Seq<u8>)
    requires
        #[trigger] extends(a, b),
        #[trigger] extends(b, c),
    ensures
        extends(a, c),
{
    assert(c.take(a.len() as int) =~= c.take(b.len() as int).take(a.len() as int));
}

/// Appending extends.
pub broadcast proof fn lemma_appended(a: Seq<u8>, b: Seq<u8>)
    ensures
        extends(a, #[trigger] (a + b)),
{
    assert((a + b).take(a.len() as int) =~= a);
}

/// Appending in two steps.
pub broadcast proof fn lemma_assoc(a: Seq<u8>, b: Seq<u8>, c: Seq<u8>)
    ensures
        #[trigger] ((a + b) + c) == a + (b + c),
{
    assert((a + b) + c =~= a + (b + c));
}

pub broadcast group group_wire {
    lemma_extends,
    lemma_appended,
    lemma_assoc,
}

/// A box around a body.
pub open spec fn boxed(kind: Seq<u8>, body: Wire) -> Wire {
    match body {
        Err(m) => Err(m),
        Ok(b) => if b.len() + 8 > u32::MAX {
            Err("box body exceeds u32"@)
        } else {
            Ok(bytes::be32((b.len() + 8) as u32) + kind + b)
        },
    }
}

/// The text of the error for flags that do not fit.
pub open spec fn flags_text(flags: u32) -> Seq<char> {
    "FullBox flags 0x"@ + text::hex(
        flags as nat,
        if flags < 0x1000_0000 {
            7
        } else {
            8
        },
    ) + " exceed 24-bit max"@
}

/// A full box around a body.
pub open spec fn full_boxed(kind: Seq<u8>, version: u8, flags: u32, body: Wire) -> Wire {
    if flags > U24_MAX {
        Err(flags_text(flags))
    } else {
        match body {
            Err(m) => Err(m),
            Ok(b) => if b.len() + 12 > u32::MAX {
                Err("FullBox body exceeds u32"@)
            } else {
                Ok(
                    bytes::be32((b.len() + 12) as u32) + kind + seq![version] + bytes::be24(flags)
                        + b,
                )
            },
        }
    }
}

/// What can be written as a box.
pub trait Encode {
    /// The bytes, or the text of the error.
    spec fn wire(&self) -> Wire;

    /// Appends the box.
    fn encode(&self, buf: &mut Vec<u8>) -> (r: IsobmffResult<()>)
        ensures
            wrote(self.wire(), old(buf)@, final(buf)@, r),
    ;
}

/// What can be read from the front of a slice.
pub trait Decode: Sized {
    /// Whether `r` is what `b` starts with, and `rest` what follows it.
    spec fn reads(b: Seq<u8>, r: IsobmffResult<Self>, rest: Seq<u8>) -> bool;

    /// Takes a value off the front.
    fn decode(buf: &mut &[u8]) -> (r: IsobmffResult<Self>)
        ensures
            Self::reads((*old(buf))@, r, (*final(buf))@),
    ;
}

/// A plain box.
pub trait Atom: Sized {
    const KIND: [u8; 4];

    /// The code of the box.
    spec fn kind() -> Seq<u8>;

    proof fn kind_is_code()
        ensures
            Self::KIND@ == Self::kind(),
    ;

    /// The body's bytes, or the text of the error.
    spec fn body(&self) -> Wire;

    /// Whether `r` is what the body `b` stands for.
    spec fn reads_body(b: Seq<u8>, r: IsobmffResult<Self>) -> bool;

    /// Appends the body.
    fn encode_body(&self, buf: &mut Vec<u8>) -> (r: IsobmffResult<()>)
        ensures
            wrote(self.body(), old(buf)@, final(buf)@, r),
    ;

    /// Reads the body.
    fn decode_body(buf: &[u8]) -> (r: IsobmffResult<Self>)
        ensures
            Self::reads_body(buf@, r),
    ;
}

/// A box with a version and flags.
pub trait FullBox: Sized {
    const KIND: [u8; 4];

    spec fn version_of(&self) -> u8;

    spec fn flags_of(&self) -> u32;

    /// The bytes behind the flags, or the text of the error.
    spec fn full_body(&self) -> Wire;

    /// Whether `r` is what the bytes `b` behind the flags stand for.
    spec fn reads_full_body(version: u8, flags: u32, b: Seq<u8>, r: IsobmffResult<Self>) -> bool;

    fn version(&self) -> (r: u8)
        ensures
            r == self.version_of(),
    ;

    fn flags(&self) -> (r: u32)
        ensures
            r == self.flags_of(),
    ;

    /// Appends what stands behind the flags.
    fn encode_full_body(&self, buf: &mut Vec<u8>) -> (r: IsobmffResult<()>)
        ensures
            wrote(self.full_body(), old(buf)@, final(buf)@, r),
    ;

    /// Reads what stands behind the flags.
    fn decode_full_body(version: u8, flags: u32, buf: &[u8]) -> (r: IsobmffResult<Self>)
        ensures
            Self::reads_full_body(version, flags, buf@, r),
    ;
}

/// Fills in the length of the box that starts at `start`.
fn close_box(buf: &mut Vec<u8>, start: usize, size: u32)
    requires
        start + 4 <= old(buf)@.len(),
    ensures
        final(buf)@ == old(buf)@.take(start as int) + bytes::be32(size) + old(buf)@.skip(start + 4),
{
    assert(buf@.len() == buf.len());
    buf.set(start, (size / 65536 / 256) as u8);
    buf.set(start + 1, (size / 65536 % 256) as u8);
    buf.set(start + 2, (size % 65536 / 256) as u8);
    buf.set(start + 3, (size % 65536 % 256) as u8);
    assert(buf@ =~= old(buf)@.take(start as int) + bytes::be32(size) + old(buf)@.skip(start + 4));
}

impl<T: Atom> Encode for T {
    open spec fn wire(&self) -> Wire {
        boxed(T::kind(), self.body())
    }

    fn encode(&self, buf: &mut Vec<u8>) -> (r: IsobmffResult<()>) {
        broadcast use group_wire;

        proof {
            T::kind_is_code();
        }
        let start: usize = buf.len();
        let ghost before = buf@;
        bytes::put_zeros(buf, 4);
        let kind: [u8; 4] = T::KIND;
        bytes::put_slice(buf, &kind);
        let ghost opened = buf@;
        self.encode_body(buf)?;
        let n: usize = buf.len() - start;
        if n as u64 > u32::MAX as u64 {
            return Err(IsobmffError::Malformed("box body exceeds u32".to_owned()));
        }
        let ghost b = self.body()->Ok_0;
        let ghost filled = buf@;
        close_box(buf, start, n as u32);
        proof {
            assert(filled == opened + b);
            assert(filled.take(start as int) =~= before);
            assert(filled.skip(start + 4) =~= T::KIND@ + b);
            assert(buf@ =~= before + (bytes::be32(n as u32) + T::KIND@ + b));
        }
        Ok(())
    }
}

/// Appends a full box.
pub fn encode_full<F: FullBox>(b: &F, buf: &mut Vec<u8>) -> (r: IsobmffResult<()>)
    ensures
        wrote(
            full_boxed(F::KIND@, b.version_of(), b.flags_of(), b.full_body()),
            old(buf)@,
            final(buf)@,
            r,
        ),
{
    broadcast use group_wire;

    let start: usize = buf.len();
    let ghost before = buf@;
    bytes::put_zeros(buf, 4);
    let kind: [u8; 4] = F::KIND;
    bytes::put_slice(buf, &kind);
    let version: u8 = b.version();
    let ghost named = buf@;
    buf.push(version);
    assert(buf@ =~= named + seq![version]);
    let flags: u32 = b.flags();
    if flags > U24_MAX {
        let mut s: String = "FullBox flags 0x".to_owned();
        if flags < 0x1000_0000 {
            text::put_hex(&mut s, flags as u64, 7);
        } else {
            text::put_hex(&mut s, flags as u64, 8);
        }
        s.append(" exceed 24-bit max");
        return Err(IsobmffError::Malformed(s));
    }
    bytes::put_u24(buf, flags);
    let ghost opened = buf@;
    b.encode_full_body(buf)?;
    let n: usize = buf.len() - start;
    if n as u64 > u32::MAX as u64 {
        return Err(IsobmffError::Malformed("FullBox body exceeds u32".to_owned()));
    }
    let ghost body = b.full_body()->Ok_0;
    let ghost filled = buf@;
    close_box(buf, start, n as u32);
    proof {
        assert(filled == opened + body);
        assert(filled.take(start as int) =~= before);
        assert(filled.skip(start + 4) =~= F::KIND@ + seq![version] + bytes::be24(flags) + body);
        assert(buf@ =~= before + (bytes::be32(n as u32) + F::KIND@ + seq![version] + bytes::be24(
            flags,
        ) + body));
    }
    Ok(())
}

/// What optional boxes write.
pub open spec fn opt_wire<T: Encode>(o: Option<T>) -> Wire {
    match o {
        None => Ok(Seq::empty()),
        Some(b) => b.wire(),
    }
}

/// What boxes write one after the other.
pub open spec fn all_wire<T: Encode>(s: Seq<T>) -> Wire
    decreases s.len(),
{
    if s.len() == 0 {
        Ok(Seq::empty())
    } else {
        joined(all_wire(s.drop_last()), s.last().wire())
    }
}

/// Appends a box if there is one.
pub(crate) fn encode_opt<T: Encode>(o: &Option<T>, buf: &mut Vec<u8>) -> (r: IsobmffResult<()>)
    ensures
        wrote(opt_wire(*o), old(buf)@, final(buf)@, r),
{
    match o {
        None => {
            assert(buf@ + Seq::<u8>::empty() =~= buf@);
            Ok(())
        },
        Some(b) => b.encode(buf),
    }
}

/// An error among the first boxes is that of all.
proof fn lemma_all_err<T: Encode>(s: Seq<T>, i: int)
    requires
        0 <= i <= s.len(),
        all_wire(s.take(i)) is Err,
    ensures
        all_wire(s) == all_wire(s.take(i)),
    decreases s.len() - i,
{
    if i < s.len() {
        assert(s.take(i + 1).drop_last() =~= s.take(i));
        lemma_all_err(s, i + 1);
    } else {
        assert(s.take(i) =~= s);
    }
}

/// Appends boxes one after the other.
pub(crate) fn encode_all<T: Encode>(v: &Vec<T>, buf: &mut Vec<u8>) -> (r: IsobmffResult<()>)
    ensures
        wrote(all_wire(v@), old(buf)@, final(buf)@, r),
{
    broadcast use group_wire;

    let mut i: usize = 0;
    assert(v@.take(0) =~= Seq::empty());
    assert(buf@ + Seq::<u8>::empty() =~= buf@);
    while i < v.len()
        invariant
            i <= v@.len(),
            all_wire(v@.take(i as int)) is Ok,
            buf@ == old(buf)@ + all_wire(v@.take(i as int))->Ok_0,
        decreases v@.len() - i,
    {
        broadcast use group_wire;

        let ghost before = buf@;
        proof {
            assert(v@.take(i + 1).drop_last() =~= v@.take(i as int));
            assert(v@.take(i + 1).last() == v@[i as int]);
            if v@[i as int].wire() is Err {
                lemma_all_err(v@, i + 1);
            }
        }
        v[i].encode(buf)?;
        i = i + 1;
    }
    assert(v@.take(i as int) =~= v@);
    Ok(())
}

/// The text of the error for a slice that is too short.
pub open spec fn short_text(need: nat, have: nat) -> Seq<char> {
    "short read: need "@ + text::decimal(need) + " bytes, have "@ + text::decimal(have)
}

fn short_read(need: usize, have: usize) -> (e: IsobmffError)
    ensures
        e matches IsobmffError::Malformed(s) && s@ == short_text(need as nat, have as nat),
{
    let mut s: String = "short read: need ".to_owned();
    text::put_decimal(&mut s, need as u64);
    s.append(" bytes, have ");
    text::put_decimal(&mut s, have as u64);
    IsobmffError::Malformed(s)
}

/// A value of `n` bytes is taken off the front, or there are too few.
pub open spec fn takes<T>(b: Seq<u8>, n: nat, v: T, r: IsobmffResult<T>, rest: Seq<u8>) -> bool {
    if b.len() < n {
        error::malformed(r, short_text(n, b.len())) && rest == b
    } else {
        r is Ok && r->Ok_0 == v && rest == b.skip(n as int)
    }
}

/// Takes `n` bytes off the front.
fn split_at<'a>(buf: &mut &'a [u8], n: usize) -> (r: IsobmffResult<&'a [u8]>)
    ensures
        if (*old(buf))@.len() < n {
            error::malformed(r, short_text(n as nat, (*old(buf))@.len())) && (*final(buf))@
                == (*old(buf))@
        } else {
            r is Ok && r->Ok_0@ == (*old(buf))@.take(n as int) && (*final(buf))@
                == (*old(buf))@.skip(n as int)
        },
{
    let b: &'a [u8] = *buf;
    if b.len() < n {
        return Err(short_read(n, b.len()));
    }
    let (head, tail) = b.split_at(n);
    *buf = tail;
    assert(tail@ =~= b@.skip(n as int));
    assert(head@ =~= b@.take(n as int));
    Ok(head)
}

impl Decode for u8 {
    open spec fn reads(b: Seq<u8>, r: IsobmffResult<Self>, rest: Seq<u8>) -> bool {
        takes(b, 1, b[0], r, rest)
    }

    fn decode(buf: &mut &[u8]) -> (r: IsobmffResult<Self>) {
        let s = split_at(buf, 1)?;
        Ok(s[0])
    }
}

impl Decode for u16 {
    open spec fn reads(b: Seq<u8>, r: IsobmffResult<Self>, rest: Seq<u8>) -> bool {
        takes(b, 2, bytes::get16(b, 0), r, rest)
    }

    fn decode(buf: &mut &[u8]) -> (r: IsobmffResult<Self>) {
        let s = split_at(buf, 2)?;
        Ok(bytes::read_u16(s, 0))
    }
}

impl Decode for u32 {
    open spec fn reads(b: Seq<u8>, r: IsobmffResult<Self>, rest: Seq<u8>) -> bool {
        takes(b, 4, bytes::get32(b, 0), r, rest)
    }

    fn decode(buf: &mut &[u8]) -> (r: IsobmffResult<Self>) {
        let ghost b = (*buf)@;
        match split_at(buf, 4) {
            Ok(s) => {
                let r: IsobmffResult<u32> = Ok(bytes::read_u32(s, 0));
                assert(<u32 as Decode>::reads(b, r, (*buf)@));
                r
            },
            Err(e) => Err(e),
        }
    }
}

impl Decode for u64 {
    open spec fn reads(b: Seq<u8>, r: IsobmffResult<Self>, rest: Seq<u8>) -> bool {
        takes(b, 8, bytes::get64(b, 0), r, rest)
    }

    fn decode(buf: &mut &[u8]) -> (r: IsobmffResult<Self>) {
        let ghost b = (*buf)@;
        match split_at(buf, 8) {
            Ok(s) => {
                let r: IsobmffResult<u64> = Ok(bytes::read_u64(s, 0));
                assert(<u64 as Decode>::reads(b, r, (*buf)@));
                r
            },
            Err(e) => Err(e),
        }
    }
}

impl Decode for [u8; 4] {
    open spec fn reads(b: Seq<u8>, r: IsobmffResult<Self>, rest: Seq<u8>) -> bool {
        takes(b, 4, [b[0], b[1], b[2], b[3]], r, rest)
    }

    fn decode(buf: &mut &[u8]) -> (r: IsobmffResult<Self>) {
        let s = split_at(buf, 4)?;
        Ok([s[0], s[1], s[2], s[3]])
    }
}

impl Decode for FourCC {
    open spec fn reads(b: Seq<u8>, r: IsobmffResult<Self>, rest: Seq<u8>) -> bool {
        takes(b, 4, FourCC([b[0], b[1], b[2], b[3]]), r, rest)
    }

    fn decode(buf: &mut &[u8]) -> (r: IsobmffResult<Self>) {
        let s = split_at(buf, 4)?;
        Ok(FourCC([s[0], s[1], s[2], s[3]]))
    }
}

/// What the items of a list write one after the other.
pub open spec fn run<T>(s: Seq<T>, f: spec_fn(T) -> Seq<u8>) -> Seq<u8>
    decreases s.len(),
{
    if s.len() == 0 {
        Seq::empty()
    } else {
        run(s.drop_last(), f) + f(s.last())
    }
}

/// One item more.
pub proof fn lemma_run<T>(s: Seq<T>, f: spec_fn(T) -> Seq<u8>, i: int)
    requires
        0 <= i < s.len(),
    ensures
        run(s.take(i + 1), f) == run(s.take(i), f) + f(s[i]),
{
    assert(s.take(i + 1).drop_last() =~= s.take(i));
}

/// The low 32 bits of a count.
pub open spec fn count32(n: nat) -> u32 {
    (n % 0x1_0000_0000) as u32
}

/// Appends a count.
pub(crate) fn put_count(buf: &mut Vec<u8>, n: usize)
    ensures
        final(buf)@ == old(buf)@ + bytes::be32(count32(n as nat)),
{
    bytes::put_u32(buf, (n as u64 % 0x1_0000_0000) as u32);
}

/// The error of a box that is only ever written.
pub(crate) fn write_only<T>(text: &str) -> (r: IsobmffResult<T>)
    ensures
        error::malformed(r, text@),
{
    Err(IsobmffError::Malformed(text.to_owned()))
}

} // verus!
