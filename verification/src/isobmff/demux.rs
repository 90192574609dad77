//! Demultiplexing of MP4 files whose samples are listed in the movie.
//!
//! What the file says of its samples is read with fixed limits, and samples with limits
//! that the caller chooses. Configurations and samples are handed out as they are.
//! Reading is the caller's: an [`Opener`] and a [`SampleReader`] say which bytes they
//! need next.

pub mod described;
pub mod listed;
pub mod open;
pub mod opened;
pub mod sample;
pub mod track;

pub use open::{Demuxer, OpenAsk, Opener};
pub use sample::{edited_times, Sample, SampleReader};
pub use track::{edit_list, header_time, SampleDescription, Track};

use crate::bytes;
use crate::isobmff::error;
use crate::isobmff::{IsobmffError, IsobmffResult};
use vstd::prelude::*;

verus! {

/// The largest `moov`, in bytes.
pub const MAX_MOOV: usize = 8_388_608;

/// How many boxes are looked at.
pub const MAX_BOXES: usize = 100_000;

/// How many samples a track has.
pub const MAX_SAMPLES: usize = 100_000;

/// How many tracks a movie has.
pub const MAX_TRACKS: usize = 64;

/// Limits on what is read of a file.
#[derive(Clone, Copy, Debug)]
pub struct Limits {
    /// Bytes in all.
    pub read_bytes: usize,
    /// Bytes of one sample.
    pub sample_bytes: usize,
}

impl Default for Limits {
    fn default() -> (r: Self)
        ensures
            r == (Limits { read_bytes: 16_777_216, sample_bytes: 16_777_216 }),
    {
        Limits { read_bytes: 16_777_216, sample_bytes: 16_777_216 }
    }
}

/// Why a file is refused.
pub enum Fault {
    /// It does not hold what it must.
    Bad(Seq<char>),
    /// It is beyond what is supported.
    Beyond(Seq<char>),
}

/// The call failed for this reason.
pub open spec fn fails<T>(r: IsobmffResult<T>, f: Fault) -> bool {
    match f {
        Fault::Bad(m) => error::malformed(r, m),
        Fault::Beyond(m) => error::unsupported(r, m),
    }
}

pub(crate) fn bad(s: &str) -> (e: IsobmffError)
    ensures
        e matches IsobmffError::Malformed(t) && t@ == s@,
{
    IsobmffError::Malformed(s.to_owned())
}

pub(crate) fn beyond(s: &str) -> (e: IsobmffError)
    ensures
        e matches IsobmffError::Unsupported(t) && t@ == s@,
{
    IsobmffError::Unsupported(s.to_owned())
}

/// The 16-bit field at `i`.
pub open spec fn field16(b: Seq<u8>, i: int) -> Result<u16, Fault> {
    if i + 2 > b.len() {
        Err(Fault::Bad("short field"@))
    } else {
        Ok(bytes::get16(b, i))
    }
}

/// The 32-bit field at `i`.
pub open spec fn field32(b: Seq<u8>, i: int) -> Result<u32, Fault> {
    if i + 4 > b.len() {
        Err(Fault::Bad("short field"@))
    } else {
        Ok(bytes::get32(b, i))
    }
}

/// The 64-bit field at `i`.
pub open spec fn field64(b: Seq<u8>, i: int) -> Result<u64, Fault> {
    if i + 8 > b.len() {
        Err(Fault::Bad("short field"@))
    } else {
        Ok(bytes::get64(b, i))
    }
}

/// The call gave the value, or failed for the reason.
pub open spec fn gives<T>(r: IsobmffResult<T>, s: Result<T, Fault>) -> bool {
    match s {
        Ok(v) => r is Ok && r->Ok_0 == v,
        Err(f) => fails(r, f),
    }
}

pub(crate) fn u16be(b: &[u8], i: usize) -> (r: IsobmffResult<u16>)
    ensures
        gives(r, field16(b@, i as int)),
{
    if i > b.len() || b.len() - i < 2 {
        return Err(bad("short field"));
    }
    Ok(bytes::read_u16(b, i))
}

pub(crate) fn u32be(b: &[u8], i: usize) -> (r: IsobmffResult<u32>)
    ensures
        gives(r, field32(b@, i as int)),
{
    if i > b.len() || b.len() - i < 4 {
        return Err(bad("short field"));
    }
    Ok(bytes::read_u32(b, i))
}

pub(crate) fn u64be(b: &[u8], i: usize) -> (r: IsobmffResult<u64>)
    ensures
        gives(r, field64(b@, i as int)),
{
    if i > b.len() || b.len() - i < 8 {
        return Err(bad("short field"));
    }
    Ok(bytes::read_u64(b, i))
}

/// Why a full box is refused whose version and flags are not zero.
pub open spec fn full_fault(b: Seq<u8>) -> Option<Fault> {
    match field32(b, 0) {
        Err(f) => Some(f),
        Ok(v) => if v != 0 {
            Some(Fault::Bad("unsupported full-box version/flags"@))
        } else {
            None
        },
    }
}

pub(crate) fn full(b: &[u8]) -> (r: IsobmffResult<()>)
    ensures
        match full_fault(b@) {
            None => r is Ok,
            Some(f) => fails(r, f),
        },
{
    if u32be(b, 0)? != 0 {
        return Err(bad("unsupported full-box version/flags"));
    }
    Ok(())
}

/// A child box without its header.
#[derive(Clone, Copy, Debug)]
pub struct BoxView<'a> {
    pub kind: [u8; 4],
    pub data: &'a [u8],
}

/// The code and the bytes of a box.
#[verifier::ext_equal]
pub struct Child {
    pub kind: Seq<u8>,
    pub data: Seq<u8>,
}

impl<'a> View for BoxView<'a> {
    type V = Child;

    open spec fn view(&self) -> Child {
        Child { kind: self.kind@, data: self.data@ }
    }
}

/// The code and the bytes of each box.
pub open spec fn children(s: Seq<BoxView>) -> Seq<Child> {
    Seq::new(s.len(), |i: int| s[i]@)
}

/// The lengths of the header and of the whole of the box at the start.
pub open spec fn extent_of(b: Seq<u8>) -> Result<(int, int), Fault> {
    match field32(b, 0) {
        Err(f) => Err(f),
        Ok(n) => if b.len() < 8 {
            Err(Fault::Bad("short box"@))
        } else {
            let sized: Result<(int, int), Fault> = if n == 0 {
                Ok((8, b.len() as int))
            } else if n == 1 {
                match field64(b, 8) {
                    Err(f) => Err(f),
                    Ok(v) => Ok((16, v as int)),
                }
            } else {
                Ok((8, n as int))
            };
            match sized {
                Err(f) => Err(f),
                Ok((header, size)) => if size < header || size > b.len() {
                    Err(Fault::Bad("invalid child box size"@))
                } else {
                    Ok((header, size))
                },
            }
        },
    }
}

/// The boxes of a body, and how many boxes have been looked at after them.
pub open spec fn boxes_of(b: Seq<u8>, work: nat) -> (Result<Seq<Child>, Fault>, nat)
    decreases b.len(),
{
    if b.len() == 0 {
        (Ok(Seq::empty()), work)
    } else if work >= MAX_BOXES {
        (Err(Fault::Beyond("demux limit exceeded: boxes"@)), work)
    } else {
        match extent_of(b) {
            Err(f) => (Err(f), work + 1),
            Ok((header, size)) => {
                let (rest, done) = boxes_of(b.skip(size), work + 1);
                (
                    before(
                        seq![Child { kind: b.subrange(4, 8), data: b.subrange(header, size) }],
                        rest,
                    ),
                    done,
                )
            },
        }
    }
}

/// Boxes in front of what follows.
pub open spec fn before(a: Seq<Child>, rest: Result<Seq<Child>, Fault>) -> Result<
    Seq<Child>,
    Fault,
> {
    match rest {
        Err(f) => Err(f),
        Ok(s) => Ok(a + s),
    }
}

/// The call gave these boxes, or failed for the reason.
pub open spec fn gives_boxes(r: IsobmffResult<Vec<BoxView>>, s: Result<Seq<Child>, Fault>) -> bool {
    match s {
        Ok(v) => r is Ok && children(r->Ok_0@) == v,
        Err(f) => fails(r, f),
    }
}

/// Four bytes.
pub(crate) fn code_at(b: &[u8], i: usize) -> (r: [u8; 4])
    requires
        i + 4 <= b@.len(),
    ensures
        r@ == b@.subrange(i as int, i + 4),
{
    assert(b@.len() == b.len());
    let r: [u8; 4] = [b[i], b[i + 1], b[i + 2], b[i + 3]];
    assert(r@ =~= b@.subrange(i as int, i + 4));
    r
}

/// Reads the header of the box at the start.
fn extent(b: &[u8]) -> (r: IsobmffResult<(usize, usize)>)
    ensures
        match extent_of(b@) {
            Ok((h, n)) => r is Ok && r->Ok_0.0 == h && r->Ok_0.1 == n,
            Err(f) => fails(r, f),
        },
{
    assert(b@.len() == b.len());
    let n: u32 = u32be(b, 0)?;
    if b.len() < 8 {
        return Err(bad("short box"));
    }
    let (header, size): (u64, u64) = if n == 0 {
        (8, b.len() as u64)
    } else if n == 1 {
        (16, u64be(b, 8)?)
    } else {
        (8, n as u64)
    };
    if size < header || size > b.len() as u64 {
        return Err(bad("invalid child box size"));
    }
    Ok((header as usize, size as usize))
}

/// Reads the boxes of a body and counts them.
pub(crate) fn boxes<'a>(data: &'a [u8], work: &mut usize) -> (r: IsobmffResult<Vec<BoxView<'a>>>)
    requires
        *old(work) <= MAX_BOXES,
    ensures
        gives_boxes(r, boxes_of(data@, *old(work) as nat).0),
        *final(work) == boxes_of(data@, *old(work) as nat).1,
        *old(work) <= *final(work) <= MAX_BOXES,
{
    let mut b: &'a [u8] = data;
    let mut out: Vec<BoxView<'a>> = Vec::new();
    assert(children(out@) =~= Seq::empty());
    proof {
        let r = boxes_of(data@, *work as nat).0;
        if r is Ok {
            assert(Seq::<Child>::empty() + r->Ok_0 =~= r->Ok_0);
        }
    }
    while b.len() > 0
        invariant
            *old(work) <= *work <= MAX_BOXES,
            boxes_of(data@, *old(work) as nat) == (
                before(children(out@), boxes_of(b@, *work as nat).0),
                boxes_of(b@, *work as nat).1,
            ),
        decreases b@.len(),
    {
        assert(b@.len() == b.len());
        if *work >= MAX_BOXES {
            return Err(beyond("demux limit exceeded: boxes"));
        }
        let ghost w = *work as nat;
        *work = *work + 1;
        let (header, size) = extent(b)?;
        let kind: [u8; 4] = code_at(b, 4);
        let (head, tail) = b.split_at(size);
        let (_, data_part) = head.split_at(header);
        let one = BoxView { kind, data: data_part };
        let ghost made = children(out@);
        out.push(one);
        proof {
            assert(tail@ =~= b@.skip(size as int));
            assert(data_part@ =~= b@.subrange(header as int, size as int));
            let first = seq![
                Child {
                    kind: b@.subrange(4, 8),
                    data: b@.subrange(header as int, size as int),
                },
            ];
            assert(children(out@) =~= made + first);
            let rest = boxes_of(tail@, w + 1).0;
            if rest is Ok {
                assert(made + (first + rest->Ok_0) =~= made + first + rest->Ok_0);
            }
        }
        b = tail;
    }
    proof {
        assert(b@ =~= Seq::empty());
        assert(children(out@) + Seq::<Child>::empty() =~= children(out@));
    }
    Ok(out)
}

/// The length of a box's header: longer where the length stands behind the code.
pub open spec fn header_of(b: Seq<u8>) -> int {
    if bytes::get32(b, 0) == 1 {
        16
    } else {
        8
    }
}

/// Boxes stand in these bytes one after the other and fill them: each has its code behind
/// four bytes of length, and its body behind its header, and is as long as it says. Only
/// the last may say nothing of its length.
pub open spec fn fill(s: Seq<Child>, b: Seq<u8>) -> bool
    decreases s.len(),
{
    if s.len() == 0 {
        b.len() == 0
    } else {
        let h = header_of(b);
        let n = h + s[0].data.len();
        let said = bytes::get32(b, 0);
        &&& n <= b.len()
        &&& b.subrange(4, 8) == s[0].kind
        &&& b.subrange(h, n) == s[0].data
        &&& if said == 0 {
            n == b.len()
        } else if said == 1 {
            n == bytes::get64(b, 8)
        } else {
            n == said
        }
        &&& fill(s.skip(1), b.skip(n))
    }
}

/// Boxes that were read make up the whole of the data, and each of them was counted.
pub proof fn law_boxes_fill_the_data(b: Seq<u8>, work: nat)
    ensures
        boxes_of(b, work).0 matches Ok(s) ==> fill(s, b) && boxes_of(b, work).1 == work + s.len(),
    decreases b.len(),
{
    if b.len() > 0 && work < MAX_BOXES {
        if let Ok((header, size)) = extent_of(b) {
            law_boxes_fill_the_data(b.skip(size), work + 1);
            if let Ok(rest) = boxes_of(b.skip(size), work + 1).0 {
                let one = Child { kind: b.subrange(4, 8), data: b.subrange(header, size) };
                let s = seq![one] + rest;
                assert(s.skip(1) =~= rest);
                assert(s[0] == one);
            }
        }
    }
}

/// A budget of boxes to look at, for callers that read configurations.
pub struct BoxBudget {
    used: usize,
}

impl BoxBudget {
    /// How many boxes have been looked at.
    pub closed spec fn used(&self) -> nat {
        self.used as nat
    }

    #[verifier::type_invariant]
    spec fn within(self) -> bool {
        self.used <= MAX_BOXES
    }

    /// A budget of which this much is used.
    pub fn with_used(used: usize) -> (r: Self)
        requires
            used <= MAX_BOXES,
        ensures
            r.used() == used,
    {
        BoxBudget { used }
    }

    /// Reads the boxes of a body.
    pub fn read<'a>(&mut self, data: &'a [u8]) -> (r: IsobmffResult<Vec<BoxView<'a>>>)
        ensures
            gives_boxes(r, boxes_of(data@, old(self).used()).0),
            final(self).used() == boxes_of(data@, old(self).used()).1,
    {
        proof {
            use_type_invariant(&*self);
        }
        let mut work: usize = self.used;
        let r = boxes(data, &mut work);
        self.used = work;
        r
    }
}

impl Default for BoxBudget {
    fn default() -> (r: Self)
        ensures
            r.used() == 0,
    {
        BoxBudget { used: 0 }
    }
}

/// The bodies of the boxes of a kind.
pub open spec fn found(s: Seq<Child>, kind: Seq<u8>) -> Seq<Seq<u8>>
    decreases s.len(),
{
    if s.len() == 0 {
        Seq::empty()
    } else if s.last().kind == kind {
        found(s.drop_last(), kind).push(s.last().data)
    } else {
        found(s.drop_last(), kind)
    }
}

/// The body of the only box of a kind, if there is one.
pub open spec fn only(s: Seq<Child>, kind: Seq<u8>) -> Result<Option<Seq<u8>>, Fault> {
    let all = found(s, kind);
    if all.len() == 0 {
        Ok(None)
    } else if all.len() == 1 {
        Ok(Some(all[0]))
    } else {
        Err(Fault::Bad("duplicate required box"@))
    }
}

/// The body of the only box of a kind, which must be there.
pub open spec fn sole(s: Seq<Child>, kind: Seq<u8>) -> Result<Seq<u8>, Fault> {
    match only(s, kind) {
        Err(f) => Err(f),
        Ok(None) => Err(Fault::Bad("missing required box"@)),
        Ok(Some(b)) => Ok(b),
    }
}

pub(crate) fn optional<'a>(atoms: &Vec<BoxView<'a>>, kind: &[u8; 4]) -> (r: IsobmffResult<
    Option<&'a [u8]>,
>)
    ensures
        match only(children(atoms@), kind@) {
            Ok(None) => r is Ok && r->Ok_0 is None,
            Ok(Some(b)) => r is Ok && r->Ok_0 is Some && r->Ok_0->0@ == b,
            Err(f) => fails(r, f),
        },
{
    let mut first: Option<&'a [u8]> = None;
    let mut i: usize = 0;
    let ghost all = children(atoms@);
    assert(all.take(0) =~= Seq::empty());
    let mut seen: bool = false;
    while i < atoms.len()
        invariant
            i <= atoms@.len(),
            all == children(atoms@),
            match first {
                None => found(all.take(i as int), kind@).len() == 0 && !seen,
                Some(b) => found(all.take(i as int), kind@).len() >= 1 && found(
                    all.take(i as int),
                    kind@,
                )[0] == b@ && (seen <==> found(all.take(i as int), kind@).len() > 1),
            },
        decreases atoms@.len() - i,
    {
        let a: &BoxView = &atoms[i];
        assert(all.take(i + 1).drop_last() =~= all.take(i as int));
        assert(all.take(i + 1).last() == all[i as int]);
        if bytes::same4(&a.kind, kind) {
            if first.is_some() {
                seen = true;
            } else {
                first = Some(a.data);
            }
        }
        i = i + 1;
    }
    assert(all.take(i as int) =~= all);
    if seen {
        return Err(bad("duplicate required box"));
    }
    Ok(first)
}

pub(crate) fn required<'a>(atoms: &Vec<BoxView<'a>>, kind: &[u8; 4]) -> (r: IsobmffResult<&'a [u8]>)
    ensures
        match sole(children(atoms@), kind@) {
            Ok(b) => r is Ok && r->Ok_0@ == b,
            Err(f) => fails(r, f),
        },
{
    match optional(atoms, kind)? {
        Some(b) => Ok(b),
        None => Err(bad("missing required box")),
    }
}

/// What has been read of a file, how long it is, and what may be read.
#[derive(Clone, Copy, Debug)]
pub struct Budget {
    pub read: usize,
    pub len: u64,
    pub limits: Limits,
}

impl Budget {
    /// No more has been read than may be.
    pub open spec fn wf(&self) -> bool {
        self.read <= self.limits.read_bytes
    }

    /// Why `n` bytes at an offset may not be read.
    pub open spec fn refusal(&self, offset: int, n: int) -> Option<Fault> {
        if self.read + n > self.limits.read_bytes {
            Some(Fault::Beyond("demux limit exceeded: bytes read"@))
        } else if offset + n > self.len {
            Some(Fault::Bad("read outside file"@))
        } else {
            None
        }
    }

    /// The budget after `n` bytes have been read.
    pub open spec fn spent(&self, n: int) -> Budget {
        Budget { read: (self.read + n) as usize, len: self.len, limits: self.limits }
    }

    /// Takes the right to read `n` bytes at an offset.
    pub(crate) fn take(&mut self, offset: u64, n: usize) -> (r: IsobmffResult<()>)
        requires
            old(self).wf(),
        ensures
            final(self).wf(),
            match old(self).refusal(offset as int, n as int) {
                None => r is Ok && *final(self) == old(self).spent(n as int),
                Some(f) => fails(r, f) && *final(self) == *old(self),
            },
    {
        if n > self.limits.read_bytes - self.read {
            return Err(beyond("demux limit exceeded: bytes read"));
        }
        if offset > self.len || n as u64 > self.len - offset {
            return Err(bad("read outside file"));
        }
        self.read = self.read + n;
        Ok(())
    }
}

/// A read that is granted stays within the file and within the budget, of which it takes
/// as much as it reads.
pub proof fn law_reads_within_budget(b: Budget, offset: u64, n: usize)
    requires
        b.wf(),
        b.refusal(offset as int, n as int) is None,
    ensures
        b.spent(n as int).wf(),
        b.spent(n as int).read == b.read + n,
        offset + n <= b.len,
{
}

} // verus!
