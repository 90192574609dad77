//! What the movie says of a track.

use crate::bytes;
use crate::isobmff::boxes::kinds;
use crate::isobmff::demux;
use crate::isobmff::demux::{bad, boxes, code_at, full, optional, required, u16be, u32be, u64be};
use crate::isobmff::demux::{BoxView, Child, Fault, MAX_BOXES};
use crate::isobmff::IsobmffResult;
use crate::text;
use vstd::prelude::*;

verus! {

/// A sample entry: its code, where its data is, and its configuration as it is.
#[derive(Clone, Debug)]
pub struct SampleDescription {
    pub format: [u8; 4],
    pub data_reference_index: u16,
    pub configuration: Vec<u8>,
}

#[verifier::ext_equal]
pub struct DescriptionView {
    pub format: Seq<u8>,
    pub data_reference_index: u16,
    pub configuration: Seq<u8>,
}

impl View for SampleDescription {
    type V = DescriptionView;

    open spec fn view(&self) -> DescriptionView {
        DescriptionView {
            format: self.format@,
            data_reference_index: self.data_reference_index,
            configuration: self.configuration@,
        }
    }
}

/// An edit: how long nothing is shown first, in ticks of the movie, the time in the
/// media at which it starts, in ticks of the media, and how long it is, in ticks of the
/// movie.
pub type Edit = (u64, u64, u64);

/// A track, as the movie describes it.
#[derive(Clone, Debug)]
pub struct Track {
    pub id: u32,
    pub handler: [u8; 4],
    pub enabled: bool,
    pub language: Option<String>,
    pub descriptions: Vec<SampleDescription>,
    /// Why its samples cannot be read, if they cannot.
    pub unsupported_reason: Option<&'static str>,
    pub timescale: u32,
    pub duration: u64,
    /// Its sample tables.
    pub table: Vec<u8>,
    pub edit: Option<Edit>,
}

#[verifier::ext_equal]
pub struct TrackView {
    pub id: u32,
    pub handler: Seq<u8>,
    pub enabled: bool,
    pub language: Option<Seq<char>>,
    pub descriptions: Seq<DescriptionView>,
    pub unsupported_reason: Option<Seq<char>>,
    pub timescale: u32,
    pub duration: u64,
    pub table: Seq<u8>,
    pub edit: Option<Edit>,
}

pub open spec fn described(s: Seq<SampleDescription>) -> Seq<DescriptionView> {
    Seq::new(s.len(), |i: int| s[i]@)
}

pub open spec fn opt_text(t: Option<&'static str>) -> Option<Seq<char>> {
    match t {
        None => None,
        Some(s) => Some(s@),
    }
}

impl View for Track {
    type V = TrackView;

    open spec fn view(&self) -> TrackView {
        TrackView {
            id: self.id,
            handler: self.handler@,
            enabled: self.enabled,
            language: text::opt_chars(self.language),
            descriptions: described(self.descriptions@),
            unsupported_reason: opt_text(self.unsupported_reason),
            timescale: self.timescale,
            duration: self.duration,
            table: self.table@,
            edit: self.edit,
        }
    }
}

pub open spec fn tracks_of(s: Seq<Track>) -> Seq<TrackView> {
    Seq::new(s.len(), |i: int| s[i]@)
}

/// The time scale, the duration and the place of the language in a time header.
pub open spec fn time_of(b: Seq<u8>, movie: bool) -> Result<(u32, u64, int), Fault> {
    if b.len() == 0 {
        Err(Fault::Bad("short time header"@))
    } else if b[0] > 1 {
        Err(Fault::Bad("unsupported time header"@))
    } else {
        let wide = b[0] == 1;
        let least: int = if movie {
            100int
        } else {
            24
        } + if wide {
            12int
        } else {
            0
        };
        let scale = demux::field32(
            b,
            if wide {
                20
            } else {
                12
            },
        );
        let duration: Result<u64, Fault> = if wide {
            demux::field64(b, 24)
        } else {
            match demux::field32(b, 16) {
                Err(f) => Err(f),
                Ok(v) => Ok(v as u64),
            }
        };
        if scale is Err {
            Err(scale->Err_0)
        } else if duration is Err {
            Err(duration->Err_0)
        } else if b.len() < least || b[1] != 0 || b[2] != 0 || b[3] != 0 || scale->Ok_0 == 0 {
            Err(Fault::Bad("invalid timescale/header"@))
        } else {
            Ok(
                (
                    scale->Ok_0,
                    duration->Ok_0,
                    if wide {
                        32
                    } else {
                        20
                    },
                ),
            )
        }
    }
}

/// Reads a time header.
pub fn header_time(b: &[u8], movie: bool) -> (r: IsobmffResult<(u32, u64, usize)>)
    ensures
        match time_of(b@, movie) {
            Ok((s, d, l)) => r is Ok && r->Ok_0.0 == s && r->Ok_0.1 == d && r->Ok_0.2 == l,
            Err(f) => demux::fails(r, f),
        },
{
    assert(b@.len() == b.len());
    if b.len() == 0 {
        return Err(bad("short time header"));
    }
    let base: usize = if movie {
        100
    } else {
        24
    };
    let (scale, duration, lang, min): (u32, u64, usize, usize) = if b[0] == 0 {
        let scale: u32 = u32be(b, 12)?;
        let duration: u64 = u32be(b, 16)? as u64;
        (scale, duration, 20, base)
    } else if b[0] == 1 {
        let scale: u32 = u32be(b, 20)?;
        let duration: u64 = u64be(b, 24)?;
        (scale, duration, 32, base + 12)
    } else {
        return Err(bad("unsupported time header"));
    };
    if b.len() < min || b[1] != 0 || b[2] != 0 || b[3] != 0 || scale == 0 {
        return Err(bad("invalid timescale/header"));
    }
    Ok((scale, duration, lang))
}

/// An entry of an edit list: its duration, its time and its rate.
pub open spec fn edit_entry(b: Seq<u8>, wide: bool, i: int) -> (u64, int, u32) {
    if wide {
        let p = 8 + i * 20;
        let t = bytes::get64(b, p + 8);
        (
            bytes::get64(b, p),
            if t < 0x8000_0000_0000_0000 {
                t as int
            } else {
                t - 0x1_0000_0000_0000_0000
            },
            bytes::get32(b, p + 16),
        )
    } else {
        let p = 8 + i * 12;
        let t = bytes::get32(b, p + 4);
        (
            bytes::get32(b, p) as u64,
            if t < 0x8000_0000 {
                t as int
            } else {
                t - 0x1_0000_0000
            },
            bytes::get32(b, p + 8),
        )
    }
}

/// The edit of an edit list, which is one of the media, perhaps behind an empty one.
pub open spec fn edit_in(b: Seq<u8>) -> Result<Edit, Fault> {
    let rate = Fault::Bad("unsupported edit rate/duration"@);
    let order = Fault::Bad("unsupported edit sequence"@);
    if b.len() == 0 {
        Err(Fault::Bad("short edit list"@))
    } else if b[0] > 1 {
        Err(Fault::Bad("unsupported edit version"@))
    } else {
        let wide = b[0] == 1;
        match demux::field32(b, 4) {
            Err(f) => Err(f),
            Ok(count) => if b[1] != 0 || b[2] != 0 || b[3] != 0 || !(1 <= count <= 2) || b.len()
                != 8 + count * (if wide {
                20int
            } else {
                12
            }) {
                Err(Fault::Bad("unsupported edit list"@))
            } else {
                let (d0, t0, r0) = edit_entry(b, wide, 0);
                if r0 != 0x0001_0000 || d0 == 0 {
                    Err(rate)
                } else if count == 1 {
                    if t0 >= 0 {
                        Ok((0u64, t0 as u64, d0))
                    } else {
                        Err(order)
                    }
                } else if t0 != -1 {
                    Err(order)
                } else {
                    let (d1, t1, r1) = edit_entry(b, wide, 1);
                    if r1 != 0x0001_0000 || d1 == 0 {
                        Err(rate)
                    } else if t1 >= 0 {
                        Ok((d0, t1 as u64, d1))
                    } else {
                        Err(order)
                    }
                }
            },
        }
    }
}

/// The edit of a track, and how many boxes have been looked at after it.
pub open spec fn edit_of(data: Option<Seq<u8>>, work: nat) -> (Result<Option<Edit>, Fault>, nat) {
    match data {
        None => (Ok(None), work),
        Some(d) => {
            let (all, done) = demux::boxes_of(d, work);
            (
                match all {
                    Err(f) => Err(f),
                    Ok(a) => match demux::sole(a, kinds::ELST@) {
                        Err(f) => Err(f),
                        Ok(b) => match edit_in(b) {
                            Err(f) => Err(f),
                            Ok(e) => Ok(Some(e)),
                        },
                    },
                },
                done,
            )
        },
    }
}

/// Reads an entry of an edit list: its duration, whether it is empty, its time if it is
/// not negative, and its rate.
fn entry(b: &[u8], wide: bool, i: usize) -> (r: (u64, bool, Option<u64>, u32))
    requires
        i < 2,
        b@.len() >= 8 + (i + 1) * (if wide {
            20int
        } else {
            12
        }),
    ensures
        ({
            let (d, t, rate) = edit_entry(b@, wide, i as int);
            &&& r.0 == d
            &&& r.1 == (t == -1)
            &&& r.2 == if t >= 0 {
                Some(t as u64)
            } else {
                None
            }
            &&& r.3 == rate
        }),
{
    if wide {
        let p: usize = 8 + i * 20;
        let t: u64 = bytes::read_u64(b, p + 8);
        (
            bytes::read_u64(b, p),
            t == u64::MAX,
            if t < 0x8000_0000_0000_0000 {
                Some(t)
            } else {
                None
            },
            bytes::read_u32(b, p + 16),
        )
    } else {
        let p: usize = 8 + i * 12;
        let t: u32 = bytes::read_u32(b, p + 4);
        (
            bytes::read_u32(b, p) as u64,
            t == u32::MAX,
            if t < 0x8000_0000 {
                Some(t as u64)
            } else {
                None
            },
            bytes::read_u32(b, p + 8),
        )
    }
}

fn read_edit(b: &[u8]) -> (r: IsobmffResult<Edit>)
    ensures
        demux::gives(r, edit_in(b@)),
{
    assert(b@.len() == b.len());
    if b.len() == 0 {
        return Err(bad("short edit list"));
    }
    if b[0] > 1 {
        return Err(bad("unsupported edit version"));
    }
    let wide: bool = b[0] == 1;
    let width: usize = if wide {
        20
    } else {
        12
    };
    let count: u32 = u32be(b, 4)?;
    if b[1] != 0 || b[2] != 0 || b[3] != 0 || count < 1 || count > 2 || b.len() != 8 + count as usize
        * width {
        return Err(bad("unsupported edit list"));
    }
    let (d0, empty, t0, r0) = entry(b, wide, 0);
    if r0 != 0x0001_0000 || d0 == 0 {
        return Err(bad("unsupported edit rate/duration"));
    }
    if count == 1 {
        return match t0 {
            Some(t) => Ok((0, t, d0)),
            None => Err(bad("unsupported edit sequence")),
        };
    }
    if !empty {
        return Err(bad("unsupported edit sequence"));
    }
    let (d1, _, t1, r1) = entry(b, wide, 1);
    if r1 != 0x0001_0000 || d1 == 0 {
        return Err(bad("unsupported edit rate/duration"));
    }
    match t1 {
        Some(t) => Ok((d0, t, d1)),
        None => Err(bad("unsupported edit sequence")),
    }
}

/// Reads the edit list of a track.
pub fn edit_list(data: Option<&[u8]>, work: &mut usize) -> (r: IsobmffResult<Option<Edit>>)
    requires
        *old(work) <= MAX_BOXES,
    ensures
        demux::gives(
            r,
            edit_of(
                match data {
                    None => None,
                    Some(d) => Some(d@),
                },
                *old(work) as nat,
            ).0,
        ),
        *final(work) == edit_of(
            match data {
                None => None,
                Some(d) => Some(d@),
            },
            *old(work) as nat,
        ).1,
        *final(work) <= MAX_BOXES,
{
    let d = match data {
        None => return Ok(None),
        Some(d) => d,
    };
    let a = boxes(d, work)?;
    let b = required(&a, &kinds::ELST)?;
    Ok(Some(read_edit(b)?))
}

/// Whether an earlier track has this identity.
pub open spec fn taken(prior: Seq<TrackView>, id: u32) -> bool {
    exists|i: int| 0 <= i < prior.len() && #[trigger] prior[i].id == id
}

/// The identity of a track, and whether it is enabled.
pub open spec fn identity_of(tk: Seq<u8>, prior: Seq<TrackView>) -> Result<(u32, bool), Fault> {
    if tk.len() == 0 || tk[0] > 1 {
        Err(Fault::Bad("unsupported track header"@))
    } else {
        let wide = tk[0] == 1;
        match demux::field32(
            tk,
            if wide {
                20
            } else {
                12
            },
        ) {
            Err(f) => Err(f),
            Ok(id) => if tk.len() < (if wide {
                96int
            } else {
                84
            }) || id == 0 || taken(prior, id) {
                Err(Fault::Bad("invalid/duplicate track identity"@))
            } else {
                Ok((id, tk[3] % 2 == 1))
            },
        }
    }
}

fn identity(tk: &[u8], prior: &Vec<Track>) -> (r: IsobmffResult<(u32, bool)>)
    ensures
        demux::gives(r, identity_of(tk@, tracks_of(prior@))),
{
    assert(tk@.len() == tk.len());
    if tk.len() == 0 || tk[0] > 1 {
        return Err(bad("unsupported track header"));
    }
    let (id, min): (u32, usize) = if tk[0] == 0 {
        (u32be(tk, 12)?, 84)
    } else {
        (u32be(tk, 20)?, 96)
    };
    let ghost seen = tracks_of(prior@);
    let mut double: bool = false;
    let mut i: usize = 0;
    while i < prior.len()
        invariant
            i <= prior@.len(),
            seen == tracks_of(prior@),
            double <==> exists|j: int| 0 <= j < i && #[trigger] seen[j].id == id,
        decreases prior@.len() - i,
    {
        assert(seen[i as int].id == prior@[i as int].id);
        if prior[i].id == id {
            double = true;
        }
        i = i + 1;
    }
    if tk.len() < min || id == 0 || double {
        return Err(bad("invalid/duplicate track identity"));
    }
    Ok((id, tk[3] % 2 == 1))
}

/// The language of three letters of five bits each.
pub open spec fn packed_language(v: u16) -> Option<Seq<char>> {
    let a = v / 1024 % 32;
    let b = v / 32 % 32;
    let c = v % 32;
    if v < 0x8000 && 1 <= a <= 26 && 1 <= b <= 26 && 1 <= c <= 26 {
        Some(text::ascii_text(seq![(a + 0x60) as u8, (b + 0x60) as u8, (c + 0x60) as u8]))
    } else {
        None
    }
}

fn unpack_language(v: u16) -> (r: Option<String>)
    ensures
        text::opt_chars(r) == packed_language(v),
{
    let a: u16 = v / 1024 % 32;
    let b: u16 = v / 32 % 32;
    let c: u16 = v % 32;
    if v < 0x8000 && 1 <= a && a <= 26 && 1 <= b && b <= 26 && 1 <= c && c <= 26 {
        let letters: [u8; 3] = [(a + 0x60) as u8, (b + 0x60) as u8, (c + 0x60) as u8];
        assert(letters@ =~= seq![(a + 0x60) as u8, (b + 0x60) as u8, (c + 0x60) as u8]);
        Some(text::ascii_string(&letters))
    } else {
        None
    }
}

/// A letter, a digit or a hyphen.
pub open spec fn tag_byte(b: u8) -> bool {
    0x30 <= b <= 0x39 || 0x41 <= b <= 0x5A || 0x61 <= b <= 0x7A || b == 0x2D
}

/// The bytes of an extended language, without the zero that may end them.
pub open spec fn tag_bytes(b: Seq<u8>) -> Seq<u8> {
    if b.len() > 0 && b.last() == 0 {
        b.drop_last()
    } else {
        b
    }
}

/// The language of an extended language box.
pub open spec fn extended_language(b: Seq<u8>) -> Result<Seq<char>, Fault> {
    match demux::full_fault(b) {
        Some(f) => Err(f),
        None => {
            let v = tag_bytes(b.skip(4));
            if 1 <= v.len() <= 63 && (forall|i: int|
                0 <= i < v.len() ==> tag_byte(#[trigger] v[i])) {
                Ok(text::ascii_text(v))
            } else {
                Err(Fault::Bad("invalid extended language"@))
            }
        },
    }
}

fn read_language(b: &[u8]) -> (r: IsobmffResult<String>)
    ensures
        match extended_language(b@) {
            Ok(s) => r is Ok && r->Ok_0@ == s,
            Err(f) => demux::fails(r, f),
        },
{
    full(b)?;
    assert(b@.len() == b.len());
    let (_, tail) = b.split_at(4);
    assert(tail@ =~= b@.skip(4));
    assert(tail@.len() == tail.len());
    let n: usize = tail.len();
    let (v, _) = tail.split_at(
        if n > 0 && tail[n - 1] == 0 {
            n - 1
        } else {
            n
        },
    );
    assert(v@ =~= tag_bytes(b@.skip(4)));
    assert(v@.len() == v.len());
    if v.len() == 0 || v.len() > 63 {
        return Err(bad("invalid extended language"));
    }
    let mut i: usize = 0;
    while i < v.len()
        invariant
            v@.len() == v.len(),
            1 <= v@.len() <= 63,
            demux::full_fault(b@) is None,
            v@ == tag_bytes(b@.skip(4)),
            i <= v@.len(),
            forall|j: int| 0 <= j < i ==> tag_byte(#[trigger] v@[j]),
        decreases v@.len() - i,
    {
        let c: u8 = v[i];
        if !((0x30 <= c && c <= 0x39) || (0x41 <= c && c <= 0x5A) || (0x61 <= c && c <= 0x7A) || c
            == 0x2D) {
            assert(!tag_byte(v@[i as int]));
            return Err(bad("invalid extended language"));
        }
        i = i + 1;
    }
    Ok(text::ascii_string(v))
}

/// What is known of a track's media.
#[verifier::ext_equal]
pub struct MediaView {
    pub handler: Seq<u8>,
    pub timescale: u32,
    pub duration: u64,
    pub language: Option<Seq<char>>,
}

/// What the boxes of a track's media say.
pub open spec fn media_of(mdia: Seq<Child>) -> Result<MediaView, Fault> {
    match demux::sole(mdia, kinds::HDLR@) {
        Err(f) => Err(f),
        Ok(h) => match demux::full_fault(h) {
            Some(f) => Err(f),
            None => if h.len() < 24 {
                Err(Fault::Bad("short handler"@))
            } else {
                match demux::sole(mdia, kinds::MDHD@) {
                    Err(f) => Err(f),
                    Ok(m) => match time_of(m, false) {
                        Err(f) => Err(f),
                        Ok((timescale, duration, at)) => {
                            let packed = packed_language(bytes::get16(m, at));
                            match demux::only(mdia, kinds::ELNG@) {
                                Err(f) => Err(f),
                                Ok(None) => Ok(
                                    MediaView {
                                        handler: h.subrange(8, 12),
                                        timescale,
                                        duration,
                                        language: packed,
                                    },
                                ),
                                Ok(Some(e)) => match extended_language(e) {
                                    Err(f) => Err(f),
                                    Ok(l) => Ok(
                                        MediaView {
                                            handler: h.subrange(8, 12),
                                            timescale,
                                            duration,
                                            language: Some(l),
                                        },
                                    ),
                                },
                            }
                        },
                    },
                }
            },
        },
    }
}

struct Media {
    handler: [u8; 4],
    timescale: u32,
    duration: u64,
    language: Option<String>,
}

fn media(mdia: &Vec<BoxView>) -> (r: IsobmffResult<Media>)
    ensures
        match media_of(demux::children(mdia@)) {
            Ok(m) => r is Ok && m == (MediaView {
                handler: r->Ok_0.handler@,
                timescale: r->Ok_0.timescale,
                duration: r->Ok_0.duration,
                language: text::opt_chars(r->Ok_0.language),
            }),
            Err(f) => demux::fails(r, f),
        },
{
    let h = required(mdia, &kinds::HDLR)?;
    full(h)?;
    assert(h@.len() == h.len());
    if h.len() < 24 {
        return Err(bad("short handler"));
    }
    let handler: [u8; 4] = code_at(h, 8);
    let m = required(mdia, &kinds::MDHD)?;
    let (timescale, duration, at) = header_time(m, false)?;
    let packed: u16 = u16be(m, at)?;
    let language = match optional(mdia, &kinds::ELNG)? {
        Some(e) => Some(read_language(e)?),
        None => unpack_language(packed),
    };
    Ok(Media { handler, timescale, duration, language })
}

/// Why a sample entry is refused.
pub open spec fn entry_fault(e: Child) -> Option<Fault> {
    if e.data.len() < 8 || !(forall|i: int| 0 <= i < 6 ==> #[trigger] e.data[i] == 0) {
        Some(Fault::Bad("invalid sample entry header"@))
    } else {
        None
    }
}

/// What a sample entry says.
pub open spec fn description_of(e: Child) -> DescriptionView {
    DescriptionView {
        format: e.kind,
        data_reference_index: bytes::get16(e.data, 6),
        configuration: e.data.skip(8),
    }
}

/// What sample entries say; all of them are refused with the first that is.
pub open spec fn descriptions_of(s: Seq<Child>) -> Result<Seq<DescriptionView>, Fault>
    decreases s.len(),
{
    if s.len() == 0 {
        Ok(Seq::empty())
    } else {
        match descriptions_of(s.drop_last()) {
            Err(f) => Err(f),
            Ok(d) => match entry_fault(s.last()) {
                Some(f) => Err(f),
                None => Ok(d.push(description_of(s.last()))),
            },
        }
    }
}

/// A refusal among the first entries is that of all.
proof fn lemma_descriptions_err(s: Seq<Child>, i: int)
    requires
        0 <= i <= s.len(),
        descriptions_of(s.take(i)) is Err,
    ensures
        descriptions_of(s) == descriptions_of(s.take(i)),
    decreases s.len() - i,
{
    if i < s.len() {
        assert(s.take(i + 1).drop_last() =~= s.take(i));
        lemma_descriptions_err(s, i + 1);
    } else {
        assert(s.take(i) =~= s);
    }
}

fn read_descriptions(entries: &Vec<BoxView>) -> (r: IsobmffResult<Vec<SampleDescription>>)
    ensures
        match descriptions_of(demux::children(entries@)) {
            Ok(d) => r is Ok && described(r->Ok_0@) == d,
            Err(f) => demux::fails(r, f),
        },
{
    let ghost all = demux::children(entries@);
    let mut out: Vec<SampleDescription> = Vec::new();
    let mut i: usize = 0;
    assert(all.take(0) =~= Seq::empty());
    assert(described(out@) =~= Seq::empty());
    while i < entries.len()
        invariant
            i <= entries@.len(),
            all == demux::children(entries@),
            descriptions_of(all.take(i as int)) == Ok::<Seq<DescriptionView>, Fault>(
                described(out@),
            ),
        decreases entries@.len() - i,
    {
        let e: &BoxView = &entries[i];
        let d: &[u8] = e.data;
        assert(d@.len() == d.len());
        proof {
            assert(all.take(i + 1).drop_last() =~= all.take(i as int));
            assert(all.take(i + 1).last() == e@);
            if entry_fault(e@) is Some {
                lemma_descriptions_err(all, i + 1);
            }
        }
        if d.len() < 8 || d[0] != 0 || d[1] != 0 || d[2] != 0 || d[3] != 0 || d[4] != 0 || d[5]
            != 0 {
            proof {
                if d@.len() >= 8 {
                    assert(exists|k: int| 0 <= k < 6 && e@.data[k] != 0) by {
                        if d@[0] != 0 {
                            assert(e@.data[0] != 0);
                        } else if d@[1] != 0 {
                            assert(e@.data[1] != 0);
                        } else if d@[2] != 0 {
                            assert(e@.data[2] != 0);
                        } else if d@[3] != 0 {
                            assert(e@.data[3] != 0);
                        } else if d@[4] != 0 {
                            assert(e@.data[4] != 0);
                        } else {
                            assert(e@.data[5] != 0);
                        }
                    }
                }
            }
            return Err(bad("invalid sample entry header"));
        }
        let (_, tail) = d.split_at(8);
        assert(tail@ =~= d@.skip(8));
        let one = SampleDescription {
            format: e.kind,
            data_reference_index: bytes::read_u16(d, 6),
            configuration: bytes::to_vec(tail),
        };
        let ghost made = described(out@);
        out.push(one);
        assert(entry_fault(e@) is None);
        assert(described(out@) =~= made.push(description_of(e@)));
        i = i + 1;
    }
    assert(all.take(i as int) =~= all);
    Ok(out)
}

/// Boxes of a body that may have been refused already.
pub open spec fn opened(b: Result<Seq<u8>, Fault>, work: nat) -> Result<(Seq<Child>, nat), Fault> {
    match b {
        Err(f) => Err(f),
        Ok(d) => match demux::boxes_of(d, work) {
            (Err(f), _) => Err(f),
            (Ok(s), done) => Ok((s, done)),
        },
    }
}

/// What stands behind the version, the flags and a count.
pub open spec fn counted(b: Seq<u8>, short: Seq<char>) -> Result<Seq<u8>, Fault> {
    match demux::full_fault(b) {
        Some(f) => Err(f),
        None => if b.len() < 8 {
            Err(Fault::Bad(short))
        } else {
            Ok(b.skip(8))
        },
    }
}

/// How the samples of a track are coded and where they are.
#[verifier::ext_equal]
pub struct ListingView {
    pub table: Seq<u8>,
    pub descriptions: Seq<DescriptionView>,
    pub reason: Option<Seq<char>>,
}

/// The only reference is to the file itself, and all samples have it.
pub open spec fn self_contained(
    count: u32,
    refs: Seq<Child>,
    descriptions: Seq<DescriptionView>,
) -> bool {
    &&& count == 1
    &&& refs.len() == 1
    &&& refs[0].kind == kinds::URL@
    &&& refs[0].data == seq![0u8, 0, 0, 1]
    &&& forall|i: int|
        0 <= i < descriptions.len() ==> (#[trigger] descriptions[i]).data_reference_index == 1
}

/// A table that is understood.
pub open spec fn known_table(kind: Seq<u8>) -> bool {
    ||| kind == kinds::STSD@
    ||| kind == kinds::STTS@
    ||| kind == kinds::STSC@
    ||| kind == kinds::STSZ@
    ||| kind == kinds::STCO@
    ||| kind == kinds::CO64@
    ||| kind == kinds::STSS@
    ||| kind == kinds::FREE@
}

/// Why the samples cannot be read; the last reason counts.
pub open spec fn reason_of(
    descriptions: Seq<DescriptionView>,
    contained: bool,
    tables: Seq<Child>,
) -> Option<Seq<char>> {
    if !(forall|i: int| 0 <= i < tables.len() ==> known_table(#[trigger] tables[i].kind)) {
        Some("unsupported sample tables"@)
    } else if !contained {
        Some("external/multiple data references"@)
    } else if descriptions.len() != 1 {
        Some("multiple sample descriptions"@)
    } else {
        None
    }
}

/// The sample entries of a track.
pub open spec fn entries_of(tables: Seq<Child>, work: nat) -> Result<
    (Seq<DescriptionView>, nat),
    Fault,
> {
    match demux::sole(tables, kinds::STSD@) {
        Err(f) => Err(f),
        Ok(stsd) => match opened(counted(stsd, "short sample description"@), work) {
            Err(f) => Err(f),
            Ok((entries, done)) => if bytes::get32(stsd, 4) != entries.len() || entries.len() == 0 {
                Err(Fault::Bad("invalid sample descriptions"@))
            } else {
                match descriptions_of(entries) {
                    Err(f) => Err(f),
                    Ok(d) => Ok((d, done)),
                }
            },
        },
    }
}

/// Whether samples are in the file itself.
pub open spec fn place_of(
    minf: Seq<Child>,
    descriptions: Seq<DescriptionView>,
    work: nat,
) -> Result<(bool, nat), Fault> {
    match opened(demux::sole(minf, kinds::DINF@), work) {
        Err(f) => Err(f),
        Ok((dinf, w)) => match demux::sole(dinf, kinds::DREF@) {
            Err(f) => Err(f),
            Ok(dref) => match opened(counted(dref, "short data reference"@), w) {
                Err(f) => Err(f),
                Ok((refs, done)) => Ok(
                    (self_contained(bytes::get32(dref, 4), refs, descriptions), done),
                ),
            },
        },
    }
}

/// What the boxes of a track's media say of its samples.
pub open spec fn listing_of(mdia: Seq<Child>, work: nat) -> Result<(ListingView, nat), Fault> {
    match opened(demux::sole(mdia, kinds::MINF@), work) {
        Err(f) => Err(f),
        Ok((minf, w1)) => match demux::sole(minf, kinds::STBL@) {
            Err(f) => Err(f),
            Ok(stbl) => match opened(Ok(stbl), w1) {
                Err(f) => Err(f),
                Ok((tables, w2)) => match entries_of(tables, w2) {
                    Err(f) => Err(f),
                    Ok((descriptions, w3)) => match place_of(minf, descriptions, w3) {
                        Err(f) => Err(f),
                        Ok((contained, w4)) => Ok(
                            (
                                ListingView {
                                    table: stbl,
                                    descriptions,
                                    reason: reason_of(descriptions, contained, tables),
                                },
                                w4,
                            ),
                        ),
                    },
                },
            },
        },
    }
}

/// Reads what stands behind the version, the flags and a count.
fn behind_count<'a>(b: &'a [u8], short: &str) -> (r: IsobmffResult<&'a [u8]>)
    ensures
        match counted(b@, short@) {
            Ok(d) => r is Ok && r->Ok_0@ == d,
            Err(f) => demux::fails(r, f),
        },
{
    full(b)?;
    assert(b@.len() == b.len());
    if b.len() < 8 {
        return Err(bad(short));
    }
    let (_, tail) = b.split_at(8);
    assert(tail@ =~= b@.skip(8));
    Ok(tail)
}

fn read_entries(tables: &Vec<BoxView>, work: &mut usize) -> (r: IsobmffResult<
    Vec<SampleDescription>,
>)
    requires
        *old(work) <= MAX_BOXES,
    ensures
        *final(work) <= MAX_BOXES,
        match entries_of(demux::children(tables@), *old(work) as nat) {
            Ok((d, w)) => r is Ok && described(r->Ok_0@) == d && *final(work) == w,
            Err(f) => demux::fails(r, f),
        },
{
    let stsd = required(tables, &kinds::STSD)?;
    let body = behind_count(stsd, "short sample description")?;
    let entries = boxes(body, work)?;
    if u32be(stsd, 4)? as u64 != entries.len() as u64 || entries.len() == 0 {
        return Err(bad("invalid sample descriptions"));
    }
    read_descriptions(&entries)
}

fn all_local(descriptions: &Vec<SampleDescription>) -> (r: bool)
    ensures
        r == forall|i: int|
            0 <= i < descriptions@.len() ==> (#[trigger] described(
                descriptions@,
            )[i]).data_reference_index == 1,
{
    let ghost d = described(descriptions@);
    let mut i: usize = 0;
    while i < descriptions.len()
        invariant
            i <= descriptions@.len(),
            d == described(descriptions@),
            forall|j: int| 0 <= j < i ==> (#[trigger] d[j]).data_reference_index == 1,
        decreases descriptions@.len() - i,
    {
        if descriptions[i].data_reference_index != 1 {
            assert(d[i as int].data_reference_index != 1);
            return false;
        }
        i = i + 1;
    }
    true
}

fn read_place(minf: &Vec<BoxView>, descriptions: &Vec<SampleDescription>, work: &mut usize) -> (r:
    IsobmffResult<bool>)
    requires
        *old(work) <= MAX_BOXES,
    ensures
        *final(work) <= MAX_BOXES,
        match place_of(
            demux::children(minf@),
            described(descriptions@),
            *old(work) as nat,
        ) {
            Ok((c, w)) => r is Ok && r->Ok_0 == c && *final(work) == w,
            Err(f) => demux::fails(r, f),
        },
{
    let dinf = boxes(required(minf, &kinds::DINF)?, work)?;
    let dref = required(&dinf, &kinds::DREF)?;
    let body = behind_count(dref, "short data reference")?;
    let refs = boxes(body, work)?;
    let here: [u8; 4] = [0, 0, 0, 1];
    assert(here@ =~= seq![0u8, 0, 0, 1]);
    let contained: bool = u32be(dref, 4)? == 1 && refs.len() == 1 && bytes::same4(
        &refs[0].kind,
        &kinds::URL,
    ) && bytes::slice_eq(refs[0].data, &here) && all_local(descriptions);
    proof {
        if refs@.len() == 1 {
            assert(demux::children(refs@)[0] == refs@[0]@);
        }
    }
    Ok(contained)
}

fn is_known_table(kind: &[u8; 4]) -> (r: bool)
    ensures
        r == known_table(kind@),
{
    bytes::same4(kind, &kinds::STSD) || bytes::same4(kind, &kinds::STTS) || bytes::same4(
        kind,
        &kinds::STSC,
    ) || bytes::same4(kind, &kinds::STSZ) || bytes::same4(kind, &kinds::STCO) || bytes::same4(
        kind,
        &kinds::CO64,
    ) || bytes::same4(kind, &kinds::STSS) || bytes::same4(kind, &kinds::FREE)
}

fn all_known(tables: &Vec<BoxView>) -> (r: bool)
    ensures
        r == forall|i: int|
            0 <= i < tables@.len() ==> known_table(#[trigger] demux::children(tables@)[i].kind),
{
    let ghost d = demux::children(tables@);
    let mut i: usize = 0;
    while i < tables.len()
        invariant
            i <= tables@.len(),
            d == demux::children(tables@),
            forall|j: int| 0 <= j < i ==> known_table(#[trigger] d[j].kind),
        decreases tables@.len() - i,
    {
        if !is_known_table(&tables[i].kind) {
            assert(!known_table(d[i as int].kind));
            return false;
        }
        i = i + 1;
    }
    true
}

struct Listing {
    table: Vec<u8>,
    descriptions: Vec<SampleDescription>,
    reason: Option<&'static str>,
}

fn listing(mdia: &Vec<BoxView>, work: &mut usize) -> (r: IsobmffResult<Listing>)
    requires
        *old(work) <= MAX_BOXES,
    ensures
        *final(work) <= MAX_BOXES,
        match listing_of(demux::children(mdia@), *old(work) as nat) {
            Ok((l, w)) => r is Ok && *final(work) == w && l == (ListingView {
                table: r->Ok_0.table@,
                descriptions: described(r->Ok_0.descriptions@),
                reason: opt_text(r->Ok_0.reason),
            }),
            Err(f) => demux::fails(r, f),
        },
{
    let minf = boxes(required(mdia, &kinds::MINF)?, work)?;
    let stbl = required(&minf, &kinds::STBL)?;
    let tables = boxes(stbl, work)?;
    let descriptions = read_entries(&tables, work)?;
    let contained = read_place(&minf, &descriptions, work)?;
    let reason: Option<&'static str> = if !all_known(&tables) {
        Some("unsupported sample tables")
    } else if !contained {
        Some("external/multiple data references")
    } else if descriptions.len() != 1 {
        Some("multiple sample descriptions")
    } else {
        None
    };
    Ok(Listing { table: bytes::to_vec(stbl), descriptions, reason })
}

/// What a track box says, given the tracks before it.
pub open spec fn track_of(data: Seq<u8>, prior: Seq<TrackView>, work: nat) -> Result<
    (TrackView, nat),
    Fault,
> {
    match opened(Ok(data), work) {
        Err(f) => Err(f),
        Ok((t, w1)) => match demux::sole(t, kinds::TKHD@) {
            Err(f) => Err(f),
            Ok(tk) => match identity_of(tk, prior) {
                Err(f) => Err(f),
                Ok((id, enabled)) => match opened(demux::sole(t, kinds::MDIA@), w1) {
                    Err(f) => Err(f),
                    Ok((mdia, w2)) => match media_of(mdia) {
                        Err(f) => Err(f),
                        Ok(m) => match listing_of(mdia, w2) {
                            Err(f) => Err(f),
                            Ok((l, w3)) => match demux::only(t, kinds::EDTS@) {
                                Err(f) => Err(f),
                                Ok(e) => {
                                    let (edit, w4) = edit_of(e, w3);
                                    Ok(
                                        (
                                            TrackView {
                                                id,
                                                handler: m.handler,
                                                enabled,
                                                language: m.language,
                                                descriptions: l.descriptions,
                                                unsupported_reason: if edit is Err {
                                                    Some("unsupported edit list"@)
                                                } else {
                                                    l.reason
                                                },
                                                timescale: m.timescale,
                                                duration: m.duration,
                                                table: l.table,
                                                edit: if edit is Ok {
                                                    edit->Ok_0
                                                } else {
                                                    None
                                                },
                                            },
                                            w4,
                                        ),
                                    )
                                },
                            },
                        },
                    },
                },
            },
        },
    }
}

/// Reads a track box.
pub(crate) fn read_track(data: &[u8], prior: &Vec<Track>, work: &mut usize) -> (r: IsobmffResult<
    Track,
>)
    requires
        *old(work) <= MAX_BOXES,
    ensures
        *final(work) <= MAX_BOXES,
        match track_of(data@, tracks_of(prior@), *old(work) as nat) {
            Ok((t, w)) => r is Ok && *final(work) == w && r->Ok_0@ == t,
            Err(f) => demux::fails(r, f),
        },
{
    let t = boxes(data, work)?;
    let tk = required(&t, &kinds::TKHD)?;
    let (id, enabled) = identity(tk, prior)?;
    let mdia = boxes(required(&t, &kinds::MDIA)?, work)?;
    let m = media(&mdia)?;
    let l = listing(&mdia, work)?;
    let edts = optional(&t, &kinds::EDTS)?;
    let (edit, reason): (Option<Edit>, Option<&'static str>) = match edit_list(edts, work) {
        Ok(e) => (e, l.reason),
        Err(_) => (None, Some("unsupported edit list")),
    };
    Ok(
        Track {
            id,
            handler: m.handler,
            enabled,
            language: m.language,
            descriptions: l.descriptions,
            unsupported_reason: reason,
            timescale: m.timescale,
            duration: m.duration,
            table: l.table,
            edit,
        },
    )
}

/// A track that was read ticks.
pub proof fn law_tracks_tick(data: Seq<u8>, prior: Seq<TrackView>, work: nat)
    ensures
        track_of(data, prior, work) matches Ok((t, _)) ==> t.timescale > 0,
{
}

} // verus!
