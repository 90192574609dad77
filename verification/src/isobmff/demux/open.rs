//! Opening a file: the walk over its top-level boxes and its movie.

use crate::bytes;
use crate::isobmff::boxes::kinds;
use crate::isobmff::demux;
use crate::isobmff::demux::sample::{samples, SampleReader};
use crate::isobmff::demux::track;
use crate::isobmff::demux::track::{header_time, read_track, Track, TrackView};
use crate::isobmff::demux::{bad, beyond, boxes, code_at, optional, required};
use crate::isobmff::demux::{BoxView, Budget, Child, Fault, Limits, MAX_BOXES, MAX_MOOV, MAX_TRACKS};
use crate::isobmff::IsobmffResult;
use vstd::prelude::*;

verus! {

/// What an [`Opener`] needs next.
#[derive(Clone, Copy, Debug, PartialEq, Eq)]
pub enum OpenAsk {
    /// These bytes of the file.
    Read { at: u64, len: usize },
    /// Nothing: the file can be opened.
    Done,
}

/// What has been asked for.
#[derive(Clone, Copy, Debug, PartialEq, Eq)]
pub enum Phase {
    /// The first eight bytes of a box.
    Header,
    /// Its length, behind them.
    Wide,
    /// The body of the `ftyp`.
    Brands,
    /// The body of the `moov`.
    Movie,
    /// Nothing: the file has been walked.
    Done,
    /// Nothing: an error came up, and opening is over.
    Failed,
}

/// How far a file has been walked.
#[verifier::ext_equal]
pub struct OpenView {
    pub budget: Budget,
    /// Where the box at hand starts.
    pub pos: u64,
    /// How many boxes have been looked at.
    pub work: nat,
    pub moov: Option<Seq<u8>>,
    pub ftyp: bool,
    /// From where to where media data stands.
    pub mdat: Seq<(u64, u64)>,
    pub phase: Phase,
    /// The code of the box at hand.
    pub kind: Seq<u8>,
    /// Where the box at hand ends, once that is known.
    pub end: u64,
}

/// The next state and what it needs.
pub type Turn = Result<(OpenView, OpenAsk), Fault>;

/// Asks for bytes.
pub open spec fn asked(s: OpenView, phase: Phase, at: int, n: int) -> Turn {
    match s.budget.refusal(at, n) {
        Some(f) => Err(f),
        None => Ok(
            (
                OpenView { budget: s.budget.spent(n), phase, ..s },
                OpenAsk::Read { at: at as u64, len: n as usize },
            ),
        ),
    }
}

/// Goes to the box at the current position.
pub open spec fn begun(s: OpenView) -> Turn {
    if s.pos >= s.budget.len {
        Ok((OpenView { phase: Phase::Done, ..s }, OpenAsk::Done))
    } else if s.work >= MAX_BOXES {
        Err(Fault::Beyond("demux limit exceeded: boxes"@))
    } else {
        asked(OpenView { work: s.work + 1, ..s }, Phase::Header, s.pos as int, 8)
    }
}

/// Goes behind the box at hand.
pub open spec fn passed(s: OpenView) -> Turn {
    begun(OpenView { pos: s.end, ..s })
}

/// Goes on with a box whose extent is known.
pub open spec fn sized(s: OpenView, header: int, size: int) -> Turn {
    let at = s.pos + header;
    let n = size - header;
    if size < header || size > s.budget.len - s.pos {
        Err(Fault::Bad("invalid top-level box size"@))
    } else {
        let t = OpenView { end: (s.pos + size) as u64, ..s };
        if s.kind == kinds::FTYP@ {
            if s.ftyp || n < 8 || n > 4096 || n % 4 != 0 {
                Err(Fault::Bad("invalid ftyp"@))
            } else {
                asked(t, Phase::Brands, at, n)
            }
        } else if s.kind == kinds::MOOV@ {
            if s.moov is Some || n > MAX_MOOV {
                Err(Fault::Bad("duplicate/oversized moov"@))
            } else {
                asked(t, Phase::Movie, at, n)
            }
        } else if s.kind == kinds::MDAT@ {
            if s.mdat.len() == 1024 {
                Err(Fault::Beyond("demux limit exceeded: media extents"@))
            } else {
                passed(OpenView { mdat: s.mdat.push((at as u64, (s.pos + size) as u64)), ..t })
            }
        } else if s.kind == kinds::MOOF@ {
            Err(Fault::Beyond("fragmented MP4"@))
        } else {
            passed(t)
        }
    }
}

/// A brand that is supported.
pub open spec fn known_brand(b: Seq<u8>) -> bool {
    ||| b == kinds::ISOM@
    ||| b == kinds::ISO2@
    ||| b == kinds::ISO3@
    ||| b == kinds::ISO4@
    ||| b == kinds::ISO5@
    ||| b == kinds::ISO6@
    ||| b == kinds::MP41@
    ||| b == kinds::MP42@
    ||| b == kinds::M4V@
    ||| b == kinds::AVC1@
    ||| b == kinds::DASH@
}

/// The code with number `k`.
pub open spec fn brand_at(b: Seq<u8>, k: int) -> Seq<u8> {
    b.subrange(k * 4, k * 4 + 4)
}

/// The major brand or a compatible one is supported. The second number is a version.
pub open spec fn supported(b: Seq<u8>) -> bool {
    exists|k: int| 0 <= k < b.len() / 4 && k != 1 && known_brand(#[trigger] brand_at(b, k))
}

/// Goes on with the bytes that were asked for.
pub open spec fn fed(s: OpenView, data: Seq<u8>) -> Turn {
    match s.phase {
        Phase::Header => {
            let n = bytes::get32(data, 0);
            let t = OpenView { kind: data.subrange(4, 8), ..s };
            if n == 0 {
                sized(t, 8, s.budget.len - s.pos)
            } else if n == 1 {
                asked(t, Phase::Wide, s.pos + 8, 8)
            } else {
                sized(t, 8, n as int)
            }
        },
        Phase::Wide => sized(s, 16, bytes::get64(data, 0) as int),
        Phase::Brands => if !supported(data) {
            Err(Fault::Bad("unsupported ISO BMFF brand"@))
        } else {
            passed(OpenView { ftyp: true, ..s })
        },
        Phase::Movie => passed(OpenView { moov: Some(data), ..s }),
        Phase::Done | Phase::Failed => Ok((s, OpenAsk::Done)),
    }
}

/// Extents follow each other and end within `end`.
pub open spec fn extents_in_order(m: Seq<(u64, u64)>, end: u64) -> bool {
    &&& forall|i: int| 0 <= i < m.len() ==> (#[trigger] m[i]).0 <= m[i].1 <= end
    &&& forall|i: int, j: int| 0 <= i < j < m.len() ==> (#[trigger] m[i]).1 < (#[trigger] m[j]).0
}

/// What holds of every state in which opening goes on or is done.
pub open spec fn sound(s: OpenView) -> bool {
    &&& s.phase != Phase::Failed
    &&& s.budget.wf()
    &&& s.pos <= s.budget.len
    &&& s.work <= MAX_BOXES
    &&& s.mdat.len() <= 1024
    &&& extents_in_order(s.mdat, s.pos)
    &&& s.phase == Phase::Header || s.phase == Phase::Wide ==> s.pos + 8 <= s.budget.len
    &&& s.phase == Phase::Brands || s.phase == Phase::Movie ==> s.pos <= s.end <= s.budget.len
}

/// The call gave the turn, or failed for the reason.
pub open spec fn turned(r: IsobmffResult<OpenAsk>, t: Turn, s: OpenView) -> bool {
    match t {
        Ok((v, a)) => r is Ok && r->Ok_0 == a && s == v,
        Err(f) => demux::fails(r, f),
    }
}

/// Walks the top-level boxes of a file.
pub struct Opener {
    budget: Budget,
    pos: u64,
    work: usize,
    moov: Option<Vec<u8>>,
    ftyp: bool,
    mdat: Vec<(u64, u64)>,
    phase: Phase,
    kind: [u8; 4],
    end: u64,
}

impl View for Opener {
    type V = OpenView;

    closed spec fn view(&self) -> OpenView {
        OpenView {
            budget: self.budget,
            pos: self.pos,
            work: self.work as nat,
            moov: bytes::opt_bytes(self.moov),
            ftyp: self.ftyp,
            mdat: self.mdat@,
            phase: self.phase,
            kind: self.kind@,
            end: self.end,
        }
    }
}

/// The state before anything has been read.
pub open spec fn fresh(len: u64, limits: Limits) -> OpenView {
    OpenView {
        budget: Budget { read: 0, len, limits },
        pos: 0,
        work: 0,
        moov: None,
        ftyp: false,
        mdat: Seq::empty(),
        phase: Phase::Done,
        kind: seq![0u8, 0, 0, 0],
        end: 0,
    }
}

impl Opener {
    /// Starts to walk a file of this length.
    pub fn new(len: u64, limits: Limits) -> (r: IsobmffResult<(Self, OpenAsk)>)
        ensures
            if limits.read_bytes == 0 || limits.sample_bytes == 0 {
                demux::fails(r, Fault::Beyond("demux limit exceeded: zero read/sample budget"@))
            } else {
                match begun(fresh(len, limits)) {
                    Ok((v, a)) => r is Ok && r->Ok_0.0@ == v && r->Ok_0.1 == a && sound(v),
                    Err(f) => demux::fails(r, f),
                }
            },
    {
        if limits.read_bytes == 0 || limits.sample_bytes == 0 {
            return Err(beyond("demux limit exceeded: zero read/sample budget"));
        }
        let mut o = Opener {
            budget: Budget { read: 0, len, limits },
            pos: 0,
            work: 0,
            moov: None,
            ftyp: false,
            mdat: Vec::new(),
            phase: Phase::Done,
            kind: [0, 0, 0, 0],
            end: 0,
        };
        assert(o.kind@ =~= seq![0u8, 0, 0, 0]);
        assert(o@ =~= fresh(len, limits));
        let ask = o.begin()?;
        Ok((o, ask))
    }

    /// Asks for bytes.
    fn ask(&mut self, phase: Phase, at: u64, n: usize) -> (r: IsobmffResult<OpenAsk>)
        requires
            old(self)@.budget.wf(),
        ensures
            turned(r, asked(old(self)@, phase, at as int, n as int), final(self)@),
    {
        self.budget.take(at, n)?;
        self.phase = phase;
        Ok(OpenAsk::Read { at, len: n })
    }

    /// Goes to the box at the current position.
    fn begin(&mut self) -> (r: IsobmffResult<OpenAsk>)
        requires
            old(self)@.budget.wf(),
            old(self)@.pos <= old(self)@.budget.len,
            old(self)@.work <= MAX_BOXES,
            old(self)@.mdat.len() <= 1024,
            extents_in_order(old(self)@.mdat, old(self)@.pos),
        ensures
            turned(r, begun(old(self)@), final(self)@),
            r is Ok ==> sound(final(self)@),
    {
        if self.pos >= self.budget.len {
            self.phase = Phase::Done;
            return Ok(OpenAsk::Done);
        }
        if self.work >= MAX_BOXES {
            return Err(beyond("demux limit exceeded: boxes"));
        }
        self.work = self.work + 1;
        let at: u64 = self.pos;
        assert(self@ =~= (OpenView { work: old(self)@.work + 1, ..old(self)@ }));
        self.ask(Phase::Header, at, 8)
    }

    /// Goes on with a box whose extent is known.
    fn size(&mut self, header: u64, size: u64) -> (r: IsobmffResult<OpenAsk>)
        requires
            sound(old(self)@),
            old(self)@.pos + header <= u64::MAX,
            8 <= header <= 16,
        ensures
            turned(r, sized(old(self)@, header as int, size as int), final(self)@),
            r is Ok ==> sound(final(self)@),
    {
        if size < header || size > self.budget.len - self.pos {
            return Err(bad("invalid top-level box size"));
        }
        let n: u64 = size - header;
        let at: u64 = self.pos + header;
        self.end = self.pos + size;
        let ghost t = self@;
        assert(t =~= (OpenView { end: (old(self)@.pos + size) as u64, ..old(self)@ }));
        if bytes::same4(&self.kind, &kinds::FTYP) {
            if self.ftyp || n < 8 || n > 4096 || n % 4 != 0 {
                return Err(bad("invalid ftyp"));
            }
            return self.ask(Phase::Brands, at, n as usize);
        }
        if bytes::same4(&self.kind, &kinds::MOOV) {
            if self.moov.is_some() || n > MAX_MOOV as u64 {
                return Err(bad("duplicate/oversized moov"));
            }
            return self.ask(Phase::Movie, at, n as usize);
        }
        if bytes::same4(&self.kind, &kinds::MDAT) {
            if self.mdat.len() == 1024 {
                return Err(beyond("demux limit exceeded: media extents"));
            }
            let end: u64 = self.end;
            self.mdat.push((at, end));
            proof {
                let m = self@.mdat;
                assert forall|i: int, j: int| 0 <= i < j < m.len() implies (#[trigger] m[i]).1 < (
                #[trigger] m[j]).0 by {
                    if j == t.mdat.len() {
                        assert(t.mdat[i].1 <= t.pos);
                    }
                }
            }
        } else if bytes::same4(&self.kind, &kinds::MOOF) {
            return Err(beyond("fragmented MP4"));
        }
        self.pos = self.end;
        self.begin()
    }

    /// Takes the bytes that were asked for. An error ends the opening.
    pub fn feed(&mut self, data: &[u8]) -> (r: IsobmffResult<OpenAsk>)
        requires
            sound(old(self)@),
            old(self)@.phase == Phase::Header || old(self)@.phase == Phase::Wide ==> data@.len()
                == 8,
        ensures
            turned(r, fed(old(self)@, data@), final(self)@),
            r is Ok ==> sound(final(self)@),
            r is Err ==> final(self)@.phase == Phase::Failed,
    {
        let r = self.take(data);
        if r.is_err() {
            self.phase = Phase::Failed;
        }
        r
    }

    fn take(&mut self, data: &[u8]) -> (r: IsobmffResult<OpenAsk>)
        requires
            sound(old(self)@),
            old(self)@.phase == Phase::Header || old(self)@.phase == Phase::Wide ==> data@.len()
                == 8,
        ensures
            turned(r, fed(old(self)@, data@), final(self)@),
            r is Ok ==> sound(final(self)@),
    {
        match self.phase {
            Phase::Header => {
                let n: u32 = bytes::read_u32(data, 0);
                self.kind = code_at(data, 4);
                assert(self@ =~= (OpenView { kind: data@.subrange(4, 8), ..old(self)@ }));
                if n == 0 {
                    let rest: u64 = self.budget.len - self.pos;
                    self.size(8, rest)
                } else if n == 1 {
                    let at: u64 = self.pos + 8;
                    self.ask(Phase::Wide, at, 8)
                } else {
                    self.size(8, n as u64)
                }
            },
            Phase::Wide => {
                if self.pos > u64::MAX - 16 {
                    return Err(bad("invalid top-level box size"));
                }
                self.size(16, bytes::read_u64(data, 0))
            },
            Phase::Brands => {
                if !is_supported(data) {
                    return Err(bad("unsupported ISO BMFF brand"));
                }
                self.ftyp = true;
                self.pos = self.end;
                self.begin()
            },
            Phase::Movie => {
                self.moov = Some(bytes::to_vec(data));
                self.pos = self.end;
                assert(self@ =~= (OpenView {
                    moov: Some(data@),
                    pos: old(self)@.end,
                    ..old(self)@
                }));
                self.begin()
            },
            Phase::Done | Phase::Failed => Ok(OpenAsk::Done),
        }
    }
}

fn is_known_brand(b: &[u8; 4]) -> (r: bool)
    ensures
        r == known_brand(b@),
{
    bytes::same4(b, &kinds::ISOM) || bytes::same4(b, &kinds::ISO2) || bytes::same4(b, &kinds::ISO3)
        || bytes::same4(b, &kinds::ISO4) || bytes::same4(b, &kinds::ISO5) || bytes::same4(
        b,
        &kinds::ISO6,
    ) || bytes::same4(b, &kinds::MP41) || bytes::same4(b, &kinds::MP42) || bytes::same4(
        b,
        &kinds::M4V,
    ) || bytes::same4(b, &kinds::AVC1) || bytes::same4(b, &kinds::DASH)
}

fn is_supported(b: &[u8]) -> (r: bool)
    ensures
        r == supported(b@),
{
    assert(b@.len() == b.len());
    let n: usize = b.len() / 4;
    let mut k: usize = 0;
    while k < n
        invariant
            b@.len() == b.len(),
            n == b@.len() / 4,
            k <= n,
            forall|i: int| 0 <= i < k && i != 1 ==> !known_brand(#[trigger] brand_at(b@, i)),
        decreases n - k,
    {
        if k != 1 && is_known_brand(&code_at(b, k * 4)) {
            assert(known_brand(brand_at(b@, k as int)));
            return true;
        }
        k = k + 1;
    }
    false
}

/// The tracks of a movie from the box with number `i` on, behind earlier ones.
pub open spec fn movie_tracks(root: Seq<Child>, i: int, prior: Seq<TrackView>, work: nat) -> Result<
    (Seq<TrackView>, nat),
    Fault,
>
    decreases root.len() - i,
{
    if i >= root.len() {
        Ok((prior, work))
    } else if root[i].kind != kinds::TRAK@ {
        movie_tracks(root, i + 1, prior, work)
    } else if prior.len() >= MAX_TRACKS {
        Err(Fault::Beyond("demux limit exceeded: tracks"@))
    } else {
        match track::track_of(root[i].data, prior, work) {
            Err(f) => Err(f),
            Ok((t, w)) => movie_tracks(root, i + 1, prior.push(t), w),
        }
    }
}

/// An opened file.
#[verifier::ext_equal]
pub struct DemuxView {
    pub budget: Budget,
    pub tracks: Seq<TrackView>,
    pub mdat: Seq<(u64, u64)>,
    pub movie_scale: u32,
    pub work: nat,
}

/// The file that a finished walk has found.
pub open spec fn finished(s: OpenView) -> Result<DemuxView, Fault> {
    if !s.ftyp {
        Err(Fault::Bad("missing MP4 file type"@))
    } else {
        match s.moov {
            None => Err(Fault::Bad("missing moov"@)),
            Some(moov) => match track::opened(Ok(moov), s.work) {
                Err(f) => Err(f),
                Ok((root, w1)) => match demux::only(root, kinds::MVEX@) {
                    Err(f) => Err(f),
                    Ok(Some(_)) => Err(Fault::Beyond("fragmented MP4"@)),
                    Ok(None) => match demux::sole(root, kinds::MVHD@) {
                        Err(f) => Err(f),
                        Ok(mvhd) => match track::time_of(mvhd, true) {
                            Err(f) => Err(f),
                            Ok((scale, _, _)) => match movie_tracks(root, 0, Seq::empty(), w1) {
                                Err(f) => Err(f),
                                Ok((tracks, w2)) => Ok(
                                    DemuxView {
                                        budget: s.budget,
                                        tracks,
                                        mdat: s.mdat,
                                        movie_scale: scale,
                                        work: w2,
                                    },
                                ),
                            },
                        },
                    },
                },
            },
        }
    }
}

/// What is known of a file: its tracks and where its media data is.
pub struct Demuxer {
    budget: Budget,
    tracks: Vec<Track>,
    mdat: Vec<(u64, u64)>,
    movie_scale: u32,
    work: usize,
}

impl View for Demuxer {
    type V = DemuxView;

    closed spec fn view(&self) -> DemuxView {
        DemuxView {
            budget: self.budget,
            tracks: track::tracks_of(self.tracks@),
            mdat: self.mdat@,
            movie_scale: self.movie_scale,
            work: self.work as nat,
        }
    }
}

fn read_tracks(root: &Vec<BoxView>, work: &mut usize) -> (r: IsobmffResult<Vec<Track>>)
    requires
        *old(work) <= MAX_BOXES,
    ensures
        *final(work) <= MAX_BOXES,
        match movie_tracks(demux::children(root@), 0, Seq::empty(), *old(work) as nat) {
            Ok((t, w)) => r is Ok && track::tracks_of(r->Ok_0@) == t && *final(work) == w,
            Err(f) => demux::fails(r, f),
        },
        r matches Ok(v) ==> forall|k: int| 0 <= k < v@.len() ==> (#[trigger] v@[k]).timescale > 0,
{
    let ghost all = demux::children(root@);
    let mut out: Vec<Track> = Vec::new();
    let mut i: usize = 0;
    assert(track::tracks_of(out@) =~= Seq::empty());
    while i < root.len()
        invariant
            i <= root@.len(),
            all == demux::children(root@),
            *work <= MAX_BOXES,
            movie_tracks(all, 0, Seq::empty(), *old(work) as nat) == movie_tracks(
                all,
                i as int,
                track::tracks_of(out@),
                *work as nat,
            ),
            forall|k: int| 0 <= k < out@.len() ==> (#[trigger] out@[k]).timescale > 0,
        decreases root@.len() - i,
    {
        let a: &BoxView = &root[i];
        assert(all[i as int] == a@);
        if bytes::same4(&a.kind, &kinds::TRAK) {
            if out.len() >= MAX_TRACKS {
                return Err(beyond("demux limit exceeded: tracks"));
            }
            let ghost prior = track::tracks_of(out@);
            proof {
                track::law_tracks_tick(a.data@, prior, *work as nat);
            }
            let t = read_track(a.data, &out, work)?;
            let ghost v = t@;
            out.push(t);
            assert(track::tracks_of(out@) =~= prior.push(v));
        }
        i = i + 1;
    }
    Ok(out)
}

impl Opener {
    /// Opens the file once nothing more is needed.
    pub fn finish(self) -> (r: IsobmffResult<Demuxer>)
        requires
            sound(self@),
            self@.phase == Phase::Done,
        ensures
            match finished(self@) {
                Ok(d) => r is Ok && r->Ok_0@ == d,
                Err(f) => demux::fails(r, f),
            },
    {
        if !self.ftyp {
            return Err(bad("missing MP4 file type"));
        }
        let mut work: usize = self.work;
        let (scale, tracks) = match &self.moov {
            None => return Err(bad("missing moov")),
            Some(moov) => {
                let root = boxes(moov.as_slice(), &mut work)?;
                if optional(&root, &kinds::MVEX)?.is_some() {
                    return Err(beyond("fragmented MP4"));
                }
                let (scale, _, _) = header_time(required(&root, &kinds::MVHD)?, true)?;
                let tracks = read_tracks(&root, &mut work)?;
                (scale, tracks)
            },
        };
        Ok(Demuxer { budget: self.budget, tracks, mdat: self.mdat, movie_scale: scale, work })
    }
}

/// The first track with an identity.
pub open spec fn track_with(tracks: Seq<TrackView>, id: u32, i: int) -> Option<int>
    decreases tracks.len() - i,
{
    if i >= tracks.len() {
        None
    } else if tracks[i].id == id {
        Some(i)
    } else {
        track_with(tracks, id, i + 1)
    }
}

impl Demuxer {
    #[verifier::type_invariant]
    spec fn wf(self) -> bool {
        &&& self.budget.wf()
        &&& self.movie_scale > 0
        &&& self.work <= MAX_BOXES
        &&& forall|k: int| 0 <= k < self.tracks@.len() ==> (#[trigger] self.tracks@[k]).timescale > 0
    }

    /// The tracks of the movie.
    pub fn tracks(&self) -> (r: &[Track])
        ensures
            track::tracks_of(r@) == self@.tracks,
    {
        self.tracks.as_slice()
    }

    /// How many bytes have been read of the file.
    pub fn bytes_read(&self) -> (r: usize)
        ensures
            r == self@.budget.read,
    {
        self.budget.read
    }

    /// Selects the samples of a track, whose tables are looked at in full. Those of the
    /// other tracks are not.
    pub fn into_samples(self, id: u32) -> (r: IsobmffResult<SampleReader>)
        ensures
            match track_with(self@.tracks, id, 0) {
                None => demux::fails(r, Fault::Bad("track not found"@)),
                Some(i) => {
                    let t = self@.tracks[i];
                    match t.unsupported_reason {
                        Some(m) => demux::fails(r, Fault::Beyond(m)),
                        None => match demux::sample::samples_of(
                            t.table,
                            t.duration,
                            self@.mdat,
                            self@.work,
                            self@.budget.limits.sample_bytes as nat,
                        ) {
                            Err(f) => demux::fails(r, f),
                            Ok(s) => r is Ok && r->Ok_0@ == (demux::sample::ReaderView {
                                budget: self@.budget,
                                track: t,
                                locations: s,
                                next: 0,
                                movie_scale: self@.movie_scale,
                                failed: false,
                                asked: false,
                            }),
                        },
                    }
                },
            },
    {
        proof {
            use_type_invariant(&self);
        }
        let Demuxer { budget, tracks, mdat, movie_scale, work } = self;
        let mut tracks: Vec<Track> = tracks;
        let mut i: usize = 0;
        let ghost all = track::tracks_of(tracks@);
        while i < tracks.len() && tracks[i].id != id
            invariant
                i <= tracks@.len(),
                all == track::tracks_of(tracks@),
                track_with(all, id, 0) == track_with(all, id, i as int),
            decreases tracks@.len() - i,
        {
            assert(all[i as int].id == tracks@[i as int].id);
            i = i + 1;
        }
        if i == tracks.len() {
            return Err(bad("track not found"));
        }
        assert(all[i as int] == tracks@[i as int]@);
        let t: Track = tracks.remove(i);
        if let Some(reason) = t.unsupported_reason {
            return Err(beyond(reason));
        }
        let mut work: usize = work;
        let locations = samples(&t, &mdat, &mut work, budget.limits.sample_bytes)?;
        Ok(SampleReader::new(budget, t, locations, movie_scale))
    }
}

/// No step reads more than the limits allow, looks at more boxes than it may, or lets
/// extents of media data overlap or leave the file.
pub proof fn law_steps_are_sound(s: OpenView, data: Seq<u8>)
    requires
        sound(s),
    ensures
        fed(s, data) matches Ok((t, _)) ==> sound(t),
{
    match s.phase {
        Phase::Header => {
            let n = bytes::get32(data, 0);
            let t = OpenView { kind: data.subrange(4, 8), ..s };
            if n == 0 {
                lemma_sized(t, 8, s.budget.len - s.pos);
            } else if n != 1 {
                lemma_sized(t, 8, n as int);
            }
        },
        Phase::Wide => {
            lemma_sized(s, 16, bytes::get64(data, 0) as int);
        },
        _ => {},
    }
}

proof fn lemma_sized(s: OpenView, header: int, size: int)
    requires
        sound(s),
        8 <= header <= 16,
    ensures
        sized(s, header, size) matches Ok((t, _)) ==> sound(t),
{
    if header <= size <= s.budget.len - s.pos {
        let m = s.mdat.push(((s.pos + header) as u64, (s.pos + size) as u64));
        assert forall|i: int, j: int| 0 <= i < j < m.len() implies (#[trigger] m[i]).1 < (
        #[trigger] m[j]).0 by {
            if j == s.mdat.len() {
                assert(s.mdat[i].1 <= s.pos);
            }
        }
    }
}

/// The tracks of a movie have different identities.
pub proof fn law_identities_differ(root: Seq<Child>, i: int, prior: Seq<TrackView>, work: nat)
    requires
        movie_tracks(root, i, prior, work) is Ok,
        forall|a: int, b: int|
            0 <= a < b < prior.len() ==> (#[trigger] prior[a]).id != (#[trigger] prior[b]).id,
    ensures
        ({
            let t = movie_tracks(root, i, prior, work)->Ok_0.0;
            &&& forall|a: int, b: int|
                0 <= a < b < t.len() ==> (#[trigger] t[a]).id != (#[trigger] t[b]).id
            &&& t.len() <= MAX_TRACKS || t.len() <= prior.len()
        }),
    decreases root.len() - i,
{
    if i < root.len() {
        if root[i].kind != kinds::TRAK@ {
            law_identities_differ(root, i + 1, prior, work);
        } else {
            let (t, w) = track::track_of(root[i].data, prior, work)->Ok_0;
            let next = prior.push(t);
            assert forall|a: int, b: int| 0 <= a < b < next.len() implies (#[trigger] next[a]).id
                != (#[trigger] next[b]).id by {
                if b == prior.len() {
                    assert(!track::taken(prior, t.id));
                    assert(prior[a].id != t.id);
                }
            }
            law_identities_differ(root, i + 1, next, w);
        }
    }
}

/// How many steps with the box at hand may follow.
pub open spec fn rank(p: Phase) -> nat {
    match p {
        Phase::Header => 3,
        Phase::Wide => 2,
        Phase::Brands => 1,
        Phase::Movie => 1,
        Phase::Done => 0,
        Phase::Failed => 0,
    }
}

/// What a step asks for is in the file, and each step leads on.
proof fn lemma_turn(s: OpenView, data: Seq<u8>)
    requires
        s.phase != Phase::Done,
        s.phase != Phase::Failed,
        s.work <= MAX_BOXES,
    ensures
        fed(s, data) matches Ok((t, a)) ==> {
            &&& t.budget.len == s.budget.len
            &&& t.budget.limits == s.budget.limits
            &&& t.work <= MAX_BOXES
            &&& a is Done <==> t.phase == Phase::Done
            &&& a matches OpenAsk::Read { at, len } ==> at + len <= t.budget.len && (t.phase
                == Phase::Header || t.phase == Phase::Wide ==> len == 8)
            &&& t.work > s.work || (t.work == s.work && rank(t.phase) < rank(s.phase))
        },
{
}

/// The walk over a file in memory, from a state and what it needs on.
pub open spec fn walked(s: OpenView, ask: OpenAsk, file: Seq<u8>) -> Result<OpenView, Fault>
    decreases MAX_BOXES - s.work, rank(s.phase),
    when s.work <= MAX_BOXES
    via walk_ends
{
    match ask {
        OpenAsk::Done => Ok(s),
        OpenAsk::Read { at, len } => if s.phase == Phase::Done || s.phase == Phase::Failed {
            Ok(s)
        } else {
            match fed(s, file.subrange(at as int, at + len)) {
                Err(f) => Err(f),
                Ok((t, a)) => if t.work > MAX_BOXES {
                    Ok(t)
                } else {
                    walked(t, a, file)
                },
            }
        },
    }
}

#[via_fn]
proof fn walk_ends(s: OpenView, ask: OpenAsk, file: Seq<u8>) {
    if let OpenAsk::Read { at, len } = ask {
        if s.phase != Phase::Done && s.phase != Phase::Failed {
            lemma_turn(s, file.subrange(at as int, at + len));
        }
    }
}

/// A file in memory, opened.
pub open spec fn opened_file(file: Seq<u8>, limits: Limits) -> Result<DemuxView, Fault> {
    if limits.read_bytes == 0 || limits.sample_bytes == 0 {
        Err(Fault::Beyond("demux limit exceeded: zero read/sample budget"@))
    } else {
        match begun(fresh(file.len() as u64, limits)) {
            Err(f) => Err(f),
            Ok((s, a)) => match walked(s, a, file) {
                Err(f) => Err(f),
                Ok(t) => finished(t),
            },
        }
    }
}

/// The call gave this file, or failed for the reason.
pub open spec fn opens(r: IsobmffResult<Demuxer>, s: Result<DemuxView, Fault>) -> bool {
    match s {
        Ok(d) => r is Ok && r->Ok_0@ == d,
        Err(f) => demux::fails(r, f),
    }
}

impl Demuxer {
    /// Opens a file in memory, with the default limits.
    pub fn open(file: &[u8]) -> (r: IsobmffResult<Self>)
        ensures
            opens(
                r,
                opened_file(
                    file@,
                    Limits { read_bytes: 16_777_216, sample_bytes: 16_777_216 },
                ),
            ),
    {
        Demuxer::with_limits(file, Limits::default())
    }

    /// Opens a file in memory.
    pub fn with_limits(file: &[u8], limits: Limits) -> (r: IsobmffResult<Self>)
        ensures
            opens(r, opened_file(file@, limits)),
    {
        assert(file@.len() == file.len());
        let (opener, first) = Opener::new(file.len() as u64, limits)?;
        let mut opener: Opener = opener;
        let mut ask: OpenAsk = first;
        let ghost s0 = opener@;
        let ghost a0 = ask;
        loop
            invariant
                file@.len() == file.len(),
                sound(opener@),
                opener@.budget.len == file@.len(),
                ask is Done <==> opener@.phase == Phase::Done,
                ask matches OpenAsk::Read { at, len } ==> at + len <= file@.len() && (opener@.phase
                    == Phase::Header || opener@.phase == Phase::Wide ==> len == 8),
                walked(s0, a0, file@) == walked(opener@, ask, file@),
                begun(fresh(file@.len() as u64, limits)) == Ok::<(OpenView, OpenAsk), Fault>(
                    (s0, a0),
                ),
                limits.read_bytes != 0,
                limits.sample_bytes != 0,
            ensures
                sound(opener@),
                opener@.phase == Phase::Done,
                walked(s0, a0, file@) == Ok::<OpenView, Fault>(opener@),
            decreases MAX_BOXES - opener@.work, rank(opener@.phase),
        {
            let (at, len): (u64, usize) = match ask {
                OpenAsk::Done => break,
                OpenAsk::Read { at, len } => (at, len),
            };
            let (_, tail) = file.split_at(at as usize);
            let (data, _) = tail.split_at(len);
            proof {
                assert(data@ =~= file@.subrange(at as int, at + len));
                lemma_turn(opener@, data@);
            }
            ask = opener.feed(data)?;
        }
        opener.finish()
    }
}

} // verus!
