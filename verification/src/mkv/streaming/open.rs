//! Finding the metadata of a source.
//!
//! The Segment's children are walked by their headers, those behind Clusters
//! included. The Segment alone may have an unknown size. SeekHead, attachments,
//! chapters and tags are passed over; Cues are read last, when the length of a tick
//! is known.

use crate::mkv::demux;
use crate::mkv::demux::{
    CuePoint, DemuxView, Demuxer, Info, InfoView, TrackInfo, TrackView,
};
use crate::mkv::ebml::element;
use crate::mkv::ebml::schema::ids;
use crate::mkv::profile;
use crate::mkv::profile::DocType;
use crate::mkv::streaming::bounded;
use crate::mkv::streaming::bounded::{
    checked_end, validate_metadata, IoHeader, StreamingLimits, WalkBudget,
};
use crate::mkv::Error;
use std::collections::BTreeSet;
use vstd::prelude::*;

verus! {

/// What to do next to open a source.
#[derive(Debug, Clone, Copy, PartialEq, Eq, Structural)]
pub enum OpenAsk {
    /// Read the element header at this offset.
    Header(u64),
    /// Read these bytes.
    Metadata { at: u64, len: usize },
    /// Nothing: the metadata is complete.
    Done,
}

/// What an [`Opener`] waits for.
#[derive(Debug, Clone, Copy, PartialEq, Eq, Structural)]
pub enum Phase {
    /// The header of the EBML element.
    Ebml,
    /// The children of the EBML element, which ends here.
    EbmlBody(u64),
    /// The header of the Segment, or of filler before it.
    Prolog,
    /// The header of a child of the Segment.
    Child,
    /// The children of Info, which ends here.
    InfoBody(u64),
    /// The children of Tracks, which ends here.
    TracksBody(u64),
    /// The children of Cues.
    CuesBody,
    /// Nothing: the metadata is complete.
    Finished,
    /// Nothing: an error came up, and opening is over.
    Failed,
}

/// The value of an [`Opener`].
pub struct OpenView {
    pub limits: StreamingLimits,
    pub file_len: u64,
    /// How many more elements may be read.
    pub left: int,
    /// How many more bytes of metadata may be read.
    pub metadata_left: int,
    pub phase: Phase,
    pub pos: u64,
    pub doc_type: DocType,
    pub version: u32,
    pub segment_start: u64,
    pub segment_end: u64,
    pub info: InfoView,
    pub tracks: Seq<TrackView>,
    pub first_cluster: Option<u64>,
    pub clusters: Set<u64>,
    pub info_seen: bool,
    pub tracks_seen: bool,
    pub cues_at: Option<IoHeader>,
    pub cues: Seq<CuePoint>,
}

/// An opener that has read nothing of a source of `file_len` bytes.
pub open spec fn unread(file_len: u64, limits: StreamingLimits) -> OpenView {
    OpenView {
        limits,
        file_len,
        left: limits.elements as int,
        metadata_left: limits.total_metadata_bytes as int,
        phase: Phase::Ebml,
        pos: 0,
        doc_type: DocType::Matroska,
        version: 1,
        segment_start: 0,
        segment_end: 0,
        info: demux::default_info(),
        tracks: Seq::empty(),
        first_cluster: None,
        clusters: Set::empty(),
        info_seen: false,
        tracks_seen: false,
        cues_at: None,
        cues: Seq::empty(),
    }
}

/// Charges the payload of `h` to the metadata budgets and asks for it.
pub open spec fn reserved(v: OpenView, h: IoHeader, parent_end: u64, phase: Phase) -> Result<
    (OpenView, OpenAsk),
    Error,
> {
    match bounded::end_of(h, parent_end) {
        Err(e) => Err(e),
        Ok(end) => {
            let len = end - h.payload_start;
            if len > usize::MAX {
                Err(Error::SizeOverflow)
            } else if len > v.limits.metadata_element_bytes || len > v.metadata_left {
                Err(Error::Unsupported { what: "strict metadata byte budget exceeded" })
            } else {
                Ok(
                    (
                        OpenView { metadata_left: v.metadata_left - len, phase, ..v },
                        OpenAsk::Metadata { at: h.payload_start, len: len as usize },
                    ),
                )
            }
        },
    }
}

/// What to do at offset `pos` among the Segment's children: behind the last, the
/// tracks must be known, and Cues are read if they are wanted.
pub open spec fn onward(v: OpenView) -> Result<(OpenView, OpenAsk), Error> {
    if v.pos < v.segment_end {
        Ok((OpenView { phase: Phase::Child, ..v }, OpenAsk::Header(v.pos)))
    } else if !v.tracks_seen || v.info.timestamp_scale_ns == 0 {
        Err(Error::Malformed("missing Tracks or zero TimestampScale"))
    } else if !v.limits.skip_cues && v.cues_at is Some {
        reserved(v, v.cues_at->Some_0, v.segment_end, Phase::CuesBody)
    } else {
        Ok((OpenView { phase: Phase::Finished, ..v }, OpenAsk::Done))
    }
}

/// What the header of a child of the Segment leads to.
pub open spec fn child_met(v: OpenView, h: IoHeader) -> Result<(OpenView, OpenAsk), Error> {
    match bounded::end_of(h, v.segment_end) {
        Err(e) => Err(e),
        Ok(end) => if h.id == ids::CLUSTER {
            onward(
                OpenView {
                    clusters: v.clusters.insert(v.pos),
                    first_cluster: if v.first_cluster is None {
                        Some(v.pos)
                    } else {
                        v.first_cluster
                    },
                    pos: end,
                    ..v
                },
            )
        } else if h.id == ids::INFO {
            if v.info_seen {
                Err(Error::Malformed("duplicate Info/Tracks"))
            } else {
                reserved(
                    OpenView { info_seen: true, ..v },
                    h,
                    v.segment_end,
                    Phase::InfoBody(end),
                )
            }
        } else if h.id == ids::TRACKS {
            if v.tracks_seen {
                Err(Error::Malformed("duplicate Info/Tracks"))
            } else {
                reserved(
                    OpenView { tracks_seen: true, ..v },
                    h,
                    v.segment_end,
                    Phase::TracksBody(end),
                )
            }
        } else if h.id == ids::CUES {
            if v.cues_at is Some {
                Err(Error::Malformed("duplicate Cues"))
            } else {
                onward(OpenView { cues_at: Some(h), pos: end, ..v })
            }
        } else if h.id == ids::SEEK_HEAD || h.id == ids::ATTACHMENTS || h.id == ids::CHAPTERS || h.id
            == ids::TAGS || bounded::is_filler(h.id) {
            onward(OpenView { pos: end, ..v })
        } else {
            Err(Error::UnsupportedElement { parent: ids::SEGMENT, element: h.id })
        },
    }
}

/// What the header of the Segment, or of filler before it, leads to. The Segment
/// must be the last element.
pub open spec fn prolog_met(v: OpenView, h: IoHeader) -> Result<(OpenView, OpenAsk), Error> {
    if h.id == ids::SEGMENT {
        let end = match h.payload_end {
            Some(_) => bounded::end_of(h, v.file_len),
            None => Ok(v.file_len),
        };
        match end {
            Err(e) => Err(e),
            Ok(end) => if end != v.file_len {
                Err(Error::Unsupported { what: "trailing data/multiple Segments" })
            } else {
                onward(
                    OpenView {
                        segment_start: h.payload_start,
                        segment_end: end,
                        pos: h.payload_start,
                        ..v
                    },
                )
            },
        }
    } else if bounded::is_filler(h.id) {
        match bounded::end_of(h, v.file_len) {
            Err(e) => Err(e),
            Ok(end) => Ok((OpenView { pos: end, ..v }, OpenAsk::Header(end))),
        }
    } else {
        Err(Error::NotMatroska)
    }
}

/// What an element header leads to.
pub open spec fn header_met(v: OpenView, h: IoHeader) -> Result<(OpenView, OpenAsk), Error> {
    let p = OpenView { left: v.left - 1, ..v };
    if v.left < 1 {
        Err(Error::Unsupported { what: "strict element budget exceeded" })
    } else {
        match v.phase {
            Phase::Ebml => if h.id != ids::EBML {
                Err(Error::NotMatroska)
            } else {
                match bounded::end_of(h, v.file_len) {
                    Err(e) => Err(e),
                    Ok(end) => reserved(p, h, v.file_len, Phase::EbmlBody(end)),
                }
            },
            Phase::Prolog => prolog_met(p, h),
            _ => child_met(p, h),
        }
    }
}

/// What is wrong with an index: every entry must point at a Cluster that was found
/// and at a track that was declared.
pub open spec fn index_fault(v: OpenView, cues: Seq<CuePoint>, n: int) -> Option<Error>
    decreases n,
{
    if n <= 0 {
        None
    } else {
        match index_fault(v, cues, n - 1) {
            Some(e) => Some(e),
            None => {
                let c = cues[n - 1];
                let at = v.segment_start + c.cluster_position;
                if at > u64::MAX {
                    Some(Error::SizeOverflow)
                } else if !v.clusters.contains(at as u64) || !declared(v.tracks, c.track_number) {
                    Some(
                        Error::Malformed("Cue target is not a declared track/Cluster boundary"),
                    )
                } else {
                    None
                }
            },
        }
    }
}

/// Whether a track has this number.
pub open spec fn declared(tracks: Seq<TrackView>, number: u64) -> bool {
    exists|i: int| 0 <= i < tracks.len() && (#[trigger] tracks[i]).number == number
}

/// What the children of an element lead to.
pub open spec fn body_met(v: OpenView, b: Seq<u8>) -> Result<(OpenView, OpenAsk), Error> {
    let id = match v.phase {
        Phase::EbmlBody(_) => ids::EBML,
        Phase::InfoBody(_) => ids::INFO,
        Phase::TracksBody(_) => ids::TRACKS,
        _ => ids::CUES,
    };
    match bounded::validated(b, id, v.left) {
        Err(e) => Err(e),
        Ok(left) => {
            let p = OpenView { left, ..v };
            match v.phase {
                Phase::EbmlBody(end) => match demux::ebml_header_of(b) {
                    Err(e) => Err(e),
                    Ok((doc, version)) => match profile::doc_type_named(doc) {
                        None => Err(Error::NotMatroska),
                        Some(doc_type) => Ok(
                            (
                                OpenView {
                                    doc_type,
                                    version,
                                    pos: end,
                                    phase: Phase::Prolog,
                                    ..p
                                },
                                OpenAsk::Header(end),
                            ),
                        ),
                    },
                },
                Phase::InfoBody(end) => match element::walk(b, 0, v.info, demux::info_step()) {
                    Err(e) => Err(e),
                    Ok(info) => onward(OpenView { info, pos: end, ..p }),
                },
                Phase::TracksBody(end) => match element::walk(
                    b,
                    0,
                    v.tracks,
                    demux::tracks_step(),
                ) {
                    Err(e) => Err(e),
                    Ok(tracks) => onward(OpenView { tracks, pos: end, ..p }),
                },
                _ => match element::walk(
                    b,
                    0,
                    v.cues,
                    demux::cues_step(v.info.timestamp_scale_ns),
                ) {
                    Err(e) => Err(e),
                    Ok(cues) => match index_fault(v, cues, cues.len() as int) {
                        Some(e) => Err(e),
                        None => Ok(
                            (OpenView { cues, phase: Phase::Finished, ..p }, OpenAsk::Done),
                        ),
                    },
                },
            }
        },
    }
}

/// The metadata that was found.
pub open spec fn found(v: OpenView) -> DemuxView {
    DemuxView {
        doc_type: v.doc_type,
        doc_type_version: v.version,
        info: v.info,
        tracks: v.tracks,
        clusters_offset: match v.first_cluster {
            Some(c) => c as int,
            None => v.segment_end as int,
        },
        segment_end: v.segment_end as int,
        segment_payload_start: v.segment_start as int,
        cues: v.cues,
    }
}

/// An index without fault points at Clusters and tracks.
proof fn lemma_index(v: OpenView, cues: Seq<CuePoint>, n: int)
    requires
        index_fault(v, cues, n) is None,
        0 <= n <= cues.len(),
    ensures
        forall|i: int|
            0 <= i < n ==> v.segment_start + (#[trigger] cues[i]).cluster_position <= u64::MAX
                && v.clusters.contains((v.segment_start + cues[i].cluster_position) as u64)
                && declared(v.tracks, cues[i].track_number),
    decreases n,
{
    if n > 0 {
        lemma_index(v, cues, n - 1);
    }
}

/// Every entry of an index that was accepted points at a Cluster that was found and
/// at a declared track.
pub proof fn law_index_is_sound(v: OpenView, b: Seq<u8>)
    requires
        v.phase == Phase::CuesBody,
        v.cues.len() == 0,
    ensures
        body_met(v, b) matches Ok((n, _)) ==> forall|i: int|
            0 <= i < n.cues.len() ==> n.clusters.contains(
                (n.segment_start + (#[trigger] n.cues[i]).cluster_position) as u64,
            ) && declared(n.tracks, n.cues[i].track_number),
{
    if let Ok((n, _)) = body_met(v, b) {
        lemma_index(v, n.cues, n.cues.len() as int);
    }
}

/// A header costs one element. Metadata that is asked for stays within the bound on one
/// element and is paid from the bound on all.
pub proof fn law_metadata_is_bounded(v: OpenView, h: IoHeader, b: Seq<u8>)
    ensures
        header_met(v, h) matches Ok((w, a)) ==> w.left == v.left - 1 && paid(v, w, a),
        body_met(v, b) matches Ok((w, a)) ==> paid(v, w, a),
{
}

/// What a step asks for is within its bound and was paid for.
pub open spec fn paid(v: OpenView, w: OpenView, a: OpenAsk) -> bool {
    &&& w.limits == v.limits
    &&& match a {
        OpenAsk::Metadata { len, .. } => len <= v.limits.metadata_element_bytes && len
            <= v.metadata_left && w.metadata_left == v.metadata_left - len,
        _ => w.metadata_left == v.metadata_left,
    }
}

/// Finds the metadata of a source. Headers and bytes are read outside and handed
/// in.
pub struct Opener {
    limits: StreamingLimits,
    file_len: u64,
    budget: WalkBudget,
    metadata_left: usize,
    phase: Phase,
    pos: u64,
    doc_type: DocType,
    version: u32,
    segment_start: u64,
    segment_end: u64,
    info: Info,
    tracks: Vec<TrackInfo>,
    first_cluster: Option<u64>,
    clusters: BTreeSet<u64>,
    info_seen: bool,
    tracks_seen: bool,
    cues_at: Option<IoHeader>,
    cues: Vec<CuePoint>,
}

impl View for Opener {
    type V = OpenView;

    closed spec fn view(&self) -> OpenView {
        OpenView {
            limits: self.limits,
            file_len: self.file_len,
            left: self.budget.elements as int,
            metadata_left: self.metadata_left as int,
            phase: self.phase,
            pos: self.pos,
            doc_type: self.doc_type,
            version: self.version,
            segment_start: self.segment_start,
            segment_end: self.segment_end,
            info: self.info@,
            tracks: demux::track_views(self.tracks@),
            first_cluster: self.first_cluster,
            clusters: self.clusters@,
            info_seen: self.info_seen,
            tracks_seen: self.tracks_seen,
            cues_at: self.cues_at,
            cues: self.cues@,
        }
    }
}

/// Offsets that an opener keeps can be held in memory.
pub open spec fn addressable(v: OpenView) -> bool {
    &&& v.file_len <= usize::MAX
    &&& v.file_len <= i64::MAX
    &&& v.segment_end <= v.file_len
    &&& v.first_cluster matches Some(c) ==> c <= v.file_len
    &&& v.phase == Phase::Child ==> v.pos < v.segment_end
    &&& v.segment_start <= v.file_len
}

/// Whether an opener waits for a header.
pub open spec fn wants_header(p: Phase) -> bool {
    p is Ebml || p is Prolog || p is Child
}

/// Whether an opener waits for bytes.
pub open spec fn wants_bytes(p: Phase) -> bool {
    p is EbmlBody || p is InfoBody || p is TracksBody || p is CuesBody
}

impl Opener {
    /// Its offsets fit.
    pub closed spec fn wf(&self) -> bool {
        addressable(self@)
    }

    /// An opener for a source of `file_len` bytes. It first asks for the header at
    /// the start.
    pub fn new(file_len: u64, limits: StreamingLimits) -> (r: Result<(Self, OpenAsk), Error>)
        ensures
            if file_len > usize::MAX || file_len > i64::MAX {
                r is Err && r->Err_0 == Error::SizeOverflow
            } else {
                r is Ok && r->Ok_0.0.wf() && r->Ok_0.0@ == unread(file_len, limits) && r->Ok_0.1
                    == OpenAsk::Header(0)
            },
    {
        if file_len > i64::MAX as u64 || file_len > usize::MAX as u64 {
            return Err(Error::SizeOverflow);
        }
        let o = Opener {
            limits,
            file_len,
            budget: WalkBudget { elements: limits.elements },
            metadata_left: limits.total_metadata_bytes,
            phase: Phase::Ebml,
            pos: 0,
            doc_type: DocType::Matroska,
            version: 1,
            segment_start: 0,
            segment_end: 0,
            info: Info {
                timestamp_scale_ns: 1_000_000,
                duration_ticks: None,
                title: None,
                muxing_app: None,
                writing_app: None,
            },
            tracks: Vec::new(),
            first_cluster: None,
            clusters: BTreeSet::new(),
            info_seen: false,
            tracks_seen: false,
            cues_at: None,
            cues: Vec::new(),
        };
        assert(demux::track_views(o.tracks@) =~= Seq::<TrackView>::empty());
        assert(o.cues@ =~= Seq::<CuePoint>::empty());
        assert(o.info@ == demux::default_info());
        Ok((o, OpenAsk::Header(0)))
    }

    /// Asks for the payload of `h`.
    fn reserve(&mut self, h: &IoHeader, parent_end: u64, phase: Phase) -> (r: Result<
        OpenAsk,
        Error,
    >)
        ensures
            match reserved(old(self)@, *h, parent_end, phase) {
                Ok((v, a)) => r == Ok::<OpenAsk, Error>(a) && final(self)@ == v,
                Err(e) => r == Err::<OpenAsk, Error>(e),
            },
    {
        let end: u64 = checked_end(h, parent_end)?;
        let size: u64 = end - h.payload_start;
        if size > usize::MAX as u64 {
            return Err(Error::SizeOverflow);
        }
        let len: usize = size as usize;
        if len > self.limits.metadata_element_bytes || len > self.metadata_left {
            return Err(Error::Unsupported { what: "strict metadata byte budget exceeded" });
        }
        self.metadata_left = self.metadata_left - len;
        self.phase = phase;
        Ok(OpenAsk::Metadata { at: h.payload_start, len })
    }

    /// Goes on behind a child of the Segment.
    fn go_on(&mut self) -> (r: Result<OpenAsk, Error>)
        requires
            addressable(OpenView { phase: Phase::Ebml, ..old(self)@ }),
        ensures
            match onward(old(self)@) {
                Ok((v, a)) => r == Ok::<OpenAsk, Error>(a) && final(self)@ == v
                    && final(self).wf(),
                Err(e) => r == Err::<OpenAsk, Error>(e),
            },
    {
        if self.pos < self.segment_end {
            self.phase = Phase::Child;
            return Ok(OpenAsk::Header(self.pos));
        }
        if !self.tracks_seen || self.info.timestamp_scale_ns == 0 {
            return Err(Error::Malformed("missing Tracks or zero TimestampScale"));
        }
        if !self.limits.skip_cues {
            if let Some(h) = self.cues_at {
                let end: u64 = self.segment_end;
                return self.reserve(&h, end, Phase::CuesBody);
            }
        }
        self.phase = Phase::Finished;
        Ok(OpenAsk::Done)
    }

    /// Takes the header that was asked for. It stands in the source. An error ends the
    /// opening.
    pub fn header(&mut self, h: &IoHeader) -> (r: Result<OpenAsk, Error>)
        requires
            old(self).wf(),
            wants_header(old(self)@.phase),
            h.payload_start <= old(self)@.file_len,
        ensures
            match header_met(old(self)@, *h) {
                Ok((v, a)) => r == Ok::<OpenAsk, Error>(a) && final(self)@ == v
                    && final(self).wf(),
                Err(e) => r == Err::<OpenAsk, Error>(e) && final(self)@.phase == Phase::Failed,
            },
    {
        let r = self.take_header(h);
        if r.is_err() {
            self.phase = Phase::Failed;
        }
        r
    }

    fn take_header(&mut self, h: &IoHeader) -> (r: Result<OpenAsk, Error>)
        requires
            old(self).wf(),
            wants_header(old(self)@.phase),
            h.payload_start <= old(self)@.file_len,
        ensures
            match header_met(old(self)@, *h) {
                Ok((v, a)) => r == Ok::<OpenAsk, Error>(a) && final(self)@ == v
                    && final(self).wf(),
                Err(e) => r == Err::<OpenAsk, Error>(e),
            },
    {
        broadcast use vstd::std_specs::btree::group_btree_axioms;

        self.budget.element()?;
        match self.phase {
            Phase::Ebml => {
                if h.id != ids::EBML {
                    return Err(Error::NotMatroska);
                }
                let end: u64 = checked_end(h, self.file_len)?;
                let file_len: u64 = self.file_len;
                self.reserve(h, file_len, Phase::EbmlBody(end))
            },
            Phase::Prolog => {
                if h.id == ids::SEGMENT {
                    let end: u64 = match h.payload_end {
                        Some(_) => checked_end(h, self.file_len)?,
                        None => self.file_len,
                    };
                    if end != self.file_len {
                        return Err(
                            Error::Unsupported { what: "trailing data/multiple Segments" },
                        );
                    }
                    self.segment_start = h.payload_start;
                    self.segment_end = end;
                    self.pos = h.payload_start;
                    return self.go_on();
                }
                if !matches!(h.id, ids::VOID | ids::CRC32) {
                    return Err(Error::NotMatroska);
                }
                self.pos = checked_end(h, self.file_len)?;
                Ok(OpenAsk::Header(self.pos))
            },
            _ => {
                let end: u64 = checked_end(h, self.segment_end)?;
                let segment_end: u64 = self.segment_end;
                match h.id {
                    ids::CLUSTER => {
                        self.clusters.insert(self.pos);
                        if self.first_cluster.is_none() {
                            self.first_cluster = Some(self.pos);
                        }
                    },
                    ids::INFO => {
                        if self.info_seen {
                            return Err(Error::Malformed("duplicate Info/Tracks"));
                        }
                        self.info_seen = true;
                        return self.reserve(h, segment_end, Phase::InfoBody(end));
                    },
                    ids::TRACKS => {
                        if self.tracks_seen {
                            return Err(Error::Malformed("duplicate Info/Tracks"));
                        }
                        self.tracks_seen = true;
                        return self.reserve(h, segment_end, Phase::TracksBody(end));
                    },
                    ids::CUES => {
                        if self.cues_at.is_some() {
                            return Err(Error::Malformed("duplicate Cues"));
                        }
                        self.cues_at = Some(*h);
                    },
                    ids::SEEK_HEAD | ids::ATTACHMENTS | ids::CHAPTERS | ids::TAGS | ids::VOID
                        | ids::CRC32 => {},
                    _ => {
                        return Err(
                            Error::UnsupportedElement { parent: ids::SEGMENT, element: h.id },
                        );
                    },
                }
                self.pos = end;
                self.go_on()
            },
        }
    }

    /// Checks the index against the Clusters and tracks that were found.
    fn check_index(&self) -> (r: Result<(), Error>)
        ensures
            match index_fault(self@, self@.cues, self@.cues.len() as int) {
                Some(e) => r == Err::<(), Error>(e),
                None => r is Ok,
            },
    {
        broadcast use vstd::std_specs::btree::group_btree_axioms;

        let mut numbers: BTreeSet<u64> = BTreeSet::new();
        let mut k: usize = 0;
        while k < self.tracks.len()
            invariant
                k <= self.tracks@.len(),
                forall|n: u64|
                    #[trigger] numbers@.contains(n) <==> exists|i: int|
                        0 <= i < k && (#[trigger] self@.tracks[i]).number == n,
            decreases self.tracks@.len() - k,
        {
            broadcast use vstd::std_specs::btree::group_btree_axioms;

            let number: u64 = self.tracks[k].number;
            let ghost before = numbers@;
            numbers.insert(number);
            proof {
                assert(self@.tracks[k as int].number == number);
                assert forall|n: u64| #[trigger] numbers@.contains(n) <==> exists|i: int|
                    0 <= i < k + 1 && (#[trigger] self@.tracks[i]).number == n by {
                    if before.contains(n) {
                        let i = choose|i: int|
                            0 <= i < k && (#[trigger] self@.tracks[i]).number == n;
                        assert(0 <= i < k + 1 && self@.tracks[i].number == n);
                    }
                }
            }
            k = k + 1;
        }
        let mut i: usize = 0;
        while i < self.cues.len()
            invariant
                i <= self.cues@.len(),
                self.cues@ == self@.cues,
                forall|n: u64|
                    #[trigger] numbers@.contains(n) <==> declared(self@.tracks, n),
                index_fault(self@, self@.cues, i as int) is None,
            decreases self.cues@.len() - i,
        {
            broadcast use vstd::std_specs::btree::group_btree_axioms;

            let c = &self.cues[i];
            let at: u64 = match self.segment_start.checked_add(c.cluster_position) {
                Some(a) => a,
                None => {
                    proof {
                        lemma_fault_stays(self@, self@.cues, i + 1, self@.cues.len() as int);
                    }
                    return Err(Error::SizeOverflow);
                },
            };
            let number: u64 = c.track_number;
            if !self.clusters.contains(&at) || !numbers.contains(&number) {
                proof {
                    assert(numbers@.contains(number) <==> declared(self@.tracks, number));
                    lemma_fault_stays(self@, self@.cues, i + 1, self@.cues.len() as int);
                }
                return Err(
                    Error::Malformed("Cue target is not a declared track/Cluster boundary"),
                );
            }
            assert(numbers@.contains(number) <==> declared(self@.tracks, number));
            i = i + 1;
        }
        Ok(())
    }

    /// Takes the bytes that were asked for. An error ends the opening.
    pub fn metadata(&mut self, bytes: &[u8]) -> (r: Result<OpenAsk, Error>)
        requires
            old(self).wf(),
            wants_bytes(old(self)@.phase),
        ensures
            match body_met(old(self)@, bytes@) {
                Ok((v, a)) => r == Ok::<OpenAsk, Error>(a) && final(self)@ == v
                    && final(self).wf(),
                Err(e) => r == Err::<OpenAsk, Error>(e) && final(self)@.phase == Phase::Failed,
            },
    {
        let r = self.take_metadata(bytes);
        if r.is_err() {
            self.phase = Phase::Failed;
        }
        r
    }

    fn take_metadata(&mut self, bytes: &[u8]) -> (r: Result<OpenAsk, Error>)
        requires
            old(self).wf(),
            wants_bytes(old(self)@.phase),
        ensures
            match body_met(old(self)@, bytes@) {
                Ok((v, a)) => r == Ok::<OpenAsk, Error>(a) && final(self)@ == v
                    && final(self).wf(),
                Err(e) => r == Err::<OpenAsk, Error>(e),
            },
    {
        let id: u64 = match self.phase {
            Phase::EbmlBody(_) => ids::EBML,
            Phase::InfoBody(_) => ids::INFO,
            Phase::TracksBody(_) => ids::TRACKS,
            _ => ids::CUES,
        };
        validate_metadata(bytes, id, &mut self.budget)?;
        match self.phase {
            Phase::EbmlBody(end) => {
                let (doc_type, version) = demux::parse_ebml_header(bytes)?;
                self.doc_type = match DocType::parse(doc_type.as_str()) {
                    Some(d) => d,
                    None => return Err(Error::NotMatroska),
                };
                self.version = version;
                self.pos = end;
                self.phase = Phase::Prolog;
                Ok(OpenAsk::Header(end))
            },
            Phase::InfoBody(end) => {
                demux::parse_info(bytes, &mut self.info)?;
                self.pos = end;
                self.go_on()
            },
            Phase::TracksBody(end) => {
                demux::parse_tracks(bytes, &mut self.tracks)?;
                self.pos = end;
                self.go_on()
            },
            _ => {
                let scale: u64 = self.info.timestamp_scale_ns;
                let ghost before = self@;
                demux::parse_cues(bytes, scale, &mut self.cues)?;
                proof {
                    lemma_fault_same(before, self@, self@.cues, self@.cues.len() as int);
                    lemma_fault_same(old(self)@, self@, self@.cues, self@.cues.len() as int);
                }
                self.check_index()?;
                self.phase = Phase::Finished;
                Ok(OpenAsk::Done)
            },
        }
    }

    /// The metadata, once nothing more is asked for, and the budget that is left.
    pub fn into_parts(self) -> (r: (Demuxer, WalkBudget))
        requires
            self.wf(),
            self@.phase == Phase::Finished,
        ensures
            r.0@ == found(self@),
            r.1.elements == self@.left,
    {
        let clusters_offset: u64 = match self.first_cluster {
            Some(c) => c,
            None => self.segment_end,
        };
        (
            Demuxer {
                doc_type: self.doc_type,
                doc_type_version: self.version,
                timestamp_scale_ns: self.info.timestamp_scale_ns,
                duration_ticks: self.info.duration_ticks,
                title: self.info.title,
                muxing_app: self.info.muxing_app,
                writing_app: self.info.writing_app,
                tracks: self.tracks,
                clusters_offset: clusters_offset as usize,
                segment_end: self.segment_end as usize,
                segment_payload_start: self.segment_start as usize,
                cues: self.cues,
            },
            self.budget,
        )
    }
}

/// A fault among the first entries is that of all.
proof fn lemma_fault_stays(v: OpenView, cues: Seq<CuePoint>, i: int, n: int)
    requires
        0 <= i <= n,
        index_fault(v, cues, i) is Some,
    ensures
        index_fault(v, cues, n) == index_fault(v, cues, i),
    decreases n - i,
{
    if i < n {
        lemma_fault_stays(v, cues, i, n - 1);
    }
}

/// Faults depend on what was found.
proof fn lemma_fault_same(a: OpenView, b: OpenView, cues: Seq<CuePoint>, n: int)
    requires
        a.segment_start == b.segment_start,
        a.clusters == b.clusters,
        a.tracks == b.tracks,
    ensures
        index_fault(a, cues, n) == index_fault(b, cues, n),
    decreases n,
{
    if n > 0 {
        lemma_fault_same(a, b, cues, n - 1);
    }
}

} // verus!
