//! A source whose bytes are known: what opening it finds.

use crate::mkv::demux;
use crate::mkv::demux::{CuePoint, DemuxView, SegmentView};
use crate::mkv::ebml::element;
use crate::mkv::ebml::element::ElementHeader;
use crate::mkv::ebml::schema::ids;
use crate::mkv::ebml::varint;
use crate::mkv::profile;
use crate::mkv::streaming;
use crate::mkv::streaming::bounded;
use crate::mkv::streaming::bounded::{IoHeader, StreamingLimits};
use crate::mkv::streaming::open;
use crate::mkv::streaming::open::{OpenAsk, OpenView, Phase};
use crate::mkv::Error;
use vstd::prelude::*;

verus! {

/// The element header at `at`, of which as much is read as belongs to it.
pub open spec fn header_in(s: Seq<u8>, at: int) -> Result<IoHeader, Error> {
    let b = s.skip(at);
    match streaming::missing(b) {
        Err(e) => Err(e),
        Ok(n) => if n > 0 {
            Err(Error::UnexpectedEof("element header"))
        } else {
            streaming::header_of(b.take(streaming::header_len(b)), at as u64)
        },
    }
}

/// Two readings of the header at `at`, piece by piece and in a whole source of `len` bytes,
/// agree.
pub open spec fn agree(x: ElementHeader, h: IoHeader, at: int, len: int) -> bool {
    &&& x.id.value == h.id
    &&& x.element_start == at
    &&& x.payload_start == h.payload_start
    &&& at + 2 <= h.payload_start <= len
    &&& match h.payload_end {
        None => x.size is None,
        Some(e) => h.payload_start <= e && x.size == Some((e - h.payload_start) as u64),
    }
}

pub proof fn lemma_header(s: Seq<u8>, at: int)
    requires
        0 <= at <= s.len() <= usize::MAX,
        header_in(s, at) is Ok,
    ensures
        element::header_at(s, at) is Ok,
        agree(element::header_at(s, at)->Ok_0, header_in(s, at)->Ok_0, at, s.len() as int),
{
    let b = s.skip(at);
    streaming::law_header_comes_in_pieces(b, streaming::header_len(b));
    assert(streaming::header_of(b.take(streaming::header_len(b)), at as u64)
        == streaming::header_of(b, at as u64));
    streaming::law_header_agrees(s, at as u64);
    element::lemma_header_at(s, at);
    let w = varint::width_of(b[0]);
    let n = streaming::header_len(b);
    assert(b[0] == s[at]);
    assert(b[w] == s[at + w]);
    assert(b.subrange(w, n) =~= s.subrange(at + w, at + n));
    assert(varint::vint_at(b, w) == varint::vint_at(s, at + w));
}

/// The header of a part of a source is that of the whole.
proof fn lemma_shift(s: Seq<u8>, start: int, pos: int)
    requires
        0 <= start <= pos <= s.len() <= usize::MAX,
        element::header_at(s, pos) is Ok,
    ensures
        ({
            let x = element::header_at(s, pos)->Ok_0;
            &&& element::header_at(s.skip(start), pos - start) matches Ok(y)
            &&& y.id == x.id
            &&& y.size == x.size
            &&& y.element_start == x.element_start - start
            &&& y.payload_start == x.payload_start - start
        }),
{
    let t = s.skip(start);
    element::lemma_header_at(s, pos);
    lemma_vint_shift(s, start, pos);
    let w = varint::id_at(s, pos)->Ok_0.width;
    lemma_vint_shift(s, start, pos + w);
}

proof fn lemma_vint_shift(s: Seq<u8>, start: int, pos: int)
    requires
        0 <= start <= pos,
        start <= s.len(),
        varint::vint_bytes(s, pos) is Ok,
    ensures
        varint::vint_bytes(s.skip(start), pos - start) == varint::vint_bytes(s, pos),
{
    let w = varint::width_of(s[pos]);
    assert(s.skip(start)[pos - start] == s[pos]);
    assert(s.skip(start).subrange(pos - start, pos - start + w) =~= s.subrange(pos, pos + w));
}

/// What an opener asks for, read from the source `s`, leads to.
pub open spec fn answered(s: Seq<u8>, v: OpenView, a: OpenAsk) -> Result<
    (OpenView, OpenAsk),
    Error,
> {
    match a {
        OpenAsk::Header(at) => match header_in(s, at as int) {
            Err(e) => Err(e),
            Ok(h) => open::header_met(v, h),
        },
        OpenAsk::Metadata { at, len } => if at + len > s.len() {
            Err(Error::UnexpectedEof("metadata"))
        } else {
            open::body_met(v, s.subrange(at as int, at + len))
        },
        OpenAsk::Done => Ok((v, a)),
    }
}

/// How far the source `s` is opened when an opener was answered `n` times, and what it
/// asks for next.
pub open spec fn opening(s: Seq<u8>, limits: StreamingLimits, n: nat) -> Result<
    (OpenView, OpenAsk),
    Error,
>
    decreases n,
{
    if n == 0 {
        Ok((open::unread(s.len() as u64, limits), OpenAsk::Header(0)))
    } else {
        match opening(s, limits, (n - 1) as nat) {
            Err(e) => Err(e),
            Ok((v, a)) => answered(s, v, a),
        }
    }
}

/// Whether the Segment has been found.
spec fn in_segment(p: Phase) -> bool {
    p is Child || p is InfoBody || p is TracksBody || p is CuesBody || p is Finished
}

/// The payload of `h` is what is asked for.
spec fn asks_for(a: OpenAsk, h: IoHeader, end: u64) -> bool {
    a == OpenAsk::Metadata { at: h.payload_start, len: (end - h.payload_start) as usize }
}

/// The element at `pos` has this ID and ends here, and its payload is asked for.
spec fn asks_at(s: Seq<u8>, a: OpenAsk, pos: int, id: u64, end: u64) -> bool {
    &&& header_in(s, pos) matches Ok(h)
    &&& h.id == id
    &&& bounded::end_of(h, s.len() as u64) == Ok::<u64, Error>(end)
    &&& asks_for(a, h, end)
}

/// The bytes of the index that `h` opens.
pub open spec fn index_bytes(s: Seq<u8>, h: IoHeader) -> Seq<u8> {
    s.subrange(h.payload_start as int, h.payload_end->Some_0 as int)
}

/// The index that was read: that of the Cues that were found, in ticks of the length that
/// was found, unless it is not wanted.
pub open spec fn index_held(s: Seq<u8>, v: OpenView) -> bool {
    match v.cues_at {
        Some(h) if !v.limits.skip_cues => element::walk(
            index_bytes(s, h),
            0,
            Seq::empty(),
            demux::cues_step(v.info.timestamp_scale_ns),
        ) == Ok::<Seq<CuePoint>, Error>(v.cues),
        _ => v.cues.len() == 0,
    }
}

/// What holds of every opener of `s`.
spec fn shaped(s: Seq<u8>, limits: StreamingLimits, v: OpenView, a: OpenAsk) -> bool {
    &&& v.file_len == s.len()
    &&& v.limits == limits
    &&& in_segment(v.phase) ==> v.segment_end == s.len() && v.segment_start <= v.pos <= s.len()
    &&& !in_segment(v.phase) ==> v.info == demux::default_info() && v.tracks.len() == 0
        && v.first_cluster is None && v.cues_at is None
    &&& v.first_cluster matches Some(c) ==> v.segment_start <= c
    &&& v.cues_at matches Some(h) ==> bounded::end_of(h, s.len() as u64) is Ok
    &&& !(v.phase is Finished) ==> v.cues.len() == 0
    &&& match v.phase {
        Phase::Ebml => a == OpenAsk::Header(0),
        Phase::EbmlBody(end) => asks_at(s, a, 0, ids::EBML, end),
        Phase::Prolog => a == OpenAsk::Header(v.pos) && v.pos <= s.len(),
        Phase::Child => a == OpenAsk::Header(v.pos) && v.pos < s.len(),
        Phase::InfoBody(end) => asks_at(s, a, v.pos as int, ids::INFO, end),
        Phase::TracksBody(end) => asks_at(s, a, v.pos as int, ids::TRACKS, end),
        Phase::CuesBody => v.pos == s.len() && !limits.skip_cues && (v.cues_at matches Some(h)
            && asks_for(a, h, h.payload_end->Some_0)),
        Phase::Finished => a == OpenAsk::Done && v.pos == s.len() && index_held(s, v),
        Phase::Failed => false,
    }
}

proof fn lemma_onward_shaped(s: Seq<u8>, limits: StreamingLimits, v: OpenView)
    requires
        s.len() <= usize::MAX,
        s.len() <= u64::MAX,
        v.file_len == s.len(),
        v.limits == limits,
        v.segment_end == s.len(),
        v.segment_start <= v.pos <= s.len(),
        v.first_cluster matches Some(c) ==> v.segment_start <= c,
        v.cues_at matches Some(h) ==> bounded::end_of(h, s.len() as u64) is Ok,
        v.cues.len() == 0,
    ensures
        open::onward(v) matches Ok((w, b)) ==> shaped(s, limits, w, b) && in_segment(w.phase) && w
            == (OpenView { phase: w.phase, metadata_left: w.metadata_left, ..v }),
{
}

#[verifier::spinoff_prover]
proof fn lemma_child_shaped(s: Seq<u8>, limits: StreamingLimits, v: OpenView, a: OpenAsk)
    requires
        s.len() <= usize::MAX,
        s.len() <= u64::MAX,
        shaped(s, limits, v, a),
        v.phase is Child,
    ensures
        answered(s, v, a) matches Ok((w, b)) ==> shaped(s, limits, w, b),
{
    if let Ok((w, b)) = answered(s, v, a) {
        lemma_header(s, v.pos as int);
        let h = header_in(s, v.pos as int)->Ok_0;
        let p = OpenView { left: v.left - 1, ..v };
        let end = h.payload_end->Some_0;
        let q = OpenView { pos: end, ..p };
        if h.id == ids::CLUSTER {
            lemma_onward_shaped(
                s,
                limits,
                OpenView {
                    clusters: p.clusters.insert(p.pos),
                    first_cluster: if p.first_cluster is None {
                        Some(p.pos)
                    } else {
                        p.first_cluster
                    },
                    ..q
                },
            );
        } else if h.id == ids::CUES {
            lemma_onward_shaped(s, limits, OpenView { cues_at: Some(h), ..q });
        } else if h.id != ids::INFO && h.id != ids::TRACKS {
            lemma_onward_shaped(s, limits, q);
        }
    }
}

#[verifier::spinoff_prover]
proof fn lemma_head_shaped(s: Seq<u8>, limits: StreamingLimits, v: OpenView, a: OpenAsk)
    requires
        s.len() <= usize::MAX,
        s.len() <= u64::MAX,
        shaped(s, limits, v, a),
        v.phase is Ebml || v.phase is Prolog,
    ensures
        answered(s, v, a) matches Ok((w, b)) ==> shaped(s, limits, w, b),
{
    if let Ok((w, b)) = answered(s, v, a) {
        let at = a->Header_0;
        lemma_header(s, at as int);
        let h = header_in(s, at as int)->Ok_0;
        if v.phase is Prolog && h.id == ids::SEGMENT {
            lemma_onward_shaped(
                s,
                limits,
                OpenView {
                    left: v.left - 1,
                    segment_start: h.payload_start,
                    segment_end: s.len() as u64,
                    pos: h.payload_start,
                    ..v
                },
            );
        }
    }
}

#[verifier::spinoff_prover]
proof fn lemma_body_shaped(s: Seq<u8>, limits: StreamingLimits, v: OpenView, a: OpenAsk)
    requires
        s.len() <= usize::MAX,
        s.len() <= u64::MAX,
        shaped(s, limits, v, a),
        open::wants_bytes(v.phase),
    ensures
        answered(s, v, a) matches Ok((w, b)) ==> shaped(s, limits, w, b),
{
    if let Ok((w, _)) = answered(s, v, a) {
        let (at, len) = match a {
            OpenAsk::Metadata { at, len } => (at as int, len as int),
            _ => (0int, 0int),
        };
        let b = s.subrange(at, at + len);
        match v.phase {
            Phase::InfoBody(end) => {
                lemma_header(s, v.pos as int);
                let left = bounded::validated(b, ids::INFO, v.left)->Ok_0;
                let info = element::walk(b, 0, v.info, demux::info_step())->Ok_0;
                lemma_onward_shaped(s, limits, OpenView { left, info, pos: end, ..v });
            },
            Phase::TracksBody(end) => {
                lemma_header(s, v.pos as int);
                let left = bounded::validated(b, ids::TRACKS, v.left)->Ok_0;
                let tracks = element::walk(b, 0, v.tracks, demux::tracks_step())->Ok_0;
                lemma_onward_shaped(s, limits, OpenView { left, tracks, pos: end, ..v });
            },
            Phase::CuesBody => {
                assert(v.cues =~= Seq::empty());
            },
            _ => {
                lemma_header(s, 0);
            },
        }
    }
}

proof fn lemma_answer_shaped(s: Seq<u8>, limits: StreamingLimits, v: OpenView, a: OpenAsk)
    requires
        s.len() <= usize::MAX,
        s.len() <= u64::MAX,
        shaped(s, limits, v, a),
    ensures
        answered(s, v, a) matches Ok((w, b)) ==> shaped(s, limits, w, b),
{
    if v.phase is Child {
        lemma_child_shaped(s, limits, v, a);
    } else if v.phase is Ebml || v.phase is Prolog {
        lemma_head_shaped(s, limits, v, a);
    } else if open::wants_bytes(v.phase) {
        lemma_body_shaped(s, limits, v, a);
    }
}

proof fn lemma_opening_shaped(s: Seq<u8>, limits: StreamingLimits, n: nat)
    requires
        s.len() <= usize::MAX,
        s.len() <= u64::MAX,
    ensures
        opening(s, limits, n) matches Ok((v, a)) ==> shaped(s, limits, v, a),
    decreases n,
{
    if n > 0 {
        lemma_opening_shaped(s, limits, (n - 1) as nat);
        if let Ok((v, a)) = opening(s, limits, (n - 1) as nat) {
            lemma_answer_shaped(s, limits, v, a);
        }
    }
}

/// [`demux::segment_step`] without an index.
pub open spec fn without_index() -> spec_fn(Seq<u8>, ElementHeader, SegmentView) -> Result<
    SegmentView,
    Error,
> {
    |s: Seq<u8>, h: ElementHeader, st: SegmentView|
        if h.id.value == ids::CUES {
            Ok(st)
        } else {
            demux::segment_field(s, h, st)
        }
}

spec fn step_of(late: bool) -> spec_fn(Seq<u8>, ElementHeader, SegmentView) -> Result<
    SegmentView,
    Error,
> {
    if late {
        without_index()
    } else {
        demux::segment_step()
    }
}

/// What was read of the Segment; `late` says that its index does not count.
spec fn so_far(v: OpenView, late: bool, cues: Seq<CuePoint>) -> SegmentView {
    SegmentView {
        info: v.info,
        tracks: v.tracks,
        cluster: match v.first_cluster {
            Some(c) => Some(c - v.segment_start),
            None => None,
        },
        cues: if !late && v.cues_at is Some {
            cues
        } else {
            Seq::empty()
        },
    }
}

/// What the rest of the Segment makes of what was read.
spec fn rest_of(s: Seq<u8>, v: OpenView, late: bool, cues: Seq<CuePoint>) -> Result<
    SegmentView,
    Error,
> {
    element::walk(
        s.skip(v.segment_start as int),
        v.pos - v.segment_start,
        so_far(v, late, cues),
        step_of(late),
    )
}

/// The child of the Segment at `pos`, seen from the Segment's start.
spec fn child_at(s: Seq<u8>, start: int, pos: int) -> ElementHeader {
    element::header_at(s.skip(start), pos - start)->Ok_0
}

/// One child is read, and then the rest.
proof fn lemma_child(
    s: Seq<u8>,
    start: int,
    pos: int,
    st: SegmentView,
    next: SegmentView,
    late: bool,
)
    requires
        0 <= start <= pos < s.len() <= usize::MAX,
        s.len() <= u64::MAX,
        header_in(s, pos) matches Ok(h) && bounded::end_of(h, s.len() as u64) is Ok,
        step_of(late)(s.skip(start), child_at(s, start, pos), st) == Ok::<SegmentView, Error>(next),
    ensures
        element::walk(s.skip(start), pos - start, st, step_of(late)) == element::walk(
            s.skip(start),
            header_in(s, pos)->Ok_0.payload_end->Some_0 - start,
            next,
            step_of(late),
        ),
{
    lemma_header(s, pos);
    lemma_shift(s, start, pos);
}

/// The children of the child at `pos`.
proof fn lemma_children(s: Seq<u8>, start: int, pos: int)
    requires
        0 <= start <= pos < s.len() <= usize::MAX,
        s.len() <= u64::MAX,
        header_in(s, pos) matches Ok(h) && bounded::end_of(h, s.len() as u64) is Ok,
    ensures
        child_at(s, start, pos).id.value == header_in(s, pos)->Ok_0.id,
        child_at(s, start, pos).element_start == pos - start,
        element::children_of(s.skip(start), child_at(s, start, pos)) == Ok::<Seq<u8>, Error>(
            s.subrange(
                header_in(s, pos)->Ok_0.payload_start as int,
                header_in(s, pos)->Ok_0.payload_end->Some_0 as int,
            ),
        ),
{
    lemma_header(s, pos);
    lemma_shift(s, start, pos);
    let h = header_in(s, pos)->Ok_0;
    let e = h.payload_end->Some_0 as int;
    assert(s.skip(start).subrange(h.payload_start - start, e - start) =~= s.subrange(
        h.payload_start as int,
        e,
    ));
}

/// Whether an index that comes up in a step is the one that counts.
spec fn index_is(s: Seq<u8>, v: OpenView, w: OpenView, cues: Seq<CuePoint>) -> bool {
    v.cues_at is None && w.cues_at is Some ==> element::walk(
        index_bytes(s, w.cues_at->Some_0),
        0,
        Seq::empty(),
        demux::cues_step(v.info.timestamp_scale_ns),
    ) == Ok::<Seq<CuePoint>, Error>(cues)
}

/// What stays when a step goes on.
spec fn kept(v: OpenView, w: OpenView) -> bool {
    &&& in_segment(w.phase)
    &&& w == (OpenView { phase: w.phase, metadata_left: w.metadata_left, ..v })
}

proof fn lemma_onward_keeps(v: OpenView)
    ensures
        open::onward(v) matches Ok((w, _)) ==> kept(v, w),
{
}

/// What a step in the Segment is to a reader of the Segment.
spec fn follows(s: Seq<u8>, v: OpenView, w: OpenView, late: bool, cues: Seq<CuePoint>) -> bool {
    &&& in_segment(w.phase)
    &&& w.segment_start == v.segment_start
    &&& w.doc_type == v.doc_type
    &&& w.version == v.version
    &&& v.cues_at is Some ==> w.cues_at == v.cues_at
    &&& rest_of(s, v, late, cues) == rest_of(s, w, late, cues)
}

#[verifier::spinoff_prover]
proof fn lemma_child_reads(
    s: Seq<u8>,
    limits: StreamingLimits,
    v: OpenView,
    a: OpenAsk,
    late: bool,
    cues: Seq<CuePoint>,
)
    requires
        s.len() <= usize::MAX,
        s.len() <= u64::MAX,
        shaped(s, limits, v, a),
        v.phase is Child,
        answered(s, v, a) is Ok,
        late || index_is(s, v, answered(s, v, a)->Ok_0.0, cues),
    ensures
        follows(s, v, answered(s, v, a)->Ok_0.0, late, cues),
{
    let w = answered(s, v, a)->Ok_0.0;
    let start = v.segment_start as int;
    let pos = v.pos as int;
    let h = header_in(s, pos)->Ok_0;
    let end = h.payload_end->Some_0;
    let p = OpenView { left: v.left - 1, ..v };
    let q = OpenView { pos: end, ..p };
    let st = so_far(v, late, cues);
    let x = child_at(s, start, pos);
    assert(open::child_met(p, h) is Ok);
    assert(bounded::end_of(h, s.len() as u64) == Ok::<u64, Error>(end));
    lemma_children(s, start, pos);
    if h.id == ids::CLUSTER {
        let r = OpenView {
            clusters: p.clusters.insert(p.pos),
            first_cluster: if p.first_cluster is None {
                Some(p.pos)
            } else {
                p.first_cluster
            },
            ..q
        };
        lemma_onward_keeps(r);
        lemma_child(s, start, pos, st, so_far(r, late, cues), late);
    } else if h.id == ids::CUES {
        let r = OpenView { cues_at: Some(h), ..q };
        lemma_onward_keeps(r);
        assert(st.cues =~= Seq::empty());
        assert(kept(r, w));
        lemma_child(s, start, pos, st, so_far(r, late, cues), late);
    } else if h.id != ids::INFO && h.id != ids::TRACKS {
        lemma_onward_keeps(q);
        lemma_child(s, start, pos, st, so_far(q, late, cues), late);
    }
}

#[verifier::spinoff_prover]
#[verifier::rlimit(60)]
proof fn lemma_body_reads(
    s: Seq<u8>,
    limits: StreamingLimits,
    v: OpenView,
    a: OpenAsk,
    late: bool,
    cues: Seq<CuePoint>,
)
    requires
        s.len() <= usize::MAX,
        s.len() <= u64::MAX,
        shaped(s, limits, v, a),
        v.phase is InfoBody || v.phase is TracksBody,
        answered(s, v, a) is Ok,
    ensures
        follows(s, v, answered(s, v, a)->Ok_0.0, late, cues),
{
    let start = v.segment_start as int;
    let pos = v.pos as int;
    let st = so_far(v, late, cues);
    lemma_header(s, pos);
    lemma_children(s, start, pos);
    let h = header_in(s, pos)->Ok_0;
    let b = s.subrange(h.payload_start as int, h.payload_end->Some_0 as int);
    match v.phase {
        Phase::InfoBody(end) => {
            let left = bounded::validated(b, ids::INFO, v.left)->Ok_0;
            let info = element::walk(b, 0, v.info, demux::info_step())->Ok_0;
            let r = OpenView { left, info, pos: end, ..v };
            lemma_onward_keeps(r);
            lemma_child(s, start, pos, st, so_far(r, late, cues), late);
        },
        Phase::TracksBody(end) => {
            let left = bounded::validated(b, ids::TRACKS, v.left)->Ok_0;
            let tracks = element::walk(b, 0, v.tracks, demux::tracks_step())->Ok_0;
            let r = OpenView { left, tracks, pos: end, ..v };
            lemma_onward_keeps(r);
            lemma_child(s, start, pos, st, so_far(r, late, cues), late);
        },
        _ => {},
    }
}

/// A step in the Segment does what a reader of the Segment does.
proof fn lemma_step_reads(
    s: Seq<u8>,
    limits: StreamingLimits,
    v: OpenView,
    a: OpenAsk,
    late: bool,
    cues: Seq<CuePoint>,
)
    requires
        s.len() <= usize::MAX,
        s.len() <= u64::MAX,
        shaped(s, limits, v, a),
        in_segment(v.phase),
        answered(s, v, a) is Ok,
        late || index_is(s, v, answered(s, v, a)->Ok_0.0, cues),
    ensures
        follows(s, v, answered(s, v, a)->Ok_0.0, late, cues),
{
    match v.phase {
        Phase::Child => {
            lemma_child_reads(s, limits, v, a, late, cues);
        },
        Phase::InfoBody(_) | Phase::TracksBody(_) => {
            lemma_body_reads(s, limits, v, a, late, cues);
        },
        _ => {},
    }
}

/// What the Segment at `p` holds, and the metadata found.
spec fn segment_reads(s: Seq<u8>, p: int, v: OpenView, late: bool) -> bool {
    &&& demux::find_segment(s, p) matches Ok(seg)
    &&& seg.payload_start == v.segment_start
    &&& seg.size is Some ==> seg.end() == Some(s.len() as int)
    &&& element::walk(s.skip(v.segment_start as int), 0, demux::empty_segment(), step_of(late))
        == Ok::<SegmentView, Error>(so_far(v, late, v.cues))
}

/// What is known of a state on the way to the last one, `z`.
spec fn leads_to(s: Seq<u8>, v: OpenView, z: OpenView, late: bool) -> bool {
    &&& in_segment(v.phase) ==> {
        &&& v.segment_start == z.segment_start
        &&& v.cues_at is Some ==> z.cues_at == v.cues_at
        &&& rest_of(s, v, late, z.cues) == Ok::<SegmentView, Error>(so_far(z, late, z.cues))
    }
    &&& v.phase is Prolog ==> segment_reads(s, v.pos as int, z, late)
    &&& in_segment(v.phase) || v.phase is Prolog ==> v.doc_type == z.doc_type && v.version
        == z.version
}

/// The length of a tick stays what it is once an index has come up.
pub open spec fn steady(s: Seq<u8>, limits: StreamingLimits, n: nat) -> bool {
    let scale = opening(s, limits, n)->Ok_0.0.info.timestamp_scale_ns;
    forall|k: nat|
        k <= n ==> match #[trigger] opening(s, limits, k) {
            Ok((v, _)) => v.cues_at is Some ==> v.info.timestamp_scale_ns == scale,
            Err(_) => true,
        }
}

#[verifier::spinoff_prover]
proof fn lemma_prolog_leads(
    s: Seq<u8>,
    limits: StreamingLimits,
    v: OpenView,
    a: OpenAsk,
    z: OpenView,
    late: bool,
)
    requires
        s.len() <= usize::MAX,
        s.len() <= u64::MAX,
        shaped(s, limits, v, a),
        v.phase is Prolog,
        answered(s, v, a) is Ok,
        leads_to(s, answered(s, v, a)->Ok_0.0, z, late),
    ensures
        leads_to(s, v, z, late),
{
    let w = answered(s, v, a)->Ok_0.0;
    let pos = v.pos as int;
    lemma_header(s, pos);
    let h = header_in(s, pos)->Ok_0;
    if h.id == ids::SEGMENT {
        let r = OpenView {
            left: v.left - 1,
            segment_start: h.payload_start,
            segment_end: s.len() as u64,
            pos: h.payload_start,
            ..v
        };
        lemma_onward_keeps(r);
        assert(kept(r, w));
        assert(so_far(w, late, z.cues) =~= demux::empty_segment()) by {
            assert(v.tracks =~= Seq::empty());
        }
    } else {
        assert(w.pos == h.payload_end->Some_0);
        assert(demux::find_segment(s, pos) == demux::find_segment(s, w.pos as int));
    }
}

proof fn lemma_leads(s: Seq<u8>, limits: StreamingLimits, n: nat, k: nat, late: bool)
    requires
        s.len() <= usize::MAX,
        s.len() <= u64::MAX,
        k <= n,
        opening(s, limits, n) matches Ok((_, a)) && a is Done,
        late || (!limits.skip_cues && steady(s, limits, n)),
    ensures
        opening(s, limits, k) is Ok,
        leads_to(s, opening(s, limits, k)->Ok_0.0, opening(s, limits, n)->Ok_0.0, late),
    decreases n - k,
{
    let z = opening(s, limits, n)->Ok_0.0;
    lemma_opening_shaped(s, limits, n);
    if k < n {
        lemma_leads(s, limits, n, k + 1, late);
        lemma_opening_shaped(s, limits, k);
        let (v, a) = opening(s, limits, k)->Ok_0;
        let w = opening(s, limits, k + 1)->Ok_0.0;
        assert(answered(s, v, a)->Ok_0.0 == w);
        if in_segment(v.phase) {
            if !late && v.cues_at is None && w.cues_at is Some {
                lemma_answer_keeps_scale(s, v, a);
                lemma_step_reads(s, limits, v, a, true, z.cues);
                assert(w.cues_at == z.cues_at);
                assert(w.info.timestamp_scale_ns == z.info.timestamp_scale_ns);
            }
            lemma_step_reads(s, limits, v, a, late, z.cues);
        } else if v.phase is Prolog {
            lemma_prolog_leads(s, limits, v, a, z, late);
        }
    }
}

/// The step that finds the index changes no tick.
proof fn lemma_answer_keeps_scale(s: Seq<u8>, v: OpenView, a: OpenAsk)
    requires
        answered(s, v, a) is Ok,
        in_segment(v.phase),
        v.cues_at is None,
        answered(s, v, a)->Ok_0.0.cues_at is Some,
    ensures
        answered(s, v, a)->Ok_0.0.info == v.info,
{
}

/// What the source `s` says before its Segment, and where that starts.
spec fn head_reads(s: Seq<u8>, v: OpenView, p: int) -> bool {
    &&& element::header_at(s, 0) matches Ok(ebml)
    &&& ebml.id.value == ids::EBML
    &&& element::children_of(s, ebml) matches Ok(b)
    &&& demux::ebml_header_of(b) matches Ok((doc, version))
    &&& profile::doc_type_named(doc) == Some(v.doc_type)
    &&& version == v.version
    &&& element::after(s, ebml) == Ok::<int, Error>(p)
}

#[verifier::spinoff_prover]
proof fn lemma_head_reads(s: Seq<u8>, limits: StreamingLimits, n: nat)
    requires
        s.len() <= usize::MAX,
        s.len() <= u64::MAX,
        opening(s, limits, n) matches Ok((_, a)) && a is Done,
    ensures
        n >= 2,
        opening(s, limits, 2) matches Ok((v, _)) && v.phase is Prolog && head_reads(
            s,
            v,
            v.pos as int,
        ),
{
    lemma_leads(s, limits, n, 0, true);
    let (u, a) = opening(s, limits, 0)->Ok_0;
    assert(n != 0);
    lemma_leads(s, limits, n, 1, true);
    lemma_opening_shaped(s, limits, 1);
    assert(opening(s, limits, 1) == answered(s, u, a));
    let (v, b) = opening(s, limits, 1)->Ok_0;
    assert(v.phase is EbmlBody);
    assert(n != 1);
    lemma_leads(s, limits, n, 2, true);
    assert(opening(s, limits, 2) == answered(s, v, b));
    lemma_header(s, 0);
}

/// What an opened source holds is what its bytes say: the profile and version of its EBML
/// header; the Info, the tracks and the place of the first Cluster in its Segment, which
/// ends with it; and the index, in ticks of the length that was found, unless it is not
/// wanted.
pub open spec fn source_held(s: Seq<u8>, v: OpenView) -> bool {
    &&& element::header_at(s, 0) matches Ok(ebml)
    &&& ebml.id.value == ids::EBML
    &&& element::children_of(s, ebml) matches Ok(b)
    &&& demux::ebml_header_of(b) matches Ok((doc, version))
    &&& profile::doc_type_named(doc) == Some(v.doc_type)
    &&& version == v.version
    &&& element::after(s, ebml) matches Ok(p)
    &&& demux::find_segment(s, p) matches Ok(seg)
    &&& seg.payload_start == v.segment_start
    &&& v.segment_end == s.len()
    &&& demux::segment_bytes(s, seg) matches Ok(inner)
    &&& element::walk(inner, 0, demux::empty_segment(), without_index()) == Ok::<
        SegmentView,
        Error,
    >(
        SegmentView {
            info: v.info,
            tracks: v.tracks,
            cluster: match v.first_cluster {
                Some(c) => Some(c - v.segment_start),
                None => None,
            },
            cues: Seq::empty(),
        },
    )
    &&& index_held(s, v)
}

proof fn lemma_segment_bytes(s: Seq<u8>, seg: ElementHeader)
    requires
        seg.payload_start <= s.len(),
        seg.size is Some ==> seg.end() == Some(s.len() as int),
    ensures
        demux::segment_bytes(s, seg) == Ok::<Seq<u8>, Error>(s.skip(seg.payload_start as int)),
{
    assert(s.subrange(seg.payload_start as int, s.len() as int) =~= s.skip(
        seg.payload_start as int,
    ));
}

/// A source that was opened, in however many steps, holds what its bytes say: see
/// [`source_held`].
pub proof fn law_opened_source_holds(s: Seq<u8>, limits: StreamingLimits, n: nat)
    requires
        s.len() <= usize::MAX,
        s.len() <= i64::MAX,
        opening(s, limits, n) matches Ok((_, a)) && a is Done,
    ensures
        source_held(s, opening(s, limits, n)->Ok_0.0),
{
    let z = opening(s, limits, n)->Ok_0.0;
    lemma_head_reads(s, limits, n);
    lemma_leads(s, limits, n, 2, true);
    lemma_opening_shaped(s, limits, n);
    let p = opening(s, limits, 2)->Ok_0.0.pos as int;
    let seg = demux::find_segment(s, p)->Ok_0;
    lemma_segment_bytes(s, seg);
}

/// A source that was opened with its index holds what [`Demuxer::parse`](demux::Demuxer::parse) finds in all its
/// bytes, if the length of a tick does not change behind the index.
pub proof fn law_opening_agrees(s: Seq<u8>, limits: StreamingLimits, n: nat)
    requires
        s.len() <= usize::MAX,
        s.len() <= i64::MAX,
        !limits.skip_cues,
        opening(s, limits, n) matches Ok((_, a)) && a is Done,
        steady(s, limits, n),
    ensures
        demux::demux_of(s) == Ok::<DemuxView, Error>(
            open::found(opening(s, limits, n)->Ok_0.0),
        ),
{
    let z = opening(s, limits, n)->Ok_0.0;
    lemma_head_reads(s, limits, n);
    lemma_leads(s, limits, n, 2, false);
    lemma_opening_shaped(s, limits, n);
    reveal(demux::demux_of);
    reveal(demux::segment_meta);
    let p = opening(s, limits, 2)->Ok_0.0.pos as int;
    let seg = demux::find_segment(s, p)->Ok_0;
    lemma_segment_bytes(s, seg);
    assert(so_far(z, false, z.cues).cues =~= z.cues);
}

} // verus!
