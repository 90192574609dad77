//! Matroska / WebM metadata.
//!
//! The EBML header is checked for its DocType, then the Segment's children are
//! walked for Info, Tracks and Cues. Cluster walking is in
//! [`cluster`](crate::mkv::cluster).

use crate::bytes;
use crate::mkv::ebml::element;
use crate::mkv::ebml::element::{ElementHeader, FloatBits, Reader};
use crate::mkv::ebml::schema::{ids, track_type};
use crate::mkv::profile;
use crate::mkv::profile::DocType;
use crate::mkv::Error;
use crate::text;
use vstd::prelude::*;
use vstd::string::*;

verus! {

/// Container metadata. Frames are read from `clusters_offset` on.
#[derive(Debug, Clone)]
pub struct Demuxer {
    pub doc_type: DocType,
    pub doc_type_version: u32,
    pub timestamp_scale_ns: u64,
    /// Total duration in segment ticks; `None` if the stream does not say.
    pub duration_ticks: Option<FloatBits>,
    pub title: Option<String>,
    pub muxing_app: Option<String>,
    pub writing_app: Option<String>,
    pub tracks: Vec<TrackInfo>,
    /// Offset of the first Cluster in the input.
    pub clusters_offset: usize,
    /// One past the Segment's last byte in the input.
    pub segment_end: usize,
    /// Offset of the Segment's first child in the input.
    pub segment_payload_start: usize,
    pub cues: Vec<CuePoint>,
}

/// One Cues entry. `cluster_position` is relative to the Segment payload.
#[derive(Debug, Clone)]
pub struct CuePoint {
    pub ts_ns: u64,
    pub track_number: u64,
    pub cluster_position: u64,
}

/// One TrackEntry.
#[derive(Debug, Clone)]
pub struct TrackInfo {
    pub number: u64,
    pub uid: u64,
    pub kind: TrackKind,
    pub codec_id: String,
    pub codec_private: Option<Vec<u8>>,
    /// Duration of each frame; `None` means a variable frame rate.
    pub default_duration_ns: Option<u64>,
    pub codec_delay_ns: u64,
    pub seek_pre_roll_ns: u64,
    pub language: Option<String>,
    pub name: Option<String>,
    pub flag_enabled: bool,
    pub flag_default: bool,
    pub flag_forced: bool,
    pub video: Option<VideoParams>,
    pub audio: Option<AudioParams>,
}

/// What a track carries.
#[derive(Debug, Clone, Copy, PartialEq, Eq, Structural)]
pub enum TrackKind {
    Video,
    Audio,
    Subtitle,
    Other(u8),
}

/// The Video sub-element.
#[derive(Debug, Clone)]
pub struct VideoParams {
    pub pixel_width: u32,
    pub pixel_height: u32,
    pub display_width: Option<u32>,
    pub display_height: Option<u32>,
}

/// The Audio sub-element. Frequencies are kept as stored.
#[derive(Debug, Clone)]
pub struct AudioParams {
    pub sampling_frequency: FloatBits,
    pub output_sampling_frequency: Option<FloatBits>,
    pub channels: u32,
    pub bit_depth: Option<u32>,
}

/// The value of a [`TrackInfo`].
pub struct TrackView {
    pub number: u64,
    pub uid: u64,
    pub kind: TrackKind,
    pub codec_id: Seq<char>,
    pub codec_private: Option<Seq<u8>>,
    pub default_duration_ns: Option<u64>,
    pub codec_delay_ns: u64,
    pub seek_pre_roll_ns: u64,
    pub language: Option<Seq<char>>,
    pub name: Option<Seq<char>>,
    pub flag_enabled: bool,
    pub flag_default: bool,
    pub flag_forced: bool,
    pub video: Option<VideoParams>,
    pub audio: Option<AudioParams>,
}

impl View for TrackInfo {
    type V = TrackView;

    open spec fn view(&self) -> TrackView {
        TrackView {
            number: self.number,
            uid: self.uid,
            kind: self.kind,
            codec_id: self.codec_id@,
            codec_private: bytes::opt_bytes(self.codec_private),
            default_duration_ns: self.default_duration_ns,
            codec_delay_ns: self.codec_delay_ns,
            seek_pre_roll_ns: self.seek_pre_roll_ns,
            language: text::opt_chars(self.language),
            name: text::opt_chars(self.name),
            flag_enabled: self.flag_enabled,
            flag_default: self.flag_default,
            flag_forced: self.flag_forced,
            video: self.video,
            audio: self.audio,
        }
    }
}

/// The values of a list of tracks.
pub open spec fn track_views(v: Seq<TrackInfo>) -> Seq<TrackView> {
    v.map_values(|t: TrackInfo| t@)
}

/// The value of a [`Demuxer`].
pub struct DemuxView {
    pub doc_type: DocType,
    pub doc_type_version: u32,
    pub info: InfoView,
    pub tracks: Seq<TrackView>,
    pub clusters_offset: int,
    pub segment_end: int,
    pub segment_payload_start: int,
    pub cues: Seq<CuePoint>,
}

impl View for Demuxer {
    type V = DemuxView;

    open spec fn view(&self) -> DemuxView {
        DemuxView {
            doc_type: self.doc_type,
            doc_type_version: self.doc_type_version,
            info: InfoView {
                timestamp_scale_ns: self.timestamp_scale_ns,
                duration_ticks: self.duration_ticks,
                title: text::opt_chars(self.title),
                muxing_app: text::opt_chars(self.muxing_app),
                writing_app: text::opt_chars(self.writing_app),
            },
            tracks: track_views(self.tracks@),
            clusters_offset: self.clusters_offset as int,
            segment_end: self.segment_end as int,
            segment_payload_start: self.segment_payload_start as int,
            cues: self.cues@,
        }
    }
}

/// The value of the Info element.
pub struct InfoView {
    pub timestamp_scale_ns: u64,
    pub duration_ticks: Option<FloatBits>,
    pub title: Option<Seq<char>>,
    pub muxing_app: Option<Seq<char>>,
    pub writing_app: Option<Seq<char>>,
}

/// The Info element as read so far.
pub struct Info {
    pub timestamp_scale_ns: u64,
    pub duration_ticks: Option<FloatBits>,
    pub title: Option<String>,
    pub muxing_app: Option<String>,
    pub writing_app: Option<String>,
}

impl View for Info {
    type V = InfoView;

    open spec fn view(&self) -> InfoView {
        InfoView {
            timestamp_scale_ns: self.timestamp_scale_ns,
            duration_ticks: self.duration_ticks,
            title: text::opt_chars(self.title),
            muxing_app: text::opt_chars(self.muxing_app),
            writing_app: text::opt_chars(self.writing_app),
        }
    }
}

/// What Info says when nothing is stored: millisecond ticks.
pub open spec fn default_info() -> InfoView {
    InfoView {
        timestamp_scale_ns: 1_000_000,
        duration_ticks: None,
        title: None,
        muxing_app: None,
        writing_app: None,
    }
}

impl TrackKind {
    /// The kind that a TrackType value names.
    pub open spec fn of(v: u64) -> TrackKind {
        if v == track_type::VIDEO {
            TrackKind::Video
        } else if v == track_type::AUDIO {
            TrackKind::Audio
        } else if v == track_type::SUBTITLE {
            TrackKind::Subtitle
        } else {
            TrackKind::Other((v % 256) as u8)
        }
    }

    fn from_u64(v: u64) -> (k: TrackKind)
        ensures
            k == TrackKind::of(v),
    {
        if v == track_type::VIDEO {
            TrackKind::Video
        } else if v == track_type::AUDIO {
            TrackKind::Audio
        } else if v == track_type::SUBTITLE {
            TrackKind::Subtitle
        } else {
            TrackKind::Other((v % 256) as u8)
        }
    }
}

/// The low 32 bits of `v`.
pub open spec fn low32(v: u64) -> u32 {
    (v % 0x1_0000_0000) as u32
}

fn to_u32(v: u64) -> (r: u32)
    ensures
        r == low32(v),
{
    (v % 0x1_0000_0000) as u32
}

/// What one child of Info makes of what was read before.
pub open spec fn info_field(s: Seq<u8>, h: ElementHeader, st: InfoView) -> Result<InfoView, Error> {
    let id = h.id.value;
    if id == ids::TIMESTAMP_SCALE {
        match element::uint_of(s, h) {
            Err(e) => Err(e),
            Ok(v) => Ok(InfoView { timestamp_scale_ns: v, ..st }),
        }
    } else if id == ids::DURATION {
        match element::float_of(s, h) {
            Err(e) => Err(e),
            Ok(v) => Ok(InfoView { duration_ticks: Some(v), ..st }),
        }
    } else if id == ids::TITLE {
        match element::utf8_of(s, h) {
            Err(e) => Err(e),
            Ok(v) => Ok(InfoView { title: Some(v), ..st }),
        }
    } else if id == ids::MUXING_APP {
        match element::utf8_of(s, h) {
            Err(e) => Err(e),
            Ok(v) => Ok(InfoView { muxing_app: Some(v), ..st }),
        }
    } else if id == ids::WRITING_APP {
        match element::utf8_of(s, h) {
            Err(e) => Err(e),
            Ok(v) => Ok(InfoView { writing_app: Some(v), ..st }),
        }
    } else {
        Ok(st)
    }
}

/// [`info_field`] as a function value.
pub open spec fn info_step() -> spec_fn(Seq<u8>, ElementHeader, InfoView) -> Result<InfoView, Error> {
    |s: Seq<u8>, h: ElementHeader, st: InfoView| info_field(s, h, st)
}

/// What one child of Video makes of what was read before.
pub open spec fn video_field(s: Seq<u8>, h: ElementHeader, st: VideoParams) -> Result<VideoParams, Error> {
    let id = h.id.value;
    if id == ids::PIXEL_WIDTH {
        match element::uint_of(s, h) {
            Err(e) => Err(e),
            Ok(v) => Ok(VideoParams { pixel_width: low32(v), ..st }),
        }
    } else if id == ids::PIXEL_HEIGHT {
        match element::uint_of(s, h) {
            Err(e) => Err(e),
            Ok(v) => Ok(VideoParams { pixel_height: low32(v), ..st }),
        }
    } else if id == ids::DISPLAY_WIDTH {
        match element::uint_of(s, h) {
            Err(e) => Err(e),
            Ok(v) => Ok(VideoParams { display_width: Some(low32(v)), ..st }),
        }
    } else if id == ids::DISPLAY_HEIGHT {
        match element::uint_of(s, h) {
            Err(e) => Err(e),
            Ok(v) => Ok(VideoParams { display_height: Some(low32(v)), ..st }),
        }
    } else {
        Ok(st)
    }
}

/// [`video_field`] as a function value.
pub open spec fn video_step() -> spec_fn(Seq<u8>, ElementHeader, VideoParams) -> Result<VideoParams, Error> {
    |s: Seq<u8>, h: ElementHeader, st: VideoParams| video_field(s, h, st)
}

/// What Video says when nothing is stored.
pub open spec fn default_video() -> VideoParams {
    VideoParams { pixel_width: 0, pixel_height: 0, display_width: None, display_height: None }
}

/// The Video element with the given children.
pub open spec fn video_of(s: Seq<u8>) -> Result<VideoParams, Error> {
    element::walk(s, 0, default_video(), video_step())
}

/// What one child of Audio makes of what was read before.
pub open spec fn audio_field(s: Seq<u8>, h: ElementHeader, st: AudioParams) -> Result<AudioParams, Error> {
    let id = h.id.value;
    if id == ids::SAMPLING_FREQUENCY {
        match element::float_of(s, h) {
            Err(e) => Err(e),
            Ok(v) => Ok(AudioParams { sampling_frequency: v, ..st }),
        }
    } else if id == ids::OUTPUT_SAMPLING_FREQUENCY {
        match element::float_of(s, h) {
            Err(e) => Err(e),
            Ok(v) => Ok(AudioParams { output_sampling_frequency: Some(v), ..st }),
        }
    } else if id == ids::CHANNELS {
        match element::uint_of(s, h) {
            Err(e) => Err(e),
            Ok(v) => Ok(AudioParams { channels: low32(v), ..st }),
        }
    } else if id == ids::BIT_DEPTH {
        match element::uint_of(s, h) {
            Err(e) => Err(e),
            Ok(v) => Ok(AudioParams { bit_depth: Some(low32(v)), ..st }),
        }
    } else {
        Ok(st)
    }
}

/// [`audio_field`] as a function value.
pub open spec fn audio_step() -> spec_fn(Seq<u8>, ElementHeader, AudioParams) -> Result<AudioParams, Error> {
    |s: Seq<u8>, h: ElementHeader, st: AudioParams| audio_field(s, h, st)
}

/// What Audio says when nothing is stored: 8000 Hz (as a double) and one channel.
pub open spec fn default_audio() -> AudioParams {
    AudioParams {
        sampling_frequency: FloatBits::Double(0x40BF_4000_0000_0000),
        output_sampling_frequency: None,
        channels: 1,
        bit_depth: None,
    }
}

/// The Audio element with the given children.
pub open spec fn audio_of(s: Seq<u8>) -> Result<AudioParams, Error> {
    element::walk(s, 0, default_audio(), audio_step())
}

/// A TrackEntry as read so far.
pub struct EntryView {
    pub track: TrackView,
    pub language_ietf: Option<Seq<char>>,
}

/// What one child of TrackEntry makes of what was read before.
pub open spec fn entry_field(s: Seq<u8>, h: ElementHeader, st: EntryView) -> Result<EntryView, Error> {
    let id = h.id.value;
    if id == ids::TRACK_NUMBER {
        match element::uint_of(s, h) {
            Err(e) => Err(e),
            Ok(v) => Ok(EntryView { track: TrackView { number: v, ..st.track }, ..st }),
        }
    } else if id == ids::TRACK_UID {
        match element::uint_of(s, h) {
            Err(e) => Err(e),
            Ok(v) => Ok(EntryView { track: TrackView { uid: v, ..st.track }, ..st }),
        }
    } else if id == ids::TRACK_TYPE {
        match element::uint_of(s, h) {
            Err(e) => Err(e),
            Ok(v) => Ok(EntryView { track: TrackView { kind: TrackKind::of(v), ..st.track }, ..st }),
        }
    } else if id == ids::CODEC_ID {
        match element::ascii_of(s, h) {
            Err(e) => Err(e),
            Ok(v) => Ok(EntryView { track: TrackView { codec_id: v, ..st.track }, ..st }),
        }
    } else if id == ids::CODEC_PRIVATE {
        match element::payload_of(s, h) {
            Err(e) => Err(e),
            Ok(v) => Ok(EntryView { track: TrackView { codec_private: Some(v), ..st.track }, ..st }),
        }
    } else if id == ids::DEFAULT_DURATION {
        match element::uint_of(s, h) {
            Err(e) => Err(e),
            Ok(v) => Ok(EntryView { track: TrackView { default_duration_ns: Some(v), ..st.track }, ..st }),
        }
    } else if id == ids::CODEC_DELAY {
        match element::uint_of(s, h) {
            Err(e) => Err(e),
            Ok(v) => Ok(EntryView { track: TrackView { codec_delay_ns: v, ..st.track }, ..st }),
        }
    } else if id == ids::SEEK_PRE_ROLL {
        match element::uint_of(s, h) {
            Err(e) => Err(e),
            Ok(v) => Ok(EntryView { track: TrackView { seek_pre_roll_ns: v, ..st.track }, ..st }),
        }
    } else if id == ids::LANGUAGE {
        match element::ascii_of(s, h) {
            Err(e) => Err(e),
            Ok(v) => Ok(EntryView { track: TrackView { language: Some(v), ..st.track }, ..st }),
        }
    } else if id == ids::LANGUAGE_IETF {
        match element::ascii_of(s, h) {
            Err(e) => Err(e),
            Ok(v) => Ok(EntryView { language_ietf: Some(v), ..st }),
        }
    } else if id == ids::NAME {
        match element::utf8_of(s, h) {
            Err(e) => Err(e),
            Ok(v) => Ok(EntryView { track: TrackView { name: Some(v), ..st.track }, ..st }),
        }
    } else if id == ids::FLAG_ENABLED {
        match element::uint_of(s, h) {
            Err(e) => Err(e),
            Ok(v) => Ok(EntryView { track: TrackView { flag_enabled: v != 0, ..st.track }, ..st }),
        }
    } else if id == ids::FLAG_DEFAULT {
        match element::uint_of(s, h) {
            Err(e) => Err(e),
            Ok(v) => Ok(EntryView { track: TrackView { flag_default: v != 0, ..st.track }, ..st }),
        }
    } else if id == ids::FLAG_FORCED {
        match element::uint_of(s, h) {
            Err(e) => Err(e),
            Ok(v) => Ok(EntryView { track: TrackView { flag_forced: v != 0, ..st.track }, ..st }),
        }
    } else if id == ids::VIDEO {
        match element::children_of(s, h) {
            Err(e) => Err(e),
            Ok(b) => match video_of(b) {
                Err(e) => Err(e),
                Ok(v) => Ok(EntryView { track: TrackView { video: Some(v), ..st.track }, ..st }),
            },
        }
    } else if id == ids::AUDIO {
        match element::children_of(s, h) {
            Err(e) => Err(e),
            Ok(b) => match audio_of(b) {
                Err(e) => Err(e),
                Ok(v) => Ok(EntryView { track: TrackView { audio: Some(v), ..st.track }, ..st }),
            },
        }
    } else {
        Ok(st)
    }
}

/// [`entry_field`] as a function value.
pub open spec fn entry_step() -> spec_fn(Seq<u8>, ElementHeader, EntryView) -> Result<EntryView, Error> {
    |s: Seq<u8>, h: ElementHeader, st: EntryView| entry_field(s, h, st)
}

/// What a TrackEntry says when nothing is stored.
pub open spec fn default_track() -> TrackView {
    TrackView {
        number: 0,
        uid: 0,
        kind: TrackKind::Other(0),
        codec_id: Seq::empty(),
        codec_private: None,
        default_duration_ns: None,
        codec_delay_ns: 0,
        seek_pre_roll_ns: 0,
        language: None,
        name: None,
        flag_enabled: true,
        flag_default: true,
        flag_forced: false,
        video: None,
        audio: None,
    }
}

/// Whether `t` starts with the two characters of `p`.
pub open spec fn has_prefix(t: Seq<char>, p: Seq<char>) -> bool {
    t.len() >= p.len() && t.subrange(0, p.len() as int) == p
}

/// Whether a CodecID's prefix agrees with the track's kind.
pub open spec fn prefix_ok(kind: TrackKind, codec: Seq<char>) -> bool {
    match kind {
        TrackKind::Video => has_prefix(codec, "V_"@),
        TrackKind::Audio => has_prefix(codec, "A_"@),
        TrackKind::Subtitle => has_prefix(codec, "S_"@),
        TrackKind::Other(_) => true,
    }
}

/// A TrackEntry before its first child.
pub open spec fn empty_entry() -> EntryView {
    EntryView { track: default_track(), language_ietf: None }
}

/// The TrackEntry with the given children. The IETF language takes precedence
/// whatever the order.
pub open spec fn track_of(s: Seq<u8>) -> Result<TrackView, Error> {
    match element::walk(s, 0, empty_entry(), entry_step()) {
        Err(e) => Err(e),
        Ok(st) => if prefix_ok(st.track.kind, st.track.codec_id) {
            Ok(
                TrackView {
                    language: if st.language_ietf is Some {
                        st.language_ietf
                    } else {
                        st.track.language
                    },
                    ..st.track
                },
            )
        } else {
            Err(Error::Malformed("CodecID prefix doesn't match TrackType"))
        },
    }
}

/// What one child of Tracks makes of what was read before.
pub open spec fn tracks_field(s: Seq<u8>, h: ElementHeader, st: Seq<TrackView>) -> Result<Seq<TrackView>, Error> {
    let id = h.id.value;
    if id == ids::TRACK_ENTRY {
        match element::children_of(s, h) {
            Err(e) => Err(e),
            Ok(b) => match track_of(b) {
                Err(e) => Err(e),
                Ok(t) => Ok(st.push(t)),
            },
        }
    } else {
        Ok(st)
    }
}

/// [`tracks_field`] as a function value.
pub open spec fn tracks_step() -> spec_fn(Seq<u8>, ElementHeader, Seq<TrackView>) -> Result<Seq<TrackView>, Error> {
    |s: Seq<u8>, h: ElementHeader, st: Seq<TrackView>| tracks_field(s, h, st)
}

/// What one child of CueTrackPositions makes of what was read before.
pub open spec fn positions_field(s: Seq<u8>, h: ElementHeader, st: (u64, u64)) -> Result<(u64, u64), Error> {
    let id = h.id.value;
    if id == ids::CUE_TRACK {
        match element::uint_of(s, h) {
            Err(e) => Err(e),
            Ok(v) => Ok((v, st.1)),
        }
    } else if id == ids::CUE_CLUSTER_POSITION {
        match element::uint_of(s, h) {
            Err(e) => Err(e),
            Ok(v) => Ok((st.0, v)),
        }
    } else {
        Ok(st)
    }
}

/// [`positions_field`] as a function value.
pub open spec fn positions_step() -> spec_fn(Seq<u8>, ElementHeader, (u64, u64)) -> Result<(u64, u64), Error> {
    |s: Seq<u8>, h: ElementHeader, st: (u64, u64)| positions_field(s, h, st)
}

/// A CuePoint as read so far: its time in ticks, its tracks and positions.
pub struct CueView {
    pub ticks: u64,
    pub positions: Seq<(u64, u64)>,
}

/// What one child of CuePoint makes of what was read before.
pub open spec fn cue_field(s: Seq<u8>, h: ElementHeader, st: CueView) -> Result<CueView, Error> {
    let id = h.id.value;
    if id == ids::CUE_TIME {
        match element::uint_of(s, h) {
            Err(e) => Err(e),
            Ok(v) => Ok(CueView { ticks: v, ..st }),
        }
    } else if id == ids::CUE_TRACK_POSITIONS {
        match element::children_of(s, h) {
            Err(e) => Err(e),
            Ok(b) => match element::walk(b, 0, (0u64, 0u64), positions_step()) {
                Err(e) => Err(e),
                Ok(p) => Ok(CueView { positions: st.positions.push(p), ..st }),
            },
        }
    } else {
        Ok(st)
    }
}

/// [`cue_field`] as a function value.
pub open spec fn cue_step() -> spec_fn(Seq<u8>, ElementHeader, CueView) -> Result<CueView, Error> {
    |s: Seq<u8>, h: ElementHeader, st: CueView| cue_field(s, h, st)
}

/// A CuePoint before its first child.
pub open spec fn empty_cue() -> CueView {
    CueView { ticks: 0, positions: Seq::empty() }
}

/// The entries that a CuePoint with the given children stands for.
pub open spec fn cue_points_of(s: Seq<u8>, scale: u64) -> Result<Seq<CuePoint>, Error> {
    match element::walk(s, 0, empty_cue(), cue_step()) {
        Err(e) => Err(e),
        Ok(c) => if c.ticks * scale > u64::MAX {
            Err(Error::SizeOverflow)
        } else {
            Ok(
                c.positions.map_values(
                    |p: (u64, u64)|
                        CuePoint {
                            ts_ns: (c.ticks * scale) as u64,
                            track_number: p.0,
                            cluster_position: p.1,
                        },
                ),
            )
        },
    }
}

/// What one child of Cues makes of the entries read before.
pub open spec fn cues_field(
    s: Seq<u8>,
    h: ElementHeader,
    st: Seq<CuePoint>,
    scale: u64,
) -> Result<Seq<CuePoint>, Error> {
    if h.id.value == ids::CUE_POINT {
        match element::children_of(s, h) {
            Err(e) => Err(e),
            Ok(b) => match cue_points_of(b, scale) {
                Err(e) => Err(e),
                Ok(c) => Ok(st + c),
            },
        }
    } else {
        Ok(st)
    }
}

/// [`cues_field`] for a scale, as a function value.
pub open spec fn cues_step(scale: u64) -> spec_fn(
    Seq<u8>,
    ElementHeader,
    Seq<CuePoint>,
) -> Result<Seq<CuePoint>, Error> {
    |s: Seq<u8>, h: ElementHeader, st: Seq<CuePoint>| cues_field(s, h, st, scale)
}

/// What one child of the EBML header makes of what was read before.
pub open spec fn ebml_field(s: Seq<u8>, h: ElementHeader, st: (Option<Seq<char>>, u32)) -> Result<(Option<Seq<char>>, u32), Error> {
    let id = h.id.value;
    if id == ids::DOC_TYPE {
        match element::ascii_of(s, h) {
            Err(e) => Err(e),
            Ok(v) => Ok((Some(v), st.1)),
        }
    } else if id == ids::DOC_TYPE_VERSION {
        match element::uint_of(s, h) {
            Err(e) => Err(e),
            Ok(v) => Ok((st.0, low32(v))),
        }
    } else {
        Ok(st)
    }
}

/// [`ebml_field`] as a function value.
pub open spec fn ebml_step() -> spec_fn(Seq<u8>, ElementHeader, (Option<Seq<char>>, u32)) -> Result<(Option<Seq<char>>, u32), Error> {
    |s: Seq<u8>, h: ElementHeader, st: (Option<Seq<char>>, u32)| ebml_field(s, h, st)
}

/// The DocType text and version in an EBML header with the given children.
#[verifier::opaque]
pub open spec fn ebml_header_of(s: Seq<u8>) -> Result<(Seq<char>, u32), Error> {
    match element::walk(s, 0, (None::<Seq<char>>, 1u32), ebml_step()) {
        Err(e) => Err(e),
        Ok((doc, version)) => match doc {
            None => Err(Error::NotMatroska),
            Some(d) => Ok((d, version)),
        },
    }
}

/// Reads the children of Info over what `info` holds.
pub(crate) fn parse_info(data: &[u8], info: &mut Info) -> (res: Result<(), Error>)
    ensures
        match element::walk(data@, 0, old(info)@, info_step()) {
            Ok(v) => res is Ok && final(info)@ == v,
            Err(e) => res == Err::<(), Error>(e),
        },
{
    let mut r = Reader::new(data);
    while !r.eof()
        invariant
            r.data() == data@,
            element::walk(data@, 0, old(info)@, info_step()) == element::walk(data@, r.at(), info@, info_step()),
        ensures
            element::walk(data@, 0, old(info)@, info_step()) is Ok,
            element::walk(data@, 0, old(info)@, info_step())->Ok_0 == info@,
        decreases data@.len() - r.at(),
    {
        let child = match r.read_header() {
            Ok(h) => h,
            Err(Error::UnexpectedEof(_)) => break,
            Err(e) => return Err(e),
        };
        match child.id.value {
            ids::TIMESTAMP_SCALE => { info.timestamp_scale_ns = r.read_uint(&child)?; }
            ids::DURATION => { info.duration_ticks = Some(r.read_float(&child)?); }
            ids::TITLE => { info.title = Some(r.read_utf8(&child)?.to_owned()); }
            ids::MUXING_APP => { info.muxing_app = Some(r.read_utf8(&child)?.to_owned()); }
            ids::WRITING_APP => { info.writing_app = Some(r.read_utf8(&child)?.to_owned()); }
            _ => {},
        }
        r.skip_payload(&child)?;
    }
    Ok(())
}

fn parse_video(data: &[u8]) -> (res: Result<VideoParams, Error>)
    ensures
        res == video_of(data@),
{
    let mut v = VideoParams {
        pixel_width: 0,
        pixel_height: 0,
        display_width: None,
        display_height: None,
    };
    let mut r = Reader::new(data);
    while !r.eof()
        invariant
            r.data() == data@,
            element::walk(data@, 0, default_video(), video_step()) == element::walk(data@, r.at(), v, video_step()),
        ensures
            element::walk(data@, 0, default_video(), video_step()) is Ok,
            element::walk(data@, 0, default_video(), video_step())->Ok_0 == v,
        decreases data@.len() - r.at(),
    {
        let child = match r.read_header() {
            Ok(h) => h,
            Err(Error::UnexpectedEof(_)) => break,
            Err(e) => return Err(e),
        };
        match child.id.value {
            ids::PIXEL_WIDTH => { v.pixel_width = to_u32(r.read_uint(&child)?); }
            ids::PIXEL_HEIGHT => { v.pixel_height = to_u32(r.read_uint(&child)?); }
            ids::DISPLAY_WIDTH => { v.display_width = Some(to_u32(r.read_uint(&child)?)); }
            ids::DISPLAY_HEIGHT => { v.display_height = Some(to_u32(r.read_uint(&child)?)); }
            _ => {},
        }
        r.skip_payload(&child)?;
    }
    Ok(v)
}

fn parse_audio(data: &[u8]) -> (res: Result<AudioParams, Error>)
    ensures
        res == audio_of(data@),
{
    let mut a = AudioParams {
        sampling_frequency: FloatBits::Double(0x40BF_4000_0000_0000),
        output_sampling_frequency: None,
        channels: 1,
        bit_depth: None,
    };
    let mut r = Reader::new(data);
    while !r.eof()
        invariant
            r.data() == data@,
            element::walk(data@, 0, default_audio(), audio_step()) == element::walk(data@, r.at(), a, audio_step()),
        ensures
            element::walk(data@, 0, default_audio(), audio_step()) is Ok,
            element::walk(data@, 0, default_audio(), audio_step())->Ok_0 == a,
        decreases data@.len() - r.at(),
    {
        let child = match r.read_header() {
            Ok(h) => h,
            Err(Error::UnexpectedEof(_)) => break,
            Err(e) => return Err(e),
        };
        match child.id.value {
            ids::SAMPLING_FREQUENCY => { a.sampling_frequency = r.read_float(&child)?; }
            ids::OUTPUT_SAMPLING_FREQUENCY => { a.output_sampling_frequency = Some(r.read_float(&child)?); }
            ids::CHANNELS => { a.channels = to_u32(r.read_uint(&child)?); }
            ids::BIT_DEPTH => { a.bit_depth = Some(to_u32(r.read_uint(&child)?)); }
            _ => {},
        }
        r.skip_payload(&child)?;
    }
    Ok(a)
}

/// Whether a CodecID's prefix agrees with the track's kind.
pub(crate) fn prefix_matches(kind: TrackKind, codec: &str) -> (r: bool)
    ensures
        r == prefix_ok(kind, codec@),
{
    proof {
        reveal_strlit("V_");
        reveal_strlit("A_");
        reveal_strlit("S_");
    }
    let letter: char = match kind {
        TrackKind::Video => 'V',
        TrackKind::Audio => 'A',
        TrackKind::Subtitle => 'S',
        TrackKind::Other(_) => return true,
    };
    let ghost prefix: Seq<char> = match kind {
        TrackKind::Video => "V_"@,
        TrackKind::Audio => "A_"@,
        _ => "S_"@,
    };
    assert(prefix =~= seq![letter, '_']);
    if codec.unicode_len() < 2 {
        return false;
    }
    let r = codec.get_char(0) == letter && codec.get_char(1) == '_';
    proof {
        let head = codec@.subrange(0, 2);
        assert(head[0] == codec@[0] && head[1] == codec@[1]);
        if r {
            assert(head =~= prefix);
        }
    }
    r
}

/// A TrackEntry as read so far.
struct Entry {
    track: TrackInfo,
    language_ietf: Option<String>,
}

impl View for Entry {
    type V = EntryView;

    closed spec fn view(&self) -> EntryView {
        EntryView { track: self.track@, language_ietf: text::opt_chars(self.language_ietf) }
    }
}

/// Takes one child of a TrackEntry into what was read before.
fn read_entry_field(r: &Reader<'_>, child: &ElementHeader, e: &mut Entry) -> (res: Result<
    (),
    Error,
>)
    ensures
        match entry_field(r.data(), *child, old(e)@) {
            Ok(v) => res is Ok && final(e)@ == v,
            Err(x) => res == Err::<(), Error>(x),
        },
{
    match child.id.value {
        ids::TRACK_NUMBER => { e.track.number = r.read_uint(child)?; }
        ids::TRACK_UID => { e.track.uid = r.read_uint(child)?; }
        ids::TRACK_TYPE => { e.track.kind = TrackKind::from_u64(r.read_uint(child)?); }
        ids::CODEC_ID => { e.track.codec_id = r.read_ascii(child)?.to_owned(); }
        ids::CODEC_PRIVATE => { e.track.codec_private = Some(bytes::to_vec(r.payload(child)?)); }
        ids::DEFAULT_DURATION => { e.track.default_duration_ns = Some(r.read_uint(child)?); }
        ids::CODEC_DELAY => { e.track.codec_delay_ns = r.read_uint(child)?; }
        ids::SEEK_PRE_ROLL => { e.track.seek_pre_roll_ns = r.read_uint(child)?; }
        ids::LANGUAGE => { e.track.language = Some(r.read_ascii(child)?.to_owned()); }
        ids::LANGUAGE_IETF => { e.language_ietf = Some(r.read_ascii(child)?.to_owned()); }
        ids::NAME => { e.track.name = Some(r.read_utf8(child)?.to_owned()); }
        ids::FLAG_ENABLED => { e.track.flag_enabled = r.read_uint(child)? != 0; }
        ids::FLAG_DEFAULT => { e.track.flag_default = r.read_uint(child)? != 0; }
        ids::FLAG_FORCED => { e.track.flag_forced = r.read_uint(child)? != 0; }
        ids::VIDEO => { let v = r.descend(child)?; e.track.video = Some(parse_video(v.all())?); }
        ids::AUDIO => { let a = r.descend(child)?; e.track.audio = Some(parse_audio(a.all())?); }
        _ => {},
    }
    Ok(())
}

fn parse_track_entry(data: &[u8]) -> (res: Result<TrackInfo, Error>)
    ensures
        match track_of(data@) {
            Ok(t) => res is Ok && res->Ok_0@ == t,
            Err(e) => res == Err::<TrackInfo, Error>(e),
        },
{
    let mut e = Entry {
        track: TrackInfo {
            number: 0,
            uid: 0,
            kind: TrackKind::Other(0),
            codec_id: String::new(),
            codec_private: None,
            default_duration_ns: None,
            codec_delay_ns: 0,
            seek_pre_roll_ns: 0,
            language: None,
            name: None,
            flag_enabled: true,
            flag_default: true,
            flag_forced: false,
            video: None,
            audio: None,
        },
        language_ietf: None,
    };
    assert(e@ == empty_entry()) by {
        assert(e.track.codec_id@ =~= Seq::<char>::empty());
    }
    let mut r = Reader::new(data);
    while !r.eof()
        invariant
            r.data() == data@,
            element::walk(data@, 0, empty_entry(), entry_step()) == element::walk(data@, r.at(), e@, entry_step()),
        ensures
            element::walk(data@, 0, empty_entry(), entry_step()) is Ok,
            element::walk(data@, 0, empty_entry(), entry_step())->Ok_0 == e@,
        decreases data@.len() - r.at(),
    {
        let child = match r.read_header() {
            Ok(h) => h,
            Err(Error::UnexpectedEof(_)) => break,
            Err(e) => return Err(e),
        };
        read_entry_field(&r, &child, &mut e)?;
        r.skip_payload(&child)?;
    }
    let Entry { mut track, language_ietf } = e;
    if !prefix_matches(track.kind, track.codec_id.as_str()) {
        return Err(Error::Malformed("CodecID prefix doesn't match TrackType"));
    }
    if language_ietf.is_some() {
        track.language = language_ietf;
    }
    Ok(track)
}

/// Appends the entries of Tracks.
pub(crate) fn parse_tracks(data: &[u8], tracks: &mut Vec<TrackInfo>) -> (res: Result<(), Error>)
    ensures
        match element::walk(data@, 0, track_views(old(tracks)@), tracks_step()) {
            Ok(v) => res is Ok && track_views(final(tracks)@) == v,
            Err(e) => res == Err::<(), Error>(e),
        },
{
    let mut r = Reader::new(data);
    while !r.eof()
        invariant
            r.data() == data@,
            element::walk(data@, 0, track_views(old(tracks)@), tracks_step()) == element::walk(data@, r.at(), track_views(tracks@), tracks_step()),
        ensures
            element::walk(data@, 0, track_views(old(tracks)@), tracks_step()) is Ok,
            element::walk(data@, 0, track_views(old(tracks)@), tracks_step())->Ok_0 == track_views(tracks@),
        decreases data@.len() - r.at(),
    {
        let child = match r.read_header() {
            Ok(h) => h,
            Err(Error::UnexpectedEof(_)) => break,
            Err(e) => return Err(e),
        };
        match child.id.value {
            ids::TRACK_ENTRY => {
                let t = r.descend(&child)?;
                let ghost before = tracks@;
                let track = parse_track_entry(t.all())?;
                tracks.push(track);
                assert(track_views(tracks@) =~= track_views(before).push(track@));
            }
            _ => {},
        }
        r.skip_payload(&child)?;
    }
    Ok(())
}

fn parse_cue_track_positions(data: &[u8]) -> (res: Result<(u64, u64), Error>)
    ensures
        res == element::walk(data@, 0, (0u64, 0u64), positions_step()),
{
    let mut track: u64 = 0;
    let mut position: u64 = 0;
    let mut r = Reader::new(data);
    while !r.eof()
        invariant
            r.data() == data@,
            element::walk(data@, 0, (0u64, 0u64), positions_step()) == element::walk(data@, r.at(), (track, position), positions_step()),
        ensures
            element::walk(data@, 0, (0u64, 0u64), positions_step()) is Ok,
            element::walk(data@, 0, (0u64, 0u64), positions_step())->Ok_0 == (track, position),
        decreases data@.len() - r.at(),
    {
        let child = match r.read_header() {
            Ok(h) => h,
            Err(Error::UnexpectedEof(_)) => break,
            Err(e) => return Err(e),
        };
        match child.id.value {
            ids::CUE_TRACK => { track = r.read_uint(&child)?; }
            ids::CUE_CLUSTER_POSITION => { position = r.read_uint(&child)?; }
            _ => {},
        }
        r.skip_payload(&child)?;
    }
    Ok((track, position))
}

/// Appends the entries of one CuePoint.
fn parse_cue_point(data: &[u8], timestamp_scale_ns: u64, cues: &mut Vec<CuePoint>) -> (res: Result<
    (),
    Error,
>)
    ensures
        match cue_points_of(data@, timestamp_scale_ns) {
            Ok(c) => res is Ok && final(cues)@ == old(cues)@ + c,
            Err(e) => res == Err::<(), Error>(e),
        },
{
    let mut ticks: u64 = 0;
    let mut positions: Vec<(u64, u64)> = Vec::new();
    assert(positions@ =~= Seq::<(u64, u64)>::empty());
    let mut r = Reader::new(data);
    while !r.eof()
        invariant
            r.data() == data@,
            element::walk(data@, 0, empty_cue(), cue_step()) == element::walk(
                data@,
                r.at(),
                (CueView { ticks, positions: positions@ }),
                cue_step(),
            ),
        ensures
            element::walk(data@, 0, empty_cue(), cue_step()) is Ok,
            element::walk(data@, 0, empty_cue(), cue_step())->Ok_0 == (CueView { ticks, positions: positions@ }),
        decreases data@.len() - r.at(),
    {
        let child = match r.read_header() {
            Ok(h) => h,
            Err(Error::UnexpectedEof(_)) => break,
            Err(e) => return Err(e),
        };
        match child.id.value {
            ids::CUE_TIME => { ticks = r.read_uint(&child)?; }
            ids::CUE_TRACK_POSITIONS => {
                let p = r.descend(&child)?;
                let pair = parse_cue_track_positions(p.all())?;
                positions.push(pair);
            }
            _ => {},
        }
        r.skip_payload(&child)?;
    }
    let ts_ns: u64 = match ticks.checked_mul(timestamp_scale_ns) {
        Some(t) => t,
        None => return Err(Error::SizeOverflow),
    };
    let ghost scale = timestamp_scale_ns;
    let ghost c = cue_points_of(data@, scale)->Ok_0;
    let mut i: usize = 0;
    while i < positions.len()
        invariant
            i <= positions@.len(),
            ts_ns == ticks * scale,
            c == positions@.map_values(
                |p: (u64, u64)|
                    CuePoint {
                        ts_ns: (ticks * scale) as u64,
                        track_number: p.0,
                        cluster_position: p.1,
                    },
            ),
            cues@ == old(cues)@ + c.take(i as int),
        decreases positions@.len() - i,
    {
        let (track_number, cluster_position) = positions[i];
        cues.push(CuePoint { ts_ns, track_number, cluster_position });
        assert(c.take(i + 1) =~= c.take(i as int).push(c[i as int]));
        i = i + 1;
    }
    assert(c.take(i as int) =~= c);
    Ok(())
}

/// Appends the entries of Cues.
pub(crate) fn parse_cues(data: &[u8], timestamp_scale_ns: u64, cues: &mut Vec<CuePoint>) -> (res:
    Result<(), Error>)
    ensures
        match element::walk(data@, 0, old(cues)@, cues_step(timestamp_scale_ns)) {
            Ok(c) => res is Ok && final(cues)@ == c,
            Err(e) => res == Err::<(), Error>(e),
        },
{
    let mut r = Reader::new(data);
    while !r.eof()
        invariant
            r.data() == data@,
            element::walk(data@, 0, old(cues)@, cues_step(timestamp_scale_ns)) == element::walk(data@, r.at(), cues@, cues_step(timestamp_scale_ns)),
        ensures
            element::walk(data@, 0, old(cues)@, cues_step(timestamp_scale_ns)) is Ok,
            element::walk(data@, 0, old(cues)@, cues_step(timestamp_scale_ns))->Ok_0 == cues@,
        decreases data@.len() - r.at(),
    {
        let child = match r.read_header() {
            Ok(h) => h,
            Err(Error::UnexpectedEof(_)) => break,
            Err(e) => return Err(e),
        };
        match child.id.value {
            ids::CUE_POINT => {
                let c = r.descend(&child)?;
                parse_cue_point(c.all(), timestamp_scale_ns, cues)?;
            }
            _ => {},
        }
        r.skip_payload(&child)?;
    }
    Ok(())
}

/// Reads the children of the EBML header.
pub(crate) fn parse_ebml_header(data: &[u8]) -> (res: Result<(String, u32), Error>)
    ensures
        match ebml_header_of(data@) {
            Ok((d, v)) => res is Ok && res->Ok_0.0@ == d && res->Ok_0.1 == v,
            Err(e) => res == Err::<(String, u32), Error>(e),
        },
{
    reveal(ebml_header_of);
    let mut doc_type: Option<String> = None;
    let mut version: u32 = 1;
    let mut r = Reader::new(data);
    while !r.eof()
        invariant
            r.data() == data@,
            element::walk(data@, 0, (None::<Seq<char>>, 1u32), ebml_step()) == element::walk(data@, r.at(), (text::opt_chars(doc_type), version), ebml_step()),
        ensures
            element::walk(data@, 0, (None::<Seq<char>>, 1u32), ebml_step()) is Ok,
            element::walk(data@, 0, (None::<Seq<char>>, 1u32), ebml_step())->Ok_0 == (text::opt_chars(doc_type), version),
        decreases data@.len() - r.at(),
    {
        reveal(ebml_header_of);
        let child = match r.read_header() {
            Ok(h) => h,
            Err(Error::UnexpectedEof(_)) => break,
            Err(e) => return Err(e),
        };
        match child.id.value {
            ids::DOC_TYPE => { doc_type = Some(r.read_ascii(&child)?.to_owned()); }
            ids::DOC_TYPE_VERSION => { version = to_u32(r.read_uint(&child)?); }
            _ => {},
        }
        r.skip_payload(&child)?;
    }
    reveal(ebml_header_of);
    match doc_type {
        Some(d) => Ok((d, version)),
        None => Err(Error::NotMatroska),
    }
}

/// The Segment as read so far. `cluster` is the offset of the first Cluster in
/// the Segment's payload.
pub struct SegmentView {
    pub info: InfoView,
    pub tracks: Seq<TrackView>,
    pub cluster: Option<int>,
    pub cues: Seq<CuePoint>,
}

/// A Segment before its first child.
pub open spec fn empty_segment() -> SegmentView {
    SegmentView { info: default_info(), tracks: Seq::empty(), cluster: None, cues: Seq::empty() }
}

/// What one child of the Segment makes of what was read before.
pub open spec fn segment_field(s: Seq<u8>, h: ElementHeader, st: SegmentView) -> Result<
    SegmentView,
    Error,
> {
    let id = h.id.value;
    if id == ids::INFO {
        match element::children_of(s, h) {
            Err(e) => Err(e),
            Ok(b) => match element::walk(b, 0, st.info, info_step()) {
                Err(e) => Err(e),
                Ok(v) => Ok(SegmentView { info: v, ..st }),
            },
        }
    } else if id == ids::TRACKS {
        match element::children_of(s, h) {
            Err(e) => Err(e),
            Ok(b) => match element::walk(b, 0, st.tracks, tracks_step()) {
                Err(e) => Err(e),
                Ok(v) => Ok(SegmentView { tracks: v, ..st }),
            },
        }
    } else if id == ids::CLUSTER {
        Ok(
            SegmentView {
                cluster: if st.cluster is Some {
                    st.cluster
                } else {
                    Some(h.element_start as int)
                },
                ..st
            },
        )
    } else if id == ids::CUES {
        match element::children_of(s, h) {
            Err(e) => Err(e),
            Ok(b) => match element::walk(b, 0, st.cues, cues_step(st.info.timestamp_scale_ns)) {
                Err(e) => Err(e),
                Ok(v) => Ok(SegmentView { cues: v, ..st }),
            },
        }
    } else {
        Ok(st)
    }
}

/// [`segment_field`] as a function value.
pub open spec fn segment_step() -> spec_fn(Seq<u8>, ElementHeader, SegmentView) -> Result<
    SegmentView,
    Error,
> {
    |s: Seq<u8>, h: ElementHeader, st: SegmentView| segment_field(s, h, st)
}

/// What the Segment with the given children says.
#[verifier::opaque]
pub open spec fn segment_meta(s: Seq<u8>) -> Result<SegmentView, Error> {
    element::walk(s, 0, empty_segment(), segment_step())
}

/// The Segment's header at or after `pos`, behind any Void and CRC-32.
pub open spec fn find_segment(s: Seq<u8>, pos: int) -> Result<ElementHeader, Error>
    decreases s.len() - pos,
{
    match element::header_at(s, pos) {
        Err(e) => Err(e),
        Ok(h) => if h.id.value == ids::SEGMENT {
            Ok(h)
        } else if h.id.value == ids::VOID || h.id.value == ids::CRC32 {
            match element::after(s, h) {
                Err(e) => Err(e),
                Ok(p) => if pos < p <= s.len() {
                    find_segment(s, p)
                } else {
                    Err(Error::SizeOverflow)
                },
            }
        } else {
            Err(Error::Malformed("expected Segment after EBML header"))
        },
    }
}

/// The bytes of the Segment that `h` opens: those it declares, or all that
/// follow if its size is unknown.
pub open spec fn segment_bytes(s: Seq<u8>, h: ElementHeader) -> Result<Seq<u8>, Error> {
    match h.size {
        Some(_) => element::children_of(s, h),
        None => Ok(s.skip(h.payload_start as int)),
    }
}

/// The metadata of the Segment that `seg` opens in `s`.
pub open spec fn segment_of(s: Seq<u8>, seg: ElementHeader, doc: Seq<char>, version: u32) -> Result<
    DemuxView,
    Error,
> {
    match segment_bytes(s, seg) {
        Err(e) => Err(e),
        Ok(b) => match segment_meta(b) {
            Err(e) => Err(e),
            Ok(st) => match profile::doc_type_named(doc) {
                None => Err(Error::NotMatroska),
                Some(doc_type) => {
                    let end = match seg.end() {
                        Some(e) => e,
                        None => s.len() as int,
                    };
                    Ok(
                        DemuxView {
                            doc_type,
                            doc_type_version: version,
                            info: st.info,
                            tracks: st.tracks,
                            clusters_offset: match st.cluster {
                                Some(c) => seg.payload_start + c,
                                None => end,
                            },
                            segment_end: end,
                            segment_payload_start: seg.payload_start as int,
                            cues: st.cues,
                        },
                    )
                },
            },
        },
    }
}

/// The metadata of the Matroska stream `s`.
#[verifier::opaque]
pub open spec fn demux_of(s: Seq<u8>) -> Result<DemuxView, Error> {
    match element::header_at(s, 0) {
        Err(e) => Err(e),
        Ok(ebml) => if ebml.id.value != ids::EBML {
            Err(Error::NotMatroska)
        } else {
            match element::children_of(s, ebml) {
                Err(e) => Err(e),
                Ok(b) => match ebml_header_of(b) {
                    Err(e) => Err(e),
                    Ok((doc, version)) => match element::after(s, ebml) {
                        Err(e) => Err(e),
                        Ok(p) => match find_segment(s, p) {
                            Err(e) => Err(e),
                            Ok(seg) => segment_of(s, seg, doc, version),
                        },
                    },
                },
            }
        },
    }
}

/// The Segment as read so far.
struct Segment {
    info: Info,
    tracks: Vec<TrackInfo>,
    cluster: Option<usize>,
    cues: Vec<CuePoint>,
}

impl View for Segment {
    type V = SegmentView;

    closed spec fn view(&self) -> SegmentView {
        SegmentView {
            info: self.info@,
            tracks: track_views(self.tracks@),
            cluster: match self.cluster {
                None => None,
                Some(c) => Some(c as int),
            },
            cues: self.cues@,
        }
    }
}

/// Takes one child of the Segment into what was read before.
fn read_segment_field(r: &Reader<'_>, child: &ElementHeader, g: &mut Segment) -> (res: Result<
    (),
    Error,
>)
    ensures
        match segment_field(r.data(), *child, old(g)@) {
            Ok(v) => res is Ok && final(g)@ == v,
            Err(x) => res == Err::<(), Error>(x),
        },
        old(g).cluster is Some ==> final(g).cluster == old(g).cluster,
        old(g).cluster is None && final(g).cluster is Some ==> final(g).cluster == Some(
            child.element_start,
        ),
{
    match child.id.value {
        ids::INFO => {
            let b = r.descend(child)?;
            parse_info(b.all(), &mut g.info)?;
        },
        ids::TRACKS => {
            let b = r.descend(child)?;
            parse_tracks(b.all(), &mut g.tracks)?;
        },
        ids::CLUSTER => {
            if g.cluster.is_none() {
                g.cluster = Some(child.element_start);
            }
        },
        ids::CUES => {
            let b = r.descend(child)?;
            let scale: u64 = g.info.timestamp_scale_ns;
            parse_cues(b.all(), scale, &mut g.cues)?;
        },
        // SeekHead, attachments, chapters, tags and unknown elements are passed
        // over.
        _ => {},
    }
    Ok(())
}

/// Reads the children of the Segment.
fn parse_segment(data: &[u8]) -> (res: Result<Segment, Error>)
    ensures
        match segment_meta(data@) {
            Ok(v) => res is Ok && res->Ok_0@ == v && (res->Ok_0.cluster matches Some(c) ==> c
                <= data@.len()),
            Err(x) => res == Err::<Segment, Error>(x),
        },
{
    let mut g = Segment {
        info: Info {
            timestamp_scale_ns: 1_000_000,
            duration_ticks: None,
            title: None,
            muxing_app: None,
            writing_app: None,
        },
        tracks: Vec::new(),
        cluster: None,
        cues: Vec::new(),
    };
    assert(g@ == empty_segment()) by {
        assert(track_views(g.tracks@) =~= Seq::<TrackView>::empty());
        assert(g.cues@ =~= Seq::<CuePoint>::empty());
    }
    reveal(segment_meta);
    let mut r = Reader::new(data);
    while !r.eof()
        invariant
            r.data() == data@,
            element::walk(data@, 0, empty_segment(), segment_step()) == element::walk(
                data@,
                r.at(),
                g@,
                segment_step(),
            ),
            g.cluster matches Some(c) ==> c <= data@.len(),
        ensures
            element::walk(data@, 0, empty_segment(), segment_step()) is Ok,
            element::walk(data@, 0, empty_segment(), segment_step())->Ok_0 == g@,
            g.cluster matches Some(c) ==> c <= data@.len(),
        decreases data@.len() - r.at(),
    {
        reveal(segment_meta);
        let child = match r.read_header() {
            Ok(h) => h,
            Err(Error::UnexpectedEof(_)) => break,
            Err(e) => return Err(e),
        };
        read_segment_field(&r, &child, &mut g)?;
        r.skip_payload(&child)?;
    }
    Ok(g)
}

/// Finds the Segment's header at or after the cursor.
fn seek_segment(r: &mut Reader<'_>) -> (res: Result<ElementHeader, Error>)
    ensures
        final(r).data() == old(r).data(),
        res == find_segment(old(r).data(), old(r).at()),
        res matches Ok(h) ==> h.payload_start <= old(r).data().len(),
{
    loop
        invariant
            r.data() == old(r).data(),
            find_segment(old(r).data(), old(r).at()) == find_segment(old(r).data(), r.at()),
        decreases old(r).data().len() - r.at(),
    {
        let hdr = r.read_header()?;
        match hdr.id.value {
            ids::SEGMENT => return Ok(hdr),
            ids::VOID | ids::CRC32 => {
                r.skip_payload(&hdr)?;
            },
            _ => return Err(Error::Malformed("expected Segment after EBML header")),
        }
    }
}

impl Demuxer {
    /// Reads the EBML header and the Segment's metadata.
    pub fn parse(input: &[u8]) -> (res: Result<Self, Error>)
        ensures
            match demux_of(input@) {
                Ok(d) => res is Ok && res->Ok_0@ == d,
                Err(e) => res == Err::<Demuxer, Error>(e),
            },
    {
        reveal(demux_of);
        let mut r = Reader::new(input);
        let ebml = r.read_header()?;
        if ebml.id.value != ids::EBML {
            return Err(Error::NotMatroska);
        }
        let ebml_inner = r.descend(&ebml)?;
        let (doc_type, doc_type_version) = parse_ebml_header(ebml_inner.all())?;
        r.skip_payload(&ebml)?;

        let segment = seek_segment(&mut r)?;
        let segment_payload_start: usize = segment.payload_start;
        let segment_end: usize = match segment.payload_end() {
            Some(e) => e,
            None => input.len(),
        };
        let inner = match segment.size {
            Some(_) => r.descend(&segment)?,
            None => r.descend_unbounded(&segment),
        };
        let g = parse_segment(inner.all())?;
        let doc_type = match DocType::parse(doc_type.as_str()) {
            Some(d) => d,
            None => return Err(Error::NotMatroska),
        };
        assert(segment_payload_start + inner.data().len() <= input@.len());
        assert(input@.len() == input.len());
        let clusters_offset: usize = match g.cluster {
            Some(c) => segment_payload_start + c,
            None => segment_end,
        };
        Ok(
            Demuxer {
                doc_type,
                doc_type_version,
                timestamp_scale_ns: g.info.timestamp_scale_ns,
                duration_ticks: g.info.duration_ticks,
                title: g.info.title,
                muxing_app: g.info.muxing_app,
                writing_app: g.info.writing_app,
                tracks: g.tracks,
                clusters_offset,
                segment_end,
                segment_payload_start,
                cues: g.cues,
            },
        )
    }
}

} // verus!
