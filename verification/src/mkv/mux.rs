//! Matroska / WebM muxing, the inverse of [`demux`](crate::mkv::demux) and
//! [`cluster`](crate::mkv::cluster).
//!
//! Static mode gathers all Clusters; [`Muxer::finalize`] then returns a complete
//! seekable file with SeekHead and Cues. Streaming mode, entered by
//! [`Muxer::enable_streaming`], returns an init segment with an unknown-size
//! Segment from [`Muxer::begin_stream`], finished Clusters from
//! [`Muxer::take_output`], and the rest from [`Muxer::finish_stream`].
//!
//! A Cluster ends when it spans the Cluster duration or when a video keyframe
//! arrives. Only SimpleBlocks are written, without lacing.

use crate::bytes;
use crate::mkv::demux;
use crate::mkv::demux::{AudioParams, TrackKind, VideoParams};
use crate::mkv::ebml::element::FloatBits;
use crate::mkv::ebml::schema::{ids, track_type};
use crate::mkv::ebml::writer;
use crate::mkv::profile;
use crate::mkv::profile::{is_codec_allowed, DocType};
use crate::mkv::Error;
use crate::text;
use vstd::prelude::*;
use vstd::string::*;
use vstd::utf8::*;

verus! {

/// Nanoseconds in a tick of a written stream.
pub const TIMESTAMP_SCALE_NS: u64 = 1_000_000;

/// The Cluster duration unless another one is set.
pub const DEFAULT_CLUSTER_DURATION_NS: u64 = 1_000_000_000;

/// The longest Cluster duration whose block deltas fit 16 signed bits.
pub const MAX_CLUSTER_DURATION_NS: u64 = 32_767_000_000;

/// What a caller says of a track; the muxer assigns its number.
#[derive(Debug, Clone)]
pub struct TrackDescriptor {
    pub kind: TrackKind,
    pub codec_id: String,
    pub codec_private: Option<Vec<u8>>,
    pub default_duration_ns: Option<u64>,
    pub codec_delay_ns: u64,
    pub seek_pre_roll_ns: u64,
    pub language: Option<String>,
    pub name: Option<String>,
    pub flag_default: bool,
    pub flag_forced: bool,
    pub video: Option<VideoParams>,
    pub audio: Option<AudioParams>,
}

/// The value of a [`TrackDescriptor`].
pub struct DescriptorView {
    pub kind: TrackKind,
    pub codec_id: Seq<char>,
    pub codec_private: Option<Seq<u8>>,
    pub default_duration_ns: Option<u64>,
    pub codec_delay_ns: u64,
    pub seek_pre_roll_ns: u64,
    pub language: Option<Seq<char>>,
    pub name: Option<Seq<char>>,
    pub flag_default: bool,
    pub flag_forced: bool,
    pub video: Option<VideoParams>,
    pub audio: Option<AudioParams>,
}

impl View for TrackDescriptor {
    type V = DescriptorView;

    open spec fn view(&self) -> DescriptorView {
        DescriptorView {
            kind: self.kind,
            codec_id: self.codec_id@,
            codec_private: bytes::opt_bytes(self.codec_private),
            default_duration_ns: self.default_duration_ns,
            codec_delay_ns: self.codec_delay_ns,
            seek_pre_roll_ns: self.seek_pre_roll_ns,
            language: text::opt_chars(self.language),
            name: text::opt_chars(self.name),
            flag_default: self.flag_default,
            flag_forced: self.flag_forced,
            video: self.video,
            audio: self.audio,
        }
    }
}

/// A track of no particular kind, with nothing but the default flag set.
pub open spec fn plain_descriptor() -> DescriptorView {
    DescriptorView {
        kind: TrackKind::Other(0),
        codec_id: Seq::empty(),
        codec_private: None,
        default_duration_ns: None,
        codec_delay_ns: 0,
        seek_pre_roll_ns: 0,
        language: None,
        name: None,
        flag_default: true,
        flag_forced: false,
        video: None,
        audio: None,
    }
}

impl Default for TrackDescriptor {
    fn default() -> (r: Self)
        ensures
            r@ == plain_descriptor(),
    {
        let codec_id = String::new();
        assert(codec_id@ =~= Seq::<char>::empty());
        TrackDescriptor {
            kind: TrackKind::Other(0),
            codec_id,
            codec_private: None,
            default_duration_ns: None,
            codec_delay_ns: 0,
            seek_pre_roll_ns: 0,
            language: None,
            name: None,
            flag_default: true,
            flag_forced: false,
            video: None,
            audio: None,
        }
    }
}

impl TrackDescriptor {
    /// An audio track. `sampling_frequency` is the bits of a double.
    pub fn audio(codec_id: &str, sampling_frequency: u64, channels: u32) -> (r: Self)
        ensures
            r@ == (DescriptorView {
                kind: TrackKind::Audio,
                codec_id: codec_id@,
                audio: Some(
                    AudioParams {
                        sampling_frequency: FloatBits::Double(sampling_frequency),
                        output_sampling_frequency: None,
                        channels,
                        bit_depth: None,
                    },
                ),
                ..plain_descriptor()
            }),
    {
        let mut d = TrackDescriptor::default();
        d.kind = TrackKind::Audio;
        d.codec_id = codec_id.to_owned();
        d.audio = Some(
            AudioParams {
                sampling_frequency: FloatBits::Double(sampling_frequency),
                output_sampling_frequency: None,
                channels,
                bit_depth: None,
            },
        );
        d
    }

    /// A video track.
    pub fn video(codec_id: &str, pixel_width: u32, pixel_height: u32) -> (r: Self)
        ensures
            r@ == (DescriptorView {
                kind: TrackKind::Video,
                codec_id: codec_id@,
                video: Some(
                    VideoParams {
                        pixel_width,
                        pixel_height,
                        display_width: None,
                        display_height: None,
                    },
                ),
                ..plain_descriptor()
            }),
    {
        let mut d = TrackDescriptor::default();
        d.kind = TrackKind::Video;
        d.codec_id = codec_id.to_owned();
        d.video = Some(
            VideoParams { pixel_width, pixel_height, display_width: None, display_height: None },
        );
        d
    }
}

/// The items with one more, if there is one more.
pub open spec fn with(items: Seq<(u64, Seq<u8>)>, cond: bool, id: u64, payload: Seq<u8>) -> Seq<
    (u64, Seq<u8>),
> {
    if cond {
        items.push((id, payload))
    } else {
        items
    }
}

/// The EBML header's children.
pub open spec fn ebml_items(d: DocType) -> Seq<(u64, Seq<u8>)> {
    Seq::empty().push((ids::EBML_VERSION, writer::uint_bytes(1))).push(
        (ids::EBML_READ_VERSION, writer::uint_bytes(1)),
    ).push((ids::EBML_MAX_ID_LENGTH, writer::uint_bytes(4))).push(
        (ids::EBML_MAX_SIZE_LENGTH, writer::uint_bytes(8)),
    ).push((ids::DOC_TYPE, encode_utf8(d.name()))).push(
        (ids::DOC_TYPE_VERSION, writer::uint_bytes(4)),
    ).push((ids::DOC_TYPE_READ_VERSION, writer::uint_bytes(2)))
}

/// The EBML header.
pub open spec fn ebml_bytes(d: DocType) -> Seq<u8> {
    writer::element_bytes(ids::EBML, writer::items_bytes(ebml_items(d)))
}

/// Info's children. `duration` is the bits of a double, in ticks.
pub open spec fn info_items(
    duration: Option<u64>,
    muxing_app: Seq<char>,
    writing_app: Seq<char>,
) -> Seq<(u64, Seq<u8>)> {
    with(
        Seq::empty().push((ids::TIMESTAMP_SCALE, writer::uint_bytes(TIMESTAMP_SCALE_NS))),
        duration is Some,
        ids::DURATION,
        bytes::be64(duration->Some_0),
    ).push((ids::MUXING_APP, encode_utf8(muxing_app))).push(
        (ids::WRITING_APP, encode_utf8(writing_app)),
    )
}

/// A float as it is stored: always a double.
pub open spec fn float_bytes(f: FloatBits) -> Seq<u8> {
    bytes::be64(f.wide())
}

/// Video's children.
pub open spec fn video_items(v: VideoParams) -> Seq<(u64, Seq<u8>)> {
    let a = Seq::<(u64, Seq<u8>)>::empty().push(
        (ids::PIXEL_WIDTH, writer::uint_bytes(v.pixel_width as u64)),
    ).push((ids::PIXEL_HEIGHT, writer::uint_bytes(v.pixel_height as u64)));
    let b = with(
        a,
        v.display_width is Some,
        ids::DISPLAY_WIDTH,
        writer::uint_bytes(v.display_width->Some_0 as u64),
    );
    with(
        b,
        v.display_height is Some,
        ids::DISPLAY_HEIGHT,
        writer::uint_bytes(v.display_height->Some_0 as u64),
    )
}

/// Audio's children.
pub open spec fn audio_items(p: AudioParams) -> Seq<(u64, Seq<u8>)> {
    let a = Seq::<(u64, Seq<u8>)>::empty().push(
        (ids::SAMPLING_FREQUENCY, float_bytes(p.sampling_frequency)),
    );
    let b = with(
        a,
        p.output_sampling_frequency is Some,
        ids::OUTPUT_SAMPLING_FREQUENCY,
        float_bytes(p.output_sampling_frequency->Some_0),
    ).push((ids::CHANNELS, writer::uint_bytes(p.channels as u64)));
    with(b, p.bit_depth is Some, ids::BIT_DEPTH, writer::uint_bytes(p.bit_depth->Some_0 as u64))
}

/// The TrackType value of a kind.
pub open spec fn kind_value(k: TrackKind) -> u64 {
    match k {
        TrackKind::Video => track_type::VIDEO,
        TrackKind::Audio => track_type::AUDIO,
        TrackKind::Subtitle => track_type::SUBTITLE,
        TrackKind::Other(v) => v as u64,
    }
}

/// The UID of the track with the given number: odd, so never zero.
pub open spec fn uid_of(number: u64) -> u64 {
    vstd::wrapping::u64_specs::wrapping_mul(number, 0x9E37_79B9_7F4A_7C15) | 1
}

/// The first children of a TrackEntry, those always present.
pub open spec fn track_head_items(number: u64, d: DescriptorView) -> Seq<(u64, Seq<u8>)> {
    Seq::empty().push((ids::TRACK_NUMBER, writer::uint_bytes(number))).push(
        (ids::TRACK_UID, writer::uint_bytes(uid_of(number))),
    ).push((ids::TRACK_TYPE, writer::uint_bytes(kind_value(d.kind)))).push(
        (ids::FLAG_ENABLED, writer::uint_bytes(1)),
    ).push((ids::FLAG_DEFAULT, writer::uint_bytes(d.flag_default as u64))).push(
        (ids::FLAG_FORCED, writer::uint_bytes(d.flag_forced as u64)),
    ).push((ids::FLAG_LACING, writer::uint_bytes(0))).push(
        (ids::CODEC_ID, encode_utf8(d.codec_id)),
    )
}

/// A TrackEntry's children up to its timing.
pub open spec fn track_timing_items(number: u64, d: DescriptorView) -> Seq<(u64, Seq<u8>)> {
    let a = with(
        track_head_items(number, d),
        d.codec_private is Some,
        ids::CODEC_PRIVATE,
        d.codec_private->Some_0,
    );
    let b = with(
        a,
        d.default_duration_ns is Some,
        ids::DEFAULT_DURATION,
        writer::uint_bytes(d.default_duration_ns->Some_0),
    );
    let c = with(
        b,
        d.codec_delay_ns != 0,
        ids::CODEC_DELAY,
        writer::uint_bytes(d.codec_delay_ns),
    );
    with(
        c,
        d.seek_pre_roll_ns != 0,
        ids::SEEK_PRE_ROLL,
        writer::uint_bytes(d.seek_pre_roll_ns),
    )
}

/// A TrackEntry's children.
pub open spec fn track_items(number: u64, d: DescriptorView) -> Seq<(u64, Seq<u8>)> {
    let a = with(
        track_timing_items(number, d),
        d.language is Some,
        ids::LANGUAGE,
        encode_utf8(d.language->Some_0),
    );
    let b = with(a, d.name is Some, ids::NAME, encode_utf8(d.name->Some_0));
    let c = with(
        b,
        d.video is Some,
        ids::VIDEO,
        writer::items_bytes(video_items(d.video->Some_0)),
    );
    with(c, d.audio is Some, ids::AUDIO, writer::items_bytes(audio_items(d.audio->Some_0)))
}

/// Tracks' children: track `i` has number `i + 1`.
pub open spec fn tracks_items(tracks: Seq<DescriptorView>) -> Seq<(u64, Seq<u8>)> {
    Seq::new(
        tracks.len(),
        |i: int|
            (ids::TRACK_ENTRY, writer::items_bytes(track_items((i + 1) as u64, tracks[i]))),
    )
}

/// One SimpleBlock as it was appended.
pub struct BlockLog {
    pub track: u64,
    pub delta: i16,
    pub keyframe: bool,
    pub data: Seq<u8>,
}

/// One finished Cluster: its time in ticks and its blocks.
pub struct ClusterLog {
    pub start: u64,
    pub blocks: Seq<BlockLog>,
}

/// A SimpleBlock's payload.
pub open spec fn block_payload(b: BlockLog) -> Seq<u8> {
    writer::size_bytes(b.track as nat) + bytes::be16i(b.delta) + seq![
        if b.keyframe {
            0x80u8
        } else {
            0u8
        },
    ] + b.data
}

/// SimpleBlocks one after the other.
pub open spec fn block_items(blocks: Seq<BlockLog>) -> Seq<(u64, Seq<u8>)> {
    blocks.map_values(|b: BlockLog| (ids::SIMPLE_BLOCK, block_payload(b)))
}

/// A Cluster's children.
pub open spec fn cluster_items(c: ClusterLog) -> Seq<(u64, Seq<u8>)> {
    Seq::empty().push((ids::TIMESTAMP, writer::uint_bytes(c.start))) + block_items(c.blocks)
}

/// A Cluster's payload: its time, then its blocks.
pub open spec fn cluster_payload(c: ClusterLog) -> Seq<u8> {
    writer::element_bytes(ids::TIMESTAMP, writer::uint_bytes(c.start)) + writer::items_bytes(
        block_items(c.blocks),
    )
}

/// Clusters one after the other.
pub open spec fn clusters_items(done: Seq<ClusterLog>) -> Seq<(u64, Seq<u8>)> {
    done.map_values(|c: ClusterLog| (ids::CLUSTER, cluster_payload(c)))
}

/// Clusters on the wire.
pub open spec fn clusters_bytes(done: Seq<ClusterLog>) -> Seq<u8> {
    writer::items_bytes(clusters_items(done))
}

/// The track and the time of each keyframe among `blocks`.
pub open spec fn keyframes(start: u64, blocks: Seq<BlockLog>) -> Seq<(u64, u64)>
    decreases blocks.len(),
{
    if blocks.len() == 0 {
        Seq::empty()
    } else {
        let rest = keyframes(start, blocks.drop_last());
        let b = blocks.last();
        if b.keyframe {
            rest.push((b.track, (start + b.delta) as u64))
        } else {
            rest
        }
    }
}

/// One entry of the index that a finished file carries.
pub struct CueView {
    pub ticks: u64,
    pub track: u64,
    /// Offset of the Cluster among the Clusters.
    pub offset: int,
}

/// The index entries of one Cluster.
pub open spec fn cluster_cues(c: ClusterLog, offset: int) -> Seq<CueView> {
    keyframes(c.start, c.blocks).map_values(
        |k: (u64, u64)| CueView { ticks: k.1, track: k.0, offset },
    )
}

/// The index entries of the finished Clusters.
pub open spec fn cues(done: Seq<ClusterLog>) -> Seq<CueView>
    decreases done.len(),
{
    if done.len() == 0 {
        Seq::empty()
    } else {
        cues(done.drop_last()) + cluster_cues(
            done.last(),
            clusters_bytes(done.drop_last()).len() as int,
        )
    }
}

/// One CuePoint's children, the Clusters standing at `base` in the Segment.
pub open spec fn cue_items(c: CueView, base: int) -> Seq<(u64, Seq<u8>)> {
    Seq::empty().push((ids::CUE_TIME, writer::uint_bytes(c.ticks))).push(
        (ids::CUE_TRACK_POSITIONS, writer::items_bytes(cue_position_items(c, base))),
    )
}

/// One CueTrackPositions' children.
pub open spec fn cue_position_items(c: CueView, base: int) -> Seq<(u64, Seq<u8>)> {
    Seq::empty().push((ids::CUE_TRACK, writer::uint_bytes(c.track))).push(
        (ids::CUE_CLUSTER_POSITION, writer::uint_bytes((base + c.offset) as u64)),
    )
}

/// Cues' children.
pub open spec fn cues_items(cs: Seq<CueView>, base: int) -> Seq<(u64, Seq<u8>)> {
    cs.map_values(|c: CueView| (ids::CUE_POINT, writer::items_bytes(cue_items(c, base))))
}

/// One Seek entry's children.
pub open spec fn seek_items(id: u64, position: u64) -> Seq<(u64, Seq<u8>)> {
    Seq::empty().push((ids::SEEK_ID, writer::id_bytes(id))).push(
        (ids::SEEK_POSITION, bytes::fixed(position as nat, 8)),
    )
}

/// How long one Seek entry for the target `id` is.
pub open spec fn seek_entry_len(id: u64) -> nat {
    writer::element_len(
        ids::SEEK,
        writer::element_len(ids::SEEK_ID, writer::id_width_spec(id) as nat) + writer::element_len(
            ids::SEEK_POSITION,
            8,
        ),
    )
}

/// How long the SeekHead is: two entries, or three if there are Cues.
pub open spec fn seek_head_len(has_cues: bool) -> nat {
    writer::element_len(
        ids::SEEK_HEAD,
        seek_entry_len(ids::INFO) + seek_entry_len(ids::TRACKS) + if has_cues {
            seek_entry_len(ids::CUES)
        } else {
            0
        },
    )
}

/// The value of a [`Muxer`].
pub struct MuxView {
    pub doc_type: DocType,
    pub tracks: Seq<DescriptorView>,
    /// The finished Clusters.
    pub done: Seq<ClusterLog>,
    /// The blocks of the Cluster in progress.
    pub open: Seq<BlockLog>,
    /// The time of the Cluster in progress.
    pub start: Option<u64>,
    pub cluster_duration_ns: u64,
    pub muxing_app: Seq<char>,
    pub writing_app: Seq<char>,
    pub streaming: bool,
    pub initialized: bool,
    /// How many bytes of the finished Clusters were handed out.
    pub drained: int,
    /// The latest presentation end seen.
    pub max_end_ns: u64,
}

/// A muxer on which nothing was done yet.
pub open spec fn fresh(doc_type: DocType) -> MuxView {
    MuxView {
        doc_type,
        tracks: Seq::empty(),
        done: Seq::empty(),
        open: Seq::empty(),
        start: None,
        cluster_duration_ns: DEFAULT_CLUSTER_DURATION_NS,
        muxing_app: "media-mkv-webm"@,
        writing_app: "media-mkv-webm"@,
        streaming: false,
        initialized: false,
        drained: 0,
        max_end_ns: 0,
    }
}

/// Closes the Cluster in progress.
pub open spec fn flushed(m: MuxView) -> MuxView {
    if m.open.len() == 0 {
        MuxView { start: None, ..m }
    } else {
        MuxView {
            done: m.done.push(ClusterLog { start: m.start->Some_0, blocks: m.open }),
            open: Seq::empty(),
            start: None,
            ..m
        }
    }
}

/// Whether a frame at `ts_ns` must go into a new Cluster: the one in progress
/// spans the Cluster duration, or a video keyframe starts after it began.
pub open spec fn must_flush(m: MuxView, kind: TrackKind, ts_ns: u64, keyframe: bool) -> bool {
    match m.start {
        None => false,
        Some(start) => {
            let behind = ts_ns - start * TIMESTAMP_SCALE_NS;
            behind >= m.cluster_duration_ns || (kind == TrackKind::Video && keyframe && behind > 0)
        },
    }
}

/// What appending one frame to track `track` makes of `m`.
pub open spec fn appended(
    m: MuxView,
    track: u64,
    packet: Seq<u8>,
    ts_ns: u64,
    keyframe: bool,
) -> Result<MuxView, Error> {
    if m.streaming && !m.initialized {
        Err(Error::Unsupported { what: "append before begin_stream in streaming mode" })
    } else if !(1 <= track <= m.tracks.len()) {
        Err(Error::Malformed("unknown track number in append()"))
    } else {
        let d = m.tracks[track - 1];
        let f = if must_flush(m, d.kind, ts_ns, keyframe) {
            flushed(m)
        } else {
            m
        };
        let ticks = (ts_ns / TIMESTAMP_SCALE_NS) as u64;
        let start = match f.start {
            Some(s) => s,
            None => ticks,
        };
        let delta = ticks - start;
        if !(i16::MIN <= delta <= i16::MAX) {
            Err(Error::Malformed("block delta exceeds i16 range; cluster too long"))
        } else {
            let end = ts_ns + match d.default_duration_ns {
                Some(n) => n as int,
                None => 0,
            };
            let end64 = if end > u64::MAX {
                u64::MAX
            } else {
                end as u64
            };
            Ok(
                MuxView {
                    start: Some(start),
                    open: f.open.push(BlockLog { track, delta: delta as i16, keyframe, data: packet }),
                    max_end_ns: if end64 > f.max_end_ns {
                        end64
                    } else {
                        f.max_end_ns
                    },
                    ..f
                },
            )
        }
    }
}

/// What registering a track makes of `m`. WebM refuses codecs outside its whitelist.
pub open spec fn registered(m: MuxView, d: DescriptorView) -> Result<MuxView, Error> {
    if m.initialized {
        Err(Error::Unsupported { what: "register_track after begin_stream" })
    } else if m.doc_type == DocType::Webm && !profile::codec_allowed(DocType::Webm, d.codec_id) {
        Err(Error::Unsupported { what: "codec not allowed in WebM profile" })
    } else if !demux::prefix_ok(d.kind, d.codec_id) {
        Err(Error::Malformed("CodecID prefix doesn't match TrackType"))
    } else {
        Ok(MuxView { tracks: m.tracks.push(d), ..m })
    }
}

/// What beginning a stream gives, and what it makes of `m`.
pub open spec fn begun(m: MuxView) -> Result<(Seq<u8>, MuxView), Error> {
    if !m.streaming {
        Err(Error::Unsupported { what: "begin_stream requires enable_streaming" })
    } else if m.initialized {
        Err(Error::Unsupported { what: "begin_stream already called" })
    } else {
        Ok((init_bytes(m), MuxView { initialized: true, ..m }))
    }
}

/// What taking output gives, and what it makes of `m`: the bytes of the Clusters that
/// were finished since output was taken last, once a stream has begun.
pub open spec fn drained(m: MuxView) -> (Seq<u8>, MuxView) {
    if m.streaming && m.initialized {
        (
            clusters_bytes(m.done).skip(m.drained),
            MuxView { drained: clusters_bytes(m.done).len() as int, ..m },
        )
    } else {
        (Seq::empty(), m)
    }
}

/// What finishing a stream gives.
pub open spec fn finished_stream(m: MuxView) -> Result<Seq<u8>, Error> {
    if !m.streaming {
        Err(Error::Unsupported { what: "finish_stream requires enable_streaming" })
    } else if !m.initialized {
        Err(Error::Unsupported { what: "finish_stream before begin_stream" })
    } else {
        Ok(clusters_bytes(flushed(m).done).skip(m.drained))
    }
}

/// What finishing a file gives.
pub open spec fn finished_file(m: MuxView, bits: u64) -> Result<Seq<u8>, Error> {
    if m.streaming {
        Err(
            Error::Unsupported {
                what: "finalize() not valid in streaming mode — use finish_stream",
            },
        )
    } else {
        Ok(file_bytes(flushed(m), declared_duration(m, bits)))
    }
}

/// Info of a written stream.
pub open spec fn info_body(m: MuxView, duration: Option<u64>) -> Seq<u8> {
    writer::items_bytes(info_items(duration, m.muxing_app, m.writing_app))
}

/// Tracks of a written stream.
pub open spec fn tracks_body(m: MuxView) -> Seq<u8> {
    writer::items_bytes(tracks_items(m.tracks))
}

/// Offset of Info in the Segment.
pub open spec fn info_at(m: MuxView) -> int {
    seek_head_len(cues(m.done).len() > 0) as int
}

/// Offset of Tracks in the Segment.
pub open spec fn tracks_at(m: MuxView, duration: Option<u64>) -> int {
    info_at(m) + writer::element_bytes(ids::INFO, info_body(m, duration)).len()
}

/// Offset of the first Cluster in the Segment.
pub open spec fn clusters_at(m: MuxView, duration: Option<u64>) -> int {
    tracks_at(m, duration) + writer::element_bytes(ids::TRACKS, tracks_body(m)).len()
}

/// Offset of Cues in the Segment.
pub open spec fn cues_at(m: MuxView, duration: Option<u64>) -> int {
    clusters_at(m, duration) + clusters_bytes(m.done).len()
}

/// SeekHead's children: where Info, Tracks and, if present, Cues stand.
pub open spec fn seek_head_items(m: MuxView, duration: Option<u64>) -> Seq<(u64, Seq<u8>)> {
    with(
        Seq::<(u64, Seq<u8>)>::empty().push(
            (ids::SEEK, writer::items_bytes(seek_items(ids::INFO, info_at(m) as u64))),
        ).push(
            (
                ids::SEEK,
                writer::items_bytes(seek_items(ids::TRACKS, tracks_at(m, duration) as u64)),
            ),
        ),
        cues(m.done).len() > 0,
        ids::SEEK,
        writer::items_bytes(seek_items(ids::CUES, cues_at(m, duration) as u64)),
    )
}

/// The Segment's children before the Clusters.
pub open spec fn head_items(m: MuxView, duration: Option<u64>) -> Seq<(u64, Seq<u8>)> {
    Seq::empty().push((ids::SEEK_HEAD, writer::items_bytes(seek_head_items(m, duration)))).push(
        (ids::INFO, info_body(m, duration)),
    ).push((ids::TRACKS, tracks_body(m)))
}

/// The Segment's children.
#[verifier::opaque]
pub open spec fn segment_items(m: MuxView, duration: Option<u64>) -> Seq<(u64, Seq<u8>)> {
    with(
        head_items(m, duration) + clusters_items(m.done),
        cues(m.done).len() > 0,
        ids::CUES,
        writer::items_bytes(cues_items(cues(m.done), clusters_at(m, duration))),
    )
}

/// The finished file of a muxer whose Clusters are all closed.
#[verifier::opaque]
pub open spec fn file_bytes(m: MuxView, duration: Option<u64>) -> Seq<u8> {
    ebml_bytes(m.doc_type) + writer::element_bytes(
        ids::SEGMENT,
        writer::items_bytes(segment_items(m, duration)),
    )
}

/// The init segment of a stream: the EBML header, the opening of an unknown-size
/// Segment, Info and Tracks.
pub open spec fn init_bytes(m: MuxView) -> Seq<u8> {
    ebml_bytes(m.doc_type) + writer::id_bytes(ids::SEGMENT).push(0xFF) + writer::element_bytes(
        ids::INFO,
        info_body(m, None),
    ) + writer::element_bytes(ids::TRACKS, tracks_body(m))
}

/// How many bytes of Clusters and blocks are held.
pub open spec fn bulk(m: MuxView) -> nat {
    clusters_bytes(m.done).len() + writer::items_bytes(block_items(m.open)).len()
}

#[derive(Debug, Clone)]
struct TrackState {
    desc: TrackDescriptor,
    /// Assigned at registration, from one up.
    number: u64,
}

/// One index entry.
#[derive(Debug, Clone)]
struct CueEntry {
    ts_ticks: u64,
    track_number: u64,
    /// Offset of the Cluster among the finished Clusters.
    cluster_offset: usize,
}

spec fn cue_views(v: Seq<CueEntry>) -> Seq<CueView> {
    v.map_values(
        |c: CueEntry|
            CueView { ticks: c.ts_ticks, track: c.track_number, offset: c.cluster_offset as int },
    )
}

spec fn descriptor_views(v: Seq<TrackState>) -> Seq<DescriptorView> {
    v.map_values(|t: TrackState| t.desc@)
}

/// Writes Matroska or WebM.
pub struct Muxer {
    doc_type: DocType,
    tracks: Vec<TrackState>,
    /// Finished Clusters.
    clusters: Vec<u8>,
    cluster_start_ts_ticks: Option<u64>,
    /// Blocks of the Cluster in progress.
    cluster_blocks: Vec<u8>,
    /// Keyframes of the Cluster in progress.
    current_cluster_keyframes: Vec<(u64, u64)>,
    cue_points: Vec<CueEntry>,
    cluster_duration_ns: u64,
    muxing_app: String,
    writing_app: String,
    streaming: bool,
    stream_initialized: bool,
    clusters_drained: usize,
    max_end_ns: u64,
    done: Ghost<Seq<ClusterLog>>,
    open: Ghost<Seq<BlockLog>>,
}

impl View for Muxer {
    type V = MuxView;

    closed spec fn view(&self) -> MuxView {
        MuxView {
            doc_type: self.doc_type,
            tracks: descriptor_views(self.tracks@),
            done: self.done@,
            open: self.open@,
            start: self.cluster_start_ts_ticks,
            cluster_duration_ns: self.cluster_duration_ns,
            muxing_app: self.muxing_app@,
            writing_app: self.writing_app@,
            streaming: self.streaming,
            initialized: self.stream_initialized,
            drained: self.clusters_drained as int,
            max_end_ns: self.max_end_ns,
        }
    }
}

impl Muxer {
    /// The bytes held are those of the frames appended, and the index that of the
    /// keyframes among them.
    pub closed spec fn wf(&self) -> bool {
        &&& self.clusters@ == clusters_bytes(self.done@)
        &&& self.cluster_blocks@ == writer::items_bytes(block_items(self.open@))
        &&& (self.cluster_start_ts_ticks is Some <==> self.open@.len() > 0)
        &&& (self.cluster_start_ts_ticks matches Some(s) ==> s * TIMESTAMP_SCALE_NS <= u64::MAX)
        &&& self.current_cluster_keyframes@ == match self.cluster_start_ts_ticks {
            Some(s) => keyframes(s, self.open@),
            None => Seq::empty(),
        }
        &&& cue_views(self.cue_points@) == cues(self.done@)
        &&& self.tracks@.len() + 1 < writer::size_limit()
        &&& forall|i: int|
            0 <= i < self.tracks@.len() ==> (#[trigger] self.tracks@[i]).number == i + 1
        &&& self.clusters_drained <= self.clusters@.len()
        &&& 0 < self.cluster_duration_ns <= MAX_CLUSTER_DURATION_NS
    }

    /// A muxer for the given profile.
    pub fn new(doc_type: DocType) -> (r: Self)
        ensures
            r.wf(),
            r@ == fresh(doc_type),
    {
        let r = Muxer {
            doc_type,
            tracks: Vec::new(),
            clusters: Vec::new(),
            cluster_start_ts_ticks: None,
            cluster_blocks: Vec::new(),
            current_cluster_keyframes: Vec::new(),
            cue_points: Vec::new(),
            cluster_duration_ns: DEFAULT_CLUSTER_DURATION_NS,
            muxing_app: "media-mkv-webm".to_owned(),
            writing_app: "media-mkv-webm".to_owned(),
            streaming: false,
            stream_initialized: false,
            clusters_drained: 0,
            max_end_ns: 0,
            done: Ghost(Seq::empty()),
            open: Ghost(Seq::empty()),
        };
        proof {
            assert(clusters_items(Seq::<ClusterLog>::empty()) =~= Seq::empty());
            assert(block_items(Seq::<BlockLog>::empty()) =~= Seq::empty());
            assert(cue_views(r.cue_points@) =~= Seq::empty());
            assert(descriptor_views(r.tracks@) =~= Seq::empty());
            assert(r.clusters@ =~= clusters_bytes(r.done@));
            assert(r.cluster_blocks@ =~= writer::items_bytes(block_items(r.open@)));
            assert(r.current_cluster_keyframes@ =~= Seq::empty());
        }
        r
    }

    /// Enters streaming mode.
    pub fn enable_streaming(&mut self)
        requires
            old(self).wf(),
        ensures
            final(self).wf(),
            final(self)@ == (MuxView { streaming: true, ..old(self)@ }),
    {
        self.streaming = true;
    }

    /// Whether streaming mode was entered.
    pub fn is_streaming(&self) -> (r: bool)
        ensures
            r == self@.streaming,
    {
        self.streaming
    }

    /// The latest presentation end of the frames appended.
    pub fn end_ns(&self) -> (r: u64)
        ensures
            r == self@.max_end_ns,
    {
        self.max_end_ns
    }

    /// Sets the Cluster duration, which must leave block deltas within 16 signed
    /// bits.
    pub fn set_cluster_duration_ns(&mut self, ns: u64) -> (r: Result<(), Error>)
        requires
            old(self).wf(),
        ensures
            final(self).wf(),
            if ns == 0 || ns > MAX_CLUSTER_DURATION_NS {
                r == Err::<(), Error>(
                    Error::Unsupported { what: "cluster duration out of i16 block-delta range" },
                ) && final(self)@ == old(self)@
            } else {
                r is Ok && final(self)@ == (MuxView { cluster_duration_ns: ns, ..old(self)@ })
            },
    {
        if ns == 0 || ns > MAX_CLUSTER_DURATION_NS {
            return Err(
                Error::Unsupported { what: "cluster duration out of i16 block-delta range" },
            );
        }
        self.cluster_duration_ns = ns;
        Ok(())
    }

    /// Sets the WritingApp text.
    pub fn set_writing_app(&mut self, name: String)
        requires
            old(self).wf(),
        ensures
            final(self).wf(),
            final(self)@ == (MuxView { writing_app: name@, ..old(self)@ }),
    {
        self.writing_app = name;
    }

    /// Registers a track and returns its number, one more than the last. WebM
    /// refuses codecs outside its whitelist.
    pub fn register_track(&mut self, desc: TrackDescriptor) -> (r: Result<u64, Error>)
        requires
            old(self).wf(),
            old(self)@.tracks.len() + 2 < writer::size_limit(),
        ensures
            final(self).wf(),
            match registered(old(self)@, desc@) {
                Ok(m) => {
                    &&& r == Ok::<u64, Error>((old(self)@.tracks.len() + 1) as u64)
                    &&& final(self)@ == m
                },
                Err(e) => r == Err::<u64, Error>(e) && final(self)@ == old(self)@,
            },
    {
        if self.stream_initialized {
            return Err(Error::Unsupported { what: "register_track after begin_stream" });
        }
        if self.doc_type == DocType::Webm && !is_codec_allowed(
            DocType::Webm,
            desc.codec_id.as_str(),
        ) {
            return Err(Error::Unsupported { what: "codec not allowed in WebM profile" });
        }
        if !demux::prefix_matches(desc.kind, desc.codec_id.as_str()) {
            return Err(Error::Malformed("CodecID prefix doesn't match TrackType"));
        }
        let number: u64 = self.tracks.len() as u64 + 1;
        let ghost d = desc@;
        self.tracks.push(TrackState { desc, number });
        assert(descriptor_views(self.tracks@) =~= descriptor_views(old(self).tracks@).push(d));
        Ok(number)
    }

    /// Closes the Cluster in progress, if it holds a block.
    fn flush_cluster(&mut self)
        requires
            old(self).wf(),
            bulk(old(self)@) + 16 < writer::size_limit(),
        ensures
            final(self).wf(),
            final(self)@ == flushed(old(self)@),
    {
        if self.cluster_blocks.is_empty() {
            proof {
                if self.open@.len() > 0 {
                    writer::lemma_item_fits(block_items(self.open@), 0);
                }
            }
            self.cluster_start_ts_ticks = None;
            self.current_cluster_keyframes.clear();
            assert(self.current_cluster_keyframes@ =~= Seq::empty());
            return ;
        }
        proof {
            if self.open@.len() == 0 {
                assert(block_items(self.open@) =~= Seq::empty());
            }
        }
        let start: u64 = match self.cluster_start_ts_ticks {
            Some(s) => s,
            None => 0,
        };
        let cluster_offset: usize = self.clusters.len();
        let ghost log = ClusterLog { start, blocks: self.open@ };
        let mut cluster: Vec<u8> = Vec::new();
        writer::write_uint(ids::TIMESTAMP, start, &mut cluster);
        bytes::put_slice(&mut cluster, self.cluster_blocks.as_slice());
        proof {
            assert(cluster@ =~= cluster_payload(log));
            writer::law_uint_reads_back(start);
            writer::lemma_element_len(ids::TIMESTAMP, writer::uint_bytes(start));
            reveal(writer::size_width);
            reveal_with_fuel(writer::size_width_from, 3);
        }
        writer::write_master(ids::CLUSTER, cluster.as_slice(), &mut self.clusters);
        proof {
            lemma_clusters_push(self.done@, log);
        }
        let n: usize = self.current_cluster_keyframes.len();
        let ghost before = self.cue_points@;
        let ghost fresh_cues = cluster_cues(log, cluster_offset as int);
        let mut i: usize = 0;
        while i < n
            invariant
                i <= n == self.current_cluster_keyframes@.len(),
                self.current_cluster_keyframes@ == old(self).current_cluster_keyframes@,
                self.current_cluster_keyframes@ == keyframes(log.start, log.blocks),
                fresh_cues == cluster_cues(log, cluster_offset as int),
                cue_views(self.cue_points@) == cue_views(before) + fresh_cues.take(i as int),
                self.clusters@ == clusters_bytes(old(self).done@.push(log)),
                self.doc_type == old(self).doc_type,
                self.tracks == old(self).tracks,
                self.cluster_duration_ns == old(self).cluster_duration_ns,
                self.muxing_app == old(self).muxing_app,
                self.writing_app == old(self).writing_app,
                self.streaming == old(self).streaming,
                self.stream_initialized == old(self).stream_initialized,
                self.clusters_drained == old(self).clusters_drained,
                self.max_end_ns == old(self).max_end_ns,
                self.done == old(self).done,
                self.open == old(self).open,
            decreases n - i,
        {
            let (track_number, ts_ticks) = self.current_cluster_keyframes[i];
            let ghost prior = self.cue_points@;
            self.cue_points.push(CueEntry { ts_ticks, track_number, cluster_offset });
            proof {
                let v = CueView { ticks: ts_ticks, track: track_number, offset: cluster_offset as int };
                assert(cue_views(self.cue_points@) =~= cue_views(prior).push(v));
                assert(fresh_cues[i as int] == v);
                assert(fresh_cues.take(i + 1) =~= fresh_cues.take(i as int).push(v));
                assert(cue_views(self.cue_points@) =~= cue_views(before) + fresh_cues.take(i + 1));
            }
            i = i + 1;
        }
        self.current_cluster_keyframes.clear();
        self.cluster_blocks.clear();
        self.cluster_start_ts_ticks = None;
        proof {
            assert(fresh_cues.take(n as int) =~= fresh_cues);
            assert(self.done@.push(log).drop_last() =~= self.done@);
            self.done@ = self.done@.push(log);
            self.open@ = Seq::empty();
            assert(block_items(self.open@) =~= Seq::empty());
            assert(self.cluster_blocks@ =~= Seq::empty());
            assert(self.current_cluster_keyframes@ =~= Seq::empty());
        }
    }

    /// Appends one encoded packet to track `track_number` at `ts_ns`.
    pub fn append(&mut self, track_number: u64, packet: &[u8], ts_ns: u64, keyframe: bool) -> (r:
        Result<(), Error>)
        requires
            old(self).wf(),
            bulk(old(self)@) + packet@.len() + 64 < writer::size_limit(),
        ensures
            final(self).wf(),
            match appended(old(self)@, track_number, packet@, ts_ns, keyframe) {
                Ok(m) => r is Ok && final(self)@ == m,
                Err(e) => r == Err::<(), Error>(e) && final(self)@ == old(self)@,
            },
    {
        if self.streaming && !self.stream_initialized {
            return Err(
                Error::Unsupported { what: "append before begin_stream in streaming mode" },
            );
        }
        if track_number == 0 || track_number > self.tracks.len() as u64 {
            return Err(Error::Malformed("unknown track number in append()"));
        }
        let at: usize = (track_number - 1) as usize;
        let kind: TrackKind = self.tracks[at].desc.kind;
        let frame_duration_ns: u64 = match self.tracks[at].desc.default_duration_ns {
            Some(d) => d,
            None => 0,
        };
        let ghost d = self@.tracks[at as int];
        assert(d == self.tracks@[at as int].desc@);
        let ts_ticks: u64 = ts_ns / TIMESTAMP_SCALE_NS;
        let flush = match self.cluster_start_ts_ticks {
            None => false,
            Some(start) => {
                let start_ns: u64 = start * TIMESTAMP_SCALE_NS;
                let behind: u64 = if ts_ns > start_ns {
                    ts_ns - start_ns
                } else {
                    0
                };
                behind >= self.cluster_duration_ns || (kind == TrackKind::Video && keyframe
                    && behind > 0)
            },
        };
        assert(flush == must_flush(self@, kind, ts_ns, keyframe));
        if flush {
            self.flush_cluster();
        }
        let ghost f = self@;
        let start: u64 = match self.cluster_start_ts_ticks {
            Some(s) => s,
            None => ts_ticks,
        };
        let delta: i64 = ts_ticks as i64 - start as i64;
        if delta < -0x8000 || delta > 0x7FFF {
            return Err(Error::Malformed("block delta exceeds i16 range; cluster too long"));
        }
        let ghost log = BlockLog { track: track_number, delta: delta as i16, keyframe, data: packet@ };
        write_simple_block(track_number, delta as i16, keyframe, packet, &mut self.cluster_blocks);
        self.cluster_start_ts_ticks = Some(start);
        if keyframe {
            self.current_cluster_keyframes.push((track_number, ts_ticks));
        }
        let end: u64 = match ts_ns.checked_add(frame_duration_ns) {
            Some(e) => e,
            None => u64::MAX,
        };
        if end > self.max_end_ns {
            self.max_end_ns = end;
        }
        proof {
            lemma_blocks_push(self.open@, log);
            assert(self.open@.push(log).drop_last() =~= self.open@);
            if self.open@.len() == 0 {
                assert(keyframes(start, self.open@) =~= Seq::empty());
            }
            self.open@ = self.open@.push(log);
        }
        Ok(())
    }

    /// The TrackEntries of all tracks.
    fn build_tracks(&self) -> (v: Vec<u8>)
        requires
            self.wf(),
            tracks_body(self@).len() < writer::size_limit(),
        ensures
            v@ == tracks_body(self@),
    {
        let mut body: Vec<u8> = Vec::new();
        let ghost items = tracks_items(self@.tracks);
        let mut i: usize = 0;
        while i < self.tracks.len()
            invariant
                self.wf(),
                i <= self.tracks@.len(),
                items == tracks_items(self@.tracks),
                writer::items_bytes(items).len() < writer::size_limit(),
                body@ == writer::items_bytes(items.take(i as int)),
            decreases self.tracks@.len() - i,
        {
            proof {
                assert(self@.tracks[i as int] == self.tracks@[i as int].desc@);
                assert(items[i as int] == (
                    ids::TRACK_ENTRY,
                    writer::items_bytes(
                        track_items((i + 1) as u64, self.tracks@[i as int].desc@),
                    ),
                ));
                writer::lemma_item_fits(items, i as int);
            }
            let entry = build_track_entry(&self.tracks[i].desc, self.tracks[i].number);
            writer::write_master(ids::TRACK_ENTRY, entry.as_slice(), &mut body);
            proof {
                assert(items.take(i + 1) =~= items.take(i as int).push(items[i as int]));
                writer::lemma_items_push(items.take(i as int), items[i as int].0, items[i as int].1);
            }
            i = i + 1;
        }
        assert(items.take(i as int) =~= items);
        body
    }

    /// Info's children.
    fn build_info(&self, duration: Option<u64>) -> (v: Vec<u8>)
        requires
            info_body(self@, duration).len() < writer::size_limit(),
        ensures
            v@ == info_body(self@, duration),
    {
        let mut v: Vec<u8> = Vec::new();
        let ghost i0 = Seq::<(u64, Seq<u8>)>::empty().push(
            (ids::TIMESTAMP_SCALE, writer::uint_bytes(TIMESTAMP_SCALE_NS)),
        );
        let ghost i1 = with(i0, duration is Some, ids::DURATION, bytes::be64(duration->Some_0));
        let ghost i2 = i1.push((ids::MUXING_APP, encode_utf8(self@.muxing_app)));
        let ghost i3 = i2.push((ids::WRITING_APP, encode_utf8(self@.writing_app)));
        proof {
            assert(i3[i2.len() as int] == (ids::WRITING_APP, encode_utf8(self@.writing_app)));
            assert(i3[i1.len() as int] == (ids::MUXING_APP, encode_utf8(self@.muxing_app)));
            writer::lemma_item_fits(i3, i2.len() as int);
            writer::lemma_item_fits(i3, i1.len() as int);
        }
        put_uint(Ghost(Seq::empty()), ids::TIMESTAMP_SCALE, TIMESTAMP_SCALE_NS, &mut v);
        if let Some(bits) = duration {
            writer::write_float64(ids::DURATION, bits, &mut v);
            proof {
                writer::lemma_items_push(i0, ids::DURATION, bytes::be64(bits));
            }
        }
        put_element(Ghost(i1), ids::MUXING_APP, self.muxing_app.as_str().as_bytes(), &mut v);
        put_element(Ghost(i2), ids::WRITING_APP, self.writing_app.as_str().as_bytes(), &mut v);
        v
    }

    /// Cues' children, the Clusters standing at `base` in the Segment.
    fn build_cues(&self, base: usize) -> (v: Vec<u8>)
        requires
            self.wf(),
            base + clusters_bytes(self@.done).len() <= usize::MAX,
        ensures
            v@ == writer::items_bytes(cues_items(cues(self@.done), base as int)),
    {
        let mut body: Vec<u8> = Vec::new();
        let ghost list = cues(self@.done);
        let ghost items = cues_items(list, base as int);
        let mut i: usize = 0;
        proof {
            lemma_cue_offsets(self@.done);
        }
        while i < self.cue_points.len()
            invariant
                self.wf(),
                i <= self.cue_points@.len(),
                list == cues(self@.done),
                cue_views(self.cue_points@) == list,
                items == cues_items(list, base as int),
                base + clusters_bytes(self@.done).len() <= usize::MAX,
                forall|k: int|
                    0 <= k < list.len() ==> 0 <= (#[trigger] list[k]).offset <= clusters_bytes(
                        self@.done,
                    ).len(),
                body@ == writer::items_bytes(items.take(i as int)),
            decreases self.cue_points@.len() - i,
        {
            let ts_ticks: u64 = self.cue_points[i].ts_ticks;
            let track_number: u64 = self.cue_points[i].track_number;
            let offset: usize = self.cue_points[i].cluster_offset;
            let ghost c = CueView { ticks: ts_ticks, track: track_number, offset: offset as int };
            assert(list[i as int] == c);
            let at: u64 = (base + offset) as u64;
            let ghost p0 = Seq::<(u64, Seq<u8>)>::empty();
            let mut positions: Vec<u8> = Vec::new();
            put_uint(Ghost(p0), ids::CUE_TRACK, track_number, &mut positions);
            let ghost p1 = p0.push((ids::CUE_TRACK, writer::uint_bytes(track_number)));
            put_uint(Ghost(p1), ids::CUE_CLUSTER_POSITION, at, &mut positions);
            let mut point: Vec<u8> = Vec::new();
            put_uint(Ghost(p0), ids::CUE_TIME, ts_ticks, &mut point);
            let ghost q1 = p0.push((ids::CUE_TIME, writer::uint_bytes(ts_ticks)));
            proof {
                lemma_uint_item_len(ids::CUE_TRACK, track_number);
                lemma_uint_item_len(ids::CUE_CLUSTER_POSITION, at);
                lemma_uint_item_len(ids::CUE_TIME, ts_ticks);
                writer::lemma_items_push(p0, ids::CUE_TRACK, writer::uint_bytes(track_number));
                writer::lemma_items_push(p1, ids::CUE_CLUSTER_POSITION, writer::uint_bytes(at));
                writer::lemma_items_push(p0, ids::CUE_TIME, writer::uint_bytes(ts_ticks));
                writer::lemma_element_longer(ids::CUE_TRACK_POSITIONS, positions@);
                writer::lemma_items_push(q1, ids::CUE_TRACK_POSITIONS, positions@);
            }
            put_element(Ghost(q1), ids::CUE_TRACK_POSITIONS, positions.as_slice(), &mut point);
            put_element(
                Ghost(items.take(i as int)),
                ids::CUE_POINT,
                point.as_slice(),
                &mut body,
            );
            proof {
                assert(items[i as int] == (ids::CUE_POINT, point@));
                assert(items.take(i + 1) =~= items.take(i as int).push(items[i as int]));
            }
            i = i + 1;
        }
        assert(items.take(i as int) =~= items);
        body
    }

    /// Closes the Cluster in progress and returns the whole file. `duration_bits`
    /// is the double-precision value of [`Muxer::end_ns`] in ticks; it is written
    /// as the Duration unless no time has passed.
    pub fn finalize(self, duration_bits: u64) -> (r: Result<Vec<u8>, Error>)
        requires
            self.wf(),
            bulk(self@) + 16 < writer::size_limit(),
            file_bytes(flushed(self@), declared_duration(self@, duration_bits)).len()
                < writer::size_limit(),
            file_bytes(flushed(self@), declared_duration(self@, duration_bits)).len() <= usize::MAX,
        ensures
            match finished_file(self@, duration_bits) {
                Ok(b) => r is Ok && r->Ok_0@ == b,
                Err(e) => r == Err::<Vec<u8>, Error>(e),
            },
    {
        if self.streaming {
            return Err(
                Error::Unsupported {
                    what: "finalize() not valid in streaming mode — use finish_stream",
                },
            );
        }
        reveal(file_bytes);
        reveal(segment_items);
        let mut m = self;
        m.flush_cluster();
        let duration: Option<u64> = if m.max_end_ns > 0 {
            Some(duration_bits)
        } else {
            None
        };
        let ghost v = m@;
        proof {
            lemma_layout(v, duration);
        }
        let mut out: Vec<u8> = Vec::new();
        write_ebml_header(m.doc_type, &mut out);

        let info_body_bytes = m.build_info(duration);
        let mut info: Vec<u8> = Vec::new();
        writer::write_master(ids::INFO, info_body_bytes.as_slice(), &mut info);
        let tracks_body_bytes = m.build_tracks();
        let mut tracks: Vec<u8> = Vec::new();
        writer::write_master(ids::TRACKS, tracks_body_bytes.as_slice(), &mut tracks);
        assert(info@ =~= writer::element_bytes(ids::INFO, info_body(v, duration)));
        assert(tracks@ =~= writer::element_bytes(ids::TRACKS, tracks_body(v)));

        // SeekPosition has a fixed width, so the SeekHead's length is known before
        // any offset is.
        let has_cues = m.cue_points.len() > 0;
        assert(cue_views(m.cue_points@).len() == m.cue_points@.len());
        let info_offset: usize = seek_head_size(has_cues);
        let tracks_offset: usize = info_offset + info.len();
        let clusters_offset: usize = tracks_offset + tracks.len();
        let cues_offset: usize = clusters_offset + m.clusters.len();

        let mut seek_head: Vec<u8> = Vec::new();
        push_seek_entry(Ghost(Seq::empty()), ids::INFO, info_offset as u64, &mut seek_head);
        let ghost k1 = Seq::<(u64, Seq<u8>)>::empty().push(
            (ids::SEEK, writer::items_bytes(seek_items(ids::INFO, info_at(v) as u64))),
        );
        push_seek_entry(Ghost(k1), ids::TRACKS, tracks_offset as u64, &mut seek_head);
        let ghost k2 = k1.push(
            (
                ids::SEEK,
                writer::items_bytes(seek_items(ids::TRACKS, tracks_at(v, duration) as u64)),
            ),
        );
        if has_cues {
            push_seek_entry(Ghost(k2), ids::CUES, cues_offset as u64, &mut seek_head);
        }
        assert(seek_head@ == writer::items_bytes(seek_head_items(v, duration)));

        let mut seg: Vec<u8> = Vec::new();
        let ghost s0 = Seq::<(u64, Seq<u8>)>::empty();
        put_element(Ghost(s0), ids::SEEK_HEAD, seek_head.as_slice(), &mut seg);
        bytes::put_slice(&mut seg, info.as_slice());
        bytes::put_slice(&mut seg, tracks.as_slice());
        proof {
            let s1 = s0.push((ids::SEEK_HEAD, seek_head@));
            writer::lemma_items_push(s1, ids::INFO, info_body(v, duration));
            let s2 = s1.push((ids::INFO, info_body(v, duration)));
            writer::lemma_items_push(s2, ids::TRACKS, tracks_body(v));
            assert(seg@ == writer::items_bytes(head_items(v, duration)));
            writer::lemma_items_concat(head_items(v, duration), clusters_items(v.done));
        }
        bytes::put_slice(&mut seg, m.clusters.as_slice());
        if has_cues {
            let cues_body = m.build_cues(clusters_offset);
            put_element(
                Ghost(head_items(v, duration) + clusters_items(v.done)),
                ids::CUES,
                cues_body.as_slice(),
                &mut seg,
            );
        }
        assert(seg@ == writer::items_bytes(segment_items(v, duration)));
        writer::write_master(ids::SEGMENT, seg.as_slice(), &mut out);
        assert(out@ =~= file_bytes(v, duration));
        Ok(out)
    }

    /// Returns the init segment: the EBML header, the opening of an unknown-size
    /// Segment, Info and Tracks. To be called once, after the last registration
    /// and before the first append.
    pub fn begin_stream(&mut self) -> (r: Result<Vec<u8>, Error>)
        requires
            old(self).wf(),
            init_bytes(old(self)@).len() < writer::size_limit(),
        ensures
            final(self).wf(),
            match begun(old(self)@) {
                Ok((b, m)) => r is Ok && r->Ok_0@ == b && final(self)@ == m,
                Err(e) => r == Err::<Vec<u8>, Error>(e) && final(self)@ == old(self)@,
            },
    {
        if !self.streaming {
            return Err(Error::Unsupported { what: "begin_stream requires enable_streaming" });
        }
        if self.stream_initialized {
            return Err(Error::Unsupported { what: "begin_stream already called" });
        }
        proof {
            writer::lemma_element_longer(ids::INFO, info_body(self@, None));
            writer::lemma_element_longer(ids::TRACKS, tracks_body(self@));
        }
        let mut out: Vec<u8> = Vec::new();
        write_ebml_header(self.doc_type, &mut out);
        writer::open_master_unknown_size(ids::SEGMENT, &mut out);
        let info = self.build_info(None);
        writer::write_master(ids::INFO, info.as_slice(), &mut out);
        let tracks = self.build_tracks();
        writer::write_master(ids::TRACKS, tracks.as_slice(), &mut out);
        assert(out@ =~= init_bytes(self@));
        self.stream_initialized = true;
        Ok(out)
    }

    /// Returns the bytes of the Clusters finished since the last call.
    pub fn take_output(&mut self) -> (r: Vec<u8>)
        requires
            old(self).wf(),
        ensures
            final(self).wf(),
            (r@, final(self)@) == drained(old(self)@),
    {
        if !self.streaming || !self.stream_initialized {
            return Vec::new();
        }
        let n: usize = self.clusters.len();
        let out = bytes::to_vec(&self.clusters.as_slice()[self.clusters_drained..n]);
        self.clusters_drained = n;
        out
    }

    /// Closes the Cluster in progress and returns all bytes not yet handed out.
    pub fn finish_stream(self) -> (r: Result<Vec<u8>, Error>)
        requires
            self.wf(),
            bulk(self@) + 16 < writer::size_limit(),
        ensures
            match finished_stream(self@) {
                Ok(b) => r is Ok && r->Ok_0@ == b,
                Err(e) => r == Err::<Vec<u8>, Error>(e),
            },
    {
        if !self.streaming {
            return Err(Error::Unsupported { what: "finish_stream requires enable_streaming" });
        }
        if !self.stream_initialized {
            return Err(Error::Unsupported { what: "finish_stream before begin_stream" });
        }
        let mut m = self;
        m.flush_cluster();
        Ok(m.take_output())
    }
}

/// The Duration that a finished file declares: none if no time has passed.
pub open spec fn declared_duration(m: MuxView, bits: u64) -> Option<u64> {
    if m.max_end_ns > 0 {
        Some(bits)
    } else {
        None
    }
}

/// An integer element is short.
proof fn lemma_uint_item_len(id: u64, v: u64)
    ensures
        writer::element_bytes(id, writer::uint_bytes(v)).len() <= 20,
{
    writer::law_uint_reads_back(v);
    writer::lemma_element_longer(id, writer::uint_bytes(v));
}

/// Every index entry points into the Clusters.
proof fn lemma_cue_offsets(done: Seq<ClusterLog>)
    ensures
        forall|k: int|
            0 <= k < cues(done).len() ==> 0 <= (#[trigger] cues(done)[k]).offset <= clusters_bytes(
                done,
            ).len(),
    decreases done.len(),
{
    if done.len() > 0 {
        lemma_cue_offsets(done.drop_last());
        lemma_clusters_push(done.drop_last(), done.last());
        assert(done.drop_last().push(done.last()) =~= done);
        let a = cues(done.drop_last());
        let b = cluster_cues(done.last(), clusters_bytes(done.drop_last()).len() as int);
        assert forall|k: int| 0 <= k < cues(done).len() implies 0 <= (#[trigger] cues(
            done,
        )[k]).offset <= clusters_bytes(done).len() by {
            if k < a.len() {
                assert(cues(done)[k] == a[k]);
            } else {
                assert(cues(done)[k] == b[k - a.len()]);
            }
        }
    }
}

/// A Seek entry has a fixed length.
proof fn lemma_seek_len(id: u64, position: u64)
    requires
        id < writer::id_limit(),
    ensures
        writer::element_bytes(ids::SEEK, writer::items_bytes(seek_items(id, position))).len()
            == seek_entry_len(id),
        seek_entry_len(id) <= 40,
{
    let e = Seq::<(u64, Seq<u8>)>::empty();
    bytes::lemma_fixed_len(position as nat, 8);
    bytes::lemma_fixed_len(id as nat, writer::id_width_spec(id) as nat);
    writer::lemma_items_push(e, ids::SEEK_ID, writer::id_bytes(id));
    writer::lemma_items_push(
        e.push((ids::SEEK_ID, writer::id_bytes(id))),
        ids::SEEK_POSITION,
        bytes::fixed(position as nat, 8),
    );
    writer::lemma_element_len(ids::SEEK_ID, writer::id_bytes(id));
    writer::lemma_element_len(ids::SEEK_POSITION, bytes::fixed(position as nat, 8));
    reveal(writer::size_width);
    reveal_with_fuel(writer::size_width_from, 3);
    writer::lemma_element_len(ids::SEEK, writer::items_bytes(seek_items(id, position)));
}

/// Where the Segment's children stand.
pub proof fn lemma_layout(m: MuxView, duration: Option<u64>)
    ensures
        writer::items_bytes(head_items(m, duration)).len() == clusters_at(m, duration),
        cues_at(m, duration) <= writer::items_bytes(segment_items(m, duration)).len(),
        writer::items_bytes(segment_items(m, duration)).len() < file_bytes(m, duration).len(),
        writer::items_bytes(seek_head_items(m, duration)).len() < 200,
        info_body(m, duration).len() < file_bytes(m, duration).len(),
        tracks_body(m).len() < file_bytes(m, duration).len(),
        ebml_bytes(m.doc_type).len() <= file_bytes(m, duration).len(),
        cues(m.done).len() > 0 ==> writer::items_bytes(
            cues_items(cues(m.done), clusters_at(m, duration)),
        ).len() < file_bytes(m, duration).len(),
{
    reveal(file_bytes);
    reveal(segment_items);
    let has = cues(m.done).len() > 0;
    let e = Seq::<(u64, Seq<u8>)>::empty();
    let p1 = writer::items_bytes(seek_items(ids::INFO, info_at(m) as u64));
    let p2 = writer::items_bytes(seek_items(ids::TRACKS, tracks_at(m, duration) as u64));
    let p3 = writer::items_bytes(seek_items(ids::CUES, cues_at(m, duration) as u64));
    lemma_seek_len(ids::INFO, info_at(m) as u64);
    lemma_seek_len(ids::TRACKS, tracks_at(m, duration) as u64);
    lemma_seek_len(ids::CUES, cues_at(m, duration) as u64);
    writer::lemma_items_push(e, ids::SEEK, p1);
    writer::lemma_items_push(e.push((ids::SEEK, p1)), ids::SEEK, p2);
    writer::lemma_items_push(e.push((ids::SEEK, p1)).push((ids::SEEK, p2)), ids::SEEK, p3);
    let sh = writer::items_bytes(seek_head_items(m, duration));
    writer::lemma_element_len(ids::SEEK_HEAD, sh);
    let h1 = e.push((ids::SEEK_HEAD, sh));
    let h2 = h1.push((ids::INFO, info_body(m, duration)));
    writer::lemma_items_push(e, ids::SEEK_HEAD, sh);
    writer::lemma_items_push(h1, ids::INFO, info_body(m, duration));
    writer::lemma_items_push(h2, ids::TRACKS, tracks_body(m));
    writer::lemma_items_concat(head_items(m, duration), clusters_items(m.done));
    let c = writer::items_bytes(cues_items(cues(m.done), clusters_at(m, duration)));
    let hc = head_items(m, duration) + clusters_items(m.done);
    writer::lemma_items_push(hc, ids::CUES, c);
    writer::lemma_element_longer(ids::CUES, c);
    writer::lemma_element_longer(ids::INFO, info_body(m, duration));
    writer::lemma_element_longer(ids::TRACKS, tracks_body(m));
    writer::lemma_element_longer(
        ids::SEGMENT,
        writer::items_bytes(segment_items(m, duration)),
    );
}

/// How many bytes a Seek entry takes.
fn seek_entry_size(target_id: u64) -> (n: usize)
    requires
        target_id < writer::id_limit(),
    ensures
        n == seek_entry_len(target_id),
        n <= 40,
{
    proof {
        lemma_seek_len(target_id, 0);
        reveal(writer::size_width);
        reveal_with_fuel(writer::size_width_from, 3);
    }
    let seek_id: usize = writer::element_size(ids::SEEK_ID, writer::id_width_of(target_id));
    let seek_position: usize = writer::element_size(ids::SEEK_POSITION, 8);
    writer::element_size(ids::SEEK, seek_id + seek_position)
}

/// How many bytes the SeekHead takes.
fn seek_head_size(has_cues: bool) -> (n: usize)
    ensures
        n == seek_head_len(has_cues),
{
    let mut body: usize = seek_entry_size(ids::INFO) + seek_entry_size(ids::TRACKS);
    if has_cues {
        body = body + seek_entry_size(ids::CUES);
    }
    proof {
        reveal(writer::size_width);
        reveal_with_fuel(writer::size_width_from, 3);
    }
    writer::element_size(ids::SEEK_HEAD, body)
}

/// Appends a Seek entry to the entries `items`.
fn push_seek_entry(
    items: Ghost<Seq<(u64, Seq<u8>)>>,
    target_id: u64,
    position: u64,
    out: &mut Vec<u8>,
)
    requires
        target_id < writer::id_limit(),
        old(out)@ == writer::items_bytes(items@),
    ensures
        final(out)@ == writer::items_bytes(
            items@.push((ids::SEEK, writer::items_bytes(seek_items(target_id, position)))),
        ),
{
    let mut raw_id: Vec<u8> = Vec::new();
    let w: usize = writer::id_width_of(target_id);
    bytes::put_fixed(&mut raw_id, target_id, w);
    assert(raw_id@ =~= writer::id_bytes(target_id));
    proof {
        bytes::lemma_fixed_len(target_id as nat, w as nat);
        lemma_seek_len(target_id, position);
        writer::lemma_element_longer(
            ids::SEEK,
            writer::items_bytes(seek_items(target_id, position)),
        );
    }
    let mut body: Vec<u8> = Vec::new();
    put_element(Ghost(Seq::empty()), ids::SEEK_ID, raw_id.as_slice(), &mut body);
    writer::write_uint_fixed_width(ids::SEEK_POSITION, position, 8, &mut body);
    proof {
        writer::lemma_items_push(
            Seq::<(u64, Seq<u8>)>::empty().push((ids::SEEK_ID, writer::id_bytes(target_id))),
            ids::SEEK_POSITION,
            bytes::fixed(position as nat, 8),
        );
    }
    put_element(items, ids::SEEK, body.as_slice(), out);
}

/// One more block.
proof fn lemma_blocks_push(blocks: Seq<BlockLog>, b: BlockLog)
    ensures
        writer::items_bytes(block_items(blocks.push(b))) == writer::items_bytes(block_items(blocks))
            + writer::element_bytes(ids::SIMPLE_BLOCK, block_payload(b)),
{
    assert(block_items(blocks.push(b)) =~= block_items(blocks).push(
        (ids::SIMPLE_BLOCK, block_payload(b)),
    ));
    writer::lemma_items_push(block_items(blocks), ids::SIMPLE_BLOCK, block_payload(b));
}

/// One more Cluster.
proof fn lemma_clusters_push(done: Seq<ClusterLog>, c: ClusterLog)
    ensures
        clusters_bytes(done.push(c)) == clusters_bytes(done) + writer::element_bytes(
            ids::CLUSTER,
            cluster_payload(c),
        ),
{
    assert(clusters_items(done.push(c)) =~= clusters_items(done).push(
        (ids::CLUSTER, cluster_payload(c)),
    ));
    writer::lemma_items_push(clusters_items(done), ids::CLUSTER, cluster_payload(c));
}

/// Appends one SimpleBlock.
fn write_simple_block(
    track_number: u64,
    delta_ticks: i16,
    keyframe: bool,
    data: &[u8],
    out: &mut Vec<u8>,
)
    requires
        track_number < writer::size_limit(),
        data@.len() + 11 < writer::size_limit(),
    ensures
        final(out)@ == old(out)@ + writer::element_bytes(
            ids::SIMPLE_BLOCK,
            block_payload(
                (BlockLog { track: track_number, delta: delta_ticks, keyframe, data: data@ }),
            ),
        ),
{
    let ghost log = BlockLog { track: track_number, delta: delta_ticks, keyframe, data: data@ };
    let mut body: Vec<u8> = Vec::new();
    writer::write_size_vint(track_number, &mut body);
    bytes::put_i16(&mut body, delta_ticks);
    let flags: u8 = if keyframe {
        0x80
    } else {
        0
    };
    body.push(flags);
    bytes::put_slice(&mut body, data);
    proof {
        assert(body@ =~= block_payload(log));
        writer::lemma_size_width(track_number as nat);
    }
    writer::write_master(ids::SIMPLE_BLOCK, body.as_slice(), out);
}

/// Appends the EBML header.
fn write_ebml_header(doc_type: DocType, out: &mut Vec<u8>)
    requires
        ebml_bytes(doc_type).len() < writer::size_limit(),
    ensures
        final(out)@ == old(out)@ + ebml_bytes(doc_type),
{
    let mut hdr: Vec<u8> = Vec::new();
    let ghost items = ebml_items(doc_type);
    proof {
        writer::lemma_element_longer(ids::EBML, writer::items_bytes(items));
        assert(items[4] == (ids::DOC_TYPE, encode_utf8(doc_type.name())));
        writer::lemma_item_fits(items, 4);
        reveal_with_fuel(writer::items_bytes, 8);
    }
    writer::write_uint(ids::EBML_VERSION, 1, &mut hdr);
    writer::write_uint(ids::EBML_READ_VERSION, 1, &mut hdr);
    writer::write_uint(ids::EBML_MAX_ID_LENGTH, 4, &mut hdr);
    writer::write_uint(ids::EBML_MAX_SIZE_LENGTH, 8, &mut hdr);
    writer::write_ascii(ids::DOC_TYPE, doc_type.as_str(), &mut hdr);
    writer::write_uint(ids::DOC_TYPE_VERSION, 4, &mut hdr);
    writer::write_uint(ids::DOC_TYPE_READ_VERSION, 2, &mut hdr);
    assert(hdr@ =~= writer::items_bytes(items));
    writer::write_master(ids::EBML, hdr.as_slice(), out);
}

fn write_float(id: u64, f: FloatBits, out: &mut Vec<u8>)
    requires
        id < writer::id_limit(),
    ensures
        final(out)@ == old(out)@ + writer::element_bytes(id, float_bytes(f)),
{
    writer::write_float64(id, f.to_double(), out);
}

/// Video's children.
fn build_video(v: &VideoParams) -> (e: Vec<u8>)
    ensures
        e@ == writer::items_bytes(video_items(*v)),
{
    let mut e: Vec<u8> = Vec::new();
    let ghost items = Seq::<(u64, Seq<u8>)>::empty();
    put_uint(Ghost(items), ids::PIXEL_WIDTH, v.pixel_width as u64, &mut e);
    let ghost items = items.push((ids::PIXEL_WIDTH, writer::uint_bytes(v.pixel_width as u64)));
    put_uint(Ghost(items), ids::PIXEL_HEIGHT, v.pixel_height as u64, &mut e);
    let ghost items = items.push((ids::PIXEL_HEIGHT, writer::uint_bytes(v.pixel_height as u64)));
    if let Some(w) = v.display_width {
        put_uint(Ghost(items), ids::DISPLAY_WIDTH, w as u64, &mut e);
    }
    let ghost items = with(
        items,
        v.display_width is Some,
        ids::DISPLAY_WIDTH,
        writer::uint_bytes(v.display_width->Some_0 as u64),
    );
    if let Some(h) = v.display_height {
        put_uint(Ghost(items), ids::DISPLAY_HEIGHT, h as u64, &mut e);
    }
    e
}

/// Audio's children.
fn build_audio(a: &AudioParams) -> (e: Vec<u8>)
    ensures
        e@ == writer::items_bytes(audio_items(*a)),
{
    let mut e: Vec<u8> = Vec::new();
    let ghost items = Seq::<(u64, Seq<u8>)>::empty();
    proof {
        writer::lemma_items_push(items, ids::SAMPLING_FREQUENCY, float_bytes(a.sampling_frequency));
    }
    write_float(ids::SAMPLING_FREQUENCY, a.sampling_frequency, &mut e);
    let ghost items = items.push((ids::SAMPLING_FREQUENCY, float_bytes(a.sampling_frequency)));
    if let Some(f) = a.output_sampling_frequency {
        proof {
            writer::lemma_items_push(items, ids::OUTPUT_SAMPLING_FREQUENCY, float_bytes(f));
        }
        write_float(ids::OUTPUT_SAMPLING_FREQUENCY, f, &mut e);
    }
    let ghost items = with(
        items,
        a.output_sampling_frequency is Some,
        ids::OUTPUT_SAMPLING_FREQUENCY,
        float_bytes(a.output_sampling_frequency->Some_0),
    );
    put_uint(Ghost(items), ids::CHANNELS, a.channels as u64, &mut e);
    let ghost items = items.push((ids::CHANNELS, writer::uint_bytes(a.channels as u64)));
    if let Some(d) = a.bit_depth {
        put_uint(Ghost(items), ids::BIT_DEPTH, d as u64, &mut e);
    }
    e
}

/// Appends an unsigned integer element to the elements `items`.
fn put_uint(items: Ghost<Seq<(u64, Seq<u8>)>>, id: u64, value: u64, e: &mut Vec<u8>)
    requires
        id < writer::id_limit(),
        old(e)@ == writer::items_bytes(items@),
    ensures
        final(e)@ == writer::items_bytes(items@.push((id, writer::uint_bytes(value)))),
{
    writer::write_uint(id, value, e);
    proof {
        writer::lemma_items_push(items@, id, writer::uint_bytes(value));
    }
}

/// Appends an element to the elements `items`.
fn put_element(items: Ghost<Seq<(u64, Seq<u8>)>>, id: u64, payload: &[u8], e: &mut Vec<u8>)
    requires
        id < writer::id_limit(),
        payload@.len() < writer::size_limit(),
        old(e)@ == writer::items_bytes(items@),
    ensures
        final(e)@ == writer::items_bytes(items@.push((id, payload@))),
{
    writer::write_element(id, payload, e);
    proof {
        writer::lemma_items_push(items@, id, payload@);
    }
}

/// Elements added at the end do not shorten the whole.
pub proof fn lemma_with_longer(items: Seq<(u64, Seq<u8>)>, cond: bool, id: u64, payload: Seq<u8>)
    ensures
        writer::items_bytes(items).len() <= writer::items_bytes(with(items, cond, id, payload)).len(),
        cond ==> writer::element_bytes(id, payload).len() <= writer::items_bytes(
            with(items, cond, id, payload),
        ).len(),
        cond ==> payload.len() + 2 <= writer::items_bytes(with(items, cond, id, payload)).len(),
{
    writer::lemma_items_push(items, id, payload);
    writer::lemma_element_longer(id, payload);
}

/// A TrackEntry's children up to the codec name.
fn build_track_head(d: &TrackDescriptor, number: u64) -> (e: Vec<u8>)
    requires
        encode_utf8(d.codec_id@).len() < writer::size_limit(),
    ensures
        e@ == writer::items_bytes(track_head_items(number, d@)),
{
    let mut e: Vec<u8> = Vec::new();
    let uid: u64 = number.wrapping_mul(0x9E37_79B9_7F4A_7C15) | 1;
    let kind: u64 = match d.kind {
        TrackKind::Video => track_type::VIDEO,
        TrackKind::Audio => track_type::AUDIO,
        TrackKind::Subtitle => track_type::SUBTITLE,
        TrackKind::Other(v) => v as u64,
    };
    let flag_default: u64 = if d.flag_default {
        1
    } else {
        0
    };
    let flag_forced: u64 = if d.flag_forced {
        1
    } else {
        0
    };
    let ghost items = Seq::<(u64, Seq<u8>)>::empty();
    put_uint(Ghost(items), ids::TRACK_NUMBER, number, &mut e);
    let ghost items = items.push((ids::TRACK_NUMBER, writer::uint_bytes(number)));
    put_uint(Ghost(items), ids::TRACK_UID, uid, &mut e);
    let ghost items = items.push((ids::TRACK_UID, writer::uint_bytes(uid)));
    put_uint(Ghost(items), ids::TRACK_TYPE, kind, &mut e);
    let ghost items = items.push((ids::TRACK_TYPE, writer::uint_bytes(kind)));
    put_uint(Ghost(items), ids::FLAG_ENABLED, 1, &mut e);
    let ghost items = items.push((ids::FLAG_ENABLED, writer::uint_bytes(1)));
    put_uint(Ghost(items), ids::FLAG_DEFAULT, flag_default, &mut e);
    let ghost items = items.push((ids::FLAG_DEFAULT, writer::uint_bytes(flag_default)));
    put_uint(Ghost(items), ids::FLAG_FORCED, flag_forced, &mut e);
    let ghost items = items.push((ids::FLAG_FORCED, writer::uint_bytes(flag_forced)));
    put_uint(Ghost(items), ids::FLAG_LACING, 0, &mut e);
    let ghost items = items.push((ids::FLAG_LACING, writer::uint_bytes(0)));
    put_element(Ghost(items), ids::CODEC_ID, d.codec_id.as_str().as_bytes(), &mut e);
    e
}

/// A TrackEntry's children.
fn build_track_entry(d: &TrackDescriptor, number: u64) -> (e: Vec<u8>)
    requires
        writer::items_bytes(track_items(number, d@)).len() < writer::size_limit(),
    ensures
        e@ == writer::items_bytes(track_items(number, d@)),
{
    let ghost v = d@;
    let ghost i0 = track_head_items(number, v);
    let ghost i1 = with(i0, v.codec_private is Some, ids::CODEC_PRIVATE, v.codec_private->Some_0);
    let ghost i2 = with(
        i1,
        v.default_duration_ns is Some,
        ids::DEFAULT_DURATION,
        writer::uint_bytes(v.default_duration_ns->Some_0),
    );
    let ghost i3 = with(
        i2,
        v.codec_delay_ns != 0,
        ids::CODEC_DELAY,
        writer::uint_bytes(v.codec_delay_ns),
    );
    let ghost i4 = track_timing_items(number, v);
    let ghost i5 = with(i4, v.language is Some, ids::LANGUAGE, encode_utf8(v.language->Some_0));
    let ghost i6 = with(i5, v.name is Some, ids::NAME, encode_utf8(v.name->Some_0));
    let ghost video = writer::items_bytes(video_items(v.video->Some_0));
    let ghost audio = writer::items_bytes(audio_items(v.audio->Some_0));
    let ghost i7 = with(i6, v.video is Some, ids::VIDEO, video);
    proof {
        lemma_with_longer(i7, v.audio is Some, ids::AUDIO, audio);
        lemma_with_longer(i6, v.video is Some, ids::VIDEO, video);
        lemma_with_longer(i5, v.name is Some, ids::NAME, encode_utf8(v.name->Some_0));
        lemma_with_longer(i4, v.language is Some, ids::LANGUAGE, encode_utf8(v.language->Some_0));
        lemma_with_longer(
            i3,
            v.seek_pre_roll_ns != 0,
            ids::SEEK_PRE_ROLL,
            writer::uint_bytes(v.seek_pre_roll_ns),
        );
        lemma_with_longer(
            i2,
            v.codec_delay_ns != 0,
            ids::CODEC_DELAY,
            writer::uint_bytes(v.codec_delay_ns),
        );
        lemma_with_longer(
            i1,
            v.default_duration_ns is Some,
            ids::DEFAULT_DURATION,
            writer::uint_bytes(v.default_duration_ns->Some_0),
        );
        lemma_with_longer(
            i0,
            v.codec_private is Some,
            ids::CODEC_PRIVATE,
            v.codec_private->Some_0,
        );
        assert(i0[7] == (ids::CODEC_ID, encode_utf8(v.codec_id)));
        writer::lemma_item_fits(i0, 7);
    }
    let mut e = build_track_head(d, number);
    if let Some(p) = &d.codec_private {
        put_element(Ghost(i0), ids::CODEC_PRIVATE, p.as_slice(), &mut e);
    }
    if let Some(n) = d.default_duration_ns {
        put_uint(Ghost(i1), ids::DEFAULT_DURATION, n, &mut e);
    }
    if d.codec_delay_ns != 0 {
        put_uint(Ghost(i2), ids::CODEC_DELAY, d.codec_delay_ns, &mut e);
    }
    if d.seek_pre_roll_ns != 0 {
        put_uint(Ghost(i3), ids::SEEK_PRE_ROLL, d.seek_pre_roll_ns, &mut e);
    }
    if let Some(t) = &d.language {
        put_element(Ghost(i4), ids::LANGUAGE, t.as_str().as_bytes(), &mut e);
    }
    if let Some(t) = &d.name {
        put_element(Ghost(i5), ids::NAME, t.as_str().as_bytes(), &mut e);
    }
    if let Some(x) = &d.video {
        let body = build_video(x);
        put_element(Ghost(i6), ids::VIDEO, body.as_slice(), &mut e);
    }
    if let Some(x) = &d.audio {
        let body = build_audio(x);
        put_element(Ghost(i7), ids::AUDIO, body.as_slice(), &mut e);
    }
    e
}

} // verus!
