//! Fragmented MP4: initialization segments and fragments.
//!
//! An initialization segment is an `ftyp` and a `moov` without samples. What decoders
//! need to be configured is passed through as it is.

pub mod fragment;
pub mod layout;
pub mod placed;

pub use fragment::{
    fragment_offset_fits, fragment_offsets_fit, write_av_fragment, write_fragment,
    write_media_fragment, FragmentTrack,
};

use crate::bytes;
use crate::isobmff::boxes;
use crate::isobmff::boxes::codec;
use crate::isobmff::boxes::esds;
use crate::isobmff::boxes::header;
use crate::isobmff::boxes::{
    kinds, Atom, Av01, Av1C, Avc1, Avc3, AvcC, Codec, Dinf, Dref, Edts, Encode, FixedPoint, FourCC,
    Ftyp, FullBox, Hdlr, Hev1, Hvc1, HvcC, Matrix, Mdhd, Mdia, Mehd, Minf, Moov, Mvex, Mvhd, Pasp,
    Smhd, Stbl, Stco, Stsc, Stsd, Stsz, StszSamples, Stts, Tkhd, Trak, Trex, Url, Visual, Vmhd,
    Wire,
};
use crate::isobmff::IsobmffResult;
use vstd::prelude::*;
use vstd::utf8::*;

verus! {

/// Which sample entry and configuration box a video track has.
///
/// The `Inband` entries allow parameter sets in samples, which those without forbid.
#[derive(Debug, Clone, Copy, PartialEq, Eq)]
pub enum InitCodec {
    /// `avc1` and `avcC`.
    Avc,
    /// `hvc1` and `hvcC`.
    Hevc,
    /// `hev1` and `hvcC`.
    HevcInband,
    /// `avc3` and `avcC`.
    AvcInband,
    /// `av01` and `av1C`.
    Av1,
}

/// A video track of an initialization segment.
pub struct VideoTrackParams {
    pub width: u16,
    pub height: u16,
    /// Ticks per second of the media and of the movie.
    pub timescale: u32,
    /// The decoder's configuration, as it is.
    pub configuration_record: Vec<u8>,
    pub codec: InitCodec,
}

/// Which sample entry an audio track has.
#[derive(Debug, Clone, Copy, PartialEq, Eq)]
pub enum AudioInitCodec {
    /// `mp4a`; the configuration is that of an AAC decoder.
    Aac,
    /// `fLaC`; the configuration is the body of a `dfLa`.
    Flac,
    /// `.mp3`, without a configuration.
    Mp3,
    /// `Opus`; the configuration is the body of a `dOps`.
    Opus,
}

/// An audio track of an initialization segment.
pub struct AudioTrackParams {
    pub codec: AudioInitCodec,
    pub channel_count: u16,
    pub sample_rate: u32,
    /// Bits per sample; zero means sixteen.
    pub sample_size: u16,
    /// Ticks per second of the media.
    pub timescale: u32,
    /// See [`AudioInitCodec`].
    pub configuration_record: Vec<u8>,
}

/// The `stts`, `stsc`, `stsz` and `stco` of a track without samples, behind its sample
/// entries.
pub open spec fn tables_wire(stsd: Wire) -> Wire {
    boxes::boxed(
        kinds::STBL@,
        boxes::joined(
            boxes::joined(
                boxes::joined(
                    boxes::joined(
                        stsd,
                        boxes::full_boxed(kinds::STTS@, 0, 0, Ok(bytes::be32(0))),
                    ),
                    boxes::full_boxed(kinds::STSC@, 0, 0, Ok(bytes::be32(0))),
                ),
                boxes::full_boxed(kinds::STSZ@, 0, 0, Ok(bytes::be32(0) + bytes::be32(0))),
            ),
            boxes::full_boxed(kinds::STCO@, 0, 0, Ok(bytes::be32(0))),
        ),
    )
}

/// The tables of a track whose samples are in fragments.
pub fn empty_stbl(stsd: Stsd) -> (r: Stbl)
    ensures
        r.stsd == stsd,
        r.stts.entries@.len() == 0,
        r.stsc.entries@.len() == 0,
        r.stsz.samples matches StszSamples::Different { sizes } && sizes@.len() == 0,
        r.stco matches Some(c) && c.entries@.len() == 0,
        r.wire() == tables_wire(stsd.wire()),
{
    let r = Stbl {
        stsd,
        stts: Stts { entries: Vec::new() },
        stsc: Stsc { entries: Vec::new() },
        stsz: Stsz { samples: StszSamples::Different { sizes: Vec::new() } },
        stco: Some(Stco { entries: Vec::new() }),
    };
    proof {
        assert(bytes::be32(0) + Seq::<u8>::empty() =~= bytes::be32(0));
        assert(bytes::be32(0) + bytes::be32(0) + Seq::<u8>::empty() =~= bytes::be32(0)
            + bytes::be32(0));
    }
    r
}

/// The sample entry of a video track with square pixels.
#[verifier::opaque]
pub open spec fn video_entry(codec: InitCodec, width: u16, height: u16, config: Seq<u8>) -> Wire {
    let (entry, record) = match codec {
        InitCodec::Avc => (kinds::AVC1, kinds::AVCC),
        InitCodec::Hevc => (kinds::HVC1, kinds::HVCC),
        InitCodec::HevcInband => (kinds::HEV1, kinds::HVCC),
        InitCodec::AvcInband => (kinds::AVC3, kinds::AVCC),
        InitCodec::Av1 => (kinds::AV01, kinds::AV1C),
    };
    boxes::boxed(
        entry@,
        codec::video_entry(
            (Visual { data_reference_index: 1, width, height }).bytes(),
            boxes::boxed(record@, Ok(config)),
            (Pasp { h_spacing: 1, v_spacing: 1 }).wire(),
            Ok(Seq::empty()),
        ),
    )
}

fn video_codec(codec: InitCodec, width: u16, height: u16, configuration_record: Vec<u8>) -> (r:
    Codec)
    ensures
        r.wire() == video_entry(codec, width, height, configuration_record@),
{
    proof {
        reveal(video_entry);
    }
    let visual = Visual { data_reference_index: 1, width, height };
    let pasp = Some(Pasp { h_spacing: 1, v_spacing: 1 });
    match codec {
        InitCodec::Avc => Codec::Avc1(
            Avc1 { visual, avcc: AvcC { configuration_record }, pasp, btrt: None },
        ),
        InitCodec::Hevc => Codec::Hvc1(
            Hvc1 { visual, hvcc: HvcC { configuration_record }, pasp, btrt: None },
        ),
        InitCodec::HevcInband => Codec::Hev1(
            Hev1 { visual, hvcc: HvcC { configuration_record }, pasp, btrt: None },
        ),
        InitCodec::AvcInband => Codec::Avc3(
            Avc3 { visual, avcc: AvcC { configuration_record }, pasp, btrt: None },
        ),
        InitCodec::Av1 => Codec::Av01(
            Av01 { visual, av1c: Av1C { configuration_record }, pasp, btrt: None },
        ),
    }
}

/// What an audio sample entry starts with.
pub open spec fn audio_head(channels: u16, rate: u32, size: u16) -> Seq<u8> {
    bytes::zeros(6) + bytes::be16(1) + bytes::zeros(8) + bytes::be16(channels) + bytes::be16(size)
        + bytes::zeros(2) + bytes::zeros(2) + bytes::be32((rate % 0x1_0000 * 0x1_0000) as u32)
}

/// A child box with a body that is passed through.
pub open spec fn child(kind: Seq<u8>, body: Seq<u8>) -> Seq<u8> {
    bytes::be32(boxes::count32(body.len() + 8)) + kind + body
}

/// The body of an `esds` for AAC.
pub open spec fn aac_descriptor(config: Seq<u8>) -> Seq<u8> {
    let decoder = seq![0x40u8, 0x15] + bytes::zeros(3) + bytes::be32(0) + bytes::be32(0)
        + esds::descriptor(0x05, config);
    let stream = bytes::be16(0) + seq![0u8] + esds::descriptor(0x04, decoder) + esds::descriptor(
        0x06,
        seq![2u8],
    );
    seq![0u8, 0, 0, 0] + esds::descriptor(0x03, stream)
}

/// The code and the body of an audio sample entry.
pub open spec fn audio_body(
    codec: AudioInitCodec,
    channels: u16,
    rate: u32,
    size: u16,
    config: Seq<u8>,
) -> (Seq<u8>, Seq<u8>) {
    let head = audio_head(
        channels,
        rate,
        if size == 0 {
            16
        } else {
            size
        },
    );
    match codec {
        AudioInitCodec::Aac => (kinds::MP4A@, head + child(kinds::ESDS@, aac_descriptor(config))),
        AudioInitCodec::Flac => (kinds::FLAC@, head + child(kinds::DFLA@, config)),
        AudioInitCodec::Mp3 => (kinds::MP3@, head),
        AudioInitCodec::Opus => (kinds::OPUS@, head + child(kinds::DOPS@, config)),
    }
}

/// The sample entry of an audio track.
pub open spec fn audio_entry(p: AudioTrackParams) -> Wire {
    let (kind, body) = audio_body(
        p.codec,
        p.channel_count,
        p.sample_rate,
        p.sample_size,
        p.configuration_record@,
    );
    Ok(child(kind, body))
}

fn put_audio_head(buf: &mut Vec<u8>, channel_count: u16, sample_rate: u32, sample_size: u16)
    ensures
        final(buf)@ == old(buf)@ + audio_head(channel_count, sample_rate, sample_size),
{
    let mut out: Vec<u8> = Vec::new();
    bytes::put_zeros(&mut out, 6);
    assert(out@ =~= bytes::zeros(6));
    bytes::put_u16(&mut out, 1);
    bytes::put_zeros(&mut out, 8);
    bytes::put_u16(&mut out, channel_count);
    bytes::put_u16(&mut out, sample_size);
    bytes::put_zeros(&mut out, 2);
    bytes::put_zeros(&mut out, 2);
    bytes::put_u32(&mut out, sample_rate % 0x1_0000 * 0x1_0000);
    bytes::put_slice(buf, out.as_slice());
}

fn put_child(buf: &mut Vec<u8>, kind: &[u8; 4], body: &[u8])
    ensures
        final(buf)@ == old(buf)@ + child(kind@, body@),
{
    broadcast use boxes::group_wire;

    let total: u128 = body.len() as u128 + 8;
    bytes::put_u32(buf, (total % 0x1_0000_0000) as u32);
    bytes::put_slice(buf, kind);
    bytes::put_slice(buf, body);
}

fn build_aac_descriptor(config: &Vec<u8>) -> (r: Vec<u8>)
    ensures
        r@ == aac_descriptor(config@),
{
    let mut decoder: Vec<u8> = Vec::new();
    decoder.push(0x40);
    decoder.push(0x15);
    assert(decoder@ =~= seq![0x40u8, 0x15]);
    bytes::put_zeros(&mut decoder, 3);
    bytes::put_u32(&mut decoder, 0);
    bytes::put_u32(&mut decoder, 0);
    esds::put_descriptor(&mut decoder, 0x05, config);
    let mut sync: Vec<u8> = Vec::new();
    sync.push(2);
    assert(sync@ =~= seq![2u8]);
    let mut stream: Vec<u8> = Vec::new();
    bytes::put_u16(&mut stream, 0);
    assert(stream@ =~= bytes::be16(0));
    bytes::put_u8(&mut stream, 0);
    esds::put_descriptor(&mut stream, 0x04, &decoder);
    esds::put_descriptor(&mut stream, 0x06, &sync);
    let mut out: Vec<u8> = Vec::new();
    bytes::put_zeros(&mut out, 4);
    assert(out@ =~= seq![0u8, 0, 0, 0]);
    esds::put_descriptor(&mut out, 0x03, &stream);
    out
}

fn audio_codec_entry(p: &AudioTrackParams) -> (r: Codec)
    ensures
        r.wire() == audio_entry(*p),
{
    let sample_size: u16 = if p.sample_size == 0 {
        16
    } else {
        p.sample_size
    };
    let mut body: Vec<u8> = Vec::new();
    put_audio_head(&mut body, p.channel_count, p.sample_rate, sample_size);
    let ghost head = audio_head(p.channel_count, p.sample_rate, sample_size);
    assert(body@ =~= head);
    let kind: [u8; 4] = match p.codec {
        AudioInitCodec::Aac => {
            let descriptor = build_aac_descriptor(&p.configuration_record);
            put_child(&mut body, &kinds::ESDS, descriptor.as_slice());
            kinds::MP4A
        },
        AudioInitCodec::Flac => {
            put_child(&mut body, &kinds::DFLA, p.configuration_record.as_slice());
            kinds::FLAC
        },
        AudioInitCodec::Mp3 => kinds::MP3,
        AudioInitCodec::Opus => {
            put_child(&mut body, &kinds::DOPS, p.configuration_record.as_slice());
            kinds::OPUS
        },
    };
    Codec::RawEntry { kind: FourCC(kind), body }
}

/// The media information of a track: its header, that its data is in the same file, and
/// its tables.
#[verifier::opaque]
pub open spec fn info_wire(sound: Wire, video: Wire, entry: Wire) -> Wire {
    boxes::boxed(
        kinds::MINF@,
        boxes::joined(
            boxes::joined(boxes::joined(sound, video), place_wire()),
            tables_wire(
                boxes::full_boxed(
                    kinds::STSD@,
                    0,
                    0,
                    boxes::joined(Ok(bytes::be32(1)), entry),
                ),
            ),
        ),
    )
}

/// That media data is in the same file.
pub open spec fn place_wire() -> Wire {
    boxes::boxed(
        kinds::DINF@,
        boxes::full_boxed(
            kinds::DREF@,
            0,
            0,
            boxes::joined(
                Ok(bytes::be32(1)),
                boxes::full_boxed(kinds::URL@, 0, 1, Ok(Seq::empty())),
            ),
        ),
    )
}

/// The header of a track's media, of no particular language.
#[verifier::opaque]
pub open spec fn media_head(timescale: u32, duration: u64) -> Wire {
    let short = duration <= u32::MAX;
    boxes::full_boxed(
        kinds::MDHD@,
        if short {
            0
        } else {
            1
        },
        0,
        Ok(
            header::time_bytes(short, 0) + header::time_bytes(short, 0) + bytes::be32(timescale)
                + header::time_bytes(short, duration) + bytes::be16(header::language_of("und"@))
                + bytes::zeros(2),
        ),
    )
}

/// What a track carries.
#[verifier::opaque]
pub open spec fn handler_wire(handler: [u8; 4], name: Seq<char>) -> Wire {
    boxes::full_boxed(
        kinds::HDLR@,
        0,
        0,
        Ok(bytes::zeros(4) + handler@ + bytes::zeros(12) + encode_utf8(name) + seq![0u8]),
    )
}

/// A track.
#[verifier::opaque]
pub open spec fn track_wire(tkhd: Tkhd, media: Wire, handler: Wire, info: Wire) -> Wire {
    boxes::boxed(
        kinds::TRAK@,
        boxes::joined(
            boxes::joined(tkhd.wire(), Ok(Seq::empty())),
            boxes::boxed(kinds::MDIA@, boxes::joined(boxes::joined(media, handler), info)),
        ),
    )
}

/// The header of a video track.
pub open spec fn video_head(width: u16, height: u16, duration: u64) -> Tkhd {
    Tkhd {
        creation_time: 0,
        modification_time: 0,
        track_id: 1,
        duration,
        layer: 0,
        alternate_group: 0,
        volume: FixedPoint { whole: 0, fraction: 0 },
        matrix: header::unity(),
        width: FixedPoint { whole: width, fraction: 0 },
        height: FixedPoint { whole: height, fraction: 0 },
    }
}

/// The header of an audio track.
pub open spec fn audio_track_head(track_id: u32) -> Tkhd {
    Tkhd {
        creation_time: 0,
        modification_time: 0,
        track_id,
        duration: 0,
        layer: 0,
        alternate_group: 0,
        volume: FixedPoint { whole: 1, fraction: 0 },
        matrix: header::unity(),
        width: FixedPoint { whole: 0, fraction: 0 },
        height: FixedPoint { whole: 0, fraction: 0 },
    }
}

/// The header of video media without a graphics mode.
#[verifier::opaque]
pub open spec fn plain_video() -> Wire {
    boxes::full_boxed(
        kinds::VMHD@,
        0,
        1,
        Ok(bytes::be16(0) + bytes::be16(0) + bytes::be16(0) + bytes::be16(0)),
    )
}

/// A video track.
pub open spec fn video_track(p: VideoTrackParams, duration: u64) -> Wire {
    track_wire(
        video_head(p.width, p.height, duration),
        media_head(p.timescale, duration),
        handler_wire(kinds::VIDE, "VideoHandler"@),
        info_wire(
            Ok(Seq::empty()),
            plain_video(),
            video_entry(p.codec, p.width, p.height, p.configuration_record@),
        ),
    )
}

/// An audio track.
pub open spec fn audio_track(p: AudioTrackParams) -> Wire {
    track_wire(
        audio_track_head(2),
        media_head(p.timescale, 0),
        handler_wire(kinds::SOUN, "SoundHandler"@),
        info_wire(
            (Smhd { balance: FixedPoint { whole: 0, fraction: 0 } }).wire(),
            Ok(Seq::empty()),
            audio_entry(p),
        ),
    )
}

fn build_place() -> (r: Dinf)
    ensures
        r.wire() == place_wire(),
{
    let mut urls: Vec<Url> = Vec::new();
    urls.push(Url { location: String::new() });
    proof {
        fragment::lemma_one(urls@);
    }
    Dinf { dref: Dref { urls } }
}

fn build_info(smhd: Option<Smhd>, vmhd: Option<Vmhd>, codec: Codec) -> (r: Minf)
    ensures
        r.wire() == info_wire(boxes::opt_wire(smhd), boxes::opt_wire(vmhd), codec.wire()),
{
    let mut codecs: Vec<Codec> = Vec::new();
    codecs.push(codec);
    proof {
        fragment::lemma_one(codecs@);
    }
    let stbl = empty_stbl(Stsd { codecs });
    proof {
        reveal(info_wire);
    }
    Minf { smhd, vmhd, dinf: build_place(), stbl }
}

/// Preroll needs no edit list: readers of fragments are told of it by other means, and
/// some stall on one.
fn build_preroll_edts(_preroll_shift: u64, _segment_duration: u64) -> (r: Option<Edts>)
    ensures
        r is None,
{
    None
}

fn build_track(
    tkhd: Tkhd,
    edts: Option<Edts>,
    timescale: u32,
    duration: u64,
    handler: [u8; 4],
    name: &str,
    minf: Minf,
) -> (r: Trak)
    requires
        edts is None,
    ensures
        r.wire() == track_wire(
            tkhd,
            media_head(timescale, duration),
            handler_wire(handler, name@),
            minf.wire(),
        ),
{
    let mdhd = Mdhd {
        creation_time: 0,
        modification_time: 0,
        timescale,
        duration,
        language: "und".to_owned(),
    };
    let hdlr = Hdlr { handler: FourCC(handler), name: name.to_owned() };
    assert(mdhd.wire() == media_head(timescale, duration)) by {
        reveal(media_head);
    }
    assert(hdlr.wire() == handler_wire(handler, name@)) by {
        reveal(handler_wire);
    }
    let r = Trak { tkhd, edts, mdia: Mdia { mdhd, hdlr, minf } };
    proof {
        reveal(track_wire);
    }
    r
}

fn build_vmhd() -> (r: Vmhd)
    ensures
        r.wire() == plain_video(),
{
    proof {
        reveal(plain_video);
    }
    Vmhd { graphicsmode: 0, opcolor: [0, 0, 0] }
}

fn build_video(params: VideoTrackParams, edts: Option<Edts>, duration: u64) -> (r: Trak)
    requires
        edts is None,
    ensures
        r.wire() == video_track(params, duration),
{
    let tkhd = Tkhd {
        creation_time: 0,
        modification_time: 0,
        track_id: 1,
        duration,
        layer: 0,
        alternate_group: 0,
        volume: FixedPoint::new(0, 0),
        matrix: Matrix::default(),
        width: FixedPoint::new(params.width, 0),
        height: FixedPoint::new(params.height, 0),
    };
    let vmhd = build_vmhd();
    let codec = video_codec(
        params.codec,
        params.width,
        params.height,
        params.configuration_record,
    );
    let minf = build_info(None, Some(vmhd), codec);
    build_track(tkhd, edts, params.timescale, duration, kinds::VIDE, "VideoHandler", minf)
}

fn audio_trak(track_id: u32, p: &AudioTrackParams) -> (r: Trak)
    requires
        track_id == 2,
    ensures
        r.wire() == audio_track(*p),
{
    let tkhd = Tkhd {
        creation_time: 0,
        modification_time: 0,
        track_id,
        duration: 0,
        layer: 0,
        alternate_group: 0,
        volume: FixedPoint::new(1, 0),
        matrix: Matrix::default(),
        width: FixedPoint::new(0, 0),
        height: FixedPoint::new(0, 0),
    };
    let smhd = Smhd { balance: FixedPoint::new(0, 0) };
    let minf = build_info(Some(smhd), None, audio_codec_entry(p));
    build_track(tkhd, None, p.timescale, 0, kinds::SOUN, "SoundHandler", minf)
}

/// The `ftyp` of an initialization segment.
pub open spec fn init_brands() -> Wire {
    boxes::boxed(
        kinds::FTYP@,
        Ok(
            boxes::fragment::brands_body(
                FourCC(kinds::ISO5),
                0,
                seq![FourCC(kinds::ISO6), FourCC(kinds::MSDH), FourCC(kinds::DASH)],
            ),
        ),
    )
}

/// The header of a movie.
pub open spec fn movie_head(timescale: u32, duration: u64, next_track_id: u32) -> Mvhd {
    Mvhd {
        creation_time: 0,
        modification_time: 0,
        timescale,
        duration,
        rate: FixedPoint { whole: 0, fraction: 0 },
        volume: FixedPoint { whole: 0, fraction: 0 },
        matrix: header::unity(),
        next_track_id,
    }
}

/// The defaults of a track's samples: only which sample entry they have.
pub open spec fn sample_defaults(track_id: u32) -> Trex {
    Trex {
        track_id,
        default_sample_description_index: 1,
        default_sample_duration: 0,
        default_sample_size: 0,
        default_sample_flags: 0,
    }
}

/// A fragmented movie.
pub open spec fn movie_wire(mvhd: Wire, tracks: Wire, length: Wire, defaults: Wire) -> Wire {
    boxes::boxed(
        kinds::MOOV@,
        boxes::joined(
            boxes::joined(mvhd, tracks),
            boxes::boxed(kinds::MVEX@, boxes::joined(length, defaults)),
        ),
    )
}

/// An initialization segment of a video track. A duration of zero is one that is not
/// known.
pub open spec fn video_init(p: VideoTrackParams, duration: u64) -> Wire {
    boxes::joined(
        init_brands(),
        movie_wire(
            movie_head(p.timescale, duration, 2).wire(),
            video_track(p, duration),
            if duration > 0 {
                (Mehd { fragment_duration: duration }).wire()
            } else {
                Ok(Seq::empty())
            },
            sample_defaults(1).wire(),
        ),
    )
}

/// An initialization segment of a video track and perhaps an audio track.
pub open spec fn av_init(video: VideoTrackParams, audio: Option<AudioTrackParams>) -> Wire {
    boxes::joined(
        init_brands(),
        match audio {
            None => movie_wire(
                movie_head(video.timescale, 0, 2).wire(),
                video_track(video, 0),
                Ok(Seq::empty()),
                sample_defaults(1).wire(),
            ),
            Some(a) => movie_wire(
                movie_head(video.timescale, 0, 3).wire(),
                boxes::joined(video_track(video, 0), audio_track(a)),
                Ok(Seq::empty()),
                boxes::joined(sample_defaults(1).wire(), sample_defaults(2).wire()),
            ),
        },
    )
}

/// An initialization segment without an audio track is that of the video track alone.
pub proof fn law_video_alone(video: VideoTrackParams)
    ensures
        av_init(video, None) == video_init(video, 0),
{
}

fn build_defaults(track_id: u32) -> (r: Trex)
    ensures
        r == sample_defaults(track_id),
{
    Trex {
        track_id,
        default_sample_description_index: 1,
        default_sample_duration: 0,
        default_sample_size: 0,
        default_sample_flags: 0,
    }
}

fn put_init_brands(buf: &mut Vec<u8>)
    ensures
        init_brands() is Ok,
        final(buf)@ == old(buf)@ + init_brands()->Ok_0,
{
    let mut compatible: Vec<FourCC> = Vec::new();
    compatible.push(FourCC(kinds::ISO6));
    compatible.push(FourCC(kinds::MSDH));
    compatible.push(FourCC(kinds::DASH));
    let ftyp = Ftyp {
        major_brand: FourCC(kinds::ISO5),
        minor_version: 0,
        compatible_brands: compatible,
    };
    assert(ftyp.compatible_brands@ =~= seq![
        FourCC(kinds::ISO6),
        FourCC(kinds::MSDH),
        FourCC(kinds::DASH),
    ]);
    assert(ftyp.wire() == init_brands());
    proof {
        reveal_with_fuel(boxes::run, 4);
        assert(ftyp.body()->Ok_0.len() == 20);
    }
    let r = ftyp.encode(buf);
}

/// Appends an initialization segment with these tracks.
fn put_init(
    out: &mut Vec<u8>,
    timescale: u32,
    duration: u64,
    next_track_id: u32,
    tracks: Vec<Trak>,
    defaults: Vec<Trex>,
) -> (r: IsobmffResult<()>)
    ensures
        fragment::appended(
            boxes::joined(
                init_brands(),
                movie_wire(
                    movie_head(timescale, duration, next_track_id).wire(),
                    boxes::all_wire(tracks@),
                    if duration > 0 {
                        (Mehd { fragment_duration: duration }).wire()
                    } else {
                        Ok(Seq::empty())
                    },
                    boxes::all_wire(defaults@),
                ),
            ),
            old(out)@,
            final(out)@,
            r,
        ),
{
    let mut buf: Vec<u8> = Vec::new();
    put_init_brands(&mut buf);
    assert(buf@ =~= init_brands()->Ok_0);
    let mvhd = Mvhd {
        creation_time: 0,
        modification_time: 0,
        timescale,
        duration,
        rate: FixedPoint::new(0, 0),
        volume: FixedPoint::new(0, 0),
        matrix: Matrix::default(),
        next_track_id,
    };
    let mehd = if duration > 0 {
        Some(Mehd { fragment_duration: duration })
    } else {
        None
    };
    let moov = Moov { mvhd, trak: tracks, mvex: Some(Mvex { mehd, trex: defaults }) };
    moov.encode(&mut buf)?;
    bytes::put_slice(out, buf.as_slice());
    Ok(())
}

fn write_video_init_segment_inner(
    out: &mut Vec<u8>,
    params: VideoTrackParams,
    video_preroll_ticks: u64,
    video_segment_duration_ticks: u64,
    total_duration_ticks: u64,
) -> (r: IsobmffResult<()>)
    ensures
        fragment::appended(video_init(params, total_duration_ticks), old(out)@, final(out)@, r),
{
    let timescale: u32 = params.timescale;
    let edts = build_preroll_edts(video_preroll_ticks, video_segment_duration_ticks);
    let mut tracks: Vec<Trak> = Vec::new();
    tracks.push(build_video(params, edts, total_duration_ticks));
    let mut defaults: Vec<Trex> = Vec::new();
    defaults.push(build_defaults(1));
    proof {
        fragment::lemma_one(tracks@);
        fragment::lemma_one(defaults@);
    }
    put_init(out, timescale, total_duration_ticks, 2, tracks, defaults)
}

/// Appends an initialization segment of a video track, of no known duration.
pub fn write_video_init_segment(out: &mut Vec<u8>, params: VideoTrackParams) -> (r: IsobmffResult<
    (),
>)
    ensures
        fragment::appended(video_init(params, 0), old(out)@, final(out)@, r),
{
    write_video_init_segment_inner(out, params, 0, 0, 0)
}

/// Appends an initialization segment of a video track, with its duration in ticks.
/// Zero is a duration that is not known.
pub fn write_video_init_segment_with_duration(
    out: &mut Vec<u8>,
    params: VideoTrackParams,
    duration_ticks: u64,
) -> (r: IsobmffResult<()>)
    ensures
        fragment::appended(video_init(params, duration_ticks), old(out)@, final(out)@, r),
{
    write_video_init_segment_inner(out, params, 0, 0, duration_ticks)
}

/// As [`write_video_init_segment`]. The preroll leaves no trace: players stall on an edit
/// list for it, so whoever plays the segment shifts the times.
pub fn write_video_init_segment_with_preroll(
    out: &mut Vec<u8>,
    params: VideoTrackParams,
    video_preroll_ticks: u64,
    video_segment_duration_ticks: u64,
) -> (r: IsobmffResult<()>)
    ensures
        fragment::appended(video_init(params, 0), old(out)@, final(out)@, r),
{
    write_video_init_segment_inner(
        out,
        params,
        video_preroll_ticks,
        video_segment_duration_ticks,
        0,
    )
}

fn write_av_init_segment_inner(
    out: &mut Vec<u8>,
    video: VideoTrackParams,
    audio: Option<AudioTrackParams>,
    video_preroll_ticks: u64,
    video_segment_duration_ticks: u64,
) -> (r: IsobmffResult<()>)
    ensures
        fragment::appended(av_init(video, audio), old(out)@, final(out)@, r),
{
    let timescale: u32 = video.timescale;
    let edts = build_preroll_edts(video_preroll_ticks, video_segment_duration_ticks);
    let mut tracks: Vec<Trak> = Vec::new();
    tracks.push(build_video(video, edts, 0));
    let mut defaults: Vec<Trex> = Vec::new();
    defaults.push(build_defaults(1));
    let next_track_id: u32 = match &audio {
        Some(a) => {
            tracks.push(audio_trak(2, a));
            defaults.push(build_defaults(2));
            proof {
                fragment::lemma_two(tracks@);
                fragment::lemma_two(defaults@);
            }
            3
        },
        None => {
            proof {
                fragment::lemma_one(tracks@);
                fragment::lemma_one(defaults@);
            }
            2
        },
    };
    put_init(out, timescale, 0, next_track_id, tracks, defaults)
}

/// Appends an initialization segment of a video track, which is track 1, and perhaps an
/// audio track, which is track 2. The movie ticks as the video track does.
pub fn write_av_init_segment(
    out: &mut Vec<u8>,
    video: VideoTrackParams,
    audio: Option<AudioTrackParams>,
) -> (r: IsobmffResult<()>)
    ensures
        fragment::appended(av_init(video, audio), old(out)@, final(out)@, r),
{
    write_av_init_segment_inner(out, video, audio, 0, 0)
}

/// As [`write_av_init_segment`]. The preroll leaves no trace, as in
/// [`write_video_init_segment_with_preroll`].
pub fn write_av_init_segment_with_preroll(
    out: &mut Vec<u8>,
    video: VideoTrackParams,
    audio: Option<AudioTrackParams>,
    video_preroll_ticks: u64,
    video_segment_duration_ticks: u64,
) -> (r: IsobmffResult<()>)
    ensures
        fragment::appended(av_init(video, audio), old(out)@, final(out)@, r),
{
    write_av_init_segment_inner(
        out,
        video,
        audio,
        video_preroll_ticks,
        video_segment_duration_ticks,
    )
}

} // verus!
