//! Reading the movie of an MP4 file: its first video track and its first audio track,
//! with all their samples.
//!
//! Offsets of samples count from the start of the file, so that its media data need not
//! be at hand.

pub mod boxed;
pub mod cursor;
pub mod listed;
pub mod table;

pub use table::SampleRef;

use crate::bytes;
use crate::isobmff::boxes::kinds;
use crate::isobmff::error;
use crate::isobmff::{IsobmffError, IsobmffResult};
use crate::text;
use cursor::{find_box, parse_err, require_child, Cursor};
use table::build_sample_table;
use vstd::prelude::*;
use vstd::string::*;

verus! {

/// How a video track is coded.
#[derive(Debug, Clone, Copy, PartialEq, Eq)]
pub enum VideoCodec {
    /// `avc1` or `avc3`, configured by `avcC`.
    Avc,
    /// `hvc1` or `hev1`, configured by `hvcC`.
    Hevc,
    /// `av01`, configured by `av1C`.
    Av1,
}

/// How an audio track is coded.
#[derive(Debug, Clone, Copy, PartialEq, Eq)]
pub enum AudioCodec {
    /// `mp4a`, configured by `esds`.
    Aac,
    /// `fLaC`, configured by `dfLa`.
    Flac,
    /// `mp4a` or `.mp3`; the stream describes itself.
    Mp3,
}

/// A video track and its samples, in the order in which they are decoded.
#[derive(Debug, Clone)]
pub struct VideoTrack {
    pub codec: VideoCodec,
    /// The body of the configuration box.
    pub codec_config: Vec<u8>,
    pub width: u16,
    pub height: u16,
    /// Ticks per second.
    pub timescale: u32,
    pub duration: u64,
    pub samples: Vec<SampleRef>,
}

/// An audio track and its samples.
#[derive(Debug, Clone)]
pub struct AudioTrack {
    pub codec: AudioCodec,
    /// For AAC the configuration of its decoder, for FLAC the body of `dfLa`, for MP3
    /// nothing.
    pub codec_config: Vec<u8>,
    pub channel_count: u16,
    pub sample_rate: u32,
    /// Ticks per second.
    pub timescale: u32,
    pub duration: u64,
    pub samples: Vec<SampleRef>,
}

#[verifier::ext_equal]
pub struct VideoView {
    pub codec: VideoCodec,
    pub codec_config: Seq<u8>,
    pub width: u16,
    pub height: u16,
    pub timescale: u32,
    pub duration: u64,
    pub samples: Seq<SampleRef>,
}

impl View for VideoTrack {
    type V = VideoView;

    open spec fn view(&self) -> VideoView {
        VideoView {
            codec: self.codec,
            codec_config: self.codec_config@,
            width: self.width,
            height: self.height,
            timescale: self.timescale,
            duration: self.duration,
            samples: self.samples@,
        }
    }
}

#[verifier::ext_equal]
pub struct AudioView {
    pub codec: AudioCodec,
    pub codec_config: Seq<u8>,
    pub channel_count: u16,
    pub sample_rate: u32,
    pub timescale: u32,
    pub duration: u64,
    pub samples: Seq<SampleRef>,
}

impl View for AudioTrack {
    type V = AudioView;

    open spec fn view(&self) -> AudioView {
        AudioView {
            codec: self.codec,
            codec_config: self.codec_config@,
            channel_count: self.channel_count,
            sample_rate: self.sample_rate,
            timescale: self.timescale,
            duration: self.duration,
            samples: self.samples@,
        }
    }
}

/// Sample `i` is one at which decoding can start, and is shown at `t` or later.
pub open spec fn starts_from(s: Seq<SampleRef>, i: int, t: u64) -> bool {
    0 <= i < s.len() && s[i].is_keyframe && s[i].shown() >= t
}

impl VideoTrack {
    /// The first sample at which decoding can start that is shown at a time or later,
    /// and if there is none the last at which decoding can start.
    pub fn keyframe_index_for_time(&self, time_in_timescale: u64) -> (r: Option<usize>)
        ensures
            match r {
                None => forall|j: int|
                    0 <= j < self.samples@.len() ==> !(#[trigger] self.samples@[j]).is_keyframe,
                Some(i) => {
                    &&& i < self.samples@.len()
                    &&& self.samples@[i as int].is_keyframe
                    &&& starts_from(self.samples@, i as int, time_in_timescale) ==> forall|j: int|
                        0 <= j < i ==> !#[trigger] starts_from(self.samples@, j, time_in_timescale)
                    &&& !starts_from(self.samples@, i as int, time_in_timescale) ==> {
                        &&& forall|j: int|
                            !#[trigger] starts_from(self.samples@, j, time_in_timescale)
                        &&& forall|j: int|
                            i < j < self.samples@.len() ==> !(
                            #[trigger] self.samples@[j]).is_keyframe
                    }
                },
            },
    {
        let mut last: Option<usize> = None;
        let mut i: usize = 0;
        while i < self.samples.len()
            invariant
                i <= self.samples@.len(),
                forall|j: int|
                    0 <= j < i ==> !#[trigger] starts_from(self.samples@, j, time_in_timescale),
                match last {
                    None => forall|j: int|
                        0 <= j < i ==> !(#[trigger] self.samples@[j]).is_keyframe,
                    Some(k) => k < i && self.samples@[k as int].is_keyframe && forall|j: int|
                        k < j < i ==> !(#[trigger] self.samples@[j]).is_keyframe,
                },
            decreases self.samples@.len() - i,
        {
            let s: SampleRef = self.samples[i];
            if s.is_keyframe {
                if s.pts() >= time_in_timescale {
                    assert(starts_from(self.samples@, i as int, time_in_timescale));
                    return Some(i);
                }
                last = Some(i);
            }
            assert(!starts_from(self.samples@, i as int, time_in_timescale));
            i = i + 1;
        }
        last
    }
}

/// What the handler box of a track says it carries.
pub open spec fn handler_of(b: Seq<u8>) -> Result<Seq<u8>, Seq<char>> {
    match cursor::lack(b, 0, seq![4nat, 4, 4]) {
        Some(m) => Err(m),
        None => Ok(b.subrange(8, 12)),
    }
}

fn read_handler(b: &[u8]) -> (r: IsobmffResult<[u8; 4]>)
    ensures
        match handler_of(b@) {
            Err(m) => error::heif(r, m),
            Ok(h) => r is Ok && r->Ok_0@ == h,
        },
{
    proof {
        reveal_with_fuel(cursor::lack, 4);
    }
    let mut c = Cursor::new(b);
    c.skip(4)?;
    c.skip(4)?;
    c.read_code()
}

/// How wide and high a track is shown.
pub open spec fn shown_size(b: Seq<u8>) -> Result<(u16, u16), Seq<char>> {
    if b.len() < 1 {
        Err(cursor::short(1, 0))
    } else {
        let w: nat = if b[0] == 1 {
            8
        } else {
            4
        };
        // The flags, the times and the identity, and what is reserved.
        match cursor::lack(b, 1, seq![3, (w * 2) as nat, 4, 4, w, 8]) {
            Some(m) => Err(m),
            // The layer, the group, the volume and the matrix, then the size.
            None => match cursor::lack(b, 20 + 3 * w as int, seq![2nat, 2, 2, 2, 36, 4, 4]) {
                Some(m) => Err(m),
                None => Ok(
                    (bytes::get16(b, 64 + 3 * w as int), bytes::get16(b, 68 + 3 * w as int)),
                ),
            },
        }
    }
}

/// Passes what a `tkhd` holds before the layer of its track.
#[verifier::spinoff_prover]
fn skip_track_times(c: &mut Cursor<'_>, w: usize) -> (r: IsobmffResult<()>)
    requires
        old(c).wf(),
        w == 4 || w == 8,
    ensures
        final(c).wf(),
        final(c).buf == old(c).buf,
        match cursor::lack(
            old(c).buf@,
            old(c).pos as int,
            seq![3, (w * 2) as nat, 4, 4, w as nat, 8],
        ) {
            Some(m) => error::heif(r, m),
            None => r is Ok && final(c).pos == old(c).pos + 19 + 3 * w,
        },
{
    proof {
        reveal_with_fuel(cursor::lack, 7);
    }
    c.skip(3)?;
    c.skip(w * 2)?;
    c.skip(4)?;
    c.skip(4)?;
    c.skip(w)?;
    c.skip(8)
}

#[verifier::spinoff_prover]
fn parse_tkhd_dims(b: &[u8]) -> (r: IsobmffResult<(u16, u16)>)
    ensures
        match shown_size(b@) {
            Err(m) => error::heif(r, m),
            Ok(d) => r is Ok && r->Ok_0 == d,
        },
{
    proof {
        reveal_with_fuel(cursor::lack, 8);
    }
    let mut c = Cursor::new(b);
    let version: u8 = c.read_u8()?;
    let w: usize = if version == 1 {
        8
    } else {
        4
    };
    skip_track_times(&mut c, w)?;
    c.skip(2)?;
    c.skip(2)?;
    c.skip(2)?;
    c.skip(2)?;
    c.skip(36)?;
    let width: u32 = c.read_u32()?;
    let height: u32 = c.read_u32()?;
    Ok(((width / 0x1_0000) as u16, (height / 0x1_0000) as u16))
}

/// The ticks per second and the duration of a track's media.
pub open spec fn clock_of(b: Seq<u8>) -> Result<(u32, u64), Seq<char>> {
    if b.len() < 1 {
        Err(cursor::short(1, 0))
    } else if b[0] == 1 {
        match cursor::lack(b, 1, seq![3nat, 16, 4, 8]) {
            Some(m) => Err(m),
            None => Ok((bytes::get32(b, 20), bytes::get64(b, 24))),
        }
    } else {
        match cursor::lack(b, 1, seq![3nat, 8, 4, 4]) {
            Some(m) => Err(m),
            None => Ok((bytes::get32(b, 12), bytes::get32(b, 16) as u64)),
        }
    }
}

fn parse_mdhd(b: &[u8]) -> (r: IsobmffResult<(u32, u64)>)
    ensures
        match clock_of(b@) {
            Err(m) => error::heif(r, m),
            Ok(d) => r is Ok && r->Ok_0 == d,
        },
{
    proof {
        reveal_with_fuel(cursor::lack, 5);
    }
    let mut c = Cursor::new(b);
    let version: u8 = c.read_u8()?;
    c.skip(3)?;
    if version == 1 {
        c.skip(16)?;
        let timescale: u32 = c.read_u32()?;
        let duration: u64 = c.read_u64()?;
        Ok((timescale, duration))
    } else {
        c.skip(8)?;
        let timescale: u32 = c.read_u32()?;
        let duration: u64 = c.read_u32()? as u64;
        Ok((timescale, duration))
    }
}

/// How a video sample entry is coded.
pub open spec fn video_codec(kind: Seq<u8>) -> Option<VideoCodec> {
    if kind == kinds::AVC1@ || kind == kinds::AVC3@ {
        Some(VideoCodec::Avc)
    } else if kind == kinds::HVC1@ || kind == kinds::HEV1@ {
        Some(VideoCodec::Hevc)
    } else if kind == kinds::AV01@ {
        Some(VideoCodec::Av1)
    } else {
        None
    }
}

/// The configuration box of a video codec, and the text of the error if it is missing.
pub open spec fn config_box(codec: VideoCodec) -> (Seq<u8>, Seq<char>) {
    match codec {
        VideoCodec::Avc => (
            kinds::AVCC@,
            "visual sample entry missing config box \"avcC\""@,
        ),
        VideoCodec::Hevc => (
            kinds::HVCC@,
            "visual sample entry missing config box \"hvcC\""@,
        ),
        VideoCodec::Av1 => (
            kinds::AV1C@,
            "visual sample entry missing config box \"av1C\""@,
        ),
    }
}

/// The size in a visual sample entry, whose fixed part is all there.
pub open spec fn visual_head(b: Seq<u8>) -> Result<(u16, u16), Seq<char>> {
    // What is before the size and the resolution.
    match cursor::lack(b, 0, seq![8nat, 16, 2, 2, 8]) {
        Some(m) => Err(m),
        None => match cursor::lack(b, 36, seq![4nat, 2, 32, 2, 2]) {
            Some(m) => Err(m),
            None => Ok((bytes::get16(b, 24), bytes::get16(b, 26))),
        },
    }
}

/// The configuration, the width and the height in a video sample entry.
pub open spec fn video_entry(codec: VideoCodec, b: Seq<u8>) -> Result<
    (Seq<u8>, u16, u16),
    Seq<char>,
> {
    match visual_head(b) {
        Err(m) => Err(m),
        Ok((w, h)) => match cursor::find_from(b, 78, config_box(codec).0) {
            Err(m) => Err(m),
            Ok(None) => Err(config_box(codec).1),
            Ok(Some(c)) => Ok((c, w, h)),
        },
    }
}

/// What the sample entry of a video track says. Only the first counts.
pub open spec fn video_entry_in(b: Seq<u8>) -> Result<
    (VideoCodec, Seq<u8>, u16, u16),
    Seq<char>,
> {
    match cursor::lack(b, 0, seq![4nat, 4]) {
        Some(m) => Err(m),
        None => if bytes::get32(b, 4) == 0 {
            Err("stsd entry_count = 0"@)
        } else {
            match cursor::box_at(b, 8) {
                Err(m) => Err(m),
                Ok((kind, start, end)) => match video_codec(kind) {
                    None => Err(
                        "unsupported visual sample entry: "@ + text::debug_text(
                            text::text_or_mark(kind),
                        ),
                    ),
                    Some(codec) => match video_entry(codec, b.subrange(start, end)) {
                        Err(m) => Err(m),
                        Ok((c, w, h)) => Ok((codec, c, w, h)),
                    },
                },
            }
        },
    }
}

#[verifier::spinoff_prover]
fn read_visual_head(b: &[u8]) -> (r: IsobmffResult<(u16, u16)>)
    ensures
        match visual_head(b@) {
            Err(m) => error::heif(r, m),
            Ok(d) => r is Ok && r->Ok_0 == d && b@.len() >= 78,
        },
{
    proof {
        reveal_with_fuel(cursor::lack, 6);
    }
    let mut c = Cursor::new(b);
    c.skip(8)?;
    c.skip(16)?;
    let width: u16 = c.read_u16()?;
    let height: u16 = c.read_u16()?;
    c.skip(8)?;
    c.skip(4)?;
    c.skip(2)?;
    c.skip(32)?;
    c.skip(2)?;
    c.skip(2)?;
    Ok((width, height))
}

fn parse_visual_sample_entry(codec: VideoCodec, b: &[u8]) -> (r: IsobmffResult<
    (Vec<u8>, u16, u16),
>)
    ensures
        match video_entry(codec, b@) {
            Err(m) => error::heif(r, m),
            Ok((c, w, h)) => r is Ok && r->Ok_0.0@ == c && r->Ok_0.1 == w && r->Ok_0.2 == h,
        },
{
    let (width, height) = read_visual_head(b)?;
    let (wanted, missing): ([u8; 4], &str) = match codec {
        VideoCodec::Avc => (kinds::AVCC, "visual sample entry missing config box \"avcC\""),
        VideoCodec::Hevc => (kinds::HVCC, "visual sample entry missing config box \"hvcC\""),
        VideoCodec::Av1 => (kinds::AV1C, "visual sample entry missing config box \"av1C\""),
    };
    match find_box(b, 78, &wanted)? {
        Some(x) => Ok((bytes::to_vec(x), width, height)),
        None => Err(parse_err(missing)),
    }
}

fn unsupported_entry(what: &str, kind: &[u8; 4]) -> (e: IsobmffError)
    ensures
        e matches IsobmffError::Heif(t) && t@ == what@ + text::debug_text(
            text::text_or_mark(kind@),
        ),
{
    let mut s: String = what.to_owned();
    let code: String = text::debug_code(kind);
    s.append(code.as_str());
    IsobmffError::Heif(s)
}

fn parse_stsd_visual(b: &[u8]) -> (r: IsobmffResult<(VideoCodec, Vec<u8>, u16, u16)>)
    ensures
        match video_entry_in(b@) {
            Err(m) => error::heif(r, m),
            Ok((k, c, w, h)) => r is Ok && r->Ok_0.0 == k && r->Ok_0.1@ == c && r->Ok_0.2 == w
                && r->Ok_0.3 == h,
        },
{
    proof {
        reveal_with_fuel(cursor::lack, 3);
    }
    let mut c = Cursor::new(b);
    c.skip(4)?;
    let count: u32 = c.read_u32()?;
    if count == 0 {
        return Err(parse_err("stsd entry_count = 0"));
    }
    let (kind, body) = c.read_box()?;
    let codec: VideoCodec = if bytes::same4(&kind, &kinds::AVC1) || bytes::same4(
        &kind,
        &kinds::AVC3,
    ) {
        VideoCodec::Avc
    } else if bytes::same4(&kind, &kinds::HVC1) || bytes::same4(&kind, &kinds::HEV1) {
        VideoCodec::Hevc
    } else if bytes::same4(&kind, &kinds::AV01) {
        VideoCodec::Av1
    } else {
        return Err(unsupported_entry("unsupported visual sample entry: ", &kind));
    };
    let (config, width, height) = parse_visual_sample_entry(codec, body)?;
    Ok((codec, config, width, height))
}

/// The length of a descriptor and where it ends: up to `k` bytes of seven bits, all but
/// the last with the high bit set.
pub open spec fn length_at(b: Seq<u8>, at: int, acc: nat, k: nat) -> Result<(nat, int), Seq<char>>
    decreases k,
{
    if k == 0 {
        Ok((acc, at))
    } else if at >= b.len() {
        Err(cursor::short(1, 0))
    } else {
        let v = (acc * 128 + b[at] % 128) as nat;
        if b[at] < 128 {
            Ok((v, at + 1))
        } else {
            length_at(b, at + 1, v, (k - 1) as nat)
        }
    }
}

fn read_descriptor_length(c: &mut Cursor<'_>) -> (r: IsobmffResult<u32>)
    requires
        old(c).wf(),
    ensures
        final(c).wf(),
        final(c).buf == old(c).buf,
        match length_at(old(c).buf@, old(c).pos as int, 0, 4) {
            Err(m) => error::heif(r, m),
            Ok((n, at)) => r is Ok && r->Ok_0 == n && final(c).pos == at,
        },
{
    let mut len: u32 = 0;
    let mut k: u32 = 0;
    let ghost given = length_at(c.buf@, c.pos as int, 0, 4);
    while k < 4
        invariant
            c.wf(),
            c.buf == old(c).buf,
            k <= 4,
            k == 0 ==> len == 0,
            k == 1 ==> len < 128,
            k == 2 ==> len < 16384,
            k == 3 ==> len < 2097152,
            given == length_at(old(c).buf@, old(c).pos as int, 0, 4),
            given == length_at(c.buf@, c.pos as int, len as nat, (4 - k) as nat),
        decreases 4 - k,
    {
        let b: u8 = c.read_u8()?;
        len = len * 128 + (b % 128) as u32;
        if b < 128 {
            return Ok(len);
        }
        k = k + 1;
    }
    Ok(len)
}

/// The text of the error for a descriptor with another tag.
pub open spec fn tag_text(what: Seq<char>, tag: u8) -> Seq<char> {
    what + text::hex(tag as nat, 2)
}

fn wrong_tag(what: &str, tag: u8) -> (e: IsobmffError)
    ensures
        e matches IsobmffError::Heif(t) && t@ == tag_text(what@, tag),
{
    let mut s: String = what.to_owned();
    text::put_hex(&mut s, tag as u64, 2);
    IsobmffError::Heif(s)
}

/// Where the optional fields of a stream's descriptor end, given its flags.
pub open spec fn options_end(b: Seq<u8>, at: int, flags: u8) -> Result<int, Seq<char>> {
    let a = if flags >= 128 {
        cursor::lack(b, at, seq![2nat])
    } else {
        None
    };
    let at1 = if flags >= 128 {
        at + 2
    } else {
        at
    };
    if a is Some {
        Err(a->0)
    } else {
        let url = flags / 64 % 2 == 1;
        let l = if url {
            cursor::lack(b, at1, seq![1nat])
        } else {
            None
        };
        let u = if url {
            cursor::lack(b, at1, seq![1nat, b[at1] as nat])
        } else {
            None
        };
        let at2 = if url {
            at1 + 1 + b[at1]
        } else {
            at1
        };
        if l is Some {
            Err(l->0)
        } else if u is Some {
            Err(u->0)
        } else {
            let clock = flags / 32 % 2 == 1;
            let o = if clock {
                cursor::lack(b, at2, seq![2nat])
            } else {
                None
            };
            if o is Some {
                Err(o->0)
            } else if clock {
                Ok(at2 + 2)
            } else {
                Ok(at2)
            }
        }
    }
}

fn skip_options(c: &mut Cursor<'_>, flags: u8) -> (r: IsobmffResult<()>)
    requires
        old(c).wf(),
    ensures
        final(c).wf(),
        final(c).buf == old(c).buf,
        match options_end(old(c).buf@, old(c).pos as int, flags) {
            Err(m) => error::heif(r, m),
            Ok(at) => r is Ok && final(c).pos == at,
        },
{
    proof {
        reveal_with_fuel(cursor::lack, 3);
    }
    if flags >= 128 {
        c.skip(2)?;
    }
    if flags / 64 % 2 == 1 {
        let n: u8 = c.read_u8()?;
        c.skip(n as usize)?;
    }
    if flags / 32 % 2 == 1 {
        c.skip(2)?;
    }
    Ok(())
}

/// Where the descriptor of the decoder starts in an `esds`.
pub open spec fn decoder_at(b: Seq<u8>) -> Result<int, Seq<char>> {
    match cursor::lack(b, 0, seq![4nat, 1]) {
        Some(m) => Err(m),
        None => if b[4] != 0x03 {
            Err(tag_text("esds: expected ES_Descriptor tag 0x03, got 0x"@, b[4]))
        } else {
            match length_at(b, 5, 0, 4) {
                Err(m) => Err(m),
                Ok((_, at)) => match cursor::lack(b, at, seq![2nat, 1]) {
                    Some(m) => Err(m),
                    None => options_end(b, at + 3, b[at + 2]),
                },
            }
        },
    }
}

/// The object type and the decoder's configuration in an `esds`.
pub open spec fn esds_of(b: Seq<u8>) -> Result<(u8, Seq<u8>), Seq<char>> {
    match decoder_at(b) {
        Err(m) => Err(m),
        Ok(at) => match cursor::lack(b, at, seq![1nat]) {
            Some(m) => Err(m),
            None => if b[at] != 0x04 {
                Err(
                    tag_text(
                        "esds: expected DecoderConfigDescriptor tag 0x04, got 0x"@,
                        b[at],
                    ),
                )
            } else {
                match length_at(b, at + 1, 0, 4) {
                    Err(m) => Err(m),
                    Ok((_, p)) => match cursor::lack(b, p, seq![1nat, 1, 3, 4, 4, 1]) {
                        Some(m) => Err(m),
                        None => if b[p + 13] != 0x05 {
                            Ok((b[p], Seq::empty()))
                        } else {
                            match length_at(b, p + 14, 0, 4) {
                                Err(m) => Err(m),
                                Ok((n, q)) => match cursor::lack(b, q, seq![n]) {
                                    Some(m) => Err(m),
                                    None => Ok((b[p], b.subrange(q, q + n))),
                                },
                            }
                        },
                    },
                }
            },
        },
    }
}

fn find_decoder(b: &[u8]) -> (r: IsobmffResult<usize>)
    ensures
        match decoder_at(b@) {
            Err(m) => error::heif(r, m),
            Ok(at) => r is Ok && r->Ok_0 == at && at <= b@.len(),
        },
{
    proof {
        reveal_with_fuel(cursor::lack, 3);
    }
    let mut c = Cursor::new(b);
    c.skip(4)?;
    let tag: u8 = c.read_u8()?;
    if tag != 0x03 {
        return Err(wrong_tag("esds: expected ES_Descriptor tag 0x03, got 0x", tag));
    }
    let _n: u32 = read_descriptor_length(&mut c)?;
    c.skip(2)?;
    let flags: u8 = c.read_u8()?;
    skip_options(&mut c, flags)?;
    Ok(c.pos)
}

#[verifier::spinoff_prover]
fn parse_esds_asc(b: &[u8]) -> (r: IsobmffResult<(u8, Vec<u8>)>)
    ensures
        match esds_of(b@) {
            Err(m) => error::heif(r, m),
            Ok((o, c)) => r is Ok && r->Ok_0.0 == o && r->Ok_0.1@ == c,
        },
{
    let at: usize = find_decoder(b)?;
    proof {
        reveal_with_fuel(cursor::lack, 7);
    }
    let mut c = Cursor { buf: b, pos: at };
    let tag: u8 = c.read_u8()?;
    if tag != 0x04 {
        return Err(wrong_tag("esds: expected DecoderConfigDescriptor tag 0x04, got 0x", tag));
    }
    let _n: u32 = read_descriptor_length(&mut c)?;
    let oti: u8 = c.read_u8()?;
    c.skip(1)?;
    c.skip(3)?;
    c.skip(4)?;
    c.skip(4)?;
    let tag: u8 = c.read_u8()?;
    if tag != 0x05 {
        return Ok((oti, Vec::new()));
    }
    let n: u32 = read_descriptor_length(&mut c)?;
    let asc = c.read_slice(n as usize)?;
    Ok((oti, bytes::to_vec(asc)))
}

/// The codec and its configuration in an audio sample entry.
pub open spec fn audio_entry(kind: Seq<u8>, b: Seq<u8>) -> Result<
    (AudioCodec, Seq<u8>),
    Seq<char>,
> {
    if kind == kinds::MP4A@ {
        match cursor::find_from(b, 28, kinds::ESDS@) {
            Err(m) => Err(m),
            Ok(None) => Err("mp4a sample entry missing esds"@),
            Ok(Some(e)) => match esds_of(e) {
                Err(m) => Err(m),
                Ok((oti, c)) => if oti == 0x40 {
                    Ok((AudioCodec::Aac, c))
                } else if oti == 0x69 || oti == 0x6B {
                    Ok((AudioCodec::Mp3, Seq::empty()))
                } else {
                    Err(tag_text("mp4a esds: unsupported object_type_indication 0x"@, oti))
                },
            },
        }
    } else if kind == kinds::FLAC@ || kind == kinds::FLAC_LOWER@ {
        match cursor::find_from(b, 28, kinds::DFLA@) {
            Err(m) => Err(m),
            Ok(None) => Err("fLaC sample entry missing dfLa"@),
            Ok(Some(c)) => Ok((AudioCodec::Flac, c)),
        }
    } else if kind == kinds::MP3@ {
        Ok((AudioCodec::Mp3, Seq::empty()))
    } else {
        Err("unsupported audio sample entry: "@ + text::debug_text(text::text_or_mark(kind)))
    }
}

/// The channels and the samples per second in an audio sample entry.
pub open spec fn audio_head(b: Seq<u8>) -> Result<(u16, u32), Seq<char>> {
    match cursor::lack(b, 0, seq![6nat, 2, 8, 2, 2, 2, 2, 4]) {
        Some(m) => Err(m),
        None => Ok((bytes::get16(b, 16), bytes::get16(b, 24) as u32)),
    }
}

#[verifier::spinoff_prover]
fn read_audio_head(b: &[u8]) -> (r: IsobmffResult<(u16, u32)>)
    ensures
        match audio_head(b@) {
            Err(m) => error::heif(r, m),
            Ok(h) => r is Ok && r->Ok_0 == h && b@.len() >= 28,
        },
{
    proof {
        reveal_with_fuel(cursor::lack, 9);
    }
    let mut e = Cursor::new(b);
    e.skip(6)?;
    e.skip(2)?;
    e.skip(8)?;
    let channels: u16 = e.read_u16()?;
    e.skip(2)?;
    e.skip(2)?;
    e.skip(2)?;
    let rate: u32 = e.read_u32()?;
    Ok((channels, rate / 0x1_0000))
}

/// What the sample entry of an audio track says: its codec, its configuration, its
/// channels and its samples per second.
pub open spec fn audio_entry_in(b: Seq<u8>) -> Result<
    (AudioCodec, Seq<u8>, u16, u32),
    Seq<char>,
> {
    match cursor::lack(b, 0, seq![4nat, 4]) {
        Some(m) => Err(m),
        None => if bytes::get32(b, 4) == 0 {
            Err("audio stsd entry_count = 0"@)
        } else {
            match cursor::box_at(b, 8) {
                Err(m) => Err(m),
                Ok((kind, start, end)) => {
                    let e = b.subrange(start, end);
                    match audio_head(e) {
                        Err(m) => Err(m),
                        Ok((channels, rate)) => match audio_entry(kind, e) {
                            Err(m) => Err(m),
                            Ok((codec, c)) => Ok((codec, c, channels, rate)),
                        },
                    }
                },
            }
        },
    }
}

fn parse_audio_entry(kind: &[u8; 4], b: &[u8]) -> (r: IsobmffResult<(AudioCodec, Vec<u8>)>)
    requires
        b@.len() >= 28,
    ensures
        match audio_entry(kind@, b@) {
            Err(m) => error::heif(r, m),
            Ok((k, c)) => r is Ok && r->Ok_0.0 == k && r->Ok_0.1@ == c,
        },
{
    if bytes::same4(kind, &kinds::MP4A) {
        let e = match find_box(b, 28, &kinds::ESDS)? {
            Some(e) => e,
            None => return Err(parse_err("mp4a sample entry missing esds")),
        };
        let (oti, asc) = parse_esds_asc(e)?;
        if oti == 0x40 {
            Ok((AudioCodec::Aac, asc))
        } else if oti == 0x69 || oti == 0x6B {
            Ok((AudioCodec::Mp3, Vec::new()))
        } else {
            Err(wrong_tag("mp4a esds: unsupported object_type_indication 0x", oti))
        }
    } else if bytes::same4(kind, &kinds::FLAC) || bytes::same4(kind, &kinds::FLAC_LOWER) {
        match find_box(b, 28, &kinds::DFLA)? {
            Some(c) => Ok((AudioCodec::Flac, bytes::to_vec(c))),
            None => Err(parse_err("fLaC sample entry missing dfLa")),
        }
    } else if bytes::same4(kind, &kinds::MP3) {
        Ok((AudioCodec::Mp3, Vec::new()))
    } else {
        Err(unsupported_entry("unsupported audio sample entry: ", kind))
    }
}

fn parse_stsd_audio(b: &[u8]) -> (r: IsobmffResult<(AudioCodec, Vec<u8>, u16, u32)>)
    ensures
        match audio_entry_in(b@) {
            Err(m) => error::heif(r, m),
            Ok((k, c, n, s)) => r is Ok && r->Ok_0.0 == k && r->Ok_0.1@ == c && r->Ok_0.2 == n
                && r->Ok_0.3 == s,
        },
{
    proof {
        reveal_with_fuel(cursor::lack, 3);
    }
    let mut c = Cursor::new(b);
    c.skip(4)?;
    let count: u32 = c.read_u32()?;
    if count == 0 {
        return Err(parse_err("audio stsd entry_count = 0"));
    }
    let (kind, body) = c.read_box()?;
    let (channels, rate) = read_audio_head(body)?;
    let (codec, config) = parse_audio_entry(&kind, body)?;
    Ok((codec, config, channels, rate))
}

/// What is known of a track's media: its ticks, its duration and its sample tables.
pub open spec fn media_of(mdia: Seq<u8>) -> Result<(u32, u64, Seq<u8>), Seq<char>> {
    match cursor::need(mdia, kinds::MDHD@) {
        Err(m) => Err(m),
        Ok(mdhd) => match clock_of(mdhd) {
            Err(m) => Err(m),
            Ok((timescale, duration)) => match cursor::need(mdia, kinds::MINF@) {
                Err(m) => Err(m),
                Ok(minf) => match cursor::need(minf, kinds::STBL@) {
                    Err(m) => Err(m),
                    Ok(stbl) => Ok((timescale, duration, stbl)),
                },
            },
        },
    }
}

fn read_media<'a>(mdia: &'a [u8]) -> (r: IsobmffResult<(u32, u64, &'a [u8])>)
    ensures
        match media_of(mdia@) {
            Err(m) => error::heif(r, m),
            Ok((t, d, s)) => r is Ok && r->Ok_0.0 == t && r->Ok_0.1 == d && r->Ok_0.2@ == s,
        },
{
    let (timescale, duration) = parse_mdhd(require_child(mdia, &kinds::MDHD)?)?;
    let minf = require_child(mdia, &kinds::MINF)?;
    let stbl = require_child(minf, &kinds::STBL)?;
    Ok((timescale, duration, stbl))
}

/// The media of a track and what it carries.
pub open spec fn carried_by(trak: Seq<u8>) -> Result<(Seq<u8>, Seq<u8>), Seq<char>> {
    match cursor::need(trak, kinds::MDIA@) {
        Err(m) => Err(m),
        Ok(mdia) => match cursor::need(mdia, kinds::HDLR@) {
            Err(m) => Err(m),
            Ok(hdlr) => match handler_of(hdlr) {
                Err(m) => Err(m),
                Ok(h) => Ok((mdia, h)),
            },
        },
    }
}

fn read_carried<'a>(trak: &'a [u8]) -> (r: IsobmffResult<(&'a [u8], [u8; 4])>)
    ensures
        match carried_by(trak@) {
            Err(m) => error::heif(r, m),
            Ok((mdia, h)) => r is Ok && r->Ok_0.0@ == mdia && r->Ok_0.1@ == h,
        },
{
    let mdia = require_child(trak, &kinds::MDIA)?;
    let hdlr = require_child(mdia, &kinds::HDLR)?;
    let handler: [u8; 4] = read_handler(hdlr)?;
    Ok((mdia, handler))
}

/// The video of a track that carries video. The size of the sample entry counts, and
/// that at which the track is shown if the entry has none.
pub open spec fn video_media(tkhd: Seq<u8>, mdia: Seq<u8>) -> Result<VideoView, Seq<char>> {
    match shown_size(tkhd) {
        Err(m) => Err(m),
        Ok((w, h)) => match media_of(mdia) {
            Err(m) => Err(m),
            Ok((timescale, duration, stbl)) => match cursor::need(stbl, kinds::STSD@) {
                Err(m) => Err(m),
                Ok(stsd) => match video_entry_in(stsd) {
                    Err(m) => Err(m),
                    Ok((codec, codec_config, ew, eh)) => match table::samples_of(stbl) {
                        Err(m) => Err(m),
                        Ok(samples) => Ok(
                            VideoView {
                                codec,
                                codec_config,
                                width: if ew > 0 {
                                    ew
                                } else {
                                    w
                                },
                                height: if eh > 0 {
                                    eh
                                } else {
                                    h
                                },
                                timescale,
                                duration,
                                samples,
                            },
                        ),
                    },
                },
            },
        },
    }
}

/// The video of a track; `None` if it carries something else.
pub open spec fn video_of(trak: Seq<u8>) -> Result<Option<VideoView>, Seq<char>> {
    match cursor::need(trak, kinds::TKHD@) {
        Err(m) => Err(m),
        Ok(tkhd) => match carried_by(trak) {
            Err(m) => Err(m),
            Ok((mdia, handler)) => if handler != kinds::VIDE@ {
                Ok(None)
            } else {
                match video_media(tkhd, mdia) {
                    Err(m) => Err(m),
                    Ok(v) => Ok(Some(v)),
                }
            },
        },
    }
}

fn read_video(tkhd: &[u8], mdia: &[u8]) -> (r: IsobmffResult<VideoTrack>)
    ensures
        match video_media(tkhd@, mdia@) {
            Err(m) => error::heif(r, m),
            Ok(v) => r is Ok && r->Ok_0@ == v,
        },
{
    let (w, h) = parse_tkhd_dims(tkhd)?;
    let (timescale, duration, stbl) = read_media(mdia)?;
    let stsd = require_child(stbl, &kinds::STSD)?;
    let (codec, codec_config, ew, eh) = parse_stsd_visual(stsd)?;
    let samples = build_sample_table(stbl)?;
    Ok(
        VideoTrack {
            codec,
            codec_config,
            width: if ew > 0 {
                ew
            } else {
                w
            },
            height: if eh > 0 {
                eh
            } else {
                h
            },
            timescale,
            duration,
            samples,
        },
    )
}

fn try_parse_video_trak(trak: &[u8]) -> (r: IsobmffResult<Option<VideoTrack>>)
    ensures
        match video_of(trak@) {
            Err(m) => error::heif(r, m),
            Ok(None) => r is Ok && r->Ok_0 is None,
            Ok(Some(v)) => r is Ok && r->Ok_0 is Some && r->Ok_0->0@ == v,
        },
{
    let tkhd = require_child(trak, &kinds::TKHD)?;
    let (mdia, handler) = read_carried(trak)?;
    if !bytes::same4(&handler, &kinds::VIDE) {
        return Ok(None);
    }
    Ok(Some(read_video(tkhd, mdia)?))
}

/// The audio of a track that carries audio.
pub open spec fn audio_media(mdia: Seq<u8>) -> Result<AudioView, Seq<char>> {
    match media_of(mdia) {
        Err(m) => Err(m),
        Ok((timescale, duration, stbl)) => match cursor::need(stbl, kinds::STSD@) {
            Err(m) => Err(m),
            Ok(stsd) => match audio_entry_in(stsd) {
                Err(m) => Err(m),
                Ok((codec, codec_config, channel_count, sample_rate)) => match table::samples_of(
                    stbl,
                ) {
                    Err(m) => Err(m),
                    Ok(samples) => Ok(
                        AudioView {
                            codec,
                            codec_config,
                            channel_count,
                            sample_rate,
                            timescale,
                            duration,
                            samples,
                        },
                    ),
                },
            },
        },
    }
}

/// The audio of a track; `None` if it carries something else.
pub open spec fn audio_of(trak: Seq<u8>) -> Result<Option<AudioView>, Seq<char>> {
    match carried_by(trak) {
        Err(m) => Err(m),
        Ok((mdia, handler)) => if handler != kinds::SOUN@ {
            Ok(None)
        } else {
            match audio_media(mdia) {
                Err(m) => Err(m),
                Ok(v) => Ok(Some(v)),
            }
        },
    }
}

fn try_parse_audio_trak(trak: &[u8]) -> (r: IsobmffResult<Option<AudioTrack>>)
    ensures
        match audio_of(trak@) {
            Err(m) => error::heif(r, m),
            Ok(None) => r is Ok && r->Ok_0 is None,
            Ok(Some(v)) => r is Ok && r->Ok_0 is Some && r->Ok_0->0@ == v,
        },
{
    let (mdia, handler) = read_carried(trak)?;
    if !bytes::same4(&handler, &kinds::SOUN) {
        return Ok(None);
    }
    let (timescale, duration, stbl) = read_media(mdia)?;
    let stsd = require_child(stbl, &kinds::STSD)?;
    let (codec, codec_config, channel_count, sample_rate) = parse_stsd_audio(stsd)?;
    let samples = build_sample_table(stbl)?;
    Ok(
        Some(
            AudioTrack {
                codec,
                codec_config,
                channel_count,
                sample_rate,
                timescale,
                duration,
                samples,
            },
        ),
    )
}

/// The first video track of a movie, from `at` on.
pub open spec fn movie_video(b: Seq<u8>, at: int) -> Result<VideoView, Seq<char>>
    decreases b.len() - at,
{
    if at >= b.len() {
        Err("no video track in moov"@)
    } else {
        match cursor::box_at(b, at) {
            Err(m) => Err(m),
            Ok((kind, start, end)) => {
                let found: Result<Option<VideoView>, Seq<char>> = if kind == kinds::TRAK@ {
                    video_of(b.subrange(start, end))
                } else {
                    Ok(None)
                };
                match found {
                    Err(m) => Err(m),
                    Ok(Some(v)) => Ok(v),
                    Ok(None) => if end <= at {
                        Err("no video track in moov"@)
                    } else {
                        movie_video(b, end)
                    },
                }
            },
        }
    }
}

/// The first audio track of a movie, from `at` on.
pub open spec fn movie_audio(b: Seq<u8>, at: int) -> Result<Option<AudioView>, Seq<char>>
    decreases b.len() - at,
{
    if at >= b.len() {
        Ok(None)
    } else {
        match cursor::box_at(b, at) {
            Err(m) => Err(m),
            Ok((kind, start, end)) => {
                let found: Result<Option<AudioView>, Seq<char>> = if kind == kinds::TRAK@ {
                    audio_of(b.subrange(start, end))
                } else {
                    Ok(None)
                };
                match found {
                    Err(m) => Err(m),
                    Ok(Some(v)) => Ok(Some(v)),
                    Ok(None) => if end <= at {
                        Ok(None)
                    } else {
                        movie_audio(b, end)
                    },
                }
            },
        }
    }
}

/// The movie of a file.
pub open spec fn movie_of(b: Seq<u8>) -> Result<Seq<u8>, Seq<char>> {
    match cursor::find_from(b, 0, kinds::MOOV@) {
        Err(m) => Err(m),
        Ok(None) => Err("no moov box"@),
        Ok(Some(x)) => Ok(x),
    }
}

fn find_movie<'a>(b: &'a [u8]) -> (r: IsobmffResult<&'a [u8]>)
    ensures
        match movie_of(b@) {
            Err(m) => error::heif(r, m),
            Ok(x) => r is Ok && r->Ok_0@ == x,
        },
{
    match find_box(b, 0, &kinds::MOOV)? {
        Some(x) => Ok(x),
        None => Err(parse_err("no moov box")),
    }
}

/// Reads the first video track of a file, of which only the movie has to be there.
pub fn parse_video_track(b: &[u8]) -> (r: IsobmffResult<VideoTrack>)
    ensures
        match movie_of(b@) {
            Err(m) => error::heif(r, m),
            Ok(moov) => match movie_video(moov, 0) {
                Err(m) => error::heif(r, m),
                Ok(v) => r is Ok && r->Ok_0@ == v,
            },
        },
{
    let moov = find_movie(b)?;
    parse_video_track_from_moov(moov)
}

/// Reads the first video track of a movie.
pub fn parse_video_track_from_moov(moov_body: &[u8]) -> (r: IsobmffResult<VideoTrack>)
    ensures
        match movie_video(moov_body@, 0) {
            Err(m) => error::heif(r, m),
            Ok(v) => r is Ok && r->Ok_0@ == v,
        },
{
    let mut c = Cursor::new(moov_body);
    while c.pos < c.buf.len()
        invariant
            c.wf(),
            c.buf@ == moov_body@,
            movie_video(moov_body@, 0) == movie_video(moov_body@, c.pos as int),
        decreases moov_body@.len() - c.pos,
    {
        assert(c.buf@.len() == c.buf.len());
        let (kind, body) = c.read_box()?;
        if bytes::same4(&kind, &kinds::TRAK) {
            if let Some(t) = try_parse_video_trak(body)? {
                return Ok(t);
            }
        }
    }
    Err(parse_err("no video track in moov"))
}

/// Reads the first audio track of a file; `None` if it has none.
pub fn parse_audio_track(b: &[u8]) -> (r: IsobmffResult<Option<AudioTrack>>)
    ensures
        match movie_of(b@) {
            Err(m) => error::heif(r, m),
            Ok(moov) => match movie_audio(moov, 0) {
                Err(m) => error::heif(r, m),
                Ok(None) => r is Ok && r->Ok_0 is None,
                Ok(Some(v)) => r is Ok && r->Ok_0 is Some && r->Ok_0->0@ == v,
            },
        },
{
    let moov = find_movie(b)?;
    parse_audio_track_from_moov(moov)
}

/// Reads the first audio track of a movie; `None` if it has none.
pub fn parse_audio_track_from_moov(moov_body: &[u8]) -> (r: IsobmffResult<Option<AudioTrack>>)
    ensures
        match movie_audio(moov_body@, 0) {
            Err(m) => error::heif(r, m),
            Ok(None) => r is Ok && r->Ok_0 is None,
            Ok(Some(v)) => r is Ok && r->Ok_0 is Some && r->Ok_0->0@ == v,
        },
{
    let mut c = Cursor::new(moov_body);
    while c.pos < c.buf.len()
        invariant
            c.wf(),
            c.buf@ == moov_body@,
            movie_audio(moov_body@, 0) == movie_audio(moov_body@, c.pos as int),
        decreases moov_body@.len() - c.pos,
    {
        assert(c.buf@.len() == c.buf.len());
        let (kind, body) = c.read_box()?;
        if bytes::same4(&kind, &kinds::TRAK) {
            if let Some(t) = try_parse_audio_trak(body)? {
                return Ok(Some(t));
            }
        }
    }
    Ok(None)
}

/// What a scan for a top-level box does next.
#[derive(Debug, Clone, Copy, PartialEq, Eq)]
pub enum Scan {
    /// Finds out where the file ends: the box goes on up to there.
    End,
    /// Reads the eight bytes behind the header, which are the box's length.
    Wide,
    /// Reads this many bytes, which are the body that is looked for.
    Body(u64),
    /// Passes this many bytes.
    Skip(u64),
}

/// What a scan does with a box of a known length.
pub open spec fn scanned_size(wanted: Seq<u8>, kind: Seq<u8>, total: u64, header: u64) -> Result<
    Scan,
    Seq<char>,
> {
    if total < header {
        Err(cursor::shrunk(kind, total as nat, header as nat))
    } else if kind == wanted {
        Ok(Scan::Body((total - header) as u64))
    } else {
        Ok(Scan::Skip((total - header) as u64))
    }
}

/// What a scan does with up to eight bytes at `at`, which are fewer only where the file
/// ends.
pub open spec fn scanned(wanted: Seq<u8>, at: u64, b: Seq<u8>) -> Result<Scan, Seq<char>> {
    if b.len() == 0 {
        Err(
            "no "@ + text::debug_text(text::text_or_mark(wanted)) + " box found in stream"@,
        )
    } else if b.len() < 8 {
        Err(
            "short box header at file offset "@ + text::decimal(at as nat) + ": got "@
                + text::decimal(b.len()) + " bytes, need 8"@,
        )
    } else {
        let n = bytes::get32(b, 0);
        if n == 0 {
            Ok(Scan::End)
        } else if n == 1 {
            Ok(Scan::Wide)
        } else {
            scanned_size(wanted, b.subrange(4, 8), n as u64, 8)
        }
    }
}

/// The call gave this step, or failed with the text.
pub open spec fn steps(r: IsobmffResult<Scan>, s: Result<Scan, Seq<char>>) -> bool {
    match s {
        Ok(a) => r is Ok && r->Ok_0 == a,
        Err(m) => error::heif(r, m),
    }
}

/// Goes on with a box of a known length.
pub fn scan_size(wanted: &[u8; 4], kind: &[u8; 4], total: u64, header: u64) -> (r: IsobmffResult<
    Scan,
>)
    ensures
        steps(r, scanned_size(wanted@, kind@, total, header)),
{
    if total < header {
        return Err(cursor::shrunk_err(kind, total, header));
    }
    if bytes::same4(kind, wanted) {
        Ok(Scan::Body(total - header))
    } else {
        Ok(Scan::Skip(total - header))
    }
}

/// Goes on with the header of a box at `at`: eight bytes, or fewer where the file ends.
pub fn scan_header(wanted: &[u8; 4], at: u64, b: &[u8]) -> (r: IsobmffResult<Scan>)
    ensures
        steps(r, scanned(wanted@, at, b@)),
{
    assert(b@.len() == b.len());
    if b.len() == 0 {
        let mut s: String = "no ".to_owned();
        let code: String = text::debug_code(wanted);
        s.append(code.as_str());
        s.append(" box found in stream");
        return Err(IsobmffError::Heif(s));
    }
    if b.len() < 8 {
        let mut s: String = "short box header at file offset ".to_owned();
        text::put_decimal(&mut s, at);
        s.append(": got ");
        text::put_decimal(&mut s, b.len() as u64);
        s.append(" bytes, need 8");
        return Err(IsobmffError::Heif(s));
    }
    let n: u32 = bytes::read_u32(b, 0);
    if n == 0 {
        return Ok(Scan::End);
    }
    if n == 1 {
        return Ok(Scan::Wide);
    }
    let kind: [u8; 4] = [b[4], b[5], b[6], b[7]];
    assert(kind@ =~= b@.subrange(4, 8));
    scan_size(wanted, &kind, n as u64, 8)
}

} // verus!
