//! Which decoder an audio track needs, and how to set it up.
//!
//! Samples are floating-point numbers, so decoding itself is not done here.

use crate::bytes;
use crate::mkv::demux::{AudioParams, TrackInfo, TrackKind, TrackView};
use crate::mkv::ebml::element::FloatBits;
use crate::mkv::ebml::schema::codec_id;
use crate::mkv::Error;
use crate::text::same_text;
use vstd::prelude::*;

verus! {

/// The codecs that a decoder exists for.
#[derive(Debug, Clone, Copy, PartialEq, Eq, Structural)]
pub enum AudioCodec {
    Vorbis,
    Aac,
    Flac,
    PcmS16Le,
    PcmS24Le,
    PcmS32Le,
    PcmS16Be,
    PcmS24Be,
    PcmS32Be,
    PcmF32Le,
}

/// The codec of a CodecID. The width of PCM samples comes from the bit depth, which
/// is 16 if it is not given.
pub open spec fn codec_of(id: Seq<char>, bit_depth: Option<u32>) -> Option<AudioCodec> {
    let depth = match bit_depth {
        Some(d) => d,
        None => 16u32,
    };
    if id == codec_id::A_VORBIS@ {
        Some(AudioCodec::Vorbis)
    } else if id == codec_id::A_AAC@ {
        Some(AudioCodec::Aac)
    } else if id == codec_id::A_FLAC@ {
        Some(AudioCodec::Flac)
    } else if id == codec_id::A_PCM_INT_LE@ {
        Some(
            if depth <= 16 {
                AudioCodec::PcmS16Le
            } else if depth <= 24 {
                AudioCodec::PcmS24Le
            } else {
                AudioCodec::PcmS32Le
            },
        )
    } else if id == codec_id::A_PCM_INT_BE@ {
        Some(
            if depth <= 16 {
                AudioCodec::PcmS16Be
            } else if depth <= 24 {
                AudioCodec::PcmS24Be
            } else {
                AudioCodec::PcmS32Be
            },
        )
    } else if id == codec_id::A_PCM_FLOAT_LE@ {
        Some(AudioCodec::PcmF32Le)
    } else {
        None
    }
}

/// The codec of a CodecID and bit depth.
pub fn map_codec_type(id: &str, bit_depth: Option<u32>) -> (r: Option<AudioCodec>)
    ensures
        r == codec_of(id@, bit_depth),
{
    let depth: u32 = match bit_depth {
        Some(d) => d,
        None => 16,
    };
    if same_text(id, codec_id::A_VORBIS) {
        Some(AudioCodec::Vorbis)
    } else if same_text(id, codec_id::A_AAC) {
        Some(AudioCodec::Aac)
    } else if same_text(id, codec_id::A_FLAC) {
        Some(AudioCodec::Flac)
    } else if same_text(id, codec_id::A_PCM_INT_LE) {
        if depth <= 16 {
            Some(AudioCodec::PcmS16Le)
        } else if depth <= 24 {
            Some(AudioCodec::PcmS24Le)
        } else {
            Some(AudioCodec::PcmS32Le)
        }
    } else if same_text(id, codec_id::A_PCM_INT_BE) {
        if depth <= 16 {
            Some(AudioCodec::PcmS16Be)
        } else if depth <= 24 {
            Some(AudioCodec::PcmS24Be)
        } else {
            Some(AudioCodec::PcmS32Be)
        }
    } else if same_text(id, codec_id::A_PCM_FLOAT_LE) {
        Some(AudioCodec::PcmF32Le)
    } else {
        None
    }
}

/// The front left speaker in a channel mask.
pub const FRONT_LEFT: u32 = 0x1;

/// The front right speaker in a channel mask.
pub const FRONT_RIGHT: u32 = 0x2;

/// The front centre speaker in a channel mask.
pub const FRONT_CENTRE: u32 = 0x4;

/// `symphonia::core::audio::Channels::from_bits_truncate`: keeps the bits that stand
/// for a speaker, which are the low 26, and drops the others.
#[verifier::external_body]
fn known_channels(bits: u32) -> (r: u32)
    ensures
        r == bits % 0x400_0000,
{
    symphonia::core::audio::Channels::from_bits_truncate(bits).bits()
}

/// Two to the power `n`.
pub open spec fn pow2(n: nat) -> nat
    decreases n,
{
    if n == 0 {
        1
    } else {
        2 * pow2((n - 1) as nat)
    }
}

/// The powers of two up to the one that 32 bits cannot hold.
proof fn lemma_pow2(n: nat)
    requires
        n <= 32,
    ensures
        1 <= pow2(n) <= 0x1_0000_0000,
    decreases 32 - n,
{
    if n < 32 {
        lemma_pow2(n + 1);
        assert(pow2(n + 1) == 2 * pow2(n));
    } else {
        reveal_with_fuel(pow2, 33);
    }
}

/// The channel mask for `n` channels: the centre for one, left and right for two, and
/// the first `n` speakers for more, as far as there are speakers.
pub open spec fn mask_of(n: u32) -> int {
    let room: nat = if n < 32 {
        n as nat
    } else {
        32
    };
    if n <= 1 {
        FRONT_CENTRE as int
    } else if n == 2 {
        FRONT_LEFT + FRONT_RIGHT
    } else {
        (pow2(room) - 1) % 0x400_0000
    }
}

/// The channel mask for `n` channels.
pub fn channels_for(n: u32) -> (r: u32)
    ensures
        r == mask_of(n),
{
    if n <= 1 {
        return FRONT_CENTRE;
    }
    if n == 2 {
        return FRONT_LEFT + FRONT_RIGHT;
    }
    let room: u32 = if n < 32 {
        n
    } else {
        32
    };
    let mut bits: u64 = 1;
    let mut i: u32 = 0;
    while i < room
        invariant
            i <= room <= 32,
            bits == pow2(i as nat),
            bits <= 0x1_0000_0000,
        decreases room - i,
    {
        proof {
            lemma_pow2(i as nat + 1);
        }
        bits = 2 * bits;
        i = i + 1;
    }
    proof {
        lemma_pow2(room as nat);
    }
    known_channels((bits - 1) as u32)
}

/// How to set a decoder up.
pub struct AudioSetup {
    pub codec: AudioCodec,
    /// The output sampling frequency, as stored.
    pub sampling_frequency: FloatBits,
    pub channels: u32,
    pub channel_mask: u32,
    pub bits_per_sample: Option<u32>,
    pub extra_data: Option<Vec<u8>>,
}

/// The value of an [`AudioSetup`].
pub struct SetupView {
    pub codec: AudioCodec,
    pub sampling_frequency: FloatBits,
    pub channels: u32,
    pub channel_mask: int,
    pub bits_per_sample: Option<u32>,
    pub extra_data: Option<Seq<u8>>,
}

impl View for AudioSetup {
    type V = SetupView;

    open spec fn view(&self) -> SetupView {
        SetupView {
            codec: self.codec,
            sampling_frequency: self.sampling_frequency,
            channels: self.channels,
            channel_mask: self.channel_mask as int,
            bits_per_sample: self.bits_per_sample,
            extra_data: bytes::opt_bytes(self.extra_data),
        }
    }
}

/// How many channels a track has: at least one.
pub open spec fn channel_count(a: AudioParams) -> u32 {
    if a.channels == 0 {
        1
    } else {
        a.channels
    }
}

/// The setup for a track, or why there is none.
pub open spec fn setup_of(t: TrackView) -> Result<SetupView, Error> {
    if t.kind != TrackKind::Audio {
        Err(Error::Unsupported { what: "non-audio track passed to open_audio_decoder" })
    } else if t.codec_id == codec_id::A_OPUS@ {
        Err(Error::Unsupported { what: "Opus decode" })
    } else if codec_of(t.codec_id, None) is None {
        Err(Error::Unsupported { what: "audio codec" })
    } else {
        match t.audio {
            None => Err(Error::Malformed("audio track without Audio sub-element")),
            Some(a) => Ok(
                SetupView {
                    codec: codec_of(t.codec_id, a.bit_depth)->Some_0,
                    sampling_frequency: match a.output_sampling_frequency {
                        Some(f) => f,
                        None => a.sampling_frequency,
                    },
                    channels: channel_count(a),
                    channel_mask: mask_of(channel_count(a)),
                    bits_per_sample: a.bit_depth,
                    extra_data: t.codec_private,
                },
            ),
        }
    }
}

/// Decides which decoder a track needs and how to set it up. Tracks that are not
/// audio, Opus, and codecs without a decoder are unsupported.
pub fn open_audio_decoder(track: &TrackInfo) -> (r: Result<AudioSetup, Error>)
    ensures
        match setup_of(track@) {
            Ok(s) => r is Ok && r->Ok_0@ == s,
            Err(e) => r == Err::<AudioSetup, Error>(e),
        },
{
    if track.kind != TrackKind::Audio {
        return Err(Error::Unsupported { what: "non-audio track passed to open_audio_decoder" });
    }
    let id: &str = track.codec_id.as_str();
    if same_text(id, codec_id::A_OPUS) {
        return Err(Error::Unsupported { what: "Opus decode" });
    }
    if map_codec_type(id, None).is_none() {
        return Err(Error::Unsupported { what: "audio codec" });
    }
    let audio = match &track.audio {
        Some(a) => a,
        None => return Err(Error::Malformed("audio track without Audio sub-element")),
    };
    let codec: AudioCodec = match map_codec_type(id, audio.bit_depth) {
        Some(c) => c,
        None => return Err(Error::Unsupported { what: "audio codec" }),
    };
    let channels: u32 = if audio.channels == 0 {
        1
    } else {
        audio.channels
    };
    let extra_data: Option<Vec<u8>> = match &track.codec_private {
        Some(p) => Some(bytes::to_vec(p.as_slice())),
        None => None,
    };
    Ok(
        AudioSetup {
            codec,
            sampling_frequency: match audio.output_sampling_frequency {
                Some(f) => f,
                None => audio.sampling_frequency,
            },
            channels,
            channel_mask: channels_for(channels),
            bits_per_sample: audio.bit_depth,
            extra_data,
        },
    )
}

/// What a decoder can report.
#[derive(Debug, Clone, Copy, PartialEq, Eq, Structural)]
pub enum DecoderFault {
    Io,
    Decode,
    Seek,
    Unsupported,
    Limit,
    ResetRequired,
}

/// The error for a decoder's report.
pub fn decoder_error(fault: DecoderFault) -> (r: Error)
    ensures
        r == Error::Malformed(
            match fault {
                DecoderFault::Io => "symphonia: io",
                DecoderFault::Decode => "symphonia: decode",
                DecoderFault::Seek => "symphonia: seek",
                DecoderFault::Unsupported => "symphonia: unsupported",
                DecoderFault::Limit => "symphonia: limit",
                DecoderFault::ResetRequired => "symphonia: reset required",
            },
        ),
{
    Error::Malformed(
        match fault {
            DecoderFault::Io => "symphonia: io",
            DecoderFault::Decode => "symphonia: decode",
            DecoderFault::Seek => "symphonia: seek",
            DecoderFault::Unsupported => "symphonia: unsupported",
            DecoderFault::Limit => "symphonia: limit",
            DecoderFault::ResetRequired => "symphonia: reset required",
        },
    )
}

/// One channel is the front centre, two are front left and right, and more are as many of
/// the speakers as there are channels, lowest bits first, but no more than the 26 that there
/// are.
pub proof fn law_mask_counts_channels(n: u32)
    ensures
        n <= 1 ==> mask_of(n) == 4,
        n == 2 ==> mask_of(n) == 3,
        3 <= n <= 26 ==> mask_of(n) + 1 == pow2(n as nat),
        n > 26 ==> mask_of(n) + 1 == pow2(26),
{
    assert(pow2(26) == 0x400_0000) by {
        reveal_with_fuel(pow2, 27);
    }
    if 3 <= n <= 26 {
        lemma_pow2_grows(n as nat, 26);
        lemma_pow2(n as nat);
    } else if n > 26 {
        let room: nat = if n < 32 {
            n as nat
        } else {
            32
        };
        lemma_pow2_multiple(room, 26);
    }
}

proof fn lemma_pow2_grows(a: nat, b: nat)
    requires
        a <= b,
    ensures
        pow2(a) <= pow2(b),
    decreases b,
{
    if a < b {
        lemma_pow2_grows(a, (b - 1) as nat);
    }
}

/// A power of two above another one leaves all ones below that one.
proof fn lemma_pow2_multiple(a: nat, b: nat)
    requires
        b == 26,
        b <= a,
        pow2(b) == 0x400_0000,
    ensures
        (pow2(a) - 1) % 0x400_0000 == 0x400_0000 - 1,
        pow2(a) % 0x400_0000 == 0,
        pow2(a) >= 0x400_0000,
    decreases a,
{
    if a > b {
        lemma_pow2_multiple((a - 1) as nat, b);
    }
}

/// The decoders of codecs are found by their names. Samples of plain PCM are as wide as the
/// bit depth needs, 16 bits if it is not given, in the order of bytes that the name gives.
pub proof fn law_codecs_are_named(depth: Option<u32>)
    ensures
        codec_of("A_VORBIS"@, depth) == Some(AudioCodec::Vorbis),
        codec_of("A_AAC"@, depth) == Some(AudioCodec::Aac),
        codec_of("A_FLAC"@, depth) == Some(AudioCodec::Flac),
        codec_of("A_PCM/FLOAT/IEEE"@, depth) == Some(AudioCodec::PcmF32Le),
        codec_of("A_PCM/INT/LIT"@, depth) == (match depth {
            None => Some(AudioCodec::PcmS16Le),
            Some(d) => if d <= 16 {
                Some(AudioCodec::PcmS16Le)
            } else if d <= 24 {
                Some(AudioCodec::PcmS24Le)
            } else {
                Some(AudioCodec::PcmS32Le)
            },
        }),
        codec_of("A_PCM/INT/BIG"@, depth) == (match depth {
            None => Some(AudioCodec::PcmS16Be),
            Some(d) => if d <= 16 {
                Some(AudioCodec::PcmS16Be)
            } else if d <= 24 {
                Some(AudioCodec::PcmS24Be)
            } else {
                Some(AudioCodec::PcmS32Be)
            },
        }),
        codec_of("A_OPUS"@, depth) is None,
{
    reveal_strlit("A_VORBIS");
    reveal_strlit("A_AAC");
    reveal_strlit("A_FLAC");
    reveal_strlit("A_OPUS");
    reveal_strlit("A_PCM/FLOAT/IEEE");
    reveal_strlit("A_PCM/INT/LIT");
    reveal_strlit("A_PCM/INT/BIG");
    assert("A_VORBIS"@[2] == 'V');
    assert("A_AAC"@[2] == 'A');
    assert("A_FLAC"@[2] == 'F');
    assert("A_OPUS"@[2] == 'O');
    assert("A_PCM/INT/LIT"@[2] == 'P' && "A_PCM/INT/LIT"@[6] == 'I' && "A_PCM/INT/LIT"@[10] == 'L');
    assert("A_PCM/INT/BIG"@[2] == 'P' && "A_PCM/INT/BIG"@[6] == 'I' && "A_PCM/INT/BIG"@[10] == 'B');
    assert("A_PCM/FLOAT/IEEE"@[2] == 'P' && "A_PCM/FLOAT/IEEE"@[6] == 'F');
}

/// A decoder is set up with the frequency at which samples come out, if it is given, and
/// with at least one channel; the bits and the configuration are those of the track.
pub proof fn law_setup_follows_track(t: TrackView, a: AudioParams)
    requires
        t.kind == TrackKind::Audio,
        t.audio == Some(a),
        t.codec_id == "A_VORBIS"@ || t.codec_id == "A_AAC"@ || t.codec_id == "A_FLAC"@,
    ensures
        setup_of(t) matches Ok(s) && {
            &&& s.sampling_frequency == match a.output_sampling_frequency {
                Some(f) => f,
                None => a.sampling_frequency,
            }
            &&& s.channels == if a.channels == 0 {
                1
            } else {
                a.channels
            }
            &&& s.channel_mask == mask_of(s.channels)
            &&& s.bits_per_sample == a.bit_depth
            &&& s.extra_data == t.codec_private
        },
{
    law_codecs_are_named(None);
    law_codecs_are_named(a.bit_depth);
    reveal_strlit("A_VORBIS");
    reveal_strlit("A_AAC");
    reveal_strlit("A_FLAC");
    reveal_strlit("A_OPUS");
    assert("A_VORBIS"@[2] == 'V');
    assert("A_AAC"@[2] == 'A');
    assert("A_FLAC"@[2] == 'F');
    assert("A_OPUS"@[2] == 'O');
}

} // verus!
