//! CodecID strings that this crate recognises.

use vstd::prelude::*;

verus! {

// Video
pub const V_MPEG4_ISO_AVC: &'static str = "V_MPEG4/ISO/AVC"; // H.264
pub const V_MPEGH_ISO_HEVC: &'static str = "V_MPEGH/ISO/HEVC"; // HEVC
pub const V_AV1: &'static str = "V_AV1";
pub const V_VP8: &'static str = "V_VP8";
pub const V_VP9: &'static str = "V_VP9";

// Audio
pub const A_AAC: &'static str = "A_AAC";
pub const A_OPUS: &'static str = "A_OPUS";
pub const A_VORBIS: &'static str = "A_VORBIS";
pub const A_FLAC: &'static str = "A_FLAC";
pub const A_PCM_INT_LE: &'static str = "A_PCM/INT/LIT";
pub const A_PCM_INT_BE: &'static str = "A_PCM/INT/BIG";
pub const A_PCM_FLOAT_LE: &'static str = "A_PCM/FLOAT/IEEE";

// Subtitles (MKV only)
pub const S_TEXT_UTF8: &'static str = "S_TEXT/UTF8"; // SRT
pub const S_TEXT_ASS: &'static str = "S_TEXT/ASS";
pub const S_TEXT_SSA: &'static str = "S_TEXT/SSA";
pub const S_TEXT_WEBVTT: &'static str = "S_TEXT/WEBVTT";

} // verus!
