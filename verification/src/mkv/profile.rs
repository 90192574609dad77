//! Which codecs a DocType may carry.
//!
//! WebM is Matroska restricted to royalty-free codecs; Matroska accepts the
//! whole set that this crate recognises.

use crate::mkv::ebml::schema::codec_id;
use crate::text::same_text;
use vstd::prelude::*;

verus! {

/// The two container profiles.
#[derive(Debug, Clone, Copy, PartialEq, Eq, Structural)]
pub enum DocType {
    Matroska,
    Webm,
}

/// The profile that an EBML header's DocType text names.
pub open spec fn doc_type_named(s: Seq<char>) -> Option<DocType> {
    if s == "matroska"@ {
        Some(DocType::Matroska)
    } else if s == "webm"@ {
        Some(DocType::Webm)
    } else {
        None
    }
}

impl DocType {
    /// The DocType text of this profile.
    pub open spec fn name(self) -> Seq<char> {
        match self {
            DocType::Matroska => "matroska"@,
            DocType::Webm => "webm"@,
        }
    }

    /// The profile that `s` names.
    pub fn parse(s: &str) -> (r: Option<Self>)
        ensures
            r == doc_type_named(s@),
    {
        if same_text(s, "matroska") {
            Some(DocType::Matroska)
        } else if same_text(s, "webm") {
            Some(DocType::Webm)
        } else {
            None
        }
    }

    /// The DocType text of this profile.
    pub fn as_str(&self) -> (r: &'static str)
        ensures
            r@ == self.name(),
    {
        match self {
            DocType::Matroska => "matroska",
            DocType::Webm => "webm",
        }
    }
}

/// Naming a profile and parsing the name gives the profile back.
pub proof fn law_doc_type_names(d: DocType)
    ensures
        doc_type_named(d.name()) == Some(d),
{
    reveal_strlit("matroska");
    reveal_strlit("webm");
    assert("matroska"@.len() == 8);
    assert("webm"@.len() == 4);
}

/// The WebM whitelist.
pub open spec fn webm_codec(c: Seq<char>) -> bool {
    ||| c == codec_id::V_AV1@
    ||| c == codec_id::V_VP8@
    ||| c == codec_id::V_VP9@
    ||| c == codec_id::A_OPUS@
    ||| c == codec_id::A_VORBIS@
}

/// What Matroska accepts beyond the WebM whitelist.
pub open spec fn matroska_only_codec(c: Seq<char>) -> bool {
    ||| c == codec_id::V_MPEG4_ISO_AVC@
    ||| c == codec_id::V_MPEGH_ISO_HEVC@
    ||| c == codec_id::A_AAC@
    ||| c == codec_id::A_FLAC@
    ||| c == codec_id::A_PCM_INT_LE@
    ||| c == codec_id::A_PCM_INT_BE@
    ||| c == codec_id::A_PCM_FLOAT_LE@
    ||| c == codec_id::S_TEXT_UTF8@
    ||| c == codec_id::S_TEXT_ASS@
    ||| c == codec_id::S_TEXT_SSA@
    ||| c == codec_id::S_TEXT_WEBVTT@
}

/// Whether the profile may carry the codec.
pub open spec fn codec_allowed(doc_type: DocType, c: Seq<char>) -> bool {
    match doc_type {
        DocType::Webm => webm_codec(c),
        DocType::Matroska => webm_codec(c) || matroska_only_codec(c),
    }
}

/// Matroska accepts whatever WebM accepts.
pub proof fn law_webm_is_a_restriction(c: Seq<char>)
    requires
        codec_allowed(DocType::Webm, c),
    ensures
        codec_allowed(DocType::Matroska, c),
{
}

/// WebM carries AV1, VP8, VP9, Opus and Vorbis, and nothing else. Matroska carries these, and
/// H.264, HEVC, AAC, FLAC, three kinds of PCM and four of text.
pub proof fn law_codecs_of_profiles(c: Seq<char>)
    ensures
        codec_allowed(DocType::Webm, c) <==> c == "V_AV1"@ || c == "V_VP8"@ || c == "V_VP9"@ || c
            == "A_OPUS"@ || c == "A_VORBIS"@,
        codec_allowed(DocType::Matroska, c) <==> codec_allowed(DocType::Webm, c) || c
            == "V_MPEG4/ISO/AVC"@ || c == "V_MPEGH/ISO/HEVC"@ || c == "A_AAC"@ || c == "A_FLAC"@
            || c == "A_PCM/INT/LIT"@ || c == "A_PCM/INT/BIG"@ || c == "A_PCM/FLOAT/IEEE"@ || c
            == "S_TEXT/UTF8"@ || c == "S_TEXT/ASS"@ || c == "S_TEXT/SSA"@ || c == "S_TEXT/WEBVTT"@,
{
}

/// Whether a CodecID is allowed for the given profile. Unknown codecs are not.
pub fn is_codec_allowed(doc_type: DocType, codec: &str) -> (r: bool)
    ensures
        r == codec_allowed(doc_type, codec@),
{
    if same_text(codec, codec_id::V_AV1) || same_text(codec, codec_id::V_VP8) || same_text(
        codec,
        codec_id::V_VP9,
    ) || same_text(codec, codec_id::A_OPUS) || same_text(codec, codec_id::A_VORBIS) {
        return true;
    }
    match doc_type {
        DocType::Webm => false,
        DocType::Matroska => same_text(codec, codec_id::V_MPEG4_ISO_AVC) || same_text(
            codec,
            codec_id::V_MPEGH_ISO_HEVC,
        ) || same_text(codec, codec_id::A_AAC) || same_text(codec, codec_id::A_FLAC) || same_text(
            codec,
            codec_id::A_PCM_INT_LE,
        ) || same_text(codec, codec_id::A_PCM_INT_BE) || same_text(
            codec,
            codec_id::A_PCM_FLOAT_LE,
        ) || same_text(codec, codec_id::S_TEXT_UTF8) || same_text(codec, codec_id::S_TEXT_ASS)
            || same_text(codec, codec_id::S_TEXT_SSA) || same_text(codec, codec_id::S_TEXT_WEBVTT),
    }
}

} // verus!
