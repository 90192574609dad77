use media_containers::mkv::ebml::schema::codec_id;
use media_containers::mkv::profile::{is_codec_allowed, DocType};

#[test]
fn webm_rejects_h264_and_aac() {
    assert!(!is_codec_allowed(DocType::Webm, codec_id::V_MPEG4_ISO_AVC));
    assert!(!is_codec_allowed(DocType::Webm, codec_id::A_AAC));
}

#[test]
fn webm_accepts_vp9_opus() {
    assert!(is_codec_allowed(DocType::Webm, codec_id::V_VP9));
    assert!(is_codec_allowed(DocType::Webm, codec_id::A_OPUS));
}

#[test]
fn mkv_accepts_h264_and_subtitles() {
    assert!(is_codec_allowed(
        DocType::Matroska,
        codec_id::V_MPEG4_ISO_AVC
    ));
    assert!(is_codec_allowed(DocType::Matroska, codec_id::S_TEXT_UTF8));
}

#[test]
fn unknown_codec_rejected_both_profiles() {
    assert!(!is_codec_allowed(DocType::Matroska, "V_THEORA"));
    assert!(!is_codec_allowed(DocType::Webm, "A_AC3"));
}
