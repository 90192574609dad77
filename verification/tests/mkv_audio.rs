use media_containers::mkv::audio::{channels_for, map_codec_type, open_audio_decoder, AudioCodec};
use media_containers::mkv::demux::{AudioParams, TrackInfo, TrackKind};
use media_containers::mkv::ebml::element::FloatBits;
use media_containers::mkv::ebml::schema::codec_id;
use media_containers::mkv::Error;

fn track(codec_id: &str, kind: TrackKind) -> TrackInfo {
    TrackInfo {
        number: 1,
        uid: 1,
        kind,
        codec_id: codec_id.to_string(),
        codec_private: None,
        default_duration_ns: None,
        codec_delay_ns: 0,
        seek_pre_roll_ns: 0,
        language: None,
        name: None,
        flag_enabled: true,
        flag_default: true,
        flag_forced: false,
        video: None,
        audio: Some(AudioParams {
            sampling_frequency: FloatBits::Double(48000.0f64.to_bits()),
            output_sampling_frequency: None,
            channels: 2,
            bit_depth: Some(16),
        }),
    }
}

#[test]
fn rejects_non_audio_track() {
    let t = track(codec_id::V_VP9, TrackKind::Video);
    assert!(matches!(
        open_audio_decoder(&t),
        Err(Error::Unsupported { .. })
    ));
}

#[test]
fn rejects_unknown_codec() {
    let t = track("A_MADE_UP", TrackKind::Audio);
    assert!(matches!(
        open_audio_decoder(&t),
        Err(Error::Unsupported { .. })
    ));
}

#[test]
fn opus_dispatch_is_unsupported() {
    let t = track(codec_id::A_OPUS, TrackKind::Audio);
    match open_audio_decoder(&t) {
        Err(Error::Unsupported { what }) => assert!(what.contains("Opus"), "got {what}"),
        Ok(_) => panic!("expected Unsupported(Opus), got Ok"),
        Err(e) => panic!("expected Unsupported(Opus), got Err({e:?})"),
    }
}

#[test]
fn pcm_bit_depth_dispatch() {
    assert_eq!(
        map_codec_type("A_PCM/INT/LIT", Some(16)),
        Some(AudioCodec::PcmS16Le)
    );
    assert_eq!(
        map_codec_type("A_PCM/INT/LIT", Some(24)),
        Some(AudioCodec::PcmS24Le)
    );
    assert_eq!(
        map_codec_type("A_PCM/INT/LIT", Some(32)),
        Some(AudioCodec::PcmS32Le)
    );
    assert_eq!(
        map_codec_type("A_PCM/INT/BIG", Some(16)),
        Some(AudioCodec::PcmS16Be)
    );
    assert_eq!(
        map_codec_type("A_PCM/FLOAT/IEEE", Some(32)),
        Some(AudioCodec::PcmF32Le)
    );
    assert_eq!(map_codec_type("A_OPUS", None), None);
}

#[test]
fn channels_for_layouts() {
    assert_eq!(channels_for(0), symphonia::core::audio::Channels::FRONT_CENTRE.bits());
    assert_eq!(channels_for(1), symphonia::core::audio::Channels::FRONT_CENTRE.bits());
    assert_eq!(
        channels_for(2),
        (symphonia::core::audio::Channels::FRONT_LEFT | symphonia::core::audio::Channels::FRONT_RIGHT).bits()
    );
    assert_eq!(channels_for(6).count_ones(), 6);
}

#[test]
fn more_channels_than_speakers_get_all_speakers() {
    for n in [32, 33, 255, u32::MAX] {
        assert_eq!(channels_for(n), 0x3FF_FFFF);
    }
    let mut t = track(codec_id::A_AAC, TrackKind::Audio);
    t.audio.as_mut().unwrap().channels = 40;
    let s = open_audio_decoder(&t).unwrap();
    assert_eq!((s.channels, s.channel_mask), (40, 0x3FF_FFFF));
    let mut t = track(codec_id::A_OPUS, TrackKind::Audio);
    t.audio.as_mut().unwrap().channels = 40;
    assert!(matches!(
        open_audio_decoder(&t),
        Err(Error::Unsupported { what: "Opus decode" })
    ));
}
