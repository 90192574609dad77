use media_containers::mkv::cluster::Frames;
use media_containers::mkv::demux::{Demuxer, TrackKind};
use media_containers::mkv::ebml::element::FloatBits;
use media_containers::mkv::ebml::schema::codec_id;
use media_containers::mkv::mux::{Muxer, TrackDescriptor, TIMESTAMP_SCALE_NS};
use media_containers::mkv::profile::DocType;
use media_containers::mkv::Error;

fn value(f: FloatBits) -> f64 {
    match f {
        FloatBits::Single(b) => f32::from_bits(b) as f64,
        FloatBits::Double(b) => f64::from_bits(b),
    }
}

fn finalize(m: Muxer) -> Result<Vec<u8>, Error> {
    let ticks = m.end_ns() as f64 / TIMESTAMP_SCALE_NS as f64;
    m.finalize(ticks.to_bits())
}

#[test]
fn webm_refuses_h264_track() {
    let mut m = Muxer::new(DocType::Webm);
    let err = m
        .register_track(TrackDescriptor::video(
            codec_id::V_MPEG4_ISO_AVC,
            1920,
            1080,
        ))
        .unwrap_err();
    assert!(matches!(err, Error::Unsupported { .. }));
}

#[test]
fn finalize_declares_a_duration_that_covers_the_last_frame() {
    let mut m = Muxer::new(DocType::Matroska);
    let mut desc = TrackDescriptor::video(codec_id::V_MPEG4_ISO_AVC, 320, 240);
    desc.default_duration_ns = Some(1_000_000_000 / 30);
    let t = m.register_track(desc).unwrap();
    for i in 0..90u64 {
        m.append(t, b"sample", i * 1_000_000_000 / 30, i % 30 == 0)
            .unwrap();
    }
    let bytes = finalize(m).unwrap();

    let d = Demuxer::parse(&bytes).unwrap();
    let ticks = d
        .duration_ticks
        .expect("finalize wrote no Info/Duration — a player stops early on this");
    let ms = value(ticks) * d.timestamp_scale_ns as f64 / 1_000_000.0;
    assert!(
        (ms - 3000.0).abs() < 1.0,
        "declared {ms} ms for 90 frames at 30 fps"
    );
}

#[test]
fn duration_falls_back_to_the_last_timestamp_without_a_frame_duration() {
    let mut m = Muxer::new(DocType::Matroska);
    let t = m
        .register_track(TrackDescriptor::audio(codec_id::A_OPUS, 48000.0f64.to_bits(), 2))
        .unwrap();
    m.append(t, b"a", 0, true).unwrap();
    m.append(t, b"b", 500_000_000, true).unwrap();
    let d = Demuxer::parse(&finalize(m).unwrap()).unwrap();
    let ms = value(d.duration_ticks.expect("no Duration")) * d.timestamp_scale_ns as f64 / 1e6;
    assert!((ms - 500.0).abs() < 1.0, "declared {ms} ms");
}

#[test]
fn an_empty_file_declares_no_duration_rather_than_zero() {
    let mut m = Muxer::new(DocType::Matroska);
    m.register_track(TrackDescriptor::audio(codec_id::A_OPUS, 48000.0f64.to_bits(), 2))
        .unwrap();
    let d = Demuxer::parse(&finalize(m).unwrap()).unwrap();
    assert_eq!(d.duration_ticks, None);
}

#[test]
fn round_trip_opus_stereo_two_frames() {
    let mut m = Muxer::new(DocType::Matroska);
    let t = m
        .register_track(TrackDescriptor::audio(codec_id::A_OPUS, 48000.0f64.to_bits(), 2))
        .unwrap();
    m.append(t, b"frame-A", 0, true).unwrap();
    m.append(t, b"frame-B-longer", 20_000_000, true).unwrap();
    let bytes = finalize(m).unwrap();

    let d = Demuxer::parse(&bytes).unwrap();
    assert_eq!(d.doc_type, DocType::Matroska);
    assert_eq!(d.timestamp_scale_ns, TIMESTAMP_SCALE_NS);
    assert_eq!(d.tracks.len(), 1);
    let track = &d.tracks[0];
    assert_eq!(track.kind, TrackKind::Audio);
    assert_eq!(track.codec_id, codec_id::A_OPUS);
    let audio = track.audio.as_ref().unwrap();
    assert_eq!(value(audio.sampling_frequency) as u32, 48000);
    assert_eq!(audio.channels, 2);

    let mut frames = Frames::new(&bytes, &d);
    let f1 = frames.next_frame().unwrap().unwrap();
    assert_eq!(f1.data, b"frame-A");
    assert_eq!(f1.timestamp_ns, 0);
    let f2 = frames.next_frame().unwrap().unwrap();
    assert_eq!(f2.data, b"frame-B-longer");
    assert_eq!(f2.timestamp_ns, 20_000_000);
    assert!(frames.next_frame().unwrap().is_none());
}

#[test]
fn cues_emitted_for_video_keyframes() {
    let mut m = Muxer::new(DocType::Webm);
    let v = m
        .register_track(TrackDescriptor::video(codec_id::V_VP9, 320, 240))
        .unwrap();
    m.append(v, b"I0", 0, true).unwrap();
    m.append(v, b"P0", 33_000_000, false).unwrap();
    m.append(v, b"I1", 66_000_000, true).unwrap();
    m.append(v, b"P1", 100_000_000, false).unwrap();
    let bytes = finalize(m).unwrap();

    let d = Demuxer::parse(&bytes).unwrap();
    assert_eq!(d.cues.len(), 2, "one cue per video keyframe");
    assert_eq!(d.cues[0].ts_ns, 0);
    assert_eq!(d.cues[0].track_number, v);
    assert_eq!(d.cues[1].ts_ns, 66_000_000);

    for cp in &d.cues {
        let abs = d.segment_payload_start + cp.cluster_position as usize;
        assert_eq!(&bytes[abs..abs + 4], &[0x1F, 0x43, 0xB6, 0x75]);
    }
}

#[test]
fn no_cues_when_no_keyframes() {
    let mut m = Muxer::new(DocType::Matroska);
    let a = m
        .register_track(TrackDescriptor::audio(codec_id::A_OPUS, 48000.0f64.to_bits(), 2))
        .unwrap();
    m.append(a, b"opus-A", 0, false).unwrap();
    m.append(a, b"opus-B", 20_000_000, false).unwrap();
    let bytes = finalize(m).unwrap();
    let d = Demuxer::parse(&bytes).unwrap();
    assert!(d.cues.is_empty());
}

#[test]
fn streaming_round_trip() {
    let mut m = Muxer::new(DocType::Webm);
    m.enable_streaming();
    let v = m
        .register_track(TrackDescriptor::video(codec_id::V_VP9, 320, 240))
        .unwrap();

    let mut wire = m.begin_stream().unwrap();
    m.append(v, b"key-0", 0, true).unwrap();
    m.append(v, b"p-0", 33_000_000, false).unwrap();
    wire.extend_from_slice(&m.take_output());
    m.append(v, b"key-1", 66_000_000, true).unwrap();
    wire.extend_from_slice(&m.take_output());
    m.append(v, b"p-1", 100_000_000, false).unwrap();
    wire.extend_from_slice(&m.finish_stream().unwrap());

    let d = Demuxer::parse(&wire).unwrap();
    assert_eq!(d.doc_type, DocType::Webm);
    assert!(d.cues.is_empty());
    assert_eq!(d.tracks.len(), 1);
    assert_eq!(d.tracks[0].codec_id, codec_id::V_VP9);

    let mut frames = Frames::new(&wire, &d);
    let got: Vec<_> = std::iter::from_fn(|| frames.next_frame().unwrap())
        .map(|f| (f.timestamp_ns, f.data.to_vec(), f.is_keyframe))
        .collect();
    assert_eq!(
        got,
        vec![
            (0, b"key-0".to_vec(), Some(true)),
            (33_000_000, b"p-0".to_vec(), Some(false)),
            (66_000_000, b"key-1".to_vec(), Some(true)),
            (100_000_000, b"p-1".to_vec(), Some(false)),
        ]
    );
}

#[test]
fn streaming_state_machine_rejects_misuse() {
    let mut m = Muxer::new(DocType::Webm);
    m.register_track(TrackDescriptor::video(codec_id::V_VP9, 1, 1))
        .unwrap();
    assert!(matches!(m.begin_stream(), Err(Error::Unsupported { .. })));

    let mut m = Muxer::new(DocType::Webm);
    m.enable_streaming();
    let t = m
        .register_track(TrackDescriptor::video(codec_id::V_VP9, 1, 1))
        .unwrap();
    assert!(matches!(
        m.append(t, b"x", 0, true),
        Err(Error::Unsupported { .. })
    ));

    let mut m = Muxer::new(DocType::Webm);
    m.enable_streaming();
    assert!(matches!(finalize(m), Err(Error::Unsupported { .. })));

    let mut m = Muxer::new(DocType::Webm);
    m.enable_streaming();
    m.register_track(TrackDescriptor::video(codec_id::V_VP9, 1, 1))
        .unwrap();
    let _ = m.begin_stream().unwrap();
    assert!(matches!(
        m.register_track(TrackDescriptor::video(codec_id::V_VP9, 1, 1)),
        Err(Error::Unsupported { .. })
    ));
    assert!(matches!(m.begin_stream(), Err(Error::Unsupported { .. })));
}

#[test]
fn streaming_init_segment_has_unknown_size_marker() {
    let mut m = Muxer::new(DocType::Matroska);
    m.enable_streaming();
    m.register_track(TrackDescriptor::audio(codec_id::A_OPUS, 48000.0f64.to_bits(), 2))
        .unwrap();
    let init = m.begin_stream().unwrap();

    let seg_id = [0x18, 0x53, 0x80, 0x67];
    let pos = init
        .windows(4)
        .position(|w| w == seg_id)
        .expect("Segment id present in init segment");
    assert_eq!(
        init[pos + 4],
        0xFF,
        "expected unknown-size VINT immediately after Segment id"
    );
}

#[test]
fn video_keyframe_starts_new_cluster() {
    let mut m = Muxer::new(DocType::Webm);
    let v = m
        .register_track(TrackDescriptor::video(codec_id::V_VP9, 640, 480))
        .unwrap();
    m.append(v, b"I-frame-1", 0, true).unwrap();
    m.append(v, b"P-frame-1", 33_000_000, false).unwrap();
    m.append(v, b"I-frame-2", 66_000_000, true).unwrap();
    let bytes = finalize(m).unwrap();

    let d = Demuxer::parse(&bytes).unwrap();
    let mut frames = Frames::new(&bytes, &d);
    let f1 = frames.next_frame().unwrap().unwrap();
    let f2 = frames.next_frame().unwrap().unwrap();
    let f3 = frames.next_frame().unwrap().unwrap();
    assert_eq!(f1.timestamp_ns, 0);
    assert_eq!(f2.timestamp_ns, 33_000_000);
    assert_eq!(f3.timestamp_ns, 66_000_000);
    assert_eq!(f1.is_keyframe, Some(true));
    assert_eq!(f2.is_keyframe, Some(false));
    assert_eq!(f3.is_keyframe, Some(true));
}
