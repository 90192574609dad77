use media_containers::mkv::audio::{
    channels_for, decoder_error, map_codec_type, open_audio_decoder, AudioCodec, DecoderFault,
};
use media_containers::mkv::cluster::Frames;
use media_containers::mkv::demux::{Demuxer, TrackKind};
use media_containers::mkv::ebml::element::{FloatBits, Reader};
use media_containers::mkv::ebml::schema::{codec_id, ids};
use media_containers::mkv::ebml::writer::{
    element_size, size_vint_width, uint_be, write_ascii, write_binary, write_element, write_float32,
    write_float64, write_int, write_master, write_size_vint, write_uint, write_unknown_size_vint,
    write_utf8,
};
use media_containers::mkv::mux::{Muxer, TrackDescriptor, TIMESTAMP_SCALE_NS};
use media_containers::mkv::profile::{is_codec_allowed, DocType};
use media_containers::mkv::Error;

const OPUS_RATE: u64 = 0x40E7_7000_0000_0000;

fn finalize(m: Muxer) -> Vec<u8> {
    let ticks = m.end_ns() as f64 / TIMESTAMP_SCALE_NS as f64;
    m.finalize(ticks.to_bits()).unwrap()
}

fn all_frames(bytes: &[u8]) -> Vec<(u64, u64, Option<bool>, Vec<u8>)> {
    let d = Demuxer::parse(bytes).unwrap();
    let mut frames = Frames::new(bytes, &d);
    let mut out = Vec::new();
    while let Some(f) = frames.next_frame().unwrap() {
        out.push((f.track, f.timestamp_ns, f.is_keyframe, f.data.to_vec()));
    }
    out
}

#[test]
fn written_numbers_read_back() {
    for n in [0, 1, 126, 127, 128, 255, 256, 65_535, 65_536, u64::MAX / 2, u64::MAX] {
        let mut b = Vec::new();
        write_uint(ids::TRACK_UID, n, &mut b);
        assert_eq!(b.len(), element_size(ids::TRACK_UID, uint_be(n).len()));
        let mut r = Reader::new(&b);
        let h = r.read_header().unwrap();
        assert_eq!(h.id.value, ids::TRACK_UID);
        assert_eq!(r.read_uint(&h).unwrap(), n);
    }
    for n in [0, 1, -1, 127, 128, -128, -129, 32_767, -32_769, i64::MIN, i64::MAX] {
        let mut b = Vec::new();
        write_int(ids::REFERENCE_BLOCK, n, &mut b);
        let mut r = Reader::new(&b);
        let h = r.read_header().unwrap();
        assert_eq!(r.read_int(&h).unwrap(), n);
    }
}

#[test]
fn written_floats_keep_their_bits() {
    let mut b = Vec::new();
    write_float32(ids::SAMPLING_FREQUENCY, 44_100.0f32.to_bits(), &mut b);
    assert_eq!(b, [0xB5, 0x84, 0x47, 0x2C, 0x44, 0x00]);
    let mut r = Reader::new(&b);
    let h = r.read_header().unwrap();
    assert_eq!(
        r.read_float(&h).unwrap(),
        FloatBits::Single(44_100.0f32.to_bits())
    );
    let mut b = Vec::new();
    write_float64(ids::DURATION, 1.5f64.to_bits(), &mut b);
    let mut r = Reader::new(&b);
    let h = r.read_header().unwrap();
    assert_eq!(r.read_float(&h).unwrap(), FloatBits::Double(1.5f64.to_bits()));
}

#[test]
fn written_text_reads_back() {
    let mut b = Vec::new();
    write_ascii(ids::CODEC_ID, "A_OPUS", &mut b);
    let mut r = Reader::new(&b);
    let h = r.read_header().unwrap();
    assert_eq!(r.read_ascii(&h).unwrap(), "A_OPUS");
    let mut b = Vec::new();
    write_utf8(ids::NAME, "Größe", &mut b);
    let mut r = Reader::new(&b);
    let h = r.read_header().unwrap();
    assert_eq!(r.read_utf8(&h).unwrap(), "Größe");
}

#[test]
fn written_bytes_read_back() {
    let mut b = Vec::new();
    write_binary(ids::CODEC_PRIVATE, &[0, 255, 7], &mut b);
    assert_eq!(b, [0x63, 0xA2, 0x83, 0, 255, 7]);
    let mut r = Reader::new(&b);
    let h = r.read_header().unwrap();
    assert_eq!(r.payload(&h).unwrap(), [0, 255, 7]);
}

#[test]
fn text_stops_at_the_first_nul_and_must_be_utf8() {
    let mut b = Vec::new();
    write_element(ids::NAME, b"ab\0cd", &mut b);
    let mut r = Reader::new(&b);
    let h = r.read_header().unwrap();
    assert_eq!(r.read_utf8(&h).unwrap(), "ab");
    let mut b = Vec::new();
    write_element(ids::NAME, &[b'a', 0xFF], &mut b);
    let mut r = Reader::new(&b);
    let h = r.read_header().unwrap();
    assert!(matches!(r.read_utf8(&h), Err(Error::Malformed(_))));
}

#[test]
fn sizes_leave_the_reserved_value_out() {
    let widths = [(126, 1), (127, 2), (16_382, 2), (16_383, 3), (2_097_150, 3), (2_097_151, 4)];
    for (n, w) in widths {
        assert_eq!(size_vint_width(n), w);
        let mut b = Vec::new();
        write_size_vint(n, &mut b);
        assert_eq!(b.len(), w);
    }
    let mut b = Vec::new();
    write_unknown_size_vint(&mut b);
    assert_eq!(b, [0xFF]);
}

#[test]
fn elements_are_bounded_by_what_holds_them() {
    let mut r = Reader::new(&[0x80]);
    assert!(matches!(r.read_header(), Err(Error::UnexpectedEof(_))));
    let mut r = Reader::new(&[0x00, 0x80]);
    assert!(matches!(r.read_header(), Err(Error::InvalidVint)));
    let mut r = Reader::new(&[0x81, 0x82, 1]);
    let h = r.read_header().unwrap();
    assert!(r.skip_payload(&h).is_err());
    assert!(r.descend(&h).is_err());
    assert!(r.read_uint(&h).is_err());
    let long = [0x81, 0x89, 0, 0, 0, 0, 0, 0, 0, 0, 1];
    let mut r = Reader::new(&long);
    let h = r.read_header().unwrap();
    assert!(matches!(r.read_uint(&h), Err(Error::Malformed(_))));
    let mut r = Reader::new(&[0x81, 0x83, 1, 2, 3]);
    let h = r.read_header().unwrap();
    assert!(matches!(r.read_float(&h), Err(Error::Malformed(_))));
    assert_eq!(r.read_uint(&h).unwrap(), 0x01_0203);
    let mut r = Reader::new(&[0x81, 0x80]);
    let h = r.read_header().unwrap();
    assert_eq!(r.read_uint(&h).unwrap(), 0);
    assert_eq!(r.read_int(&h).unwrap(), 0);
    assert_eq!(r.read_float(&h).unwrap(), FloatBits::Double(0));
}

#[test]
fn doc_types_are_known_by_their_names() {
    for d in [DocType::Matroska, DocType::Webm] {
        assert_eq!(DocType::parse(d.as_str()), Some(d));
    }
    assert_eq!(DocType::parse("mp4"), None);
    assert_eq!(DocType::parse(""), None);
}

#[test]
fn webm_allows_no_more_than_matroska() {
    for c in [
        codec_id::V_VP8,
        codec_id::V_VP9,
        codec_id::V_AV1,
        codec_id::V_MPEG4_ISO_AVC,
        codec_id::A_OPUS,
        codec_id::A_VORBIS,
        codec_id::A_AAC,
        codec_id::A_FLAC,
        codec_id::S_TEXT_UTF8,
        "X_UNKNOWN",
    ] {
        if is_codec_allowed(DocType::Webm, c) {
            assert!(is_codec_allowed(DocType::Matroska, c));
        }
    }
}

fn described() -> Muxer {
    let mut m = Muxer::new(DocType::Matroska);
    m.set_writing_app("tests".to_owned());
    let mut video = TrackDescriptor::video(codec_id::V_MPEG4_ISO_AVC, 640, 360);
    video.codec_private = Some(vec![1, 66, 0, 30]);
    video.default_duration_ns = Some(40_000_000);
    video.language = Some("ger".to_owned());
    video.name = Some("Bild".to_owned());
    assert_eq!(m.register_track(video).unwrap(), 1);
    let mut audio = TrackDescriptor::audio(codec_id::A_OPUS, OPUS_RATE, 2);
    audio.codec_delay_ns = 6_500_000;
    audio.seek_pre_roll_ns = 80_000_000;
    audio.flag_default = false;
    audio.flag_forced = true;
    assert_eq!(m.register_track(audio).unwrap(), 2);
    m
}

#[test]
fn described_tracks_read_back() {
    let mut m = described();
    m.append(1, b"frame", 0, true).unwrap();
    let d = Demuxer::parse(&finalize(m)).unwrap();
    assert_eq!(d.writing_app.as_deref(), Some("tests"));
    let v = &d.tracks[0];
    assert_eq!((v.number, v.kind), (1, TrackKind::Video));
    assert_eq!(v.codec_id, codec_id::V_MPEG4_ISO_AVC);
    assert_eq!(v.codec_private.as_deref(), Some(&[1u8, 66, 0, 30][..]));
    assert_eq!(v.default_duration_ns, Some(40_000_000));
    assert_eq!(v.language.as_deref(), Some("ger"));
    assert_eq!(v.name.as_deref(), Some("Bild"));
    assert!(v.flag_default && !v.flag_forced);
    let p = v.video.as_ref().unwrap();
    assert_eq!((p.pixel_width, p.pixel_height), (640, 360));
    let a = &d.tracks[1];
    assert_eq!((a.number, a.kind), (2, TrackKind::Audio));
    assert_eq!((a.codec_delay_ns, a.seek_pre_roll_ns), (6_500_000, 80_000_000));
    assert!(!a.flag_default && a.flag_forced);
    let p = a.audio.as_ref().unwrap();
    assert_eq!(p.sampling_frequency, FloatBits::Double(OPUS_RATE));
    assert_eq!(p.channels, 2);
}

#[test]
fn muxed_frames_read_back_in_order() {
    let mut m = described();
    let mut expected = Vec::new();
    for i in 0..200u64 {
        let track = 1 + i % 2;
        let ns = i * 33_000_000;
        let key = i % 10 == 0;
        let data = vec![i as u8; 1 + (i as usize * 7) % 300];
        m.append(track, &data, ns, key).unwrap();
        expected.push((track, ns, Some(key), data));
    }
    let bytes = finalize(m);
    assert_eq!(all_frames(&bytes), expected);
    let d = Demuxer::parse(&bytes).unwrap();
    let mut frames = Frames::new(&bytes, &d);
    while frames.next_frame().unwrap().is_some() {}
    assert!(frames.next_frame().unwrap().is_none());
    for c in &d.cues {
        let at = d.segment_payload_start + c.cluster_position as usize;
        assert_eq!(&bytes[at..at + 4], &[0x1F, 0x43, 0xB6, 0x75]);
        assert_eq!(c.track_number, 1);
    }
    assert_eq!(d.cues.len(), 20);
}

#[test]
fn times_are_kept_to_the_tick() {
    let mut m = Muxer::new(DocType::Matroska);
    let t = m
        .register_track(TrackDescriptor::audio(codec_id::A_OPUS, OPUS_RATE, 1))
        .unwrap();
    m.append(t, b"x", 1_999_999, true).unwrap();
    assert_eq!(m.end_ns(), 1_999_999);
    let bytes = finalize(m);
    assert_eq!(all_frames(&bytes)[0].1, 1_000_000);
}

#[test]
fn a_stream_in_pieces_holds_the_frames_of_a_file() {
    let feed = |m: &mut Muxer, out: &mut Vec<u8>| {
        for i in 0..60u64 {
            m.append(1 + i % 2, &[i as u8; 5], i * 100_000_000, i % 6 == 0)
                .unwrap();
            if m.is_streaming() {
                out.extend(m.take_output());
            }
        }
    };
    let mut file = described();
    feed(&mut file, &mut Vec::new());
    let mut stream = described();
    stream.enable_streaming();
    let mut wire = stream.begin_stream().unwrap();
    feed(&mut stream, &mut wire);
    wire.extend(stream.finish_stream().unwrap());
    assert_eq!(all_frames(&wire), all_frames(&finalize(file)));
}

#[test]
fn the_muxer_refuses_what_it_cannot_write() {
    let mut m = Muxer::new(DocType::Webm);
    assert!(matches!(
        m.append(1, b"x", 0, true),
        Err(Error::Malformed(_) | Error::Unsupported { .. })
    ));
    assert!(m.set_cluster_duration_ns(0).is_err());
    assert!(m.set_cluster_duration_ns(32_767_000_001).is_err());
    assert!(m.set_cluster_duration_ns(1_000_000_000).is_ok());
    assert!(matches!(m.finish_stream(), Err(Error::Unsupported { .. })));
}

#[test]
fn other_files_are_not_matroska() {
    assert!(Demuxer::parse(&[]).is_err());
    let mut b = Vec::new();
    write_uint(ids::TRACK_UID, 1, &mut b);
    assert!(matches!(Demuxer::parse(&b), Err(Error::NotMatroska)));
    let mut body = Vec::new();
    write_utf8(ids::DOC_TYPE, "other", &mut body);
    let mut b = Vec::new();
    write_master(ids::EBML, &body, &mut b);
    let header = b.clone();
    assert!(matches!(Demuxer::parse(&b), Err(Error::UnexpectedEof(_))));
    write_uint(ids::TRACK_UID, 1, &mut b);
    assert!(matches!(Demuxer::parse(&b), Err(Error::Malformed(_))));
    let mut b = header;
    write_master(ids::SEGMENT, &[], &mut b);
    assert!(matches!(Demuxer::parse(&b), Err(Error::NotMatroska)));
}

#[test]
fn channel_masks_keep_known_speakers_only() {
    assert_eq!(channels_for(3), 0b111);
    assert_eq!(channels_for(26), 0x3FF_FFFF);
    assert_eq!(channels_for(27), 0x3FF_FFFF);
    assert_eq!(channels_for(31), 0x3FF_FFFF);
}

#[test]
fn decoders_are_set_up_from_their_track() {
    let mut m = Muxer::new(DocType::Matroska);
    let mut d = TrackDescriptor::audio(codec_id::A_AAC, OPUS_RATE, 6);
    d.codec_private = Some(vec![0x11, 0x90]);
    m.register_track(d).unwrap();
    m.append(1, b"x", 0, true).unwrap();
    let d = Demuxer::parse(&finalize(m)).unwrap();
    let mut t = d.tracks[0].clone();
    let s = open_audio_decoder(&t).unwrap();
    assert_eq!(s.codec, AudioCodec::Aac);
    assert_eq!(s.sampling_frequency, FloatBits::Double(OPUS_RATE));
    assert_eq!((s.channels, s.channel_mask), (6, 0b11_1111));
    assert_eq!(s.extra_data, Some(vec![0x11, 0x90]));
    assert_eq!(s.bits_per_sample, None);
    t.audio = None;
    assert!(matches!(open_audio_decoder(&t), Err(Error::Malformed(_))));
    assert_eq!(
        map_codec_type(codec_id::A_PCM_INT_BE, Some(17)),
        Some(AudioCodec::PcmS24Be)
    );
    assert_eq!(
        map_codec_type(codec_id::A_PCM_INT_BE, Some(25)),
        Some(AudioCodec::PcmS32Be)
    );
    assert_eq!(
        map_codec_type(codec_id::A_PCM_INT_LE, None),
        Some(AudioCodec::PcmS16Le)
    );
}

#[test]
fn decoder_reports_become_errors() {
    for (fault, text) in [
        (DecoderFault::Io, "symphonia: io"),
        (DecoderFault::Decode, "symphonia: decode"),
        (DecoderFault::Seek, "symphonia: seek"),
        (DecoderFault::Unsupported, "symphonia: unsupported"),
        (DecoderFault::Limit, "symphonia: limit"),
        (DecoderFault::ResetRequired, "symphonia: reset required"),
    ] {
        match decoder_error(fault) {
            Error::Malformed(t) => assert_eq!(t, text),
            other => panic!("{other:?}"),
        }
    }
}

#[test]
fn errors_say_what_is_wrong() {
    for (e, text) in [
        (Error::UnexpectedEof("size"), "unexpected EOF while reading size"),
        (Error::InvalidVint, "invalid EBML VINT (zero width byte)"),
        (Error::SizeOverflow, "element size exceeds reader bounds"),
        (Error::NotMatroska, "not a Matroska or WebM file"),
        (Error::Unsupported { what: "lacing" }, "unsupported: lacing"),
        (
            Error::UnsupportedElement {
                parent: ids::TRACK_ENTRY,
                element: 0xA,
            },
            "unsupported: element 0xA in parent 0xAE is outside the bounded streaming allowlist",
        ),
        (Error::Malformed("text"), "malformed text"),
    ] {
        assert_eq!(e.message(), text);
    }
}

fn clusters(bytes: &[u8]) -> usize {
    bytes
        .windows(4)
        .filter(|w| *w == [0x1F, 0x43, 0xB6, 0x75])
        .count()
}

#[test]
fn clusters_are_cut_at_keyframes_and_durations() {
    let feed = |key: bool, step_ns: u64| {
        let mut m = Muxer::new(DocType::Matroska);
        m.set_cluster_duration_ns(1_000_000_000).unwrap();
        m.register_track(TrackDescriptor::video(codec_id::V_VP9, 8, 8))
            .unwrap();
        for i in 0..10 {
            m.append(1, b"x", i * step_ns, key && i % 2 == 0).unwrap();
        }
        clusters(&finalize(m))
    };
    assert_eq!(feed(false, 10_000_000), 1);
    assert_eq!(feed(true, 10_000_000), 5);
    assert_eq!(feed(false, 1_000_000_000), 10);
    assert_eq!(feed(false, 500_000_000), 5);
}

#[test]
fn the_end_covers_every_frame() {
    let mut m = described();
    m.append(2, b"x", 9_000_000, true).unwrap();
    assert_eq!(m.end_ns(), 9_000_000);
    m.append(1, b"x", 1_000_000, true).unwrap();
    assert_eq!(m.end_ns(), 41_000_000);
    m.append(2, b"x", 20_000_000, true).unwrap();
    assert_eq!(m.end_ns(), 41_000_000);
}

#[test]
fn webm_keeps_its_whitelist() {
    let mut m = Muxer::new(DocType::Webm);
    m.register_track(TrackDescriptor::video(codec_id::V_VP9, 8, 8))
        .unwrap();
    assert!(m
        .register_track(TrackDescriptor::audio(codec_id::A_AAC, OPUS_RATE, 2))
        .is_err());
    m.append(1, b"x", 0, true).unwrap();
    let d = Demuxer::parse(&finalize(m)).unwrap();
    assert_eq!(d.tracks.len(), 1);
    assert!(is_codec_allowed(DocType::Webm, &d.tracks[0].codec_id));
}

#[test]
fn singles_are_widened_to_doubles_of_the_same_value() {
    let mut bits = vec![0u32, 0x8000_0000, 1, 0x8000_0001, 0x7F_FFFF, 0x80_0000, 0x7F80_0000];
    bits.extend_from_slice(&[0xFF80_0000, 0x7F7F_FFFF, 0x7FC0_0000, 0x40_0000, 0x20_0001]);
    for k in 0..2000u32 {
        bits.push(k.wrapping_mul(0x9E37_79B9) & 0xFF7F_FFFF);
    }
    for b in bits {
        let expected = f64::from(f32::from_bits(b)).to_bits();
        assert_eq!(FloatBits::Single(b).to_double(), expected);
    }
    assert_eq!(FloatBits::Double(OPUS_RATE).to_double(), OPUS_RATE);
}

#[test]
fn frequencies_are_written_as_doubles() {
    let mut m = Muxer::new(DocType::Matroska);
    let mut a = TrackDescriptor::audio(codec_id::A_AAC, OPUS_RATE, 2);
    let p = a.audio.as_mut().unwrap();
    p.sampling_frequency = FloatBits::Single(22_050.0f32.to_bits());
    p.output_sampling_frequency = Some(FloatBits::Single(44_100.0f32.to_bits()));
    m.register_track(a).unwrap();
    m.append(1, b"x", 0, true).unwrap();
    let bytes = finalize(m);
    let mut stored = vec![0xB5, 0x88];
    stored.extend_from_slice(&22_050.0f64.to_be_bytes());
    stored.extend_from_slice(&[0x78, 0xB5, 0x88]);
    stored.extend_from_slice(&44_100.0f64.to_be_bytes());
    assert!(bytes.windows(stored.len()).any(|w| w == stored));
    let d = Demuxer::parse(&bytes).unwrap();
    let p = d.tracks[0].audio.as_ref().unwrap();
    assert_eq!(p.sampling_frequency, FloatBits::Double(22_050.0f64.to_bits()));
    assert_eq!(
        p.output_sampling_frequency,
        Some(FloatBits::Double(44_100.0f64.to_bits()))
    );
}

#[test]
fn names_read_back_up_to_a_nul() {
    let mut m = Muxer::new(DocType::Matroska);
    m.set_writing_app("wr\u{e9}\0iter".to_owned());
    let mut v = TrackDescriptor::video(codec_id::V_VP9, 64, 64);
    v.codec_id = "V_X\0Y".to_owned();
    v.name = Some("\0all".to_owned());
    v.language = Some("ger\0".to_owned());
    m.register_track(v).unwrap();
    m.append(1, b"x", 0, true).unwrap();
    let d = Demuxer::parse(&finalize(m)).unwrap();
    assert_eq!(d.writing_app.as_deref(), Some("wr\u{e9}"));
    let t = &d.tracks[0];
    assert_eq!(t.codec_id, "V_X");
    assert_eq!(t.name.as_deref(), Some(""));
    assert_eq!(t.language.as_deref(), Some("ger"));
}

#[test]
fn kinds_are_known_by_their_number() {
    let mut m = Muxer::new(DocType::Matroska);
    let mut d = TrackDescriptor::video(codec_id::V_VP9, 64, 64);
    d.kind = TrackKind::Other(33);
    d.codec_id = "X_Y".to_owned();
    m.register_track(d).unwrap();
    let mut d = TrackDescriptor::video(codec_id::V_VP9, 64, 64);
    d.kind = TrackKind::Other(1);
    m.register_track(d).unwrap();
    m.append(1, b"x", 0, true).unwrap();
    let d = Demuxer::parse(&finalize(m)).unwrap();
    assert_eq!(d.tracks[0].kind, TrackKind::Other(33));
    assert_eq!(d.tracks[1].kind, TrackKind::Video);
}

#[test]
fn a_finished_file_tells_what_was_muxed() {
    let mut m = described();
    let packets = [
        (1, 0, true),
        (2, 3_900_000, true),
        (1, 40_000_000, false),
        (2, 41_000_000, false),
        (1, 80_500_000, true),
    ];
    for (track, ns, key) in packets {
        m.append(track, &[track as u8], ns, key).unwrap();
    }
    assert!(m.append(3, b"x", 9_000_000_000, true).is_err());
    assert_eq!(m.end_ns(), 120_500_000);
    let bytes = finalize(m);
    let d = Demuxer::parse(&bytes).unwrap();
    assert_eq!(d.doc_type, DocType::Matroska);
    assert_eq!(d.timestamp_scale_ns, 1_000_000);
    assert_eq!(d.duration_ticks, Some(FloatBits::Double(120.5f64.to_bits())));
    let numbers: Vec<u64> = d.tracks.iter().map(|t| t.number).collect();
    assert_eq!(numbers, [1, 2]);
    let entries: Vec<(u64, u64)> = d.cues.iter().map(|c| (c.track_number, c.ts_ns)).collect();
    assert_eq!(entries, [(1, 0), (2, 3_000_000), (1, 80_000_000)]);
    let frames: Vec<(u64, u64)> = all_frames(&bytes).iter().map(|f| (f.0, f.1)).collect();
    let expected: Vec<(u64, u64)> = packets
        .iter()
        .map(|p| (p.0, p.1 / 1_000_000 * 1_000_000))
        .collect();
    assert_eq!(frames, expected);
}

#[test]
fn a_stream_is_the_same_however_it_is_taken() {
    let packets = [
        (1, 0, true),
        (2, 3_900_000, true),
        (3, 9_000_000, true),
        (1, 40_000_000, true),
        (1, 80_500_000, true),
        (2, 90_000_000, false),
    ];
    let mut streams = Vec::new();
    for every in [1, 2, 4, 99] {
        let mut m = described();
        m.enable_streaming();
        let mut out = m.begin_stream().unwrap();
        for (i, (track, ns, key)) in packets.into_iter().enumerate() {
            assert_eq!(m.append(track, &[i as u8], ns, key).is_ok(), track < 3);
            if i % every == 0 {
                out.extend_from_slice(&m.take_output());
            }
        }
        out.extend_from_slice(&m.finish_stream().unwrap());
        streams.push(out);
    }
    for s in &streams {
        assert_eq!(s, &streams[0]);
    }
    let frames: Vec<(u64, u64, Vec<u8>)> = all_frames(&streams[0])
        .into_iter()
        .map(|f| (f.0, f.1, f.3))
        .collect();
    assert_eq!(
        frames,
        [
            (1, 0, vec![0]),
            (2, 3_000_000, vec![1]),
            (1, 40_000_000, vec![3]),
            (1, 80_000_000, vec![4]),
            (2, 90_000_000, vec![5]),
        ]
    );
}

#[test]
fn late_times_lose_nothing_else() {
    let late = u64::MAX / 1_000_000 * 1_000_000;
    let mut m = described();
    m.append(1, b"early", 1_000_000, true).unwrap();
    m.append(2, b"late", late, true).unwrap();
    let bytes = finalize(m);
    let d = Demuxer::parse(&bytes).unwrap();
    assert_eq!(d.tracks.len(), 2);
    let entries: Vec<(u64, u64)> = d.cues.iter().map(|c| (c.track_number, c.ts_ns)).collect();
    assert_eq!(entries, [(1, 1_000_000), (2, late)]);
    let frames = all_frames(&bytes);
    assert_eq!(frames[0], (1, 1_000_000, Some(true), b"early".to_vec()));
    // A reader reckons with signed times, and negative ones become zero.
    assert_eq!(frames[1], (2, 0, Some(true), b"late".to_vec()));
    assert_eq!(frames.len(), 2);
}

#[test]
fn output_comes_by_clusters() {
    let mut m = described();
    m.enable_streaming();
    assert!(matches!(
        m.append(1, b"x", 0, true),
        Err(Error::Unsupported { .. })
    ));
    let head = m.begin_stream().unwrap();
    let at = head.windows(4).position(|w| w == [0x18, 0x53, 0x80, 0x67]).unwrap();
    assert_eq!(head[at + 4], 0xFF);
    assert!(matches!(m.begin_stream(), Err(Error::Unsupported { .. })));
    assert!(matches!(
        m.register_track(TrackDescriptor::video(codec_id::V_VP9, 2, 2)),
        Err(Error::Unsupported { .. })
    ));
    // The first packet opens a Cluster at its time in whole ticks.
    let steps = [
        (1, 5_300_000, true, false),
        (1, 4_000_000, true, false),
        (2, 900_000_000, true, false),
        (1, 900_000_000, false, false),
        (1, 901_000_000, true, true),
        (2, 1_900_999_999, true, false),
        (2, 1_901_000_000, true, true),
    ];
    for (i, (track, ns, key, cut)) in steps.into_iter().enumerate() {
        m.append(track, &[0xE0 + i as u8], ns, key).unwrap();
        let out = m.take_output();
        assert_eq!(!out.is_empty(), cut);
        if cut {
            assert_eq!(out[..4], [0x1F, 0x43, 0xB6, 0x75]);
            assert!(!out.contains(&(0xE0 + i as u8)));
            assert_eq!(out.windows(4).filter(|w| *w == &out[..4]).count(), 1);
        }
    }
}
