use media_containers::isobmff::boxes::{Stsd, StszSamples, TrunEntry};
use media_containers::isobmff::fmp4::{
    empty_stbl, fragment_offset_fits, fragment_offsets_fit, write_av_fragment,
    write_av_init_segment, write_av_init_segment_with_preroll,
    write_fragment, write_media_fragment, write_video_init_segment,
    write_video_init_segment_with_duration, write_video_init_segment_with_preroll,
    AudioInitCodec, AudioTrackParams, FragmentTrack, InitCodec, VideoTrackParams,
};

fn dummy_stsd() -> Stsd {
    Stsd { codecs: vec![] }
}

#[test]
fn empty_stbl_has_zero_sample_tables() {
    let stbl = empty_stbl(dummy_stsd());
    assert!(stbl.stts.entries.is_empty());
    assert!(stbl.stsc.entries.is_empty());
    match stbl.stsz.samples {
        StszSamples::Different { ref sizes } => assert!(sizes.is_empty()),
        _ => panic!("expected Different samples"),
    }
    assert!(stbl.stco.is_some());
}

#[test]
fn write_fragment_emits_styp_moof_mdat_in_order() {
    let trun_entries = vec![TrunEntry {
        duration: Some(1024),
        size: Some(8),
        flags: None,
        cts: None,
    }];
    let mut out = Vec::new();
    write_fragment(
        &mut out,
        b"abcdefgh", // 8 bytes of fake encoded data
        trun_entries,
        1,    // sequence_number
        0,    // base_decode_time
        1024, // default_sample_duration
    )
    .unwrap();

    let styp_pos = out.windows(4).position(|w| w == b"styp").unwrap();
    let moof_pos = out.windows(4).position(|w| w == b"moof").unwrap();
    let mdat_pos = out.windows(4).position(|w| w == b"mdat").unwrap();
    assert!(styp_pos < moof_pos);
    assert!(moof_pos < mdat_pos);
}

#[test]
fn write_fragment_applies_tfhd_patch() {
    let trun_entries = vec![TrunEntry {
        duration: Some(1024),
        size: Some(4),
        flags: None,
        cts: None,
    }];
    let mut out = Vec::new();
    write_fragment(&mut out, b"abcd", trun_entries, 1, 0, 1024).unwrap();

    let tfhd_pos = out.windows(4).position(|w| w == b"tfhd").unwrap();
    assert_eq!(out[tfhd_pos + 5] & 0x02, 0x02);
}

#[test]
fn write_fragment_data_offset_resolves_to_mdat_payload() {
    let trun_entries = vec![
        TrunEntry {
            duration: Some(1024),
            size: Some(4),
            flags: None,
            cts: None,
        },
        TrunEntry {
            duration: Some(1024),
            size: Some(4),
            flags: None,
            cts: None,
        },
    ];
    let mut out = Vec::new();
    write_fragment(&mut out, b"AAAABBBB", trun_entries, 7, 0, 1024).unwrap();

    let moof_pos = out.windows(4).position(|w| w == b"moof").unwrap();
    let mdat_pos = out.windows(4).position(|w| w == b"mdat").unwrap();
    let mdat_payload_pos = mdat_pos + 4; // after "mdat" fourcc
    let expected_offset = mdat_payload_pos as i32 - (moof_pos - 4) as i32;

    let trun_pos = out.windows(4).position(|w| w == b"trun").unwrap();
    let data_offset_pos = trun_pos + 4 + 4 + 4; // after fourcc + version/flags + sample_count
    let data_offset = i32::from_be_bytes(
        out[data_offset_pos..data_offset_pos + 4]
            .try_into()
            .unwrap(),
    );
    assert_eq!(data_offset, expected_offset);
}

const FAKE_AVCC: &[u8] = &[
    0x01, 0x42, 0xC0, 0x1F, 0xFF, 0xE1, 0x00, 0x05, 0x67, 0x42, 0xC0, 0x1F, 0x00, 0x01, 0x00,
    0x00,
];

#[test]
fn write_video_init_segment_emits_ftyp_then_moov() {
    let mut out = Vec::new();
    write_video_init_segment(
        &mut out,
        VideoTrackParams {
            width: 1920,
            height: 1080,
            timescale: 90000,
            configuration_record: FAKE_AVCC.to_vec(),
            codec: InitCodec::Avc,
        },
    )
    .unwrap();
    let ftyp = out.windows(4).position(|w| w == b"ftyp").unwrap();
    let moov = out.windows(4).position(|w| w == b"moov").unwrap();
    assert!(ftyp < moov);
    assert!(out.windows(4).position(|w| w == b"styp").is_none());
    assert!(out.windows(4).position(|w| w == b"moof").is_none());
    assert!(out.windows(4).position(|w| w == b"mdat").is_none());
}

#[test]
fn write_video_init_segment_has_vmhd_and_no_smhd() {
    let mut out = Vec::new();
    write_video_init_segment(
        &mut out,
        VideoTrackParams {
            width: 640,
            height: 360,
            timescale: 90000,
            configuration_record: FAKE_AVCC.to_vec(),
            codec: InitCodec::Avc,
        },
    )
    .unwrap();
    assert!(out.windows(4).any(|w| w == b"vmhd"), "vmhd missing");
    assert!(
        !out.windows(4).any(|w| w == b"smhd"),
        "smhd must not appear in a video init segment"
    );
    let hdlr_pos = out.windows(4).position(|w| w == b"hdlr").unwrap();
    let handler = &out[hdlr_pos + 4 + 4 + 4..hdlr_pos + 4 + 4 + 8];
    assert_eq!(handler, b"vide");
}

#[test]
fn write_video_init_segment_carries_avcc_verbatim() {
    let mut out = Vec::new();
    write_video_init_segment(
        &mut out,
        VideoTrackParams {
            width: 1280,
            height: 720,
            timescale: 90000,
            configuration_record: FAKE_AVCC.to_vec(),
            codec: InitCodec::Avc,
        },
    )
    .unwrap();
    let avcc = out
        .windows(4)
        .position(|w| w == b"avcC")
        .expect("avcC missing");
    let body_start = avcc + 4;
    assert_eq!(&out[body_start..body_start + FAKE_AVCC.len()], FAKE_AVCC);
}

#[test]
fn write_video_init_segment_propagates_dimensions_into_tkhd_and_avc1() {
    let mut out = Vec::new();
    write_video_init_segment(
        &mut out,
        VideoTrackParams {
            width: 1280,
            height: 720,
            timescale: 90000,
            configuration_record: FAKE_AVCC.to_vec(),
            codec: InitCodec::Avc,
        },
    )
    .unwrap();
    let tkhd = out.windows(4).position(|w| w == b"tkhd").unwrap();
    let width_off = tkhd + 80;
    let w_int = u16::from_be_bytes(out[width_off..width_off + 2].try_into().unwrap());
    let h_int = u16::from_be_bytes(out[width_off + 4..width_off + 6].try_into().unwrap());
    assert_eq!(w_int, 1280);
    assert_eq!(h_int, 720);

    let avc1 = out.windows(4).position(|w| w == b"avc1").unwrap();
    let vis_dim = avc1 + 4 + 6 + 2 + 2 + 2 + 12; // = avc1 + 28
    let vw = u16::from_be_bytes(out[vis_dim..vis_dim + 2].try_into().unwrap());
    let vh = u16::from_be_bytes(out[vis_dim + 2..vis_dim + 4].try_into().unwrap());
    assert_eq!(vw, 1280);
    assert_eq!(vh, 720);
}

#[test]
fn write_video_init_segment_writes_one_trex_for_track_1() {
    let mut out = Vec::new();
    write_video_init_segment(
        &mut out,
        VideoTrackParams {
            width: 16,
            height: 16,
            timescale: 90000,
            configuration_record: FAKE_AVCC.to_vec(),
            codec: InitCodec::Avc,
        },
    )
    .unwrap();
    let trex = out
        .windows(4)
        .position(|w| w == b"trex")
        .expect("trex missing");
    let track_id_off = trex + 4 + 4;
    let track_id = u32::from_be_bytes(out[track_id_off..track_id_off + 4].try_into().unwrap());
    assert_eq!(track_id, 1);
    let after = trex + 8;
    let next_trex = out[after..].windows(4).position(|w| w == b"trex");
    assert!(next_trex.is_none(), "expected exactly one trex");
}

fn video_params() -> VideoTrackParams {
    VideoTrackParams {
        width: 1280,
        height: 720,
        timescale: 90_000,
        configuration_record: FAKE_AVCC.to_vec(),
        codec: InitCodec::Avc,
    }
}

const FAKE_AASC: &[u8] = &[0x11, 0x90];

fn audio_aac_params() -> AudioTrackParams {
    AudioTrackParams {
        codec: AudioInitCodec::Aac,
        channel_count: 2,
        sample_rate: 48_000,
        sample_size: 16,
        timescale: 48_000,
        configuration_record: FAKE_AASC.to_vec(),
    }
}

#[test]
fn write_av_init_segment_emits_video_only_when_audio_is_none() {
    let mut out = Vec::new();
    write_av_init_segment(&mut out, video_params(), None).unwrap();
    let tkhds: Vec<_> = out
        .windows(4)
        .enumerate()
        .filter(|(_, w)| *w == b"tkhd")
        .collect();
    assert_eq!(
        tkhds.len(),
        1,
        "expected exactly one tkhd when audio is None"
    );
    assert!(
        !out.windows(4).any(|w| w == b"soun"),
        "soun handler must not appear"
    );
    assert!(
        !out.windows(4).any(|w| w == b"smhd"),
        "smhd must not appear"
    );
}

#[test]
fn write_av_init_segment_emits_video_plus_aac() {
    let mut out = Vec::new();
    write_av_init_segment(&mut out, video_params(), Some(audio_aac_params())).unwrap();

    let tkhds: Vec<_> = out
        .windows(4)
        .enumerate()
        .filter(|(_, w)| *w == b"tkhd")
        .collect();
    assert_eq!(tkhds.len(), 2);

    assert!(out.windows(4).any(|w| w == b"vmhd"));
    assert!(out.windows(4).any(|w| w == b"smhd"));

    assert!(out.windows(4).any(|w| w == b"soun"));

    assert!(out.windows(4).any(|w| w == b"mp4a"));
    assert!(out.windows(4).any(|w| w == b"esds"));
    assert!(out.windows(2).any(|w| w == FAKE_AASC));

    let mvex = out.windows(4).position(|w| w == b"mvex").unwrap();
    let trex_count = out[mvex..].windows(4).filter(|w| *w == b"trex").count();
    assert_eq!(trex_count, 2);
}

#[test]
fn write_av_init_segment_emits_opus_dops() {
    let dops_body: Vec<u8> = vec![
        0, // Version
        2, // OutputChannelCount
        0x01, 0x38, // PreSkip = 312
        0x00, 0x00, 0xBB, 0x80, // InputSampleRate = 48000
        0x00, 0x00, // OutputGain
        0x00, // ChannelMappingFamily
    ];
    let mut params = audio_aac_params();
    params.codec = AudioInitCodec::Opus;
    params.configuration_record = dops_body.clone();

    let mut out = Vec::new();
    write_av_init_segment(&mut out, video_params(), Some(params)).unwrap();

    assert!(
        out.windows(4).any(|w| w == b"Opus"),
        "Opus sample entry missing"
    );
    let dops = out
        .windows(4)
        .position(|w| w == b"dOps")
        .expect("dOps missing");
    let start = dops + 4;
    assert_eq!(&out[start..start + dops_body.len()], dops_body.as_slice());
    assert!(out.windows(4).any(|w| w == b"soun"));
}

#[test]
fn write_av_init_segment_emits_flac_dfla() {
    let mut dfla_body: Vec<u8> = vec![
        0, 0, 0, 0, // FullBox header
        0x80, 0x00, 0x00, 0x22, // last-block + StreamInfo (type 0, len 34)
    ];
    dfla_body.extend_from_slice(&[0u8; 34]); // fake STREAMINFO body
    let mut params = audio_aac_params();
    params.codec = AudioInitCodec::Flac;
    params.configuration_record = dfla_body;

    let mut out = Vec::new();
    write_av_init_segment(&mut out, video_params(), Some(params)).unwrap();
    assert!(out.windows(4).any(|w| w == b"fLaC"));
    assert!(out.windows(4).any(|w| w == b"dfLa"));
}

#[test]
fn write_av_init_segment_emits_mp3_sample_entry() {
    let mut params = audio_aac_params();
    params.codec = AudioInitCodec::Mp3;
    params.configuration_record = Vec::new();
    let mut out = Vec::new();
    write_av_init_segment(&mut out, video_params(), Some(params)).unwrap();
    assert!(out.windows(4).any(|w| w == b".mp3"));
    assert!(!out.windows(4).any(|w| w == b"esds"));
}

#[test]
fn write_av_fragment_emits_one_moof_with_two_trafs() {
    let v_entries = vec![TrunEntry {
        duration: Some(3000),
        size: Some(4),
        flags: None,
        cts: None,
    }];
    let a_entries = vec![TrunEntry {
        duration: Some(1024),
        size: Some(3),
        flags: None,
        cts: None,
    }];
    let mut out = Vec::new();
    write_av_fragment(
        &mut out,
        &[
            FragmentTrack {
                track_id: 1,
                trun_entries: v_entries,
                default_sample_duration: 3000,
                base_decode_time: 0,
                sample_data: b"VVVV",
            },
            FragmentTrack {
                track_id: 2,
                trun_entries: a_entries,
                default_sample_duration: 1024,
                base_decode_time: 0,
                sample_data: b"AAA",
            },
        ],
        1,
    )
    .unwrap();

    let traf_count = out.windows(4).filter(|w| *w == b"traf").count();
    assert_eq!(traf_count, 2);

    let mdat_count = out.windows(4).filter(|w| *w == b"mdat").count();
    assert_eq!(mdat_count, 1);

    let mdat = out.windows(4).position(|w| w == b"mdat").unwrap();
    let payload_start = mdat + 4;
    assert_eq!(&out[payload_start..payload_start + 7], b"VVVVAAA");
}

#[test]
fn write_av_fragment_data_offsets_land_at_right_track_bytes() {
    let v_entries = vec![TrunEntry {
        duration: Some(3000),
        size: Some(4),
        flags: None,
        cts: None,
    }];
    let a_entries = vec![TrunEntry {
        duration: Some(1024),
        size: Some(3),
        flags: None,
        cts: None,
    }];
    let mut out = Vec::new();
    write_av_fragment(
        &mut out,
        &[
            FragmentTrack {
                track_id: 1,
                trun_entries: v_entries,
                default_sample_duration: 3000,
                base_decode_time: 0,
                sample_data: b"VVVV",
            },
            FragmentTrack {
                track_id: 2,
                trun_entries: a_entries,
                default_sample_duration: 1024,
                base_decode_time: 0,
                sample_data: b"AAA",
            },
        ],
        7,
    )
    .unwrap();

    let moof_pos = out.windows(4).position(|w| w == b"moof").unwrap();
    let trun_positions: Vec<_> = out
        .windows(4)
        .enumerate()
        .filter(|(_, w)| *w == b"trun")
        .map(|(i, _)| i)
        .collect();
    assert_eq!(trun_positions.len(), 2);
    let read_offset = |trun_pos: usize| -> i32 {
        let data_offset_pos = trun_pos + 4 + 4 + 4; // fourcc + version+flags + sample_count
        i32::from_be_bytes(
            out[data_offset_pos..data_offset_pos + 4]
                .try_into()
                .unwrap(),
        )
    };
    let v_offset = read_offset(trun_positions[0]);
    let a_offset = read_offset(trun_positions[1]);

    assert_eq!(a_offset - v_offset, 4);

    let mdat = out.windows(4).position(|w| w == b"mdat").unwrap();
    let mdat_payload = mdat + 4;
    let expected_v = mdat_payload as i32 - (moof_pos - 4) as i32;
    assert_eq!(v_offset, expected_v);
}

fn video_init(codec: InitCodec, config: &[u8]) -> Vec<u8> {
    let mut out = Vec::new();
    write_video_init_segment(
        &mut out,
        VideoTrackParams {
            width: 320,
            height: 240,
            timescale: 90000,
            configuration_record: config.to_vec(),
            codec,
        },
    )
    .unwrap();
    out
}

fn entry_body(seg: &[u8], fourcc: &[u8; 4]) -> Vec<u8> {
    let at = seg
        .windows(4)
        .position(|w| w == fourcc)
        .unwrap_or_else(|| panic!("no {} sample entry", String::from_utf8_lossy(fourcc)));
    let size = u32::from_be_bytes(seg[at - 4..at].try_into().unwrap()) as usize;
    seg[at + 4..at - 4 + size].to_vec()
}

#[test]
fn avc_inband_writes_an_avc3_sample_entry_and_plain_avc_writes_avc1() {
    let inband = video_init(InitCodec::AvcInband, FAKE_AVCC);
    let plain = video_init(InitCodec::Avc, FAKE_AVCC);

    assert!(
        inband.windows(4).any(|w| w == b"avc3"),
        "AvcInband must write avc3"
    );
    assert!(
        !inband.windows(4).any(|w| w == b"avc1"),
        "AvcInband must NOT also leave an avc1 entry — the brand is the whole signal"
    );
    assert!(
        plain.windows(4).any(|w| w == b"avc1"),
        "Avc must write avc1"
    );
    assert!(
        !plain.windows(4).any(|w| w == b"avc3"),
        "Avc must not write avc3"
    );
}

#[test]
fn avc3_and_avc1_differ_in_the_fourcc_and_nothing_else() {
    let inband = video_init(InitCodec::AvcInband, FAKE_AVCC);
    let plain = video_init(InitCodec::Avc, FAKE_AVCC);
    assert_eq!(
        entry_body(&inband, b"avc3"),
        entry_body(&plain, b"avc1"),
        "avc3 is avc1 with a different brand; a divergent body is a bug"
    );
    assert_eq!(inband.len(), plain.len());
}

#[test]
fn the_avcc_survives_into_the_avc3_entry() {
    let seg = video_init(InitCodec::AvcInband, FAKE_AVCC);
    let body = entry_body(&seg, b"avc3");
    assert!(
        body.windows(FAKE_AVCC.len()).any(|w| w == FAKE_AVCC),
        "the avcC body must still be present under avc3"
    );
}

#[test]
fn hevc_inband_writes_hev1_and_is_otherwise_hvc1() {
    let inband = video_init(InitCodec::HevcInband, FAKE_AVCC);
    let plain = video_init(InitCodec::Hevc, FAKE_AVCC);
    assert!(
        inband.windows(4).any(|w| w == b"hev1"),
        "HevcInband must write hev1"
    );
    assert!(!inband.windows(4).any(|w| w == b"hvc1"), "and not hvc1");
    assert!(
        plain.windows(4).any(|w| w == b"hvc1"),
        "Hevc must write hvc1"
    );
    assert_eq!(entry_body(&inband, b"hev1"), entry_body(&plain, b"hvc1"));
}

#[test]
fn the_av_init_path_picks_the_same_brands_as_the_video_only_path() {
    for (codec, fourcc) in [
        (InitCodec::Avc, b"avc1"),
        (InitCodec::AvcInband, b"avc3"),
        (InitCodec::Hevc, b"hvc1"),
        (InitCodec::HevcInband, b"hev1"),
    ] {
        let mut av = Vec::new();
        write_av_init_segment(
            &mut av,
            VideoTrackParams {
                width: 320,
                height: 240,
                timescale: 90000,
                configuration_record: FAKE_AVCC.to_vec(),
                codec,
            },
            None,
        )
        .unwrap();
        assert!(
            av.windows(4).any(|w| w == fourcc),
            "write_av_init_segment must write {} for {codec:?}",
            String::from_utf8_lossy(fourcc)
        );
    }
}

#[test]
fn offsets_of_short_fragments_fit() {
    let entries = |n: usize| -> Vec<TrunEntry> {
        (0..n)
            .map(|_| TrunEntry { duration: Some(1), size: Some(4), flags: None, cts: None })
            .collect()
    };
    assert!(fragment_offset_fits(&entries(0), 1, 0, 1024));
    assert!(fragment_offset_fits(&entries(100), 7, u64::MAX, 1024));
    let track = |id: u32| FragmentTrack {
        track_id: id,
        trun_entries: entries(3),
        default_sample_duration: 1,
        base_decode_time: 0,
        sample_data: b"abcdefghijkl",
    };
    assert!(fragment_offsets_fit(&[], 1));
    assert!(fragment_offsets_fit(&[track(1), track(2)], 1));
}

#[test]
fn a_media_fragment_starts_no_segment() {
    let entries = || {
        vec![TrunEntry {
            duration: Some(1024),
            size: Some(4),
            flags: None,
            cts: None,
        }]
    };
    let mut whole = Vec::new();
    write_fragment(&mut whole, b"abcd", entries(), 3, 2048, 1024).unwrap();
    let mut plain = b"before".to_vec();
    write_media_fragment(&mut plain, b"abcd", entries(), 3, 2048, 1024).unwrap();
    let styp = u32::from_be_bytes(whole[..4].try_into().unwrap()) as usize;
    assert_eq!(&whole[4..8], b"styp");
    assert_eq!(&plain[6..], &whole[styp..]);
    assert_eq!(&plain[10..14], b"moof");
}

#[test]
fn an_init_segment_without_audio_is_that_of_the_video() {
    let mut alone = Vec::new();
    write_video_init_segment(&mut alone, video_params()).unwrap();
    let mut both = Vec::new();
    write_av_init_segment(&mut both, video_params(), None).unwrap();
    assert_eq!(alone, both);
    let mut unknown = Vec::new();
    write_video_init_segment_with_duration(&mut unknown, video_params(), 0).unwrap();
    assert_eq!(alone, unknown);
    let mut preroll = Vec::new();
    write_video_init_segment_with_preroll(&mut preroll, video_params(), 5, 9).unwrap();
    assert_eq!(alone, preroll);
    let mut preroll = Vec::new();
    write_av_init_segment_with_preroll(&mut preroll, video_params(), None, 5, 9).unwrap();
    assert_eq!(alone, preroll);
    let mut known = Vec::new();
    write_video_init_segment_with_duration(&mut known, video_params(), 0x1234_5678).unwrap();
    assert!(known.windows(4).any(|w| w == b"mehd"));
    assert!(!alone.windows(4).any(|w| w == b"mehd"));
}

fn inner_boxes(b: &[u8]) -> Vec<([u8; 4], &[u8])> {
    let mut out = Vec::new();
    let mut at = 0;
    while at < b.len() {
        let n = u32::from_be_bytes(b[at..at + 4].try_into().unwrap()) as usize;
        out.push((b[at + 4..at + 8].try_into().unwrap(), &b[at + 8..at + n]));
        at += n;
    }
    out
}

fn codes(b: &[u8]) -> Vec<[u8; 4]> {
    inner_boxes(b).iter().map(|c| c.0).collect()
}

fn number(b: &[u8], at: usize) -> u32 {
    u32::from_be_bytes(b[at..at + 4].try_into().unwrap())
}

fn video(codec: InitCodec) -> VideoTrackParams {
    VideoTrackParams {
        width: 320,
        height: 240,
        timescale: 12_800,
        configuration_record: FAKE_AVCC.to_vec(),
        codec,
    }
}

#[test]
fn segments_with_inband_parameters_differ_in_one_code() {
    let pairs = [
        (InitCodec::Avc, InitCodec::AvcInband, b"avc1", b"avc3"),
        (InitCodec::Hevc, InitCodec::HevcInband, b"hvc1", b"hev1"),
    ];
    for (plain, inband, x, y) in pairs {
        let mut a = Vec::new();
        write_video_init_segment(&mut a, video(plain)).unwrap();
        let mut b = Vec::new();
        write_video_init_segment(&mut b, video(inband)).unwrap();
        let at = a.windows(4).position(|w| w == x).unwrap();
        a[at..at + 4].copy_from_slice(y);
        assert_eq!(a, b);
    }
}

#[test]
fn a_known_duration_stands_in_every_header() {
    for d in [7_u64, 1 << 33] {
        let mut out = Vec::new();
        write_video_init_segment_with_duration(&mut out, video(InitCodec::Avc), d).unwrap();
        assert_eq!(codes(&out), [*b"ftyp", *b"moov"]);
        let moov = inner_boxes(&out)[1].1;
        assert_eq!(codes(moov), [*b"mvhd", *b"trak", *b"mvex"]);
        let parts = inner_boxes(moov);
        let time = |b: &[u8], short: usize, long: usize| {
            if b[0] == 0 {
                u64::from(number(b, short))
            } else {
                u64::from_be_bytes(b[long..long + 8].try_into().unwrap())
            }
        };
        assert_eq!(time(parts[0].1, 16, 24), d);
        let trak = inner_boxes(parts[1].1);
        assert_eq!(time(trak[0].1, 20, 28), d);
        let mdia = inner_boxes(trak[1].1);
        assert_eq!(time(mdia[0].1, 16, 24), d);
        let mvex = inner_boxes(parts[2].1);
        assert_eq!(codes(parts[2].1), [*b"mehd", *b"trex"]);
        assert_eq!(time(mvex[0].1, 4, 4), d);
        assert_eq!(number(mvex[1].1, 4), 1);
    }
    let mut zero = Vec::new();
    write_video_init_segment_with_duration(&mut zero, video(InitCodec::Avc), 0).unwrap();
    let mut plain = Vec::new();
    write_video_init_segment(&mut plain, video(InitCodec::Avc)).unwrap();
    assert_eq!(zero, plain);
    let moov = inner_boxes(&plain)[1].1;
    assert_eq!(codes(inner_boxes(moov)[2].1), [*b"trex"]);
}

#[test]
fn a_segment_with_audio_has_both_tracks() {
    let audio = AudioTrackParams {
        codec: AudioInitCodec::Opus,
        channel_count: 2,
        sample_rate: 48_000,
        sample_size: 0,
        timescale: 48_000,
        configuration_record: vec![0, 2, 1, 56, 0, 0, 0xBB, 0x80, 0, 0, 0],
    };
    let mut out = Vec::new();
    write_av_init_segment(&mut out, video(InitCodec::Avc), Some(audio)).unwrap();
    assert_eq!(codes(&out), [*b"ftyp", *b"moov"]);
    let moov = inner_boxes(&out)[1].1;
    assert_eq!(codes(moov), [*b"mvhd", *b"trak", *b"trak", *b"mvex"]);
    let parts = inner_boxes(moov);
    assert_eq!(number(parts[0].1, 12), 12_800);
    assert_eq!(number(parts[0].1, parts[0].1.len() - 4), 3);
    assert_eq!(codes(parts[3].1), [*b"trex", *b"trex"]);
    let expected = [
        (1, 12_800, b"vide", *b"vmhd", *b"avc1"),
        (2, 48_000, b"soun", *b"smhd", *b"Opus"),
    ];
    for (i, (id, scale, handler, media, entry)) in expected.into_iter().enumerate() {
        let trak = inner_boxes(parts[i + 1].1);
        assert_eq!(number(trak[0].1, 12), id);
        let mdia = inner_boxes(trak[1].1);
        assert_eq!(number(mdia[0].1, 12), scale);
        assert_eq!(&mdia[1].1[8..12], handler);
        assert_eq!(codes(mdia[2].1), [media, *b"dinf", *b"stbl"]);
        let stbl = inner_boxes(inner_boxes(mdia[2].1)[2].1);
        let entries = inner_boxes(&stbl[0].1[8..]);
        assert_eq!(entries.len(), 1);
        assert_eq!(entries[0].0, entry);
        assert_eq!(number(inner_boxes(parts[3].1)[i].1, 4), id);
    }
    let trak = inner_boxes(parts[1].1);
    let minf = inner_boxes(trak[1].1)[2].1;
    let stsd = inner_boxes(inner_boxes(minf)[2].1)[0].1;
    let config = inner_boxes(&inner_boxes(&stsd[8..])[0].1[78..]);
    assert_eq!(config[0], (*b"avcC", FAKE_AVCC));
    assert_eq!(config[1].0, *b"pasp");
}
