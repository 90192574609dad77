use media_containers::isobmff::parse::{
    parse_audio_track, parse_audio_track_from_moov, parse_video_track, scan_header, scan_size,
    AudioCodec, SampleRef, Scan, VideoCodec, VideoTrack,
};
use media_containers::isobmff::IsobmffError;

fn box_with_body(four_cc: &[u8; 4], body: &[u8]) -> Vec<u8> {
    let total = 8 + body.len();
    let mut v = Vec::with_capacity(total);
    v.extend_from_slice(&(total as u32).to_be_bytes());
    v.extend_from_slice(four_cc);
    v.extend_from_slice(body);
    v
}

fn synth_minimal_avc_mp4() -> Vec<u8> {
    let ftyp = {
        let mut body = Vec::new();
        body.extend_from_slice(b"isom");
        body.extend_from_slice(&0u32.to_be_bytes());
        body.extend_from_slice(b"isom");
        box_with_body(b"ftyp", &body)
    };

    let mdhd = {
        let mut body = Vec::new();
        body.extend_from_slice(&[0, 0, 0, 0]); // version + flags
        body.extend_from_slice(&0u32.to_be_bytes()); // creation
        body.extend_from_slice(&0u32.to_be_bytes()); // modification
        body.extend_from_slice(&90_000u32.to_be_bytes()); // timescale
        body.extend_from_slice(&6_000u32.to_be_bytes()); // duration
        body.extend_from_slice(&0u16.to_be_bytes()); // lang
        body.extend_from_slice(&0u16.to_be_bytes()); // pre_defined
        box_with_body(b"mdhd", &body)
    };

    let hdlr = {
        let mut body = Vec::new();
        body.extend_from_slice(&[0, 0, 0, 0]);
        body.extend_from_slice(&0u32.to_be_bytes());
        body.extend_from_slice(b"vide");
        body.extend_from_slice(&[0u8; 12]); // reserved
        body.push(0); // name (single NUL)
        box_with_body(b"hdlr", &body)
    };

    let avcc = box_with_body(b"avcC", &[0x01, 0x42, 0xC0, 0x1F, 0xFF, 0xE1, 0x00, 0x05]);
    let avc1 = {
        let mut body = Vec::new();
        body.extend_from_slice(&[0u8; 6]); // reserved
        body.extend_from_slice(&1u16.to_be_bytes()); // data_reference_index
        body.extend_from_slice(&0u16.to_be_bytes()); // pre_defined
        body.extend_from_slice(&0u16.to_be_bytes()); // reserved
        body.extend_from_slice(&[0u8; 12]); // pre_defined[3]
        body.extend_from_slice(&1920u16.to_be_bytes()); // width
        body.extend_from_slice(&1080u16.to_be_bytes()); // height
        body.extend_from_slice(&0u32.to_be_bytes()); // horiz
        body.extend_from_slice(&0u32.to_be_bytes()); // vert
        body.extend_from_slice(&0u32.to_be_bytes()); // reserved
        body.extend_from_slice(&1u16.to_be_bytes()); // frame_count
        body.extend_from_slice(&[0u8; 32]); // compressorname
        body.extend_from_slice(&24u16.to_be_bytes()); // depth
        body.extend_from_slice(&0xFFFFu16.to_be_bytes()); // pre_defined (-1)
        body.extend_from_slice(&avcc);
        box_with_body(b"avc1", &body)
    };
    let stsd = {
        let mut body = Vec::new();
        body.extend_from_slice(&[0, 0, 0, 0]);
        body.extend_from_slice(&1u32.to_be_bytes());
        body.extend_from_slice(&avc1);
        box_with_body(b"stsd", &body)
    };

    let stts = {
        let mut body = Vec::new();
        body.extend_from_slice(&[0, 0, 0, 0]);
        body.extend_from_slice(&1u32.to_be_bytes()); // entry count
        body.extend_from_slice(&2u32.to_be_bytes()); // sample count
        body.extend_from_slice(&3000u32.to_be_bytes()); // delta
        box_with_body(b"stts", &body)
    };
    let stss = {
        let mut body = Vec::new();
        body.extend_from_slice(&[0, 0, 0, 0]);
        body.extend_from_slice(&1u32.to_be_bytes()); // entry count
        body.extend_from_slice(&1u32.to_be_bytes()); // sample_number (1-based)
        box_with_body(b"stss", &body)
    };
    let stsc = {
        let mut body = Vec::new();
        body.extend_from_slice(&[0, 0, 0, 0]);
        body.extend_from_slice(&1u32.to_be_bytes());
        body.extend_from_slice(&1u32.to_be_bytes()); // first_chunk
        body.extend_from_slice(&2u32.to_be_bytes()); // samples_per_chunk
        body.extend_from_slice(&1u32.to_be_bytes()); // sample_description_index
        box_with_body(b"stsc", &body)
    };
    let stsz = {
        let mut body = Vec::new();
        body.extend_from_slice(&[0, 0, 0, 0]);
        body.extend_from_slice(&0u32.to_be_bytes()); // sample_size (variable)
        body.extend_from_slice(&2u32.to_be_bytes()); // sample_count
        body.extend_from_slice(&3u32.to_be_bytes());
        body.extend_from_slice(&4u32.to_be_bytes());
        box_with_body(b"stsz", &body)
    };

    let stbl_inner_without_stco = [&stsd, &stts, &stss, &stsc, &stsz]
        .iter()
        .map(|b| b.len())
        .sum::<usize>();

    let stco_placeholder = {
        let mut body = Vec::new();
        body.extend_from_slice(&[0, 0, 0, 0]);
        body.extend_from_slice(&1u32.to_be_bytes());
        body.extend_from_slice(&0u32.to_be_bytes()); // first chunk offset
        box_with_body(b"stco", &body)
    };

    let stbl_len = stbl_inner_without_stco + stco_placeholder.len() + 8;
    let dinf = {
        let dref_body = {
            let url = box_with_body(b"url ", &[0, 0, 0, 1]); // self-contained flag
            let mut body = Vec::new();
            body.extend_from_slice(&[0, 0, 0, 0]);
            body.extend_from_slice(&1u32.to_be_bytes()); // entry count
            body.extend_from_slice(&url);
            body
        };
        let dref = box_with_body(b"dref", &dref_body);
        box_with_body(b"dinf", &dref)
    };
    let minf_len = dinf.len() + stbl_len + 8;
    let mdia_len = mdhd.len() + hdlr.len() + minf_len + 8;
    let trak_inner_tkhd = {
        let mut body = Vec::new();
        body.extend_from_slice(&[0, 0, 0, 0]);
        body.extend_from_slice(&0u32.to_be_bytes()); // creation
        body.extend_from_slice(&0u32.to_be_bytes()); // modification
        body.extend_from_slice(&1u32.to_be_bytes()); // track_id
        body.extend_from_slice(&0u32.to_be_bytes()); // reserved
        body.extend_from_slice(&6_000u32.to_be_bytes()); // duration
        body.extend_from_slice(&[0u8; 8]); // reserved[2]
        body.extend_from_slice(&0u16.to_be_bytes()); // layer
        body.extend_from_slice(&0u16.to_be_bytes()); // alt group
        body.extend_from_slice(&0u16.to_be_bytes()); // volume
        body.extend_from_slice(&0u16.to_be_bytes()); // reserved
        body.extend_from_slice(&[0u8; 36]); // matrix[9]
        body.extend_from_slice(&(1920u32 << 16).to_be_bytes()); // width fp
        body.extend_from_slice(&(1080u32 << 16).to_be_bytes()); // height fp
        box_with_body(b"tkhd", &body)
    };
    let trak_len = trak_inner_tkhd.len() + mdia_len + 8;
    let mvhd = {
        let mut body = Vec::new();
        body.extend_from_slice(&[0, 0, 0, 0]);
        body.extend_from_slice(&0u32.to_be_bytes()); // creation
        body.extend_from_slice(&0u32.to_be_bytes()); // modification
        body.extend_from_slice(&90_000u32.to_be_bytes()); // timescale
        body.extend_from_slice(&6_000u32.to_be_bytes()); // duration
        body.extend_from_slice(&(1u32 << 16).to_be_bytes()); // rate fp 1.0
        body.extend_from_slice(&(1u16 << 8).to_be_bytes()); // volume fp 1.0
        body.extend_from_slice(&[0u8; 10]); // reserved
        body.extend_from_slice(&[0u8; 36]); // matrix[9]
        body.extend_from_slice(&[0u8; 24]); // pre_defined[6]
        body.extend_from_slice(&2u32.to_be_bytes()); // next_track_id
        box_with_body(b"mvhd", &body)
    };
    let moov_len = mvhd.len() + trak_len + 8;

    let mdat_offset = ftyp.len() + moov_len;
    let chunk_offset = (mdat_offset + 8) as u32;

    let stco = {
        let mut body = Vec::new();
        body.extend_from_slice(&[0, 0, 0, 0]);
        body.extend_from_slice(&1u32.to_be_bytes());
        body.extend_from_slice(&chunk_offset.to_be_bytes());
        box_with_body(b"stco", &body)
    };
    assert_eq!(stco.len(), stco_placeholder.len());

    let stbl = {
        let mut body = Vec::new();
        body.extend_from_slice(&stsd);
        body.extend_from_slice(&stts);
        body.extend_from_slice(&stss);
        body.extend_from_slice(&stsc);
        body.extend_from_slice(&stsz);
        body.extend_from_slice(&stco);
        box_with_body(b"stbl", &body)
    };
    assert_eq!(stbl.len(), stbl_len);
    let minf = {
        let mut body = Vec::new();
        body.extend_from_slice(&dinf);
        body.extend_from_slice(&stbl);
        box_with_body(b"minf", &body)
    };
    assert_eq!(minf.len(), minf_len);
    let mdia = {
        let mut body = Vec::new();
        body.extend_from_slice(&mdhd);
        body.extend_from_slice(&hdlr);
        body.extend_from_slice(&minf);
        box_with_body(b"mdia", &body)
    };
    assert_eq!(mdia.len(), mdia_len);
    let trak = {
        let mut body = Vec::new();
        body.extend_from_slice(&trak_inner_tkhd);
        body.extend_from_slice(&mdia);
        box_with_body(b"trak", &body)
    };
    assert_eq!(trak.len(), trak_len);
    let moov = {
        let mut body = Vec::new();
        body.extend_from_slice(&mvhd);
        body.extend_from_slice(&trak);
        box_with_body(b"moov", &body)
    };
    assert_eq!(moov.len(), moov_len);

    let mdat = box_with_body(b"mdat", b"abcdefg");

    let mut out = Vec::new();
    out.extend_from_slice(&ftyp);
    out.extend_from_slice(&moov);
    out.extend_from_slice(&mdat);
    out
}

#[test]
fn parses_minimal_avc() {
    let buf = synth_minimal_avc_mp4();
    let track = parse_video_track(&buf).unwrap();
    assert_eq!(track.codec, VideoCodec::Avc);
    assert_eq!(track.width, 1920);
    assert_eq!(track.height, 1080);
    assert_eq!(track.timescale, 90_000);
    assert_eq!(track.duration, 6_000);
    assert_eq!(
        track.codec_config,
        vec![0x01, 0x42, 0xC0, 0x1F, 0xFF, 0xE1, 0x00, 0x05]
    );
    assert_eq!(track.samples.len(), 2);
    assert_eq!(track.samples[0].size, 3);
    assert_eq!(track.samples[0].dts, 0);
    assert_eq!(track.samples[0].duration, 3_000);
    assert!(track.samples[0].is_keyframe);
    assert_eq!(track.samples[1].size, 4);
    assert_eq!(track.samples[1].dts, 3_000);
    assert!(!track.samples[1].is_keyframe);
    let s0 = &buf[track.samples[0].offset as usize
        ..(track.samples[0].offset + track.samples[0].size as u64) as usize];
    let s1 = &buf[track.samples[1].offset as usize
        ..(track.samples[1].offset + track.samples[1].size as u64) as usize];
    assert_eq!(s0, b"abc");
    assert_eq!(s1, b"defg");
}

#[test]
fn keyframe_index_for_time_picks_sync_sample() {
    let buf = synth_minimal_avc_mp4();
    let track = parse_video_track(&buf).unwrap();
    assert_eq!(track.keyframe_index_for_time(0), Some(0));
    assert_eq!(track.keyframe_index_for_time(2_999), Some(0));
    assert_eq!(track.keyframe_index_for_time(5_999), Some(0));
}

fn synth_minimal_aac_moov() -> Vec<u8> {
    let mdhd = {
        let mut body = Vec::new();
        body.extend_from_slice(&[0, 0, 0, 0]);
        body.extend_from_slice(&0u32.to_be_bytes());
        body.extend_from_slice(&0u32.to_be_bytes());
        body.extend_from_slice(&48_000u32.to_be_bytes());
        body.extend_from_slice(&1024u32.to_be_bytes());
        body.extend_from_slice(&0u16.to_be_bytes());
        body.extend_from_slice(&0u16.to_be_bytes());
        box_with_body(b"mdhd", &body)
    };
    let hdlr = {
        let mut body = Vec::new();
        body.extend_from_slice(&[0, 0, 0, 0]);
        body.extend_from_slice(&0u32.to_be_bytes());
        body.extend_from_slice(b"soun");
        body.extend_from_slice(&[0u8; 12]);
        body.push(0);
        box_with_body(b"hdlr", &body)
    };

    let dec_specific_body = &[0x11u8, 0x90][..];
    let mut dec_specific = Vec::new();
    dec_specific.push(0x05);
    dec_specific.push(dec_specific_body.len() as u8);
    dec_specific.extend_from_slice(dec_specific_body);

    let mut dec_config_body = Vec::new();
    dec_config_body.push(0x40); // OTI AAC
    dec_config_body.push(0x15); // streamType<<2 | upStream | reserved
    dec_config_body.extend_from_slice(&[0u8; 3]); // bufferSizeDB
    dec_config_body.extend_from_slice(&0u32.to_be_bytes());
    dec_config_body.extend_from_slice(&0u32.to_be_bytes());
    dec_config_body.extend_from_slice(&dec_specific);
    let mut dec_config = Vec::new();
    dec_config.push(0x04);
    dec_config.push(dec_config_body.len() as u8);
    dec_config.extend_from_slice(&dec_config_body);

    let sl_config = vec![0x06u8, 0x01, 0x02];

    let mut es_body = Vec::new();
    es_body.extend_from_slice(&0u16.to_be_bytes()); // ES_ID
    es_body.push(0);
    es_body.extend_from_slice(&dec_config);
    es_body.extend_from_slice(&sl_config);
    let mut es_descriptor = Vec::new();
    es_descriptor.push(0x03);
    es_descriptor.push(es_body.len() as u8);
    es_descriptor.extend_from_slice(&es_body);

    let mut esds_body = Vec::new();
    esds_body.extend_from_slice(&[0, 0, 0, 0]); // FullBox header
    esds_body.extend_from_slice(&es_descriptor);
    let esds = box_with_body(b"esds", &esds_body);

    let mp4a = {
        let mut body = Vec::new();
        body.extend_from_slice(&[0u8; 6]);
        body.extend_from_slice(&1u16.to_be_bytes()); // dref idx
        body.extend_from_slice(&[0u8; 8]);
        body.extend_from_slice(&2u16.to_be_bytes()); // channels
        body.extend_from_slice(&16u16.to_be_bytes()); // sample_size
        body.extend_from_slice(&0u16.to_be_bytes()); // pre_defined
        body.extend_from_slice(&0u16.to_be_bytes()); // reserved
        body.extend_from_slice(&(48_000u32 << 16).to_be_bytes()); // sample_rate fp
        body.extend_from_slice(&esds);
        box_with_body(b"mp4a", &body)
    };
    let stsd = {
        let mut body = Vec::new();
        body.extend_from_slice(&[0, 0, 0, 0]);
        body.extend_from_slice(&1u32.to_be_bytes());
        body.extend_from_slice(&mp4a);
        box_with_body(b"stsd", &body)
    };
    let stts = {
        let mut body = Vec::new();
        body.extend_from_slice(&[0, 0, 0, 0]);
        body.extend_from_slice(&1u32.to_be_bytes());
        body.extend_from_slice(&1u32.to_be_bytes()); // sample_count
        body.extend_from_slice(&1024u32.to_be_bytes());
        box_with_body(b"stts", &body)
    };
    let stsc = {
        let mut body = Vec::new();
        body.extend_from_slice(&[0, 0, 0, 0]);
        body.extend_from_slice(&1u32.to_be_bytes());
        body.extend_from_slice(&1u32.to_be_bytes());
        body.extend_from_slice(&1u32.to_be_bytes());
        body.extend_from_slice(&1u32.to_be_bytes());
        box_with_body(b"stsc", &body)
    };
    let stsz = {
        let mut body = Vec::new();
        body.extend_from_slice(&[0, 0, 0, 0]);
        body.extend_from_slice(&0u32.to_be_bytes());
        body.extend_from_slice(&1u32.to_be_bytes());
        body.extend_from_slice(&500u32.to_be_bytes()); // size
        box_with_body(b"stsz", &body)
    };
    let stco = {
        let mut body = Vec::new();
        body.extend_from_slice(&[0, 0, 0, 0]);
        body.extend_from_slice(&1u32.to_be_bytes());
        body.extend_from_slice(&16u32.to_be_bytes()); // dummy chunk offset
        box_with_body(b"stco", &body)
    };
    let stbl = {
        let mut body = Vec::new();
        for b in [&stsd, &stts, &stsc, &stsz, &stco] {
            body.extend_from_slice(b);
        }
        box_with_body(b"stbl", &body)
    };
    let dinf = {
        let dref_body = {
            let url = box_with_body(b"url ", &[0, 0, 0, 1]);
            let mut body = Vec::new();
            body.extend_from_slice(&[0, 0, 0, 0]);
            body.extend_from_slice(&1u32.to_be_bytes());
            body.extend_from_slice(&url);
            body
        };
        let dref = box_with_body(b"dref", &dref_body);
        box_with_body(b"dinf", &dref)
    };
    let minf = {
        let mut body = Vec::new();
        body.extend_from_slice(&dinf);
        body.extend_from_slice(&stbl);
        box_with_body(b"minf", &body)
    };
    let mdia = {
        let mut body = Vec::new();
        body.extend_from_slice(&mdhd);
        body.extend_from_slice(&hdlr);
        body.extend_from_slice(&minf);
        box_with_body(b"mdia", &body)
    };
    let tkhd = {
        let mut body = Vec::new();
        body.extend_from_slice(&[0, 0, 0, 0]);
        body.extend_from_slice(&0u32.to_be_bytes());
        body.extend_from_slice(&0u32.to_be_bytes());
        body.extend_from_slice(&1u32.to_be_bytes());
        body.extend_from_slice(&0u32.to_be_bytes());
        body.extend_from_slice(&1024u32.to_be_bytes());
        body.extend_from_slice(&[0u8; 8]);
        body.extend_from_slice(&0u16.to_be_bytes());
        body.extend_from_slice(&0u16.to_be_bytes());
        body.extend_from_slice(&(1u16 << 8).to_be_bytes()); // volume 1.0
        body.extend_from_slice(&0u16.to_be_bytes());
        body.extend_from_slice(&[0u8; 36]);
        body.extend_from_slice(&0u32.to_be_bytes());
        body.extend_from_slice(&0u32.to_be_bytes());
        box_with_body(b"tkhd", &body)
    };
    let trak = {
        let mut body = Vec::new();
        body.extend_from_slice(&tkhd);
        body.extend_from_slice(&mdia);
        box_with_body(b"trak", &body)
    };
    let mvhd = {
        let mut body = Vec::new();
        body.extend_from_slice(&[0, 0, 0, 0]);
        body.extend_from_slice(&0u32.to_be_bytes());
        body.extend_from_slice(&0u32.to_be_bytes());
        body.extend_from_slice(&48_000u32.to_be_bytes());
        body.extend_from_slice(&1024u32.to_be_bytes());
        body.extend_from_slice(&(1u32 << 16).to_be_bytes());
        body.extend_from_slice(&(1u16 << 8).to_be_bytes());
        body.extend_from_slice(&[0u8; 10]);
        body.extend_from_slice(&[0u8; 36]);
        body.extend_from_slice(&[0u8; 24]);
        body.extend_from_slice(&2u32.to_be_bytes());
        box_with_body(b"mvhd", &body)
    };
    let mut body = Vec::new();
    body.extend_from_slice(&mvhd);
    body.extend_from_slice(&trak);
    box_with_body(b"moov", &body)
}

#[test]
fn parses_minimal_aac_audio_track() {
    let moov = synth_minimal_aac_moov();
    let body = &moov[8..]; // strip outer moov header
    let track = parse_audio_track_from_moov(body).unwrap().unwrap();
    assert_eq!(track.codec, AudioCodec::Aac);
    assert_eq!(track.channel_count, 2);
    assert_eq!(track.sample_rate, 48_000);
    assert_eq!(track.timescale, 48_000);
    assert_eq!(track.duration, 1024);
    assert_eq!(track.codec_config, vec![0x11, 0x90]);
    assert_eq!(track.samples.len(), 1);
    assert_eq!(track.samples[0].duration, 1024);
}

#[test]
fn parse_audio_track_returns_none_when_moov_has_only_video() {
    let buf = synth_minimal_avc_mp4();
    let moov_pos = buf.windows(4).position(|w| w == b"moov").unwrap();
    let moov_size =
        u32::from_be_bytes(buf[moov_pos - 4..moov_pos].try_into().unwrap()) as usize;
    let moov_body = &buf[moov_pos + 4..moov_pos - 4 + moov_size];
    let track = parse_audio_track_from_moov(moov_body).unwrap();
    assert!(track.is_none());
}

fn refs(list: &[(u64, i32, bool)]) -> VideoTrack {
    VideoTrack {
        codec: VideoCodec::Avc,
        codec_config: vec![],
        width: 1,
        height: 1,
        timescale: 1000,
        duration: 0,
        samples: list
            .iter()
            .map(|&(dts, cts_offset, is_keyframe)| SampleRef {
                offset: 0,
                size: 0,
                dts,
                duration: 1,
                cts_offset,
                is_keyframe,
            })
            .collect(),
    }
}

#[test]
fn seeking_finds_the_next_sync_sample_or_the_last() {
    let t = refs(&[(0, 0, true), (10, 0, false), (20, 0, true), (30, 5, true), (40, 0, false)]);
    for (time, index) in [(0, 0), (1, 2), (20, 2), (21, 3), (35, 3), (36, 3), (u64::MAX, 3)] {
        assert_eq!(t.keyframe_index_for_time(time), Some(index));
    }
    assert_eq!(refs(&[(0, 0, false)]).keyframe_index_for_time(0), None);
    assert_eq!(refs(&[]).keyframe_index_for_time(0), None);
}

#[test]
fn presentation_times_saturate() {
    let t = refs(&[(5, -7, true), (5, 7, true), (u64::MAX, 1, true)]);
    let shown: Vec<u64> = t.samples.iter().map(|s| s.pts()).collect();
    assert_eq!(shown, [0, 12, u64::MAX]);
}

#[test]
fn unknown_sample_entries_are_named_in_quotes() {
    let mut b = synth_minimal_avc_mp4();
    let at = b.windows(4).position(|w| w == b"avc1").unwrap();
    b[at..at + 4].copy_from_slice(b"zz\"z");
    match parse_video_track(&b) {
        Err(IsobmffError::Heif(t)) => {
            assert!(t.contains("unsupported visual sample entry: \"zz\\\"z\""), "{t}");
        }
        _ => panic!("expected an error"),
    }
    b[at..at + 4].copy_from_slice(&[0xFF, 1, 2, 3]);
    match parse_video_track(&b) {
        Err(IsobmffError::Heif(t)) => {
            assert!(t.contains("unsupported visual sample entry: \"?\""), "{t}");
        }
        _ => panic!("expected an error"),
    }
}

#[test]
fn samples_are_decoded_in_turn_and_all_sync_without_a_table() {
    let b = synth_minimal_avc_mp4();
    let t = parse_video_track(&b).unwrap();
    for w in t.samples.windows(2) {
        assert_eq!(w[1].dts, w[0].dts + w[0].duration as u64);
    }
    let mut c = b.clone();
    let at = c.windows(4).position(|w| w == b"stss").unwrap();
    c[at..at + 4].copy_from_slice(b"free");
    let t = parse_video_track(&c).unwrap();
    assert!(t.samples.iter().all(|s| s.is_keyframe));
}

#[test]
fn files_without_a_movie_are_refused() {
    assert!(matches!(parse_video_track(&[]), Err(IsobmffError::Heif(_))));
    let b = box_with_body(b"moov", &[]);
    assert!(parse_video_track(&b).is_err());
    assert!(parse_audio_track(&b).unwrap().is_none());
}

#[test]
fn a_scan_walks_the_boxes_of_a_file() {
    let scan = |b: &[u8]| scan_header(b"moov", 40, b);
    assert_eq!(scan(&[0, 0, 0, 20, b'm', b'o', b'o', b'v']).unwrap(), Scan::Body(12));
    assert_eq!(scan(&[0, 0, 0, 20, b'f', b'r', b'e', b'e']).unwrap(), Scan::Skip(12));
    assert_eq!(scan(&[0, 0, 0, 0, b'm', b'd', b'a', b't']).unwrap(), Scan::End);
    assert_eq!(scan(&[0, 0, 0, 1, b'm', b'd', b'a', b't']).unwrap(), Scan::Wide);
    assert_eq!(
        scan_size(b"moov", b"mdat", 1 << 33, 16).unwrap(),
        Scan::Skip((1 << 33) - 16)
    );
    assert!(scan_size(b"moov", b"moov", 15, 16).is_err());
    match scan(&[]) {
        Err(IsobmffError::Heif(t)) => assert_eq!(t, "no \"moov\" box found in stream"),
        _ => panic!("expected an error"),
    }
    match scan(&[1, 2, 3]) {
        Err(IsobmffError::Heif(t)) => {
            assert_eq!(t, "short box header at file offset 40: got 3 bytes, need 8");
        }
        _ => panic!("expected an error"),
    }
}

#[test]
fn mp3_has_no_configuration() {
    let moov = synth_minimal_aac_moov();
    let esds = moov.windows(4).position(|w| w == b"esds").unwrap();
    let oti = esds + moov[esds..].iter().position(|b| *b == 0x40).unwrap();
    for kind in [0x69u8, 0x6B] {
        let mut mp3 = moov.clone();
        mp3[oti] = kind;
        let track = parse_audio_track_from_moov(&mp3[8..]).unwrap().unwrap();
        assert_eq!(track.codec, AudioCodec::Mp3);
        assert!(track.codec_config.is_empty());
        assert_eq!(track.channel_count, 2);
    }
}
