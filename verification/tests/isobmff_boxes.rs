use media_containers::isobmff::boxes::{
    esds, u24, Atom, Audio, Avc1, AvcC, Btrt, Codec, Dfla, Dinf, Dops, Dref, Elst, ElstEntry,
    Encode, Esds, FixedPoint, Flac, FlacMetadataBlock, FourCC, Ftyp, FullBox, Hdlr, Matrix, Mdat,
    Mdhd, Mehd, Mfhd, Moof, Mvhd, Opus, Smhd, Stco, Stsc, StscEntry, Stsd, Stsz, StszSamples, Stts,
    SttsEntry, Styp, Tfdt, Tfhd, Tkhd, Traf, Trex, Trun, TrunEntry, Url, Visual,
};
use media_containers::isobmff::patches::{
    patch_dref_url_self_contained, patch_esds_descriptor_lengths, patch_tfhd_default_base_is_moof,
};
use media_containers::isobmff::IsobmffError;
use mp4_atom as oracle;

#[test]
fn ftyp_matches_mp4_atom() {
    let native = Ftyp {
        major_brand: b"avif".into(),
        minor_version: 0,
        compatible_brands: vec![b"avif".into(), b"mif1".into(), b"miaf".into()],
    };
    let oracle_val = oracle::Ftyp {
        major_brand: b"avif".into(),
        minor_version: 0,
        compatible_brands: vec![b"avif".into(), b"mif1".into(), b"miaf".into()],
    };
    let mut native_buf = Vec::new();
    native.encode(&mut native_buf).unwrap();
    let mut oracle_buf = Vec::new();
    oracle::Encode::encode(&oracle_val, &mut oracle_buf).unwrap();
    assert_eq!(native_buf, oracle_buf, "ftyp wire mismatch");
}

#[test]
fn styp_matches_mp4_atom() {
    let native = Styp {
        major_brand: b"msdh".into(),
        minor_version: 0,
        compatible_brands: vec![b"msdh".into(), b"msix".into()],
    };
    let oracle_val = oracle::Styp {
        major_brand: b"msdh".into(),
        minor_version: 0,
        compatible_brands: vec![b"msdh".into(), b"msix".into()],
    };
    let mut native_buf = Vec::new();
    native.encode(&mut native_buf).unwrap();
    let mut oracle_buf = Vec::new();
    oracle::Encode::encode(&oracle_val, &mut oracle_buf).unwrap();
    assert_eq!(native_buf, oracle_buf, "styp wire mismatch");
}

#[test]
fn mdat_matches_mp4_atom() {
    let payload = b"abcdefghijklmnopqrstuvwxyz".to_vec();
    let native = Mdat {
        data: payload.clone(),
    };
    let oracle_val = oracle::Mdat { data: payload };
    let mut native_buf = Vec::new();
    native.encode(&mut native_buf).unwrap();
    let mut oracle_buf = Vec::new();
    oracle::Encode::encode(&oracle_val, &mut oracle_buf).unwrap();
    assert_eq!(native_buf, oracle_buf, "mdat wire mismatch");
}

#[test]
fn mfhd_matches_mp4_atom() {
    let native = Mfhd { sequence_number: 7 };
    let oracle_val = oracle::Mfhd { sequence_number: 7 };
    let mut native_buf = Vec::new();
    native.encode(&mut native_buf).unwrap();
    let mut oracle_buf = Vec::new();
    oracle::Encode::encode(&oracle_val, &mut oracle_buf).unwrap();
    assert_eq!(native_buf, oracle_buf, "mfhd wire mismatch");
}

#[test]
fn ftyp_round_trips() {
    let original = Ftyp {
        major_brand: b"isom".into(),
        minor_version: 0,
        compatible_brands: vec![b"isom".into(), b"avif".into()],
    };
    let mut buf = Vec::new();
    original.encode(&mut buf).unwrap();
    let decoded = Ftyp::decode_body(&buf[8..]).unwrap();
    assert_eq!(decoded, original);
}

#[test]
fn mfhd_round_trips() {
    let original = Mfhd {
        sequence_number: 42,
    };
    let mut buf = Vec::new();
    original.encode(&mut buf).unwrap();
    let decoded = Mfhd::decode_full_body(0, 0, &buf[12..]).unwrap();
    assert_eq!(decoded, original);
}

#[test]
fn u24_round_trips() {
    let v = u24::try_from(0x123456u32).unwrap();
    let back: u32 = v.into();
    assert_eq!(back, 0x123456u32);
}

#[test]
fn u24_rejects_overflow() {
    assert!(u24::try_from(0x0100_0000u32).is_err());
}

#[test]
fn tfhd_matches_mp4_atom_with_default_base_is_moof_baked_in() {
    let native = Tfhd {
        track_id: 1,
        base_data_offset: None,
        sample_description_index: Some(1),
        default_sample_duration: Some(1024),
        default_sample_size: None,
        default_sample_flags: None,
    };
    let oracle_val = oracle::Tfhd {
        track_id: 1,
        base_data_offset: None,
        sample_description_index: Some(1),
        default_sample_duration: Some(1024),
        default_sample_size: None,
        default_sample_flags: None,
    };
    let mut native_buf = Vec::new();
    native.encode(&mut native_buf).unwrap();
    let mut oracle_buf = Vec::new();
    oracle::Encode::encode(&oracle_val, &mut oracle_buf).unwrap();
    patch_tfhd_default_base_is_moof(&mut oracle_buf);
    assert_eq!(
        native_buf, oracle_buf,
        "tfhd wire mismatch (with default_base_is_moof baked in)"
    );
}

#[test]
fn tfdt_matches_mp4_atom() {
    let native = Tfdt {
        base_media_decode_time: 48_000,
    };
    let oracle_val = oracle::Tfdt {
        base_media_decode_time: 48_000,
    };
    let mut native_buf = Vec::new();
    native.encode(&mut native_buf).unwrap();
    let mut oracle_buf = Vec::new();
    oracle::Encode::encode(&oracle_val, &mut oracle_buf).unwrap();
    assert_eq!(native_buf, oracle_buf, "tfdt wire mismatch");
}

#[test]
fn trun_v0_round_trip_single_sample() {
    let entries = vec![TrunEntry {
        duration: Some(1024),
        size: Some(256),
        flags: None,
        cts: None,
    }];
    let native = Trun {
        data_offset: Some(120),
        entries: entries.clone(),
    };
    let mut buf = Vec::new();
    native.encode(&mut buf).unwrap();
    assert_eq!(buf[8], 0, "expected trun v0 when cts absent");
    let body = &buf[8 + 4..];
    let decoded = Trun::decode_full_body(0, native.flags(), body).unwrap();
    assert_eq!(decoded.data_offset, Some(120));
    assert_eq!(decoded.entries, entries);
}

#[test]
fn trun_v0_round_trip_multiple_samples() {
    let entries = vec![
        TrunEntry {
            duration: Some(1024),
            size: Some(100),
            flags: None,
            cts: None,
        },
        TrunEntry {
            duration: Some(1024),
            size: Some(150),
            flags: None,
            cts: None,
        },
        TrunEntry {
            duration: Some(2048),
            size: Some(200),
            flags: None,
            cts: None,
        },
    ];
    let native = Trun {
        data_offset: Some(200),
        entries: entries.clone(),
    };
    let mut buf = Vec::new();
    native.encode(&mut buf).unwrap();
    assert_eq!(buf[8], 0, "expected trun v0 when cts absent");
    let body = &buf[8 + 4..];
    let decoded = Trun::decode_full_body(0, native.flags(), body).unwrap();
    assert_eq!(decoded.data_offset, Some(200));
    assert_eq!(decoded.entries, entries);
}

#[test]
fn trun_v1_when_negative_cts_present() {
    let native = Trun {
        data_offset: Some(120),
        entries: vec![
            TrunEntry {
                duration: Some(1024),
                size: Some(256),
                flags: None,
                cts: Some(0),
            },
            TrunEntry {
                duration: Some(1024),
                size: Some(256),
                flags: None,
                cts: Some(-3750),
            },
        ],
    };
    let mut buf = Vec::new();
    native.encode(&mut buf).unwrap();
    assert_eq!(buf[8], 1, "expected trun v1 when any cts < 0");
    let body = &buf[8 + 4..];
    let decoded = Trun::decode_full_body(1, native.flags(), body).unwrap();
    assert_eq!(decoded.entries[1].cts, Some(-3750));
}

#[test]
fn moof_emits_expected_box_shape() {
    let native = Moof {
        mfhd: Mfhd { sequence_number: 7 },
        traf: vec![Traf {
            tfhd: Tfhd {
                track_id: 1,
                base_data_offset: None,
                sample_description_index: Some(1),
                default_sample_duration: Some(1024),
                default_sample_size: None,
                default_sample_flags: None,
            },
            tfdt: Some(Tfdt {
                base_media_decode_time: 0,
            }),
            trun: vec![Trun {
                data_offset: Some(120),
                entries: vec![TrunEntry {
                    duration: Some(1024),
                    size: Some(256),
                    flags: None,
                    cts: None,
                }],
            }],
        }],
    };
    let mut buf = Vec::new();
    native.encode(&mut buf).unwrap();
    assert_eq!(&buf[4..8], b"moof");
    assert_eq!(&buf[12..16], b"mfhd");
    let traf_pos = buf.windows(4).position(|w| w == b"traf").expect("traf");
    let traf_body_start = traf_pos + 4;
    let traf_body = &buf[traf_body_start..];
    let tfhd_off = traf_body.windows(4).position(|w| w == b"tfhd").unwrap();
    let tfdt_off = traf_body.windows(4).position(|w| w == b"tfdt").unwrap();
    let trun_off = traf_body.windows(4).position(|w| w == b"trun").unwrap();
    assert!(
        tfhd_off < tfdt_off && tfdt_off < trun_off,
        "traf child order"
    );
    let tfhd_flags_off = traf_body_start + tfhd_off + 4 /* fourcc */
        + 1 /* version */;
    let flags = u32::from_be_bytes([
        0,
        buf[tfhd_flags_off],
        buf[tfhd_flags_off + 1],
        buf[tfhd_flags_off + 2],
    ]);
    assert_eq!(
        flags & 0x020000,
        0x020000,
        "default_base_is_moof must be set"
    );
}

#[test]
fn mvhd_emits_v0_when_fields_fit() {
    let native = Mvhd {
        creation_time: 100,
        modification_time: 200,
        timescale: 48000,
        duration: 12345,
        rate: FixedPoint::new(1u16, 0),
        volume: FixedPoint::new(1u8, 0),
        matrix: Matrix::default(),
        next_track_id: 2,
    };
    let mut buf = Vec::new();
    native.encode(&mut buf).unwrap();
    assert_eq!(&buf[4..8], b"mvhd");
    assert_eq!(buf[8], 0, "mvhd v0 expected when ts ≤ u32::MAX");
    let body_start = 12; // 8B header + 4B ver/flags
    assert_eq!(
        u32::from_be_bytes(buf[body_start..body_start + 4].try_into().unwrap()),
        100
    );
    assert_eq!(
        u32::from_be_bytes(buf[body_start + 4..body_start + 8].try_into().unwrap()),
        200
    );
    assert_eq!(
        u32::from_be_bytes(buf[body_start + 8..body_start + 12].try_into().unwrap()),
        48000
    );
    assert_eq!(
        u32::from_be_bytes(buf[body_start + 12..body_start + 16].try_into().unwrap()),
        12345
    );
}

#[test]
fn mvhd_emits_v1_when_duration_exceeds_u32() {
    let native = Mvhd {
        creation_time: 0,
        modification_time: 0,
        timescale: 48000,
        duration: u32::MAX as u64 + 1,
        rate: FixedPoint::new(1u16, 0),
        volume: FixedPoint::new(1u8, 0),
        matrix: Matrix::default(),
        next_track_id: 2,
    };
    let mut buf = Vec::new();
    native.encode(&mut buf).unwrap();
    assert_eq!(buf[8], 1, "mvhd v1 expected when duration > u32::MAX");
}

#[test]
fn tkhd_emits_v0_when_fields_fit_with_flags_baked_in() {
    let native = Tkhd {
        creation_time: 0,
        modification_time: 0,
        track_id: 1,
        duration: 12345,
        layer: 0,
        alternate_group: 0,
        volume: FixedPoint::new(1u8, 0),
        matrix: Matrix::default(),
        width: FixedPoint::default(),
        height: FixedPoint::default(),
    };
    let mut buf = Vec::new();
    native.encode(&mut buf).unwrap();
    assert_eq!(&buf[4..8], b"tkhd");
    assert_eq!(buf[8], 0, "tkhd v0 expected when fields fit");
    let flags = u32::from_be_bytes([0, buf[9], buf[10], buf[11]]);
    assert_eq!(
        flags & 0x000003,
        0x000003,
        "tkhd flags must include enabled+in_movie"
    );
}

#[test]
fn trex_matches_mp4_atom() {
    let native = Trex {
        track_id: 1,
        default_sample_description_index: 1,
        default_sample_duration: 1024,
        default_sample_size: 0,
        default_sample_flags: 0x010_000,
    };
    let oracle_val = oracle::Trex {
        track_id: 1,
        default_sample_description_index: 1,
        default_sample_duration: 1024,
        default_sample_size: 0,
        default_sample_flags: 0x010_000,
    };
    let mut native_buf = Vec::new();
    native.encode(&mut native_buf).unwrap();
    let mut oracle_buf = Vec::new();
    oracle::Encode::encode(&oracle_val, &mut oracle_buf).unwrap();
    assert_eq!(native_buf, oracle_buf, "trex wire mismatch");
}

#[test]
fn elst_matches_mp4_atom() {
    let native = Elst {
        entries: vec![ElstEntry {
            segment_duration: 12345,
            media_time: 0,
            media_rate: 1,
            media_rate_fraction: 0,
        }],
    };
    let oracle_val = oracle::Elst {
        entries: vec![oracle::ElstEntry {
            segment_duration: 12345,
            media_time: 0,
            media_rate: 1,
            media_rate_fraction: 0,
        }],
    };
    let mut native_buf = Vec::new();
    native.encode(&mut native_buf).unwrap();
    let mut oracle_buf = Vec::new();
    oracle::Encode::encode(&oracle_val, &mut oracle_buf).unwrap();
    assert_eq!(native_buf, oracle_buf, "elst wire mismatch");
}

#[test]
fn mdhd_emits_v0_when_fields_fit() {
    let native = Mdhd {
        creation_time: 100,
        modification_time: 200,
        timescale: 48000,
        duration: 30439936,
        language: "und".to_string(),
    };
    let mut buf = Vec::new();
    native.encode(&mut buf).unwrap();
    assert_eq!(&buf[4..8], b"mdhd");
    assert_eq!(buf[8], 0, "mdhd v0 expected when fields fit");
    let body_start = 12;
    assert_eq!(
        u32::from_be_bytes(buf[body_start..body_start + 4].try_into().unwrap()),
        100
    );
    assert_eq!(
        u32::from_be_bytes(buf[body_start + 4..body_start + 8].try_into().unwrap()),
        200
    );
    assert_eq!(
        u32::from_be_bytes(buf[body_start + 8..body_start + 12].try_into().unwrap()),
        48000
    );
    assert_eq!(
        u32::from_be_bytes(buf[body_start + 12..body_start + 16].try_into().unwrap()),
        30439936
    );
}

#[test]
fn hdlr_matches_mp4_atom() {
    let native = Hdlr {
        handler: FourCC::new(b"soun"),
        name: "SoundHandler".to_string(),
    };
    let oracle_val = oracle::Hdlr {
        handler: b"soun".into(),
        name: "SoundHandler".to_string(),
    };
    let mut native_buf = Vec::new();
    native.encode(&mut native_buf).unwrap();
    let mut oracle_buf = Vec::new();
    oracle::Encode::encode(&oracle_val, &mut oracle_buf).unwrap();
    assert_eq!(native_buf, oracle_buf, "hdlr wire mismatch");
}

#[test]
fn smhd_matches_mp4_atom() {
    let native = Smhd {
        balance: FixedPoint::new(0i8, 0),
    };
    let oracle_val = oracle::Smhd {
        balance: oracle::FixedPoint::new(0i8, 0),
    };
    let mut native_buf = Vec::new();
    native.encode(&mut native_buf).unwrap();
    let mut oracle_buf = Vec::new();
    oracle::Encode::encode(&oracle_val, &mut oracle_buf).unwrap();
    assert_eq!(native_buf, oracle_buf, "smhd wire mismatch");
}

#[test]
fn dinf_matches_mp4_atom_with_url_self_contained_baked_in() {
    let native = Dinf {
        dref: Dref {
            urls: vec![Url {
                location: String::new(),
            }],
        },
    };
    let oracle_val = oracle::Dinf {
        dref: oracle::Dref {
            urls: vec![oracle::Url {
                location: String::new(),
            }],
        },
    };
    let mut native_buf = Vec::new();
    native.encode(&mut native_buf).unwrap();
    let mut oracle_buf = Vec::new();
    oracle::Encode::encode(&oracle_val, &mut oracle_buf).unwrap();
    patch_dref_url_self_contained(&mut oracle_buf);
    assert_eq!(
        native_buf, oracle_buf,
        "dinf+dref+url wire mismatch (with self_contained baked in)"
    );
}

#[test]
fn stts_matches_mp4_atom() {
    let native = Stts {
        entries: vec![SttsEntry {
            sample_count: 100,
            sample_delta: 1024,
        }],
    };
    let oracle_val = oracle::Stts {
        entries: vec![oracle::SttsEntry {
            sample_count: 100,
            sample_delta: 1024,
        }],
    };
    let mut native_buf = Vec::new();
    native.encode(&mut native_buf).unwrap();
    let mut oracle_buf = Vec::new();
    oracle::Encode::encode(&oracle_val, &mut oracle_buf).unwrap();
    assert_eq!(native_buf, oracle_buf, "stts wire mismatch");
}

#[test]
fn stsc_matches_mp4_atom() {
    let native = Stsc {
        entries: vec![StscEntry {
            first_chunk: 1,
            samples_per_chunk: 1,
            sample_description_index: 1,
        }],
    };
    let oracle_val = oracle::Stsc {
        entries: vec![oracle::StscEntry {
            first_chunk: 1,
            samples_per_chunk: 1,
            sample_description_index: 1,
        }],
    };
    let mut native_buf = Vec::new();
    native.encode(&mut native_buf).unwrap();
    let mut oracle_buf = Vec::new();
    oracle::Encode::encode(&oracle_val, &mut oracle_buf).unwrap();
    assert_eq!(native_buf, oracle_buf, "stsc wire mismatch");
}

#[test]
fn stsz_matches_mp4_atom_identical_and_different() {
    let native = Stsz {
        samples: StszSamples::Identical {
            count: 4,
            size: 1024,
        },
    };
    let oracle_val = oracle::Stsz {
        samples: oracle::StszSamples::Identical {
            count: 4,
            size: 1024,
        },
    };
    let mut native_buf = Vec::new();
    native.encode(&mut native_buf).unwrap();
    let mut oracle_buf = Vec::new();
    oracle::Encode::encode(&oracle_val, &mut oracle_buf).unwrap();
    assert_eq!(native_buf, oracle_buf, "stsz identical wire mismatch");

    let native = Stsz {
        samples: StszSamples::Different {
            sizes: vec![100, 200, 300],
        },
    };
    let oracle_val = oracle::Stsz {
        samples: oracle::StszSamples::Different {
            sizes: vec![100, 200, 300],
        },
    };
    let mut native_buf = Vec::new();
    native.encode(&mut native_buf).unwrap();
    let mut oracle_buf = Vec::new();
    oracle::Encode::encode(&oracle_val, &mut oracle_buf).unwrap();
    assert_eq!(native_buf, oracle_buf, "stsz different wire mismatch");
}

#[test]
fn stco_matches_mp4_atom() {
    let native = Stco {
        entries: vec![100, 200, 300],
    };
    let oracle_val = oracle::Stco {
        entries: vec![100, 200, 300],
    };
    let mut native_buf = Vec::new();
    native.encode(&mut native_buf).unwrap();
    let mut oracle_buf = Vec::new();
    oracle::Encode::encode(&oracle_val, &mut oracle_buf).unwrap();
    assert_eq!(native_buf, oracle_buf, "stco wire mismatch");
}

#[test]
fn btrt_matches_mp4_atom() {
    let native = Btrt {
        buffer_size_db: 1024,
        max_bitrate: 192_000,
        avg_bitrate: 128_000,
    };
    let oracle_val = oracle::Btrt {
        buffer_size_db: 1024,
        max_bitrate: 192_000,
        avg_bitrate: 128_000,
    };
    let mut native_buf = Vec::new();
    native.encode(&mut native_buf).unwrap();
    let mut oracle_buf = Vec::new();
    oracle::Encode::encode(&oracle_val, &mut oracle_buf).unwrap();
    assert_eq!(native_buf, oracle_buf, "btrt wire mismatch");
}

#[test]
fn opus_matches_mp4_atom() {
    let native = Opus {
        audio: Audio {
            data_reference_index: 1,
            channel_count: 2,
            sample_size: 16,
            sample_rate: FixedPoint::new(48000u16, 0),
        },
        dops: Dops {
            output_channel_count: 2,
            pre_skip: 312,
            input_sample_rate: 48000,
            output_gain: 0,
        },
        btrt: None,
    };
    let oracle_val = oracle::Opus {
        audio: oracle::Audio {
            data_reference_index: 1,
            channel_count: 2,
            sample_size: 16,
            sample_rate: oracle::FixedPoint::new(48000u16, 0),
        },
        dops: oracle::Dops {
            output_channel_count: 2,
            pre_skip: 312,
            input_sample_rate: 48000,
            output_gain: 0,
        },
        btrt: None,
    };
    let mut native_buf = Vec::new();
    native.encode(&mut native_buf).unwrap();
    let mut oracle_buf = Vec::new();
    oracle::Encode::encode(&oracle_val, &mut oracle_buf).unwrap();
    assert_eq!(native_buf, oracle_buf, "Opus wire mismatch");
}

#[test]
fn flac_matches_mp4_atom_streaminfo_only() {
    let md5: Vec<u8> = vec![0u8; 16];
    let native = Flac {
        audio: Audio {
            data_reference_index: 1,
            channel_count: 2,
            sample_size: 16,
            sample_rate: FixedPoint::new(44100u16, 0),
        },
        dfla: Dfla {
            blocks: vec![FlacMetadataBlock::StreamInfo {
                minimum_block_size: 4608,
                maximum_block_size: 4608,
                minimum_frame_size: 16,
                maximum_frame_size: 9102,
                sample_rate: 44100,
                num_channels_minus_one: 1,
                bits_per_sample_minus_one: 15,
                number_of_interchannel_samples: 120832,
                md5_checksum: md5.clone(),
            }],
        },
    };
    let oracle_val = oracle::Flac {
        audio: oracle::Audio {
            data_reference_index: 1,
            channel_count: 2,
            sample_size: 16,
            sample_rate: oracle::FixedPoint::new(44100u16, 0),
        },
        dfla: oracle::Dfla {
            blocks: vec![oracle::FlacMetadataBlock::StreamInfo {
                minimum_block_size: 4608,
                maximum_block_size: 4608,
                minimum_frame_size: 16u32.try_into().unwrap(),
                maximum_frame_size: 9102u32.try_into().unwrap(),
                sample_rate: 44100,
                num_channels_minus_one: 1,
                bits_per_sample_minus_one: 15,
                number_of_interchannel_samples: 120832,
                md5_checksum: md5,
            }],
        },
    };
    let mut native_buf = Vec::new();
    native.encode(&mut native_buf).unwrap();
    let mut oracle_buf = Vec::new();
    oracle::Encode::encode(&oracle_val, &mut oracle_buf).unwrap();
    assert_eq!(native_buf, oracle_buf, "Flac wire mismatch");
}

#[test]
fn esds_matches_mp4_atom_with_expandable_lengths_baked_in() {
    let asc = &[0x12, 0x10];
    let native = Esds {
        es_desc: esds::EsDescriptor {
            es_id: 1,
            dec_config: esds::DecoderConfig {
                object_type_indication: 0x40,
                stream_type: 0x05,
                up_stream: 0,
                buffer_size_db: 0,
                max_bitrate: 0,
                avg_bitrate: 0,
                dec_specific: esds::DecoderSpecific {
                    profile: 2,
                    freq_index: 4,
                    chan_conf: 2,
                },
            },
            sl_config: esds::SLConfig,
        },
    };
    let oracle_val = oracle::Esds {
        es_desc: oracle::esds::EsDescriptor {
            es_id: 1,
            dec_config: oracle::esds::DecoderConfig {
                object_type_indication: 0x40,
                stream_type: 0x05,
                up_stream: 0,
                buffer_size_db: Default::default(),
                max_bitrate: 0,
                avg_bitrate: 0,
                dec_specific: oracle::esds::DecoderSpecific {
                    profile: 2,
                    freq_index: 4,
                    chan_conf: 2,
                },
            },
            sl_config: oracle::esds::SLConfig::default(),
        },
    };
    let mut native_buf = Vec::new();
    native.encode(&mut native_buf).unwrap();
    let mut oracle_compact = Vec::new();
    oracle::Encode::encode(&oracle_val, &mut oracle_compact).unwrap();
    let mut oracle_expandable = oracle_compact;
    patch_esds_descriptor_lengths(&mut oracle_expandable, asc);
    assert_eq!(
        native_buf, oracle_expandable,
        "esds wire mismatch (with expandable lengths baked in)"
    );
}

#[test]
fn stsd_with_unknown_alac_encodes_as_size_plus_fourcc() {
    let native = Stsd {
        codecs: vec![Codec::Unknown(FourCC::new(b"alac"))],
    };
    let mut buf = Vec::new();
    native.encode(&mut buf).unwrap();
    assert_eq!(&buf[..4], &24u32.to_be_bytes()); // total stsd = 24
    assert_eq!(&buf[4..8], b"stsd");
    assert_eq!(&buf[8..12], &[0, 0, 0, 0]); // version+flags
    assert_eq!(&buf[12..16], &1u32.to_be_bytes()); // count
    assert_eq!(&buf[16..20], &8u32.to_be_bytes()); // child size
    assert_eq!(&buf[20..24], b"alac");
}

#[test]
fn fourcc_round_trips_through_u32() {
    let cc = FourCC::new(b"hvc1");
    let n: u32 = cc.into();
    let back = FourCC::from(n);
    assert_eq!(cc, back);
}

#[test]
fn avcc_wraps_configuration_record_as_avcc_box() {
    let cfg = vec![1u8, 42, 0, 30, 0xFF, 0xE1, 0, 0, 0x01, 0, 0];
    let native = AvcC {
        configuration_record: cfg.clone(),
    };
    let mut buf = Vec::new();
    native.encode(&mut buf).unwrap();
    assert_eq!(&buf[..4], &19u32.to_be_bytes());
    assert_eq!(&buf[4..8], b"avcC");
    assert_eq!(&buf[8..], &cfg[..]);
}

#[test]
fn avc1_carries_visual_header_then_avcc_then_optional_btrt() {
    let cfg = vec![1u8, 42, 0, 30, 0xFF, 0xE1, 0, 0, 0x01, 0, 0];
    let native = Codec::Avc1(Avc1 {
        visual: Visual {
            data_reference_index: 1,
            width: 1920,
            height: 1080,
        },
        avcc: AvcC {
            configuration_record: cfg.clone(),
        },
        pasp: None,
        btrt: None,
    });
    let stsd = Stsd {
        codecs: vec![native],
    };
    let mut buf = Vec::new();
    stsd.encode(&mut buf).unwrap();
    assert_eq!(&buf[4..8], b"stsd");
    assert_eq!(&buf[20..24], b"avc1");
    assert_eq!(&buf[102..106], &19u32.to_be_bytes()); // avcC size
    assert_eq!(&buf[106..110], b"avcC");
    assert_eq!(&buf[110..121], &cfg[..]);
    assert_eq!(&buf[48..50], &1920u16.to_be_bytes());
    assert_eq!(&buf[50..52], &1080u16.to_be_bytes());
}

fn body<E: Encode>(b: &E, header: usize) -> Vec<u8> {
    let mut buf = Vec::new();
    b.encode(&mut buf).unwrap();
    assert_eq!(buf.len() as u32, u32::from_be_bytes(buf[..4].try_into().unwrap()));
    buf.split_off(header)
}

#[test]
fn written_boxes_read_back() {
    let styp = Styp {
        major_brand: b"msdh".into(),
        minor_version: 7,
        compatible_brands: vec![b"msdh".into()],
    };
    assert_eq!(Styp::decode_body(&body(&styp, 8)).unwrap(), styp);
    let mdat = Mdat {
        data: b"payload".to_vec(),
    };
    assert_eq!(Mdat::decode_body(&body(&mdat, 8)).unwrap(), mdat);
    for n in [0, 1, u32::MAX as u64, u32::MAX as u64 + 1, u64::MAX] {
        let tfdt = Tfdt {
            base_media_decode_time: n,
        };
        let b = body(&tfdt, 12);
        let back = Tfdt::decode_full_body(tfdt.version(), tfdt.flags(), &b).unwrap();
        assert_eq!(back, tfdt);
        let mehd = Mehd {
            fragment_duration: n,
        };
        let b = body(&mehd, 12);
        let back = Mehd::decode_full_body(mehd.version(), mehd.flags(), &b).unwrap();
        assert_eq!(back, mehd);
    }
    for bits in 0..32u32 {
        let pick = |i: u32| {
            if bits >> i & 1 == 1 {
                Some(1000 + i)
            } else {
                None
            }
        };
        let tfhd = Tfhd {
            track_id: 9,
            base_data_offset: pick(0).map(|n| n as u64 + (1 << 40)),
            sample_description_index: pick(1),
            default_sample_duration: pick(2),
            default_sample_size: pick(3),
            default_sample_flags: pick(4),
        };
        let b = body(&tfhd, 12);
        let back = Tfhd::decode_full_body(tfhd.version(), tfhd.flags(), &b).unwrap();
        assert_eq!(back, tfhd);
    }
}

#[test]
fn short_and_written_only_boxes_are_refused() {
    assert!(matches!(
        Mfhd::decode_full_body(0, 0, &[0, 0]),
        Err(IsobmffError::Malformed(_))
    ));
    match Mvhd::decode_full_body(0, 0, &[]) {
        Err(IsobmffError::Malformed(t)) => assert_eq!(t, "Mvhd decode not implemented"),
        _ => panic!("expected an error"),
    }
}

#[test]
fn codes_and_numbers_stand_for_each_other() {
    for n in [0, 1, 0x6D6F_6F76, u32::MAX] {
        let back: u32 = FourCC::from(n).into();
        assert_eq!(back, n);
    }
    assert_eq!(FourCC::from(0x6D6F_6F76), FourCC::new(b"moov"));
    let f: FixedPoint<u8> = FixedPoint::new(1, 128);
    assert_eq!((f.integer(), f.decimal()), (1, 128));
}

#[test]
fn errors_and_codes_have_a_text() {
    for (e, text) in [
        (IsobmffError::Malformed("x".to_owned()), "malformed box: x"),
        (IsobmffError::Unsupported("x".to_owned()), "unsupported box variant: x"),
        (IsobmffError::MissingBox("moov"), "required box missing: moov"),
        (IsobmffError::Heif("x".to_owned()), "heif: x"),
    ] {
        assert_eq!(e.message(), text);
    }
    assert_eq!(FourCC::new(b"moov").text(), "moov");
    assert_eq!(FourCC::new(&[b'a', 0xFF, b'b', b'c']).text(), "a\u{FFFD}bc");
}

#[test]
fn flac_blocks_without_a_body_leave_no_trace() {
    let comment = || FlacMetadataBlock::VorbisComment {
        vendor_string: "v".to_owned(),
        comments: vec!["a=b".to_owned()],
    };
    let mut plain = Vec::new();
    Dfla {
        blocks: vec![comment()],
    }
    .encode(&mut plain)
    .unwrap();
    let mut mixed = Vec::new();
    Dfla {
        blocks: vec![
            FlacMetadataBlock::Padding,
            FlacMetadataBlock::Application,
            FlacMetadataBlock::SeekTable,
            FlacMetadataBlock::CueSheet,
            FlacMetadataBlock::Picture,
            FlacMetadataBlock::Reserved,
            FlacMetadataBlock::Forbidden,
            comment(),
        ],
    }
    .encode(&mut mixed)
    .unwrap();
    assert_eq!(mixed, plain);
    assert_eq!(&plain[4..8], b"dfLa");
    assert_eq!(plain[12], 0x84);
    let mut none = Vec::new();
    Dfla {
        blocks: vec![FlacMetadataBlock::Padding],
    }
    .encode(&mut none)
    .unwrap();
    assert_eq!(none, [0, 0, 0, 12, b'd', b'f', b'L', b'a', 0, 0, 0, 0]);
}
