use media_containers::mkv::demux::{Demuxer, TrackKind};
use media_containers::mkv::ebml::element::FloatBits;
use media_containers::mkv::profile::DocType;

fn value(f: FloatBits) -> f64 {
    match f {
        FloatBits::Single(b) => f32::from_bits(b) as f64,
        FloatBits::Double(b) => f64::from_bits(b),
    }
}

fn elem1(id: u8, payload: &[u8]) -> Vec<u8> {
    assert!(payload.len() < 0x80);
    let mut v = vec![id, 0x80 | payload.len() as u8];
    v.extend_from_slice(payload);
    v
}

fn elem_id4(id: u32, payload: &[u8]) -> Vec<u8> {
    assert!(payload.len() < 0x80);
    let mut v = id.to_be_bytes().to_vec();
    v.push(0x80 | payload.len() as u8);
    v.extend_from_slice(payload);
    v
}

fn elem_id2(id: u16, payload: &[u8]) -> Vec<u8> {
    assert!(payload.len() < 0x80);
    let mut v = id.to_be_bytes().to_vec();
    v.push(0x80 | payload.len() as u8);
    v.extend_from_slice(payload);
    v
}

#[test]
fn parses_minimal_webm_doctype() {
    let doc_type = elem_id2(0x4282, b"webm");
    let ebml = elem_id4(0x1A45DFA3, &doc_type);

    let ts_scale = {
        let mut v = vec![0x2A, 0xD7, 0xB1]; // TIMESTAMP_SCALE (3-byte VINT id)
        v.push(0x83); // size 3
        v.extend_from_slice(&[0x0F, 0x42, 0x40]); // 1_000_000
        v
    };
    let info = elem_id4(0x1549A966, &ts_scale);
    let tracks = elem_id4(0x1654AE6B, &[]);
    let mut segment_payload = Vec::new();
    segment_payload.extend_from_slice(&info);
    segment_payload.extend_from_slice(&tracks);
    let segment = elem_id4(0x18538067, &segment_payload);

    let mut file = Vec::new();
    file.extend_from_slice(&ebml);
    file.extend_from_slice(&segment);

    let d = Demuxer::parse(&file).unwrap();
    assert_eq!(d.doc_type, DocType::Webm);
    assert_eq!(d.timestamp_scale_ns, 1_000_000);
    assert!(d.tracks.is_empty());
}

#[test]
fn parses_audio_track() {
    let doc_type = elem_id2(0x4282, b"matroska");
    let ebml = elem_id4(0x1A45DFA3, &doc_type);

    let track_number = elem1(0xD7, &[0x01]);
    let track_type = elem1(0x83, &[0x02]);
    let codec_id = elem1(0x86, b"A_OPUS");
    let sf_bytes = 48000.0f32.to_be_bytes();
    let sf = elem1(0xB5, &sf_bytes);
    let channels = elem1(0x9F, &[0x02]);
    let mut audio_payload = Vec::new();
    audio_payload.extend_from_slice(&sf);
    audio_payload.extend_from_slice(&channels);
    let audio = elem1(0xE1, &audio_payload);

    let mut track_entry_payload = Vec::new();
    track_entry_payload.extend_from_slice(&track_number);
    track_entry_payload.extend_from_slice(&track_type);
    track_entry_payload.extend_from_slice(&codec_id);
    track_entry_payload.extend_from_slice(&audio);
    let track_entry = elem1(0xAE, &track_entry_payload);

    let tracks = elem_id4(0x1654AE6B, &track_entry);
    let segment = elem_id4(0x18538067, &tracks);

    let mut file = Vec::new();
    file.extend_from_slice(&ebml);
    file.extend_from_slice(&segment);

    let d = Demuxer::parse(&file).unwrap();
    assert_eq!(d.doc_type, DocType::Matroska);
    assert_eq!(d.tracks.len(), 1);
    let t = &d.tracks[0];
    assert_eq!(t.number, 1);
    assert_eq!(t.kind, TrackKind::Audio);
    assert_eq!(t.codec_id, "A_OPUS");
    let a = t.audio.as_ref().unwrap();
    assert_eq!(value(a.sampling_frequency) as u32, 48000);
    assert_eq!(a.channels, 2);
}
