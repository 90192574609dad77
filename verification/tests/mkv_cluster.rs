use media_containers::mkv::cluster::{decode_block_header, Frames};
use media_containers::mkv::demux::Demuxer;
use media_containers::mkv::Error;

fn elem1(id: u8, payload: &[u8]) -> Vec<u8> {
    assert!(payload.len() < 0x80);
    let mut v = vec![id, 0x80 | payload.len() as u8];
    v.extend_from_slice(payload);
    v
}
fn elem_id2(id: u16, payload: &[u8]) -> Vec<u8> {
    let mut v = id.to_be_bytes().to_vec();
    v.push(0x80 | payload.len() as u8);
    v.extend_from_slice(payload);
    v
}
fn elem_id4(id: u32, payload: &[u8]) -> Vec<u8> {
    let mut v = id.to_be_bytes().to_vec();
    v.push(0x80 | payload.len() as u8);
    v.extend_from_slice(payload);
    v
}
fn uint_payload(v: u64) -> Vec<u8> {
    if v == 0 {
        return vec![0];
    }
    let mut buf = Vec::new();
    let mut started = false;
    for shift in (0..8).rev() {
        let b = ((v >> (shift * 8)) & 0xFF) as u8;
        if started || b != 0 {
            buf.push(b);
            started = true;
        }
    }
    buf
}

fn simple_block(track: u8, delta: i16, flags: u8, data: &[u8]) -> Vec<u8> {
    let mut body = Vec::new();
    body.push(0x80 | track); // 1-byte VINT
    body.extend_from_slice(&delta.to_be_bytes());
    body.push(flags);
    body.extend_from_slice(data);
    elem1(0xA3, &body)
}

#[test]
fn simple_block_round_trip() {
    let mut ebml_body = Vec::new();
    ebml_body.extend_from_slice(&elem_id2(0x4282, b"matroska"));
    let ebml = elem_id4(0x1A45DFA3, &ebml_body);

    let info_body = {
        let mut v = vec![0x2A, 0xD7, 0xB1, 0x83];
        v.extend_from_slice(&[0x0F, 0x42, 0x40]);
        v
    };
    let info = elem_id4(0x1549A966, &info_body);

    let mut entry = Vec::new();
    entry.extend_from_slice(&elem1(0xD7, &uint_payload(1)));
    entry.extend_from_slice(&elem1(0x83, &uint_payload(2)));
    entry.extend_from_slice(&elem1(0x86, b"A_OPUS"));
    let tracks = elem_id4(0x1654AE6B, &elem1(0xAE, &entry));

    let mut cluster_body = Vec::new();
    cluster_body.extend_from_slice(&elem1(0xE7, &uint_payload(10)));
    cluster_body.extend_from_slice(&simple_block(1, 5, 0x80, b"hello"));
    cluster_body.extend_from_slice(&simple_block(1, 20, 0x00, b"world!"));
    let cluster = elem_id4(0x1F43B675, &cluster_body);

    let mut segment_payload = Vec::new();
    segment_payload.extend_from_slice(&info);
    segment_payload.extend_from_slice(&tracks);
    segment_payload.extend_from_slice(&cluster);
    let segment = elem_id4(0x18538067, &segment_payload);

    let mut file = ebml;
    file.extend_from_slice(&segment);

    let d = Demuxer::parse(&file).unwrap();
    let mut frames = Frames::new(&file, &d);

    let f1 = frames.next_frame().unwrap().unwrap();
    assert_eq!(f1.track, 1);
    assert_eq!(f1.timestamp_ns, (10 + 5) * 1_000_000);
    assert_eq!(f1.is_keyframe, Some(true));
    assert_eq!(f1.data, b"hello");

    let f2 = frames.next_frame().unwrap().unwrap();
    assert_eq!(f2.track, 1);
    assert_eq!(f2.timestamp_ns, (10 + 20) * 1_000_000);
    assert_eq!(f2.is_keyframe, Some(false));
    assert_eq!(f2.data, b"world!");

    assert!(frames.next_frame().unwrap().is_none());
}

fn block(track: u8, delta: i16, flags: u8, data: &[u8]) -> Vec<u8> {
    let mut body = Vec::new();
    body.push(0x80 | track);
    body.extend_from_slice(&delta.to_be_bytes());
    body.push(flags);
    body.extend_from_slice(data);
    elem1(0xA1, &body)
}

fn reference_block(delta: i8) -> Vec<u8> {
    elem1(0xFB, &[delta as u8])
}

fn block_group(children: &[u8]) -> Vec<u8> {
    elem1(0xA0, children)
}

fn build_segment(cluster_body: &[u8]) -> Vec<u8> {
    let mut ebml_body = Vec::new();
    ebml_body.extend_from_slice(&elem_id2(0x4282, b"matroska"));
    let ebml = elem_id4(0x1A45DFA3, &ebml_body);

    let info_body = {
        let mut v = vec![0x2A, 0xD7, 0xB1, 0x83];
        v.extend_from_slice(&[0x0F, 0x42, 0x40]);
        v
    };
    let info = elem_id4(0x1549A966, &info_body);

    let mut entry = Vec::new();
    entry.extend_from_slice(&elem1(0xD7, &uint_payload(1)));
    entry.extend_from_slice(&elem1(0x83, &uint_payload(1))); // video
    entry.extend_from_slice(&elem1(0x86, b"V_VP9"));
    let tracks = elem_id4(0x1654AE6B, &elem1(0xAE, &entry));

    let cluster = elem_id4(0x1F43B675, cluster_body);

    let mut segment_payload = Vec::new();
    segment_payload.extend_from_slice(&info);
    segment_payload.extend_from_slice(&tracks);
    segment_payload.extend_from_slice(&cluster);
    let segment = elem_id4(0x18538067, &segment_payload);

    let mut file = ebml;
    file.extend_from_slice(&segment);
    file
}

#[test]
fn block_group_keyframe_inferred_from_reference_block_absence() {
    let mut cluster_body = Vec::new();
    cluster_body.extend_from_slice(&elem1(0xE7, &uint_payload(0)));
    cluster_body.extend_from_slice(&block_group(&block(1, 0, 0x00, b"key")));
    let mut children = Vec::new();
    children.extend_from_slice(&block(1, 10, 0x00, b"delta"));
    children.extend_from_slice(&reference_block(-10));
    cluster_body.extend_from_slice(&block_group(&children));

    let file = build_segment(&cluster_body);
    let d = Demuxer::parse(&file).unwrap();
    let mut frames = Frames::new(&file, &d);

    let f1 = frames.next_frame().unwrap().unwrap();
    assert_eq!(f1.data, b"key");
    assert_eq!(f1.is_keyframe, Some(true));
    assert_eq!(f1.is_discardable, None);

    let f2 = frames.next_frame().unwrap().unwrap();
    assert_eq!(f2.data, b"delta");
    assert_eq!(f2.is_keyframe, Some(false));
    assert_eq!(f2.is_discardable, None);

    assert!(frames.next_frame().unwrap().is_none());
}

#[test]
fn lacing_unsupported() {
    let mut body = Vec::new();
    body.push(0x81); // track 1
    body.extend_from_slice(&0i16.to_be_bytes());
    body.push(0x02); // lacing mode = Xiph
    body.push(0xAA);
    let block = elem1(0xA3, &body);

    let payload = &block[2..]; // skip id+size
    let err = decode_block_header(payload, true, 0, 1_000_000).unwrap_err();
    assert!(matches!(err, Error::Unsupported { .. }));
}

#[test]
fn a_cluster_of_unknown_size_ends_at_the_next() {
    let mut open = 0x1F43B675u32.to_be_bytes().to_vec();
    open.push(0xFF);
    open.extend_from_slice(&elem1(0xE7, &uint_payload(10)));
    open.extend_from_slice(&simple_block(1, 5, 0x80, b"a"));
    let mut second = elem1(0xE7, &uint_payload(100));
    second.extend_from_slice(&simple_block(1, 7, 0x00, b"b"));

    // The file with one known-size Cluster, its Cluster replaced by the two.
    let file = build_segment(&[]);
    let at = file.len() - 5;
    assert_eq!(&file[at..at + 4], &[0x1F, 0x43, 0xB6, 0x75]);
    let mut bytes = file[..at].to_vec();
    bytes.extend_from_slice(&open);
    bytes.extend_from_slice(&elem_id4(0x1F43B675, &second));
    // The Segment's size is one byte behind its four-byte ID.
    let seg = bytes
        .windows(4)
        .position(|w| w == [0x18, 0x53, 0x80, 0x67])
        .unwrap();
    bytes[seg + 4] = 0x80 | (bytes.len() - seg - 5) as u8;

    let d = Demuxer::parse(&bytes).unwrap();
    let mut frames = Frames::new(&bytes, &d);
    let a = frames.next_frame().unwrap().unwrap();
    assert_eq!((a.timestamp_ns, a.data), (15_000_000, &b"a"[..]));
    let b = frames.next_frame().unwrap().unwrap();
    assert_eq!((b.timestamp_ns, b.data), (107_000_000, &b"b"[..]));
    assert!(frames.next_frame().unwrap().is_none());
}
