use media_containers::mkv::cluster::Frames;
use media_containers::mkv::demux::Demuxer;
use media_containers::mkv::ebml::element::Reader;
use media_containers::mkv::ebml::schema::{codec_id, ids};
use media_containers::mkv::ebml::writer::{
    open_master_unknown_size, write_ascii, write_element, write_master, write_uint, write_utf8,
};
use media_containers::mkv::mux::{Muxer, TrackDescriptor, TIMESTAMP_SCALE_NS};
use media_containers::mkv::profile::DocType;
use media_containers::mkv::streaming::bounded::{
    validate_metadata, IoHeader, ReadBudget, StreamingLimits, WalkBudget,
};
use media_containers::mkv::streaming::open::{OpenAsk, Opener};
use media_containers::mkv::streaming::walk::{WalkAsk, Walker};
use media_containers::mkv::streaming::{decode_header, header_missing, FrameHeader};
use media_containers::mkv::Error;
use std::io::{Cursor, Read, Seek, SeekFrom, Write};

struct Stream<R> {
    reader: R,
    walker: Walker,
}

fn read_header<R: Read + Seek>(reader: &mut R) -> Result<IoHeader, Error> {
    let at = reader.stream_position().unwrap();
    let mut buf = Vec::new();
    loop {
        let n = header_missing(&buf)?;
        if n == 0 {
            return decode_header(&buf, at);
        }
        let mut piece = vec![0; n];
        if reader.read_exact(&mut piece).is_err() {
            return Err(Error::UnexpectedEof("element header"));
        }
        buf.extend(piece);
    }
}

fn open_streaming_with_limits<R: Read + Seek>(
    mut reader: R,
    limits: StreamingLimits,
) -> Result<Stream<R>, Error> {
    let len = reader.seek(SeekFrom::End(0)).unwrap();
    let (mut opener, mut ask) = Opener::new(len, limits)?;
    loop {
        ask = match ask {
            OpenAsk::Header(at) => {
                reader.seek(SeekFrom::Start(at)).unwrap();
                let h = read_header(&mut reader)?;
                opener.header(&h)?
            }
            OpenAsk::Metadata { at, len } => {
                reader.seek(SeekFrom::Start(at)).unwrap();
                let mut b = vec![0; len];
                reader.read_exact(&mut b).unwrap();
                opener.metadata(&b)?
            }
            OpenAsk::Done => break,
        };
    }
    let (demuxer, budget) = opener.into_parts();
    Ok(Stream { reader, walker: Walker::new(demuxer, budget, len) })
}

impl<R: Read + Seek> Stream<R> {
    fn demuxer(&self) -> &Demuxer {
        self.walker.demuxer()
    }

    fn set_track_filter(&mut self, tracks: Option<Vec<u64>>) {
        self.walker.set_track_filter(tracks);
    }

    fn next_frame_into(&mut self, out: &mut dyn Write) -> Result<Option<FrameHeader>, Error> {
        let mut last = Vec::new();
        let mut ask = self.walker.begin();
        loop {
            ask = match ask {
                WalkAsk::HeaderAt(at) => {
                    self.reader.seek(SeekFrom::Start(at)).unwrap();
                    let h = read_header(&mut self.reader)?;
                    self.walker.header(&h)?
                }
                WalkAsk::Header => {
                    let h = read_header(&mut self.reader)?;
                    self.walker.header(&h)?
                }
                WalkAsk::Bytes(n) => {
                    last = vec![0; n];
                    self.reader.read_exact(&mut last).unwrap();
                    self.walker.bytes(&last)?
                }
                WalkAsk::Skip(n) | WalkAsk::SkipBlock(n) => {
                    self.reader.seek(SeekFrom::Current(n as i64)).unwrap();
                    self.walker.done()?
                }
                WalkAsk::Copy { from, rest } => {
                    out.write_all(&last[from..]).unwrap();
                    let copied = std::io::copy(&mut self.reader.by_ref().take(rest), out).unwrap();
                    if copied != rest {
                        return Err(Error::UnexpectedEof("frame data short read"));
                    }
                    self.walker.done()?
                }
                WalkAsk::Length => {
                    let len = self.reader.seek(SeekFrom::End(0)).unwrap();
                    self.walker.length(len)?
                }
                WalkAsk::Frame(h) => return Ok(Some(h)),
                WalkAsk::End => return Ok(None),
            };
        }
    }
}

fn mapping(kind: u64, extra: &[u8]) -> Vec<u8> {
    let mut body = Vec::new();
    write_uint(ids::BLOCK_ADD_ID_TYPE, kind, &mut body);
    write_element(ids::BLOCK_ADD_ID_EXTRA_DATA, extra, &mut body);
    let mut out = Vec::new();
    write_master(ids::BLOCK_ADDITION_MAPPING, &body, &mut out);
    out
}
fn entry(kind: u64, extra: &[u8]) -> Vec<u8> {
    let mut out = extra.to_vec();
    write_uint(ids::TRACK_TYPE, kind, &mut out);
    out
}
fn check(bytes: &[u8], parent: u64) -> Result<(), Error> {
    validate_metadata(bytes, parent, &mut WalkBudget { elements: 1000 })
}
#[test]
fn repeated_video_mapping_family_is_order_independent_but_subtitle_extensions_fail() {
    let mut maps = mapping(u32::from_be_bytes(*b"dvcC") as u64, &[0; 24]);
    maps.extend(mapping(u32::from_be_bytes(*b"hvcE") as u64, &[0; 187]));
    assert!(check(&entry(1, &maps), ids::TRACK_ENTRY).is_ok());
    let mut before = entry(1, &[]);
    before.extend(&maps);
    assert!(check(&before, ids::TRACK_ENTRY).is_ok());
    for kind in [2, 17, 0, 257] {
        assert!(check(&entry(kind, &maps), ids::TRACK_ENTRY).is_err());
    }
    assert!(check(&maps, ids::TRACK_ENTRY).is_err());
    for value in [0, 1, u64::MAX] {
        let mut b = Vec::new();
        write_uint(ids::MAX_BLOCK_ADDITION_ID, value, &mut b);
        assert!(check(&entry(1, &b), ids::TRACK_ENTRY).is_ok());
        assert_eq!(check(&entry(17, &b), ids::TRACK_ENTRY).is_ok(), value == 0);
    }
}
#[test]
fn mapping_scalar_widths_names_and_duplicate_children_are_validated() {
    for width in 0..=9 {
        let mut b = Vec::new();
        write_element(ids::BLOCK_ADD_ID_TYPE, &vec![0xff; width], &mut b);
        assert_eq!(check(&b, ids::BLOCK_ADDITION_MAPPING).is_ok(), width <= 8);
        let mut max = Vec::new();
        write_element(ids::MAX_BLOCK_ADDITION_ID, &vec![0xff; width], &mut max);
        assert_eq!(check(&entry(1, &max), ids::TRACK_ENTRY).is_ok(), width <= 8);
    }
    for value in [0, 1, 2, u64::MAX] {
        let mut b = Vec::new();
        write_uint(ids::BLOCK_ADD_ID_VALUE, value, &mut b);
        assert_eq!(check(&b, ids::BLOCK_ADDITION_MAPPING).is_ok(), value >= 2);
    }
    let mut b = Vec::new();
    write_element(ids::BLOCK_ADD_ID_VALUE, &[1; 9], &mut b);
    assert!(check(&b, ids::BLOCK_ADDITION_MAPPING).is_err());
    for name in [
        b"HDR config".as_slice(),
        b"",
        b"bad\nname",
        b"\xff",
        b"\x7f",
    ] {
        let mut b = Vec::new();
        write_element(ids::BLOCK_ADD_ID_NAME, name, &mut b);
        assert_eq!(
            check(&b, ids::BLOCK_ADDITION_MAPPING).is_ok(),
            name.iter().all(|b| (0x20..=0x7e).contains(b))
        );
    }
    for id in [
        ids::BLOCK_ADD_ID_VALUE,
        ids::BLOCK_ADD_ID_TYPE,
        ids::BLOCK_ADD_ID_NAME,
        ids::BLOCK_ADD_ID_EXTRA_DATA,
    ] {
        let mut b = Vec::new();
        write_element(id, &[65], &mut b);
        write_element(id, &[65], &mut b);
        assert!(check(&b, ids::BLOCK_ADDITION_MAPPING).is_err());
    }
}
#[test]
fn mapping_unknown_children_wrong_parents_and_malformed_boundaries_still_fail() {
    let maps = mapping(1, b"opaque");
    for parent in [
        ids::INFO,
        ids::VIDEO,
        ids::AUDIO,
        ids::BLOCK_ADDITION_MAPPING,
    ] {
        assert!(check(&maps, parent).is_err());
    }
    let mut child = Vec::new();
    write_uint(ids::BLOCK_ADD_ID_TYPE, 1, &mut child);
    assert!(check(&entry(1, &child), ids::TRACK_ENTRY).is_err());
    for body in [
        vec![0x41],
        vec![0x41, 0xed, 0x85, 0],
        vec![0x41, 0xed, 0xff],
        vec![0x41, 0xee, 0x80],
    ] {
        let mut b = Vec::new();
        write_master(ids::BLOCK_ADDITION_MAPPING, &body, &mut b);
        assert!(check(&entry(1, &b), ids::TRACK_ENTRY).is_err());
    }
    assert!(
        check(
            &entry(1, &mapping(1, &[0x41, 0xed, 0xff])),
            ids::TRACK_ENTRY
        )
        .is_ok()
    );
}
fn file(extra: &[u8]) -> Vec<u8> {
    let mut header = Vec::new();
    write_utf8(ids::DOC_TYPE, "matroska", &mut header);
    let mut bytes = Vec::new();
    write_master(ids::EBML, &header, &mut bytes);
    open_master_unknown_size(ids::SEGMENT, &mut bytes);
    let mut info = Vec::new();
    write_uint(ids::TIMESTAMP_SCALE, 1_000_000, &mut info);
    write_master(ids::INFO, &info, &mut bytes);
    let mut tracks = Vec::new();
    for (number, kind, codec) in [(1, 1, "V_MPEGH/ISO/HEVC"), (2, 17, "S_HDMV/PGS")] {
        let mut t = Vec::new();
        write_uint(ids::TRACK_NUMBER, number, &mut t);
        write_uint(ids::TRACK_UID, number, &mut t);
        if kind == 1 {
            t.extend(extra);
        }
        write_uint(ids::TRACK_TYPE, kind, &mut t);
        write_ascii(ids::CODEC_ID, codec, &mut t);
        write_ascii(ids::LANGUAGE, "eng", &mut t);
        write_master(ids::TRACK_ENTRY, &t, &mut tracks);
    }
    write_master(ids::TRACKS, &tracks, &mut bytes);
    let mut cluster = Vec::new();
    write_uint(ids::TIMESTAMP, 100, &mut cluster);
    write_element(
        ids::SIMPLE_BLOCK,
        &[0x81, 0, 0, 0x80, 9, 8, 7],
        &mut cluster,
    );
    write_element(
        ids::SIMPLE_BLOCK,
        &[0x82, 0, 5, 0, 1, 2, 3, 4],
        &mut cluster,
    );
    write_master(ids::CLUSTER, &cluster, &mut bytes);
    bytes
}
#[test]
fn actual_streaming_parser_skips_video_and_preserves_selected_subtitle_packet() {
    let mut extra = mapping(u32::from_be_bytes(*b"dvcC") as u64, &[0; 24]);
    extra.extend(mapping(u32::from_be_bytes(*b"hvcE") as u64, &[0; 187]));
    let mut stream =
        open_streaming_with_limits(Cursor::new(file(&extra)), StreamingLimits::default()).unwrap();
    assert_eq!(stream.demuxer().tracks.len(), 2);
    stream.set_track_filter(Some(vec![2]));
    let mut out = Vec::new();
    let frame = stream.next_frame_into(&mut out).unwrap().unwrap();
    assert_eq!((frame.track, frame.timestamp_ns), (2, 105_000_000));
    assert_eq!(out, [1, 2, 3, 4]);
    assert!(stream.next_frame_into(&mut out).unwrap().is_none());
    let mut malformed = Vec::new();
    write_element(ids::BLOCK_ADD_ID_TYPE, &[0; 9], &mut malformed);
    let mut extra = Vec::new();
    write_master(ids::BLOCK_ADDITION_MAPPING, &malformed, &mut extra);
    assert!(
        open_streaming_with_limits(Cursor::new(file(&extra)), StreamingLimits::default()).is_err()
    );
}
#[test]
fn mapping_family_uses_existing_cumulative_element_and_metadata_limits() {
    let b = entry(1, &mapping(1, &[0; 32]));
    assert!(validate_metadata(&b, ids::TRACK_ENTRY, &mut WalkBudget { elements: 3 }).is_err());
    assert!(validate_metadata(&b, ids::TRACK_ENTRY, &mut WalkBudget { elements: 4 }).is_ok());
    let bytes = file(&mapping(1, &[0; 512]));
    let limits = StreamingLimits {
        metadata_element_bytes: 256,
        ..Default::default()
    };
    assert!(open_streaming_with_limits(Cursor::new(bytes), limits).is_err());
    let bytes = file(&mapping(1, &[0; 128]));
    let limits = StreamingLimits {
        total_metadata_bytes: 64,
        ..Default::default()
    };
    assert!(open_streaming_with_limits(Cursor::new(bytes), limits).is_err());
}

fn finalized(m: Muxer) -> Vec<u8> {
    let ticks = m.end_ns() as f64 / TIMESTAMP_SCALE_NS as f64;
    m.finalize(ticks.to_bits()).unwrap()
}

fn keyframes() -> Vec<u8> {
    let mut m = Muxer::new(DocType::Webm);
    let v = m
        .register_track(TrackDescriptor::video(codec_id::V_VP9, 64, 48))
        .unwrap();
    for i in 0..30u64 {
        let data = vec![i as u8; 20 + i as usize];
        m.append(v, &data, i * 100_000_000, i % 10 == 0).unwrap();
    }
    finalized(m)
}

fn next(stream: &mut Stream<Cursor<Vec<u8>>>) -> Option<(FrameHeader, Vec<u8>)> {
    let mut out = Vec::new();
    stream.next_frame_into(&mut out).unwrap().map(|h| (h, out))
}

#[test]
fn a_walk_finds_the_frames_of_the_whole_file() {
    let file = keyframes();
    let d = Demuxer::parse(&file).unwrap();
    let mut frames = Frames::new(&file, &d);
    let mut stream =
        open_streaming_with_limits(Cursor::new(file.clone()), StreamingLimits::default()).unwrap();
    assert_eq!(stream.demuxer().cues.len(), d.cues.len());
    assert_eq!(stream.demuxer().clusters_offset, d.clusters_offset);
    while let Some(f) = frames.next_frame().unwrap() {
        let (h, data) = next(&mut stream).unwrap();
        assert_eq!((h.track, h.timestamp_ns), (f.track, f.timestamp_ns));
        assert_eq!(h.is_keyframe, f.is_keyframe);
        assert_eq!(h.is_discardable, f.is_discardable);
        assert_eq!(h.data_size as usize, f.data.len());
        assert_eq!(data, f.data);
    }
    assert!(next(&mut stream).is_none());
    assert!(next(&mut stream).is_none());
}

#[test]
fn seeking_lands_on_the_latest_entry_at_or_before_a_time() {
    let mut stream =
        open_streaming_with_limits(Cursor::new(keyframes()), StreamingLimits::default()).unwrap();
    for (ns, expected) in [
        (2_999_999_999, 2_000_000_000),
        (2_000_000_000, 2_000_000_000),
        (1_999_999_999, 1_000_000_000),
        (0, 0),
    ] {
        let at = stream.walker.seek_to_time(ns, Some(1)).unwrap();
        let cue = stream.demuxer().cues.iter().find(|c| c.ts_ns == expected).unwrap();
        assert_eq!(
            at,
            stream.demuxer().segment_payload_start as u64 + cue.cluster_position
        );
        assert_eq!(next(&mut stream).unwrap().0.timestamp_ns, expected);
    }
    let first = stream.demuxer().clusters_offset as u64;
    assert_eq!(stream.walker.seek_to_time(u64::MAX, Some(9)).unwrap(), first);
    assert!(matches!(stream.walker.seek_to_byte(0), Err(Error::SizeOverflow)));
    assert!(matches!(
        stream.walker.seek_to_byte(u64::MAX),
        Err(Error::SizeOverflow)
    ));
}

#[test]
fn an_index_must_point_at_clusters() {
    let mut file = keyframes();
    let at = file.windows(2).rposition(|w| w == [0xF7, 0x81]).unwrap();
    file[at + 2] = 2;
    assert!(matches!(
        open_streaming_with_limits(Cursor::new(file.clone()), StreamingLimits::default()),
        Err(Error::Malformed(_))
    ));
    let limits = StreamingLimits {
        skip_cues: true,
        ..Default::default()
    };
    let stream = open_streaming_with_limits(Cursor::new(file), limits).unwrap();
    assert!(stream.demuxer().cues.is_empty());
}

#[test]
fn headers_read_in_pieces_are_those_of_the_file() {
    let file = keyframes();
    let mut r = Reader::new(&file);
    let mut at = 0;
    while !r.eof() {
        let h = r.read_header().unwrap();
        let mut buf = Vec::new();
        loop {
            let n = header_missing(&buf).unwrap();
            if n == 0 {
                break;
            }
            let have = buf.len();
            buf.extend_from_slice(&file[at + have..at + have + n]);
        }
        let io = decode_header(&buf, at as u64).unwrap();
        assert_eq!(io.id, h.id.value);
        assert_eq!(io.payload_start, h.payload_start as u64);
        assert_eq!(io.payload_end, h.payload_end().map(|e| e as u64));
        r.skip_payload(&h).unwrap();
        at = r.position();
    }
    assert!(matches!(header_missing(&[0]), Err(Error::InvalidVint)));
    assert!(matches!(header_missing(&[0x08]), Err(Error::InvalidVint)));
    assert!(matches!(header_missing(&[0x81, 0]), Err(Error::InvalidVint)));
}

#[test]
fn block_groups_carry_durations_and_references() {
    let mut group = Vec::new();
    write_element(ids::BLOCK, &[0x82, 0, 1, 0x08, 7, 8], &mut group);
    write_uint(ids::BLOCK_DURATION, 40, &mut group);
    write_element(ids::REFERENCE_BLOCK, &[0xFF], &mut group);
    write_element(ids::REFERENCE_BLOCK, &[1], &mut group);
    let mut bytes = file(&[]);
    let mut cluster = Vec::new();
    write_uint(ids::TIMESTAMP, 200, &mut cluster);
    write_master(ids::BLOCK_GROUP, &group, &mut cluster);
    write_master(ids::CLUSTER, &cluster, &mut bytes);
    let mut stream =
        open_streaming_with_limits(Cursor::new(bytes), StreamingLimits::default()).unwrap();
    next(&mut stream).unwrap();
    next(&mut stream).unwrap();
    let (h, data) = next(&mut stream).unwrap();
    assert_eq!((h.track, h.timestamp_ns), (2, 201_000_000));
    assert_eq!(h.block_duration_ns, Some(40_000_000));
    assert_eq!(h.reference_block_count, Some(2));
    assert_eq!((h.is_keyframe, h.is_discardable), (Some(false), None));
    assert!(h.is_invisible);
    assert_eq!(data, [7, 8]);
    let owned = h.with_data(data);
    assert_eq!((owned.track, owned.data), (2, vec![7, 8]));
    assert!(next(&mut stream).is_none());
}

#[test]
fn clusters_must_keep_to_the_subset() {
    let walk = |children: &[u8]| {
        let mut bytes = file(&[]);
        write_master(ids::CLUSTER, children, &mut bytes);
        let mut stream =
            open_streaming_with_limits(Cursor::new(bytes), StreamingLimits::default()).unwrap();
        next(&mut stream).unwrap();
        next(&mut stream).unwrap();
        stream.next_frame_into(&mut Vec::new())
    };
    let block = [0x81, 0, 0, 0x80, 1];
    let mut early = Vec::new();
    write_element(ids::SIMPLE_BLOCK, &block, &mut early);
    assert!(matches!(
        walk(&early),
        Err(Error::Malformed("block before cluster timestamp"))
    ));
    let with = |id: u64, payload: &[u8]| {
        let mut b = Vec::new();
        write_uint(ids::TIMESTAMP, 0, &mut b);
        write_element(id, payload, &mut b);
        b
    };
    assert!(matches!(
        walk(&with(ids::SIMPLE_BLOCK, &[0x81, 0, 0, 0x02, 1])),
        Err(Error::Unsupported { what: "selected block lacing" })
    ));
    assert!(matches!(
        walk(&with(ids::SIMPLE_BLOCK, &[0x81, 0xFF, 0xFF, 0, 1])),
        Err(Error::Malformed("negative/overflowing block timestamp"))
    ));
    assert!(matches!(
        walk(&with(ids::SIMPLE_BLOCK, &[0x81, 0])),
        Err(Error::Malformed("short block header"))
    ));
    assert!(matches!(
        walk(&with(ids::BLOCK_GROUP, &[])),
        Err(Error::Malformed("BlockGroup missing Block"))
    ));
    assert!(matches!(
        walk(&with(ids::TRACK_UID, &[])),
        Err(Error::Unsupported { what: "strict Cluster child" })
    ));
    let mut twice = with(ids::TIMESTAMP, &[1]);
    twice.extend(&early);
    assert!(matches!(
        walk(&twice),
        Err(Error::Malformed("duplicate cluster timestamp"))
    ));
}

#[test]
fn unknown_metadata_is_named() {
    let mut info = Vec::new();
    write_uint(ids::TRACK_UID, 1, &mut info);
    let mut budget = WalkBudget { elements: 5 };
    match validate_metadata(&info, ids::INFO, &mut budget) {
        Err(Error::UnsupportedElement { parent, element }) => {
            assert_eq!((parent, element), (ids::INFO, ids::TRACK_UID));
        }
        other => panic!("{other:?}"),
    }
    assert_eq!(budget.elements, 4);
}

#[test]
fn read_budgets_count_bytes_and_operations() {
    let limits = StreamingLimits {
        read_bytes: 10,
        io_operations: 3,
        ..Default::default()
    };
    let mut b = ReadBudget::new(limits);
    b.max_read = 8;
    assert_eq!(b.begin_read(20), Ok(8));
    b.end_read(8);
    assert_eq!(b.begin_read(20), Ok(2));
    b.end_read(2);
    assert_eq!(b.begin_read(1), Err("strict read byte budget exceeded"));
    assert_eq!(b.begin_read(1), Err("strict I/O operation budget exceeded"));
    assert_eq!(b.operation(), Err("strict I/O operation budget exceeded"));
}

#[test]
fn sources_that_change_length_are_refused() {
    let bytes = file(&[]);
    let mut stream =
        open_streaming_with_limits(Cursor::new(bytes.clone()), StreamingLimits::default()).unwrap();
    next(&mut stream).unwrap();
    next(&mut stream).unwrap();
    let mut longer = bytes;
    longer.push(0);
    stream.reader = Cursor::new(longer);
    assert!(matches!(
        stream.next_frame_into(&mut Vec::new()),
        Err(Error::Malformed("file length changed during strict walk"))
    ));
    assert!(matches!(
        Opener::new(u64::MAX, StreamingLimits::default()),
        Err(Error::SizeOverflow)
    ));
}

#[test]
fn seeking_gives_no_elements_back() {
    let bytes = file(&[]);
    let mut needed = 0;
    while open_streaming_with_limits(
        Cursor::new(bytes.clone()),
        StreamingLimits {
            elements: needed,
            ..Default::default()
        },
    )
    .is_err()
    {
        needed += 1;
    }
    let limits = StreamingLimits {
        elements: needed + 6,
        ..Default::default()
    };
    let mut stream = open_streaming_with_limits(Cursor::new(bytes), limits).unwrap();
    for _ in 0..2 {
        stream.walker.seek_to_time(0, None).unwrap();
        assert!(next(&mut stream).is_some());
    }
    stream.walker.seek_to_time(0, None).unwrap();
    assert!(matches!(
        stream.next_frame_into(&mut Vec::new()),
        Err(Error::Unsupported { what: "strict element budget exceeded" })
    ));
}

#[test]
fn opening_a_source_finds_what_parsing_the_file_finds() {
    for bytes in [keyframes(), file(&mapping(1, &[0; 32]))] {
        let d = Demuxer::parse(&bytes).unwrap();
        let stream =
            open_streaming_with_limits(Cursor::new(bytes.clone()), StreamingLimits::default())
                .unwrap();
        assert_eq!(format!("{:?}", stream.demuxer()), format!("{d:?}"));
        let limits = StreamingLimits {
            skip_cues: true,
            ..Default::default()
        };
        let stream = open_streaming_with_limits(Cursor::new(bytes), limits).unwrap();
        assert!(stream.demuxer().cues.is_empty());
        assert_eq!(stream.demuxer().clusters_offset, d.clusters_offset);
        assert_eq!(stream.demuxer().tracks.len(), d.tracks.len());
    }
}

#[test]
fn a_walk_goes_on_behind_a_group_without_a_block() {
    let mut children = Vec::new();
    write_uint(ids::TIMESTAMP, 0, &mut children);
    write_element(ids::BLOCK_GROUP, &[], &mut children);
    write_element(ids::SIMPLE_BLOCK, &[0x81, 0, 3, 0x80, 42], &mut children);
    let mut bytes = file(&[]);
    write_master(ids::CLUSTER, &children, &mut bytes);
    let mut stream =
        open_streaming_with_limits(Cursor::new(bytes), StreamingLimits::default()).unwrap();
    assert!(next(&mut stream).is_some());
    assert!(next(&mut stream).is_some());
    assert!(matches!(
        stream.next_frame_into(&mut Vec::new()),
        Err(Error::Malformed("BlockGroup missing Block"))
    ));
    let (h, data) = next(&mut stream).unwrap();
    assert_eq!((h.track, h.timestamp_ns, data), (1, 3_000_000, vec![42]));
    assert!(next(&mut stream).is_none());
}

#[test]
fn a_walk_can_seek_after_an_error() {
    let mut children = Vec::new();
    write_element(ids::TIMESTAMP, &[0; 9], &mut children);
    let mut bytes = file(&[]);
    write_master(ids::CLUSTER, &children, &mut bytes);
    let mut stream =
        open_streaming_with_limits(Cursor::new(bytes), StreamingLimits::default()).unwrap();
    assert!(next(&mut stream).is_some());
    assert!(next(&mut stream).is_some());
    assert!(matches!(
        stream.next_frame_into(&mut Vec::new()),
        Err(Error::Malformed("integer payload out of range"))
    ));
    stream.walker.seek_to_time(0, None).unwrap();
    let (h, data) = next(&mut stream).unwrap();
    assert_eq!((h.track, h.timestamp_ns, data), (1, 100_000_000, vec![9, 8, 7]));
}
