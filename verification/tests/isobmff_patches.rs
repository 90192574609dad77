use media_containers::isobmff::patches::{
    patch_dref_url_self_contained, patch_esds_descriptor_lengths, patch_tfhd_default_base_is_moof,
    patch_tkhd_flags,
};

fn fake_tkhd(flags_lo: u8) -> Vec<u8> {
    let mut v = Vec::new();
    v.extend_from_slice(&[0, 0, 0, 16]); // size = 16 (header only — fixture)
    v.extend_from_slice(b"tkhd");
    v.push(0); // version
    v.extend_from_slice(&[0, 0, flags_lo]); // flags
    v.extend_from_slice(&[0; 4]); // padding to size
    v
}

#[test]
fn tkhd_flags_patched() {
    let mut buf = fake_tkhd(0x01);
    patch_tkhd_flags(&mut buf);
    let pos = buf.windows(4).position(|w| w == b"tkhd").unwrap();
    assert_eq!(buf[pos + 7], 0x03);
}

#[test]
fn tkhd_patch_idempotent() {
    let mut buf = fake_tkhd(0x03);
    patch_tkhd_flags(&mut buf);
    let pos = buf.windows(4).position(|w| w == b"tkhd").unwrap();
    assert_eq!(buf[pos + 7], 0x03);
}

#[test]
fn tkhd_patch_no_op_when_box_absent() {
    let mut buf = b"\x00\x00\x00\x10ftypmp42\x00\x00\x00\x00".to_vec();
    let before = buf.clone();
    patch_tkhd_flags(&mut buf);
    assert_eq!(buf, before);
}

fn fake_url(flags_lo: u8) -> Vec<u8> {
    let mut v = Vec::new();
    v.extend_from_slice(&[0, 0, 0, 12]); // size
    v.extend_from_slice(b"url ");
    v.push(0); // version
    v.extend_from_slice(&[0, 0, flags_lo]); // flags
    v
}

#[test]
fn url_self_contained_patched() {
    let mut buf = fake_url(0x02);
    patch_dref_url_self_contained(&mut buf);
    let pos = buf.windows(4).position(|w| w == b"url ").unwrap();
    assert_eq!(buf[pos + 7], 0x01);
}

#[test]
fn url_patch_clears_wrong_bit() {
    let mut buf = fake_url(0x03);
    patch_dref_url_self_contained(&mut buf);
    let pos = buf.windows(4).position(|w| w == b"url ").unwrap();
    assert_eq!(buf[pos + 7], 0x01);
}

fn fake_tfhd(flags_hi: u8) -> Vec<u8> {
    let mut v = Vec::new();
    v.extend_from_slice(&[0, 0, 0, 16]); // size
    v.extend_from_slice(b"tfhd");
    v.push(0); // version
    v.extend_from_slice(&[flags_hi, 0, 0]); // flags
    v.extend_from_slice(&[0; 4]); // padding
    v
}

#[test]
fn tfhd_default_base_is_moof_set() {
    let mut buf = fake_tfhd(0x00);
    patch_tfhd_default_base_is_moof(&mut buf);
    let pos = buf.windows(4).position(|w| w == b"tfhd").unwrap();
    assert_eq!(buf[pos + 5], 0x02);
}

#[test]
fn tfhd_patch_preserves_other_high_bits() {
    let mut buf = fake_tfhd(0x01);
    patch_tfhd_default_base_is_moof(&mut buf);
    let pos = buf.windows(4).position(|w| w == b"tfhd").unwrap();
    assert_eq!(buf[pos + 5], 0x03); // 0x01 | 0x02
}

#[test]
fn tfhd_patch_idempotent() {
    let mut buf = fake_tfhd(0x02);
    patch_tfhd_default_base_is_moof(&mut buf);
    let pos = buf.windows(4).position(|w| w == b"tfhd").unwrap();
    assert_eq!(buf[pos + 5], 0x02);
}

fn fake_moov_with_compact_esds(asc: &[u8]) -> Vec<u8> {
    let mut esds = Vec::new();
    esds.extend_from_slice(&[0, 0, 0, 0]); // size placeholder
    esds.extend_from_slice(b"esds");
    esds.extend_from_slice(&[0, 0, 0, 0]); // version + flags
    esds.push(0x03); // ES_Descriptor tag
    esds.push(8 + asc.len() as u8); // compact len
    esds.extend_from_slice(&[0x00, 0x01, 0x00]); // ES_ID + priority
    esds.push(0x04); // DecoderConfigDescriptor tag
    esds.push(asc.len() as u8 + 2);
    esds.push(0x40); // objectTypeIndication
    esds.push(0x05); // DecoderSpecificInfo tag
    esds.push(asc.len() as u8);
    esds.extend_from_slice(asc);
    let esds_size = esds.len() as u32;
    esds[0..4].copy_from_slice(&esds_size.to_be_bytes());

    let wrap = |inner: Vec<u8>, fourcc: &[u8; 4]| -> Vec<u8> {
        let total = inner.len() + 8;
        let mut out = Vec::with_capacity(total);
        out.extend_from_slice(&(total as u32).to_be_bytes());
        out.extend_from_slice(fourcc);
        out.extend(inner);
        out
    };

    let mp4a = wrap(esds, b"mp4a");
    let stsd = wrap(mp4a, b"stsd");
    let stbl = wrap(stsd, b"stbl");
    let minf = wrap(stbl, b"minf");
    let mdia = wrap(minf, b"mdia");
    let trak = wrap(mdia, b"trak");
    wrap(trak, b"moov")
}

#[test]
fn esds_patched_to_expandable_form() {
    let asc = &[0x12, 0x10]; // typical 2-byte AAC LC ASC
    let mut buf = fake_moov_with_compact_esds(asc);
    let original_len = buf.len();
    patch_esds_descriptor_lengths(&mut buf, asc);

    let pos = buf.windows(4).position(|w| w == b"esds").unwrap();
    assert_eq!(buf[pos + 4 + 4], 0x03);
    assert_eq!(&buf[pos + 4 + 5..pos + 4 + 8], &[0x80, 0x80, 0x80]);

    assert!(buf.len() > original_len);
}

#[test]
fn esds_patch_updates_ancestor_sizes() {
    let asc = &[0x12, 0x10];
    let mut buf = fake_moov_with_compact_esds(asc);
    patch_esds_descriptor_lengths(&mut buf, asc);

    let moov_pos = buf.windows(4).position(|w| w == b"moov").unwrap();
    let moov_size =
        u32::from_be_bytes(buf[moov_pos - 4..moov_pos].try_into().unwrap()) as usize;
    assert_eq!(moov_size, buf.len());

    for fourcc in [b"trak", b"mdia", b"minf", b"stbl", b"stsd", b"mp4a"] {
        let pos = buf.windows(4).position(|w| w == fourcc).unwrap();
        let size = u32::from_be_bytes(buf[pos - 4..pos].try_into().unwrap()) as usize;
        assert!(
            size > 0 && size < buf.len() + 1,
            "{:?}: size = {}",
            fourcc,
            size
        );
    }
}

#[test]
fn esds_patch_no_op_when_absent() {
    let mut buf = b"\x00\x00\x00\x10ftypmp42\x00\x00\x00\x00".to_vec();
    let before = buf.clone();
    patch_esds_descriptor_lengths(&mut buf, &[0x12, 0x10]);
    assert_eq!(buf, before);
}

#[test]
fn patches_are_done_once_and_for_all() {
    for flags in 0..=255u8 {
        let mut b = fake_tkhd(flags);
        patch_tkhd_flags(&mut b);
        let once = b.clone();
        patch_tkhd_flags(&mut b);
        assert_eq!(b, once);
        let mut b = fake_url(flags);
        patch_dref_url_self_contained(&mut b);
        let once = b.clone();
        patch_dref_url_self_contained(&mut b);
        assert_eq!(b, once);
        let mut b = fake_tfhd(flags);
        patch_tfhd_default_base_is_moof(&mut b);
        assert_eq!(b[9], flags | 2);
        let once = b.clone();
        patch_tfhd_default_base_is_moof(&mut b);
        assert_eq!(b, once);
    }
}

#[test]
fn the_esds_alone_makes_the_file_longer() {
    for asc in [&[0x11u8, 0x90][..], &[0x12, 0x10, 0x56, 0xE5, 0x00]] {
        let before = fake_moov_with_compact_esds(asc);
        let mut b = before.clone();
        let at = b.windows(4).position(|w| w == b"esds").unwrap() - 4;
        let old = u32::from_be_bytes(b[at..at + 4].try_into().unwrap()) as usize;
        patch_esds_descriptor_lengths(&mut b, asc);
        let new = u32::from_be_bytes(b[at..at + 4].try_into().unwrap()) as usize;
        assert_eq!(new, asc.len() + 49);
        assert_eq!(b.len() - before.len(), new - old);
        assert_eq!(
            &b[at + 12..at + 17],
            &[0x03, 0x80, 0x80, 0x80, asc.len() as u8 + 32]
        );
    }
}

#[test]
fn the_track_flags_are_set_and_all_others_cleared() {
    let mut b = fake_tkhd(0xF5);
    b[8] = 1;
    b[9] = 0xAB;
    b[10] = 0xCD;
    let mut expected = b.clone();
    expected[9..12].copy_from_slice(&[0, 0, 3]);
    patch_tkhd_flags(&mut b);
    assert_eq!(b, expected);
    let mut cut = b"\0\0\0\x0Btkhd\x01\xFF\xFF".to_vec();
    let before = cut.clone();
    patch_tkhd_flags(&mut cut);
    assert_eq!(cut, before);
}
