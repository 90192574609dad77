use media_containers::isobmff::heif::{
    parse_grid_descriptor, read_heif, ItemExtent, ItemLocation, Property,
};
use media_containers::isobmff::IsobmffError;

fn synth_heic_minimal() -> Vec<u8> {
    fn box_with_body(four_cc: &[u8; 4], body: &[u8]) -> Vec<u8> {
        let total = 8 + body.len();
        let mut v = Vec::with_capacity(total);
        v.extend_from_slice(&(total as u32).to_be_bytes());
        v.extend_from_slice(four_cc);
        v.extend_from_slice(body);
        v
    }
    let mut ftyp_body = Vec::new();
    ftyp_body.extend_from_slice(b"heic");
    ftyp_body.extend_from_slice(&0u32.to_be_bytes());
    ftyp_body.extend_from_slice(b"heic");
    ftyp_body.extend_from_slice(b"mif1");
    let ftyp = box_with_body(b"ftyp", &ftyp_body);

    let mut pitm_body = Vec::new();
    pitm_body.extend_from_slice(&[0, 0, 0, 0]); // version + flags
    pitm_body.extend_from_slice(&1u16.to_be_bytes());
    let pitm = box_with_body(b"pitm", &pitm_body);

    let mut infe_body = Vec::new();
    infe_body.extend_from_slice(&[2, 0, 0, 0]); // version=2, flags
    infe_body.extend_from_slice(&1u16.to_be_bytes()); // id
    infe_body.extend_from_slice(&0u16.to_be_bytes()); // prot
    infe_body.extend_from_slice(b"hvc1");
    infe_body.push(0); // name (empty)
    let infe = box_with_body(b"infe", &infe_body);
    let mut iinf_body = Vec::new();
    iinf_body.extend_from_slice(&[0, 0, 0, 0]); // version + flags
    iinf_body.extend_from_slice(&1u16.to_be_bytes()); // entry_count
    iinf_body.extend_from_slice(&infe);
    let iinf = box_with_body(b"iinf", &iinf_body);

    let mdat_payload: &[u8] = b"hello12345";
    let mdat = box_with_body(b"mdat", mdat_payload);

    let mut ispe_body = Vec::new();
    ispe_body.extend_from_slice(&[0, 0, 0, 0]); // version + flags
    ispe_body.extend_from_slice(&2u32.to_be_bytes());
    ispe_body.extend_from_slice(&2u32.to_be_bytes());
    let ispe = box_with_body(b"ispe", &ispe_body);
    let ipco = box_with_body(b"ipco", &ispe);

    let mut ipma_body = Vec::new();
    ipma_body.extend_from_slice(&[0, 0, 0, 0]); // version + flags
    ipma_body.extend_from_slice(&1u32.to_be_bytes()); // entry_count
    ipma_body.extend_from_slice(&1u16.to_be_bytes()); // id
    ipma_body.push(1); // assoc_count
    ipma_body.push(0x81); // essential | property_index = 1
    let ipma = box_with_body(b"ipma", &ipma_body);
    let mut iprp_body = Vec::new();
    iprp_body.extend_from_slice(&ipco);
    iprp_body.extend_from_slice(&ipma);
    let iprp = box_with_body(b"iprp", &iprp_body);

    let mut iloc_body = Vec::new();
    iloc_body.extend_from_slice(&[1, 0, 0, 0]); // version=1 + flags
    iloc_body.push(0x44); // offset_size=4 | length_size=4
    iloc_body.push(0x40); // base_offset_size=4 | index_size=0
    iloc_body.extend_from_slice(&1u16.to_be_bytes()); // item_count
    iloc_body.extend_from_slice(&1u16.to_be_bytes()); // id
    iloc_body.extend_from_slice(&0u16.to_be_bytes()); // construction
    iloc_body.extend_from_slice(&0u16.to_be_bytes()); // data_ref
    iloc_body.extend_from_slice(&0u32.to_be_bytes()); // base_offset
    iloc_body.extend_from_slice(&1u16.to_be_bytes()); // extent_count
    let extent_offset_in_iloc_body = iloc_body.len();
    iloc_body.extend_from_slice(&0u32.to_be_bytes()); // offset placeholder
    iloc_body.extend_from_slice(&(mdat_payload.len() as u32).to_be_bytes());
    let iloc = box_with_body(b"iloc", &iloc_body);

    let mut meta_body = Vec::new();
    meta_body.extend_from_slice(&[0, 0, 0, 0]); // version + flags
    meta_body.extend_from_slice(&pitm);
    meta_body.extend_from_slice(&iinf);
    meta_body.extend_from_slice(&iprp);
    meta_body.extend_from_slice(&iloc);
    let meta_box = box_with_body(b"meta", &meta_body);

    let mdat_payload_file_offset = (ftyp.len() + meta_box.len() + 8) as u32;
    let mut file = Vec::new();
    file.extend_from_slice(&ftyp);
    file.extend_from_slice(&meta_box);
    file.extend_from_slice(&mdat);

    let meta_start = ftyp.len();
    let iloc_in_meta_body_offset =
        4 + pitm.len() + iinf.len() + iprp.len() + 8 + extent_offset_in_iloc_body;
    let patch_at = meta_start + 8 + iloc_in_meta_body_offset;
    file[patch_at..patch_at + 4].copy_from_slice(&mdat_payload_file_offset.to_be_bytes());
    file
}

#[test]
fn reads_synthetic_heic() {
    let bytes = synth_heic_minimal();
    let parsed = read_heif(&bytes).expect("parse ok");
    assert_eq!(&parsed.major_brand, b"heic");
    assert_eq!(parsed.compatible_brands.len(), 2);
    assert_eq!(parsed.meta.primary_item, 1);
    assert_eq!(parsed.meta.items.len(), 1);
    assert_eq!(&parsed.meta.items[0].item_type, b"hvc1");
    assert_eq!(parsed.meta.locations.len(), 1);
    let bitstream = parsed
        .read_item_bytes(&parsed.meta.locations[0])
        .expect("extents ok");
    assert_eq!(&bitstream, b"hello12345");
    let props = parsed.meta.properties_for(1);
    assert_eq!(props.len(), 1);
    match props[0] {
        Property::Ispe { width, height } => {
            assert_eq!((*width, *height), (2, 2));
        }
        other => panic!("expected Ispe, got {other:?}"),
    }
}

#[test]
fn rejects_no_ftyp() {
    let r = read_heif(&[0u8; 12]);
    assert!(matches!(r, Err(IsobmffError::Heif(_))));
}

fn in_file(method: u8, base: u64, extents: &[(u64, u64)]) -> ItemLocation {
    ItemLocation {
        id: 1,
        construction_method: method,
        base_offset: base,
        extents: extents
            .iter()
            .map(|&(offset, length)| ItemExtent { offset, length })
            .collect(),
    }
}

fn text_of(r: Result<Vec<u8>, IsobmffError>) -> String {
    match r {
        Err(IsobmffError::Heif(t)) => t,
        _ => panic!("expected an error"),
    }
}

#[test]
fn extents_are_read_one_after_the_other() {
    let bytes = synth_heic_minimal();
    let mut f = read_heif(&bytes).unwrap();
    let start = f.mdat_offset;
    let got = f
        .read_item_bytes(&in_file(0, start, &[(5, 3), (0, 2), (10, 0)]))
        .unwrap();
    assert_eq!(got, b"123he");
    assert_eq!(
        text_of(f.read_item_bytes(&in_file(0, 0, &[(start, 11)]))),
        format!(
            "iloc extent [{}..{}) outside mdat [{}..{})",
            start,
            start + 11,
            start,
            start + 10
        )
    );
    assert_eq!(
        text_of(f.read_item_bytes(&in_file(0, 1, &[(u64::MAX, 1)]))),
        "iloc extent offset overflow"
    );
    assert_eq!(
        text_of(f.read_item_bytes(&in_file(1, 0, &[(0, 1)]))),
        "iloc method=1 but no idat box"
    );
    assert_eq!(
        text_of(f.read_item_bytes(&in_file(2, 0, &[]))),
        "iloc construction_method = 2 (item-relative not supported)"
    );
    f.idat = Some(b"small data");
    assert_eq!(f.read_item_bytes(&in_file(1, 6, &[(0, 4)])).unwrap(), b"data");
    assert_eq!(
        text_of(f.read_item_bytes(&in_file(1, 6, &[(0, 5)]))),
        "idat extent [6..11) outside idat (len 10)"
    );
    // Media data that is not looked into may lie anywhere.
    f.mdat_offset = u64::MAX;
    assert_eq!(f.read_item_bytes(&in_file(1, 6, &[(0, 4)])).unwrap(), b"data");
    assert_eq!(f.read_item_bytes(&in_file(0, 0, &[])).unwrap(), b"");
    assert_eq!(
        text_of(f.read_item_bytes(&in_file(0, 1, &[(1, u64::MAX)]))),
        "iloc extent length overflow"
    );
}

#[test]
fn grids_come_in_two_widths() {
    let g = parse_grid_descriptor(&[0, 0, 1, 2, 1, 0, 0, 200]).unwrap();
    assert_eq!((g.rows, g.columns), (2, 3));
    assert_eq!((g.output_width, g.output_height), (256, 200));
    let g = parse_grid_descriptor(&[0, 1, 255, 0, 0, 1, 0, 0, 0, 0, 1, 0]).unwrap();
    assert_eq!((g.rows, g.columns), (256, 1));
    assert_eq!((g.output_width, g.output_height), (65_536, 256));
    assert!(parse_grid_descriptor(&[0; 7]).is_err());
    assert!(parse_grid_descriptor(&[0, 1, 0, 0, 0, 0, 0, 0]).is_err());
}

#[test]
fn names_that_are_no_utf8_are_mended() {
    let mut bytes = synth_heic_minimal();
    let at = bytes.windows(4).position(|w| w == b"ipco").unwrap() + 4;
    let kind = at + 4;
    assert_eq!(&bytes[kind..kind + 4], b"ispe");
    bytes[kind..kind + 4].copy_from_slice(b"auxC");
    bytes[kind + 8..kind + 13].copy_from_slice(&[b'a', 0xFF, 0xC3, 0xA9, 0]);
    let f = read_heif(&bytes).unwrap();
    match f.meta.properties_for(1)[0] {
        Property::AuxC { aux_type } => assert_eq!(aux_type, "a\u{FFFD}é"),
        other => panic!("expected AuxC, got {other:?}"),
    }
    assert_eq!(f.meta.item(1).unwrap().name.as_deref(), Some(""));
    assert!(f.meta.item(2).is_none());
    assert!(f.meta.location(2).is_none());
    assert!(f.meta.properties_for(2).is_empty());
}

#[test]
fn a_box_without_a_length_takes_the_rest() {
    let bytes = synth_heic_minimal();
    let mdat = bytes.windows(4).position(|w| w == b"mdat").unwrap() - 4;
    let mut open = bytes.clone();
    open[mdat..mdat + 4].copy_from_slice(&[0; 4]);
    let f = read_heif(&open).unwrap();
    assert_eq!(f.mdat, b"hello12345");
    assert_eq!(f.mdat_offset as usize, mdat + 8);
    // The last box inside of `meta` ends with it.
    let iloc = bytes.windows(4).position(|w| w == b"iloc").unwrap() - 4;
    let mut open = bytes.clone();
    open[iloc..iloc + 4].copy_from_slice(&[0; 4]);
    let f = read_heif(&open).unwrap();
    assert_eq!(
        f.read_item_bytes(&f.meta.locations[0]).unwrap(),
        b"hello12345"
    );
    // A `meta` behind the media data takes the rest of the file.
    let meta = bytes.windows(4).position(|w| w == b"meta").unwrap() - 4;
    let mut turned = bytes[..meta].to_vec();
    turned.extend_from_slice(&bytes[mdat..]);
    let at = turned.len();
    turned.extend_from_slice(&bytes[meta..mdat]);
    turned[at..at + 4].copy_from_slice(&[0; 4]);
    let f = read_heif(&turned).unwrap();
    assert_eq!(f.meta.primary_item, 1);
    assert_eq!(f.meta.locations.len(), 1);
    assert_eq!(f.mdat, b"hello12345");
}

#[test]
fn empty_media_data_before_the_real_one_is_passed_over() {
    let bytes = synth_heic_minimal();
    let mdat = bytes.windows(4).position(|w| w == b"mdat").unwrap() - 4;
    let mut file = bytes[..mdat].to_vec();
    file.extend_from_slice(&[0, 0, 0, 8]);
    file.extend_from_slice(b"mdat");
    // With no other, the empty one is what there is.
    let f = read_heif(&file).unwrap();
    assert_eq!((f.mdat.len(), f.mdat_offset as usize), (0, mdat + 8));
    // Of several empty ones it is the first.
    file.extend_from_slice(&[0, 0, 0, 8]);
    file.extend_from_slice(b"mdat");
    let f = read_heif(&file).unwrap();
    assert_eq!((f.mdat.len(), f.mdat_offset as usize), (0, mdat + 8));
    file.extend_from_slice(&bytes[mdat..]);
    let f = read_heif(&file).unwrap();
    assert_eq!((f.mdat, f.mdat_offset as usize), (&b"hello12345"[..], mdat + 24));
    // What comes behind the real one does not count.
    file.extend_from_slice(&[0, 0, 0, 9]);
    file.extend_from_slice(b"mdatx");
    let f = read_heif(&file).unwrap();
    assert_eq!(f.mdat, b"hello12345");
}
