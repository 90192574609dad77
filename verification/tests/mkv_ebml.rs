use media_containers::mkv::ebml::element::{FloatBits, Reader};
use media_containers::mkv::ebml::varint::{read_vint_id, read_vint_size};
use media_containers::mkv::ebml::writer::{
    element_size, uint_be, write_int, write_master, write_size_vint, write_uint,
    write_uint_fixed_width,
};
use media_containers::mkv::Error;

#[test]
fn rfc8794_examples_size() {
    let mut p = 0;
    assert_eq!(read_vint_size(&[0x82], &mut p).unwrap(), Some(2));
    assert_eq!(p, 1);

    let mut p = 0;
    assert_eq!(read_vint_size(&[0x40, 0x02], &mut p).unwrap(), Some(2));
    assert_eq!(p, 2);

    let mut p = 0;
    assert_eq!(read_vint_size(&[0xFF], &mut p).unwrap(), None);
}

#[test]
fn ids_preserve_width_marker() {
    let bytes = [0x1A, 0x45, 0xDF, 0xA3];
    let mut p = 0;
    let v = read_vint_id(&bytes, &mut p).unwrap();
    assert_eq!(v.value, 0x1A45DFA3);
    assert_eq!(v.width, 4);
    assert_eq!(p, 4);
}

#[test]
fn invalid_vint_zero_byte() {
    let mut p = 0;
    assert!(matches!(
        read_vint_size(&[0x00, 0x01], &mut p),
        Err(Error::InvalidVint)
    ));
}

#[test]
fn eof_partway() {
    let mut p = 0;
    assert!(matches!(
        read_vint_size(&[0x40], &mut p),
        Err(Error::UnexpectedEof(_))
    ));
}

#[test]
fn read_simple_uint() {
    let bytes = [0x42, 0x86, 0x81, 0x04];
    let mut r = Reader::new(&bytes);
    let hdr = r.read_header().unwrap();
    assert_eq!(hdr.id.value, 0x4286);
    assert_eq!(hdr.size, Some(1));
    assert_eq!(r.read_uint(&hdr).unwrap(), 4);
}

#[test]
fn read_float_4_and_8() {
    let mut bytes = vec![0x44, 0x89, 0x88]; // Duration (0x4489) size 8
    bytes.extend_from_slice(&1234.5f64.to_be_bytes());
    let mut r = Reader::new(&bytes);
    let hdr = r.read_header().unwrap();
    assert_eq!(
        r.read_float(&hdr).unwrap(),
        FloatBits::Double(1234.5f64.to_bits())
    );
}

#[test]
fn read_int_signed_extension() {
    let bytes = [0x88, 0x82, 0xFF, 0xFE]; // arbitrary 1-byte ID 0x88, size 2
    let mut r = Reader::new(&bytes);
    let hdr = r.read_header().unwrap();
    assert_eq!(r.read_int(&hdr).unwrap(), -2);
}

#[test]
fn descend_bounds() {
    let bytes = [
        0x80, 0x84, 0x81, 0x81, 0x09, 0xAA, /* sibling */ 0x82, 0x80,
    ];
    let mut r = Reader::new(&bytes);
    let outer = r.read_header().unwrap();
    let mut inner = r.descend(&outer).unwrap();
    let child = inner.read_header().unwrap();
    assert_eq!(inner.read_uint(&child).unwrap(), 9);
    inner.skip_payload(&child).unwrap();
    assert_eq!(inner.remaining(), 1);

    r.skip_payload(&outer).unwrap();
    let sibling = r.read_header().unwrap();
    assert_eq!(sibling.id.value, 0x82);
}

#[test]
fn size_vint_widths() {
    let mut v = vec![];
    write_size_vint(2, &mut v);
    assert_eq!(v, vec![0x82]);

    v.clear();
    write_size_vint(127, &mut v);
    assert_eq!(v, vec![0x40, 0x7F]);

    v.clear();
    write_size_vint(128, &mut v);
    assert_eq!(v, vec![0x40, 0x80]);
}

#[test]
fn uint_round_trip() {
    let mut v = vec![];
    write_uint(0x4286, 4, &mut v); // EBMLVersion
    assert_eq!(v, vec![0x42, 0x86, 0x81, 0x04]);
}

#[test]
fn int_drops_sign_extension() {
    let mut v = vec![];
    write_int(0x88, -1, &mut v);
    assert_eq!(v, vec![0x88, 0x81, 0xFF]);

    v.clear();
    write_int(0x88, 1, &mut v);
    assert_eq!(v, vec![0x88, 0x81, 0x01]);

    v.clear();
    write_int(0x88, -129, &mut v);
    assert_eq!(v, vec![0x88, 0x82, 0xFF, 0x7F]);
}

#[test]
fn round_trip_uint_through_reader() {
    let mut buf = vec![];
    write_uint(0x4286, 42, &mut buf);
    let mut r = Reader::new(&buf);
    let hdr = r.read_header().unwrap();
    assert_eq!(hdr.id.value, 0x4286);
    assert_eq!(r.read_uint(&hdr).unwrap(), 42);
}

#[test]
fn round_trip_int_negative() {
    let mut buf = vec![];
    write_int(0x88, -1234, &mut buf);
    let mut r = Reader::new(&buf);
    let hdr = r.read_header().unwrap();
    assert_eq!(r.read_int(&hdr).unwrap(), -1234);
}

#[test]
fn fixed_width_uint_writes_exact_bytes() {
    let mut v = vec![];
    write_uint_fixed_width(0x4286, 1, 8, &mut v);
    assert_eq!(v.len(), 2 + 1 + 8);
    assert_eq!(&v[..3], &[0x42, 0x86, 0x88]);
    assert_eq!(&v[3..], &[0, 0, 0, 0, 0, 0, 0, 1]);
}

#[test]
fn element_size_matches_emit() {
    let mut v = vec![];
    write_uint(0x4286, 12345, &mut v);
    assert_eq!(v.len(), element_size(0x4286, uint_be(12345).len()));
}

#[test]
fn round_trip_master_contains_uint() {
    let mut body = vec![];
    write_uint(0x4286, 1, &mut body);
    let mut buf = vec![];
    write_master(0x1A45DFA3, &body, &mut buf);
    let mut r = Reader::new(&buf);
    let hdr = r.read_header().unwrap();
    assert_eq!(hdr.id.value, 0x1A45DFA3);
    let mut inner = r.descend(&hdr).unwrap();
    let child = inner.read_header().unwrap();
    assert_eq!(child.id.value, 0x4286);
    assert_eq!(inner.read_uint(&child).unwrap(), 1);
}
