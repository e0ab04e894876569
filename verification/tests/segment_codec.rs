use photo_restamp::error::InjectError;
use photo_restamp::segment::{parse, serialize, standalone, Segment, SegmentKind, MAX_PAYLOAD};

fn sample() -> Vec<u8> {
    let mut v = vec![0xFF, 0xD8];
    v.extend_from_slice(&[0xFF, 0xE0, 0x00, 0x10]);
    v.extend_from_slice(b"JFIF\0\x01\x01\0\0\x01\0\x01\0\0");
    v.extend_from_slice(&[0xFF, 0xDB, 0x00, 0x05, 1, 2, 3]);
    v.extend_from_slice(&[0xFF, 0xDA, 0x00, 0x04, 9, 9]);
    v.extend_from_slice(&[0x12, 0x34, 0xFF, 0x00, 0x56, 0xFF, 0xD9]);
    v
}

#[test]
fn parse_splits_a_container_into_its_segments() {
    let segments = parse(&sample()).unwrap();
    assert_eq!(segments.len(), 5);
    assert_eq!(segments[0].kind(), SegmentKind::Bare);
    assert_eq!(segments[0].marker(), 0xD8);
    assert!(segments[0].payload().is_empty());
    assert_eq!(segments[1].kind(), SegmentKind::Sized);
    assert_eq!(segments[1].marker(), 0xE0);
    assert_eq!(segments[1].payload().as_slice(), b"JFIF\0\x01\x01\0\0\x01\0\x01\0\0");
    assert_eq!(segments[2].marker(), 0xDB);
    assert_eq!(segments[2].payload().as_slice(), &[1, 2, 3]);
    assert_eq!(segments[3].kind(), SegmentKind::Sized);
    assert_eq!(segments[3].marker(), 0xDA);
    assert_eq!(segments[3].payload().as_slice(), &[9, 9]);
    assert_eq!(segments[4].kind(), SegmentKind::Scan);
    assert_eq!(segments[4].marker(), 0x00);
    assert_eq!(
        segments[4].payload().as_slice(),
        &[0x12, 0x34, 0xFF, 0x00, 0x56, 0xFF, 0xD9]
    );
}

#[test]
fn serialize_gives_back_what_was_parsed() {
    let bytes = sample();
    let segments = parse(&bytes).unwrap();
    assert_eq!(serialize(&segments), bytes);
}

#[test]
fn round_trip_keeps_an_empty_scan_and_empty_payloads() {
    let bytes = vec![0xFF, 0xD8, 0xFF, 0xFE, 0x00, 0x02, 0xFF, 0xDA, 0x00, 0x02];
    let segments = parse(&bytes).unwrap();
    assert_eq!(segments.len(), 4);
    assert!(segments[1].payload().is_empty());
    assert!(segments[3].payload().is_empty());
    assert_eq!(segments[3].kind(), SegmentKind::Scan);
    assert_eq!(serialize(&segments), bytes);
}

#[test]
fn round_trip_keeps_standalone_markers() {
    let bytes = vec![
        0xFF, 0xD8, 0xFF, 0x01, 0xFF, 0xD0, 0xFF, 0xD9, 0xFF, 0xDA, 0x00, 0x03, 7, 0xAA,
    ];
    let segments = parse(&bytes).unwrap();
    assert_eq!(segments.len(), 6);
    assert_eq!(segments[1].kind(), SegmentKind::Bare);
    assert_eq!(segments[1].marker(), 0x01);
    assert_eq!(segments[2].marker(), 0xD0);
    assert_eq!(segments[3].marker(), 0xD9);
    assert_eq!(segments[4].payload().as_slice(), &[7]);
    assert_eq!(segments[5].payload().as_slice(), &[0xAA]);
    assert_eq!(serialize(&segments), bytes);
}

#[test]
fn parse_rejects_a_buffer_without_the_start_marker() {
    assert_eq!(parse(&[]).unwrap_err(), InjectError::FormatError);
    assert_eq!(parse(&[0xFF]).unwrap_err(), InjectError::FormatError);
    assert_eq!(parse(&[0xFF, 0xD9, 0xFF, 0xDA, 0, 2]).unwrap_err(), InjectError::FormatError);
    assert_eq!(parse(&[0x89, 0x50, 0x4E, 0x47]).unwrap_err(), InjectError::FormatError);
}

#[test]
fn parse_rejects_a_segment_cut_short() {
    let mut bytes = sample();
    bytes.truncate(10);
    assert_eq!(parse(&bytes).unwrap_err(), InjectError::FormatError);
    // The length field itself is cut.
    assert_eq!(parse(&[0xFF, 0xD8, 0xFF, 0xE0, 0x00]).unwrap_err(), InjectError::FormatError);
    // A length that runs one byte past the end.
    assert_eq!(
        parse(&[0xFF, 0xD8, 0xFF, 0xDA, 0x00, 0x04, 1]).unwrap_err(),
        InjectError::FormatError
    );
}

#[test]
fn parse_rejects_a_buffer_without_start_of_scan() {
    assert_eq!(parse(&[0xFF, 0xD8]).unwrap_err(), InjectError::FormatError);
    assert_eq!(
        parse(&[0xFF, 0xD8, 0xFF, 0xE0, 0x00, 0x03, 1, 0xFF, 0xD9]).unwrap_err(),
        InjectError::FormatError
    );
}

#[test]
fn parse_rejects_invalid_markers_and_lengths() {
    // A byte that is no marker prefix.
    assert_eq!(
        parse(&[0xFF, 0xD8, 0x00, 0xDA, 0x00, 0x02]).unwrap_err(),
        InjectError::FormatError
    );
    // A fill byte in place of a marker code.
    assert_eq!(
        parse(&[0xFF, 0xD8, 0xFF, 0xFF, 0xDA, 0x00, 0x02]).unwrap_err(),
        InjectError::FormatError
    );
    // A stuffed zero in place of a marker code.
    assert_eq!(
        parse(&[0xFF, 0xD8, 0xFF, 0x00, 0x00, 0x02]).unwrap_err(),
        InjectError::FormatError
    );
    // A length field smaller than itself.
    assert_eq!(
        parse(&[0xFF, 0xD8, 0xFF, 0xDA, 0x00, 0x01]).unwrap_err(),
        InjectError::FormatError
    );
}

#[test]
fn serialize_writes_the_payload_length_plus_two() {
    let segments = vec![
        Segment::bare(0xD8).unwrap(),
        Segment::sized(0xE1, vec![0xAB; 300]).unwrap(),
        Segment::sized(0xDA, vec![]).unwrap(),
        Segment::scan(vec![1, 2, 3]),
    ];
    let bytes = serialize(&segments);
    assert_eq!(bytes.len(), 2 + 4 + 300 + 4 + 3);
    assert_eq!(&bytes[0..2], &[0xFF, 0xD8]);
    assert_eq!(&bytes[2..6], &[0xFF, 0xE1, 0x01, 0x2E]);
    assert_eq!(&bytes[306..310], &[0xFF, 0xDA, 0x00, 0x02]);
    assert_eq!(&bytes[310..], &[1, 2, 3]);
    let again = parse(&bytes).unwrap();
    assert_eq!(again.len(), 4);
    assert_eq!(again[1].payload().len(), 300);
}

#[test]
fn the_largest_payload_fills_the_length_field() {
    let segments = vec![
        Segment::bare(0xD8).unwrap(),
        Segment::sized(0xFE, vec![0x11; MAX_PAYLOAD]).unwrap(),
        Segment::sized(0xDA, vec![]).unwrap(),
        Segment::scan(vec![]),
    ];
    let bytes = serialize(&segments);
    assert_eq!(&bytes[2..6], &[0xFF, 0xFE, 0xFF, 0xFF]);
    let again = parse(&bytes).unwrap();
    assert_eq!(again[1].payload().len(), 65533);
    assert_eq!(serialize(&again), bytes);
}

#[test]
fn constructors_refuse_what_cannot_be_written() {
    assert!(Segment::sized(0xE1, vec![0; MAX_PAYLOAD + 1]).is_none());
    assert!(Segment::sized(0xD8, vec![]).is_none());
    assert!(Segment::sized(0x00, vec![]).is_none());
    assert!(Segment::sized(0xFF, vec![]).is_none());
    assert!(Segment::sized(0x01, vec![]).is_none());
    assert!(Segment::bare(0xE1).is_none());
    assert!(Segment::bare(0xDA).is_none());
    assert!(Segment::bare(0xD9).is_some());
    assert!(Segment::bare(0x01).is_some());
}

#[test]
fn standalone_markers_are_the_restart_range_and_tem() {
    let mut found = Vec::new();
    let mut m: u16 = 0;
    while m < 256 {
        if standalone(m as u8) {
            found.push(m as u8);
        }
        m += 1;
    }
    assert_eq!(
        found,
        vec![0x01, 0xD0, 0xD1, 0xD2, 0xD3, 0xD4, 0xD5, 0xD6, 0xD7, 0xD8, 0xD9]
    );
}

#[test]
fn a_clone_is_the_same_segment() {
    let s = Segment::sized(0xE0, vec![1, 2, 3]).unwrap();
    let c = s.clone();
    assert_eq!(c.kind(), SegmentKind::Sized);
    assert_eq!(c.marker(), 0xE0);
    assert_eq!(c.payload(), s.payload());
}

#[test]
fn an_independent_reader_sees_the_same_segments() {
    let bytes = sample();
    let ours = parse(&bytes).unwrap();
    let theirs = img_parts::jpeg::Jpeg::from_bytes(img_parts::Bytes::from(bytes)).unwrap();
    let segments = theirs.segments();
    assert_eq!(segments.len(), 3);
    assert_eq!(segments[0].marker(), ours[1].marker());
    assert_eq!(&segments[0].contents()[..], ours[1].payload().as_slice());
    assert_eq!(segments[1].marker(), ours[2].marker());
    assert_eq!(&segments[1].contents()[..], ours[2].payload().as_slice());
    assert_eq!(segments[2].marker(), ours[3].marker());
    assert_eq!(&segments[2].contents()[..], ours[3].payload().as_slice());
}
