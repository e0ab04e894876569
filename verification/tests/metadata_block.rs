use photo_restamp::error::InjectError;
use photo_restamp::exif::{carries_metadata, date_of, find_metadata, set_dates, APP1};
use photo_restamp::segment::{parse, serialize, Segment, SegmentKind};
use photo_restamp::tagdir::{TAG_DIGITIZED, TAG_ORIGINAL};
use photo_restamp::timestamp::NormalizedTimestamp;

fn ts(y: i32, mo: u32, d: u32, h: u32, mi: u32, s: u32) -> NormalizedTimestamp {
    NormalizedTimestamp::new(y, mo, d, h, mi, s).unwrap()
}

fn plain() -> Vec<Segment> {
    vec![
        Segment::bare(0xD8).unwrap(),
        Segment::sized(0xE0, b"JFIF\0\x01\x01\0\0\x01\0\x01\0\0".to_vec()).unwrap(),
        Segment::sized(0xDB, vec![1, 2, 3]).unwrap(),
        Segment::sized(0xDA, vec![9, 9]).unwrap(),
        Segment::scan(vec![0x12, 0xFF, 0x00, 0xFF, 0xD9]),
    ]
}

/// Root directory at 8 with the pointing entry, date directory at 26, the
/// values at 56 and 76.
fn little_endian_block() -> Vec<u8> {
    let mut t = b"II\x2A\0\x08\0\0\0".to_vec();
    t.extend_from_slice(&[1, 0]);
    t.extend_from_slice(&[0x69, 0x87, 4, 0, 1, 0, 0, 0, 26, 0, 0, 0]);
    t.extend_from_slice(&[0, 0, 0, 0]);
    t.extend_from_slice(&[2, 0]);
    t.extend_from_slice(&[0x03, 0x90, 2, 0, 20, 0, 0, 0, 56, 0, 0, 0]);
    t.extend_from_slice(&[0x04, 0x90, 2, 0, 20, 0, 0, 0, 76, 0, 0, 0]);
    t.extend_from_slice(&[0, 0, 0, 0]);
    t.extend_from_slice(b"1999:09:09 09:09:09\0");
    t.extend_from_slice(b"1998:08:08 08:08:08\0");
    t
}

fn with_block(block: &[u8]) -> Vec<Segment> {
    let mut payload = b"Exif\0\0".to_vec();
    payload.extend_from_slice(block);
    let mut segments = plain();
    segments.insert(2, Segment::sized(0xE1, payload).unwrap());
    segments
}

fn same(a: &[Segment], b: &[Segment]) -> bool {
    a.len() == b.len()
        && a.iter().zip(b.iter()).all(|(x, y)| {
            x.kind() == y.kind() && x.marker() == y.marker() && x.payload() == y.payload()
        })
}

#[test]
fn a_new_block_goes_right_behind_the_first_segment() {
    let before = plain();
    let taken = ts(2021, 1, 1, 0, 0, 0);
    let created = ts(2021, 1, 1, 0, 0, 0);
    let after = set_dates(&before, &taken, &created).unwrap();
    assert_eq!(after.len(), before.len() + 1);
    assert!(same(&after[..1], &before[..1]));
    assert!(same(&after[2..], &before[1..]));
    assert_eq!(after[1].kind(), SegmentKind::Sized);
    assert_eq!(after[1].marker(), APP1);
    assert_eq!(after[1].payload().len(), 102);
    assert_eq!(&after[1].payload()[..6], b"Exif\0\0");
    assert_eq!(&after[1].payload()[6..10], b"MM\0\x2A");
    assert_eq!(&after[1].payload()[62..82], b"2021:01:01 00:00:00\0");
    assert_eq!(&after[1].payload()[82..102], b"2021:01:01 00:00:00\0");
    assert_eq!(date_of(&after, TAG_ORIGINAL).unwrap(), b"2021:01:01 00:00:00\0".to_vec());
    assert_eq!(date_of(&after, TAG_DIGITIZED).unwrap(), b"2021:01:01 00:00:00\0".to_vec());
}

#[test]
fn setting_the_same_dates_again_changes_nothing() {
    let taken = ts(2021, 1, 1, 0, 0, 0);
    let created = ts(2020, 12, 31, 23, 59, 59);
    let once = set_dates(&plain(), &taken, &created).unwrap();
    let twice = set_dates(&once, &taken, &created).unwrap();
    assert!(same(&once, &twice));
    let once = set_dates(&with_block(&little_endian_block()), &taken, &created).unwrap();
    let twice = set_dates(&once, &taken, &created).unwrap();
    assert!(same(&once, &twice));
}

#[test]
fn an_existing_block_is_patched_where_it_stands() {
    let before = with_block(&little_endian_block());
    let taken = ts(2021, 1, 1, 0, 0, 0);
    let created = ts(2020, 12, 31, 23, 59, 59);
    assert_eq!(find_metadata(&before), 2);
    assert_eq!(date_of(&before, TAG_ORIGINAL).unwrap(), b"1999:09:09 09:09:09\0".to_vec());
    let after = set_dates(&before, &taken, &created).unwrap();
    assert_eq!(after.len(), before.len());
    assert!(same(&after[..2], &before[..2]));
    assert!(same(&after[3..], &before[3..]));
    assert_eq!(after[2].marker(), APP1);
    assert_eq!(after[2].payload().len(), before[2].payload().len());
    assert_eq!(&after[2].payload()[..62], &before[2].payload()[..62]);
    assert_eq!(&after[2].payload()[62..82], b"2021:01:01 00:00:00\0");
    assert_eq!(&after[2].payload()[82..102], b"2020:12:31 23:59:59\0");
    assert_eq!(date_of(&after, TAG_DIGITIZED).unwrap(), b"2020:12:31 23:59:59\0".to_vec());
}

#[test]
fn a_shorter_date_value_is_relocated_and_the_result_round_trips() {
    let mut t = b"MM\0\x2A\0\0\0\x08".to_vec();
    t.extend_from_slice(&[0, 1]);
    t.extend_from_slice(&[0x87, 0x69, 0, 4, 0, 0, 0, 1, 0, 0, 0, 26]);
    t.extend_from_slice(&[0, 0, 0, 0]);
    t.extend_from_slice(&[0, 2]);
    t.extend_from_slice(&[0x90, 0x03, 0, 2, 0, 0, 0, 11, 0, 0, 0, 56]);
    t.extend_from_slice(&[0x90, 0x04, 0, 2, 0, 0, 0, 20, 0, 0, 0, 67]);
    t.extend_from_slice(&[0, 0, 0, 0]);
    t.extend_from_slice(b"2020:01:01\0");
    t.extend_from_slice(b"1998:08:08 08:08:08\0");
    let before = with_block(&t);
    let taken = ts(2021, 1, 1, 0, 0, 0);
    let created = ts(2021, 1, 2, 3, 4, 5);
    let after = set_dates(&before, &taken, &created).unwrap();
    assert_eq!(after[2].payload().len(), before[2].payload().len() + 20);
    assert_eq!(date_of(&after, TAG_ORIGINAL).unwrap(), b"2021:01:01 00:00:00\0".to_vec());
    assert_eq!(date_of(&after, TAG_DIGITIZED).unwrap(), b"2021:01:02 03:04:05\0".to_vec());
    let bytes = serialize(&after);
    let again = parse(&bytes).unwrap();
    assert!(same(&again, &after));
    assert_eq!(date_of(&again, TAG_ORIGINAL).unwrap(), b"2021:01:01 00:00:00\0".to_vec());
    assert!(same(&set_dates(&again, &taken, &created).unwrap(), &after));
}

#[test]
fn a_block_that_cannot_be_read_is_left_alone() {
    let taken = ts(2021, 1, 1, 0, 0, 0);
    let mut t = little_endian_block();
    t[0] = b'X';
    assert_eq!(
        set_dates(&with_block(&t), &taken, &taken).unwrap_err(),
        InjectError::UnsupportedDirectoryLayout
    );
    let mut t = little_endian_block();
    t[4] = 200;
    assert_eq!(
        set_dates(&with_block(&t), &taken, &taken).unwrap_err(),
        InjectError::UnsupportedDirectoryLayout
    );
    assert_eq!(
        set_dates(&with_block(&[]), &taken, &taken).unwrap_err(),
        InjectError::UnsupportedDirectoryLayout
    );
}

#[test]
fn a_block_at_the_size_limit_cannot_grow() {
    let taken = ts(2021, 1, 1, 0, 0, 0);
    let mut t = b"II\x2A\0\x08\0\0\0\0\0\0\0\0\0".to_vec();
    t.resize(65527, 0);
    assert_eq!(
        set_dates(&with_block(&t), &taken, &taken).unwrap_err(),
        InjectError::UnsupportedDirectoryLayout
    );
}

#[test]
fn segments_that_do_not_start_a_container_are_refused() {
    let taken = ts(2021, 1, 1, 0, 0, 0);
    assert_eq!(set_dates(&vec![], &taken, &taken).unwrap_err(), InjectError::FormatError);
    let mut segments = plain();
    segments.remove(0);
    assert_eq!(set_dates(&segments, &taken, &taken).unwrap_err(), InjectError::FormatError);
    let mut segments = plain();
    segments[0] = Segment::bare(0xD9).unwrap();
    assert_eq!(set_dates(&segments, &taken, &taken).unwrap_err(), InjectError::FormatError);
}

#[test]
fn only_the_first_metadata_segment_counts() {
    let mut segments = with_block(&little_endian_block());
    let mut second = b"Exif\0\0".to_vec();
    second.extend_from_slice(&little_endian_block());
    segments.insert(3, Segment::sized(0xE1, second).unwrap());
    let taken = ts(2021, 1, 1, 0, 0, 0);
    let after = set_dates(&segments, &taken, &taken).unwrap();
    assert_eq!(&after[2].payload()[62..82], b"2021:01:01 00:00:00\0");
    assert_eq!(after[3].payload(), segments[3].payload());
}

#[test]
fn other_application_segments_are_not_metadata() {
    let xmp = Segment::sized(0xE1, b"http://ns.adobe.com/xap/1.0/\0<x/>".to_vec()).unwrap();
    assert!(!carries_metadata(&xmp));
    let short = Segment::sized(0xE1, b"Exif\0".to_vec()).unwrap();
    assert!(!carries_metadata(&short));
    let other = Segment::sized(0xE2, b"Exif\0\0MM".to_vec()).unwrap();
    assert!(!carries_metadata(&other));
    let bare = Segment::bare(0xD8).unwrap();
    assert!(!carries_metadata(&bare));
    let scan = Segment::scan(b"Exif\0\0".to_vec());
    assert!(!carries_metadata(&scan));
    let exif = Segment::sized(0xE1, b"Exif\0\0".to_vec()).unwrap();
    assert!(carries_metadata(&exif));
    assert_eq!(find_metadata(&plain()), 5);
    assert!(date_of(&plain(), TAG_ORIGINAL).is_none());

    let mut segments = plain();
    segments.insert(1, xmp);
    let taken = ts(2021, 1, 1, 0, 0, 0);
    let after = set_dates(&segments, &taken, &taken).unwrap();
    assert_eq!(after.len(), 7);
    assert!(carries_metadata(&after[1]));
    assert_eq!(after[2].payload(), segments[1].payload());
}
