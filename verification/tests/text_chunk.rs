use photo_restamp::chunk::{parse, serialize, Chunk};
use photo_restamp::error::InjectError;
use photo_restamp::text::{carries_dates, find_date_chunk, make_date_chunk, set_dates};
use photo_restamp::timestamp::NormalizedTimestamp;

fn ts(y: i32, mo: u32, d: u32, h: u32, mi: u32, s: u32) -> NormalizedTimestamp {
    NormalizedTimestamp::new(y, mo, d, h, mi, s).unwrap()
}

fn plain() -> Vec<Chunk> {
    vec![
        Chunk::new(*b"IHDR", vec![0, 0, 0, 1, 0, 0, 0, 1, 8, 0, 0, 0, 0]).unwrap(),
        Chunk::new(*b"tEXt", b"Comment\0hello".to_vec()).unwrap(),
        Chunk::new(*b"IDAT", vec![0x78, 0x9C, 0x63, 0x60, 0, 0, 0, 2, 0, 1]).unwrap(),
        Chunk::new(*b"IEND", vec![]).unwrap(),
    ]
}

fn same(a: &[Chunk], b: &[Chunk]) -> bool {
    a.len() == b.len()
        && a.iter()
            .zip(b.iter())
            .all(|(x, y)| x.type_code() == y.type_code() && x.payload() == y.payload())
}

#[test]
fn the_date_chunk_holds_both_dates_as_key_and_value() {
    let c = make_date_chunk(&ts(2021, 1, 1, 0, 0, 0), &ts(2020, 12, 31, 23, 59, 59));
    assert_eq!(&c.type_code(), b"tEXt");
    assert_eq!(
        c.payload().as_slice(),
        &b"DateTimeOriginal\x002021:01:01 00:00:00\0DateTimeDigitized\x002020:12:31 23:59:59"[..]
    );
    assert_eq!(c.payload().len(), 74);
    assert!(carries_dates(&c));
}

#[test]
fn a_new_date_chunk_goes_right_behind_the_header() {
    let before = plain();
    assert_eq!(find_date_chunk(&before), 4);
    let taken = ts(2021, 1, 1, 0, 0, 0);
    let after = set_dates(&before, &taken, &taken).unwrap();
    assert_eq!(after.len(), 5);
    assert!(same(&after[..1], &before[..1]));
    assert!(same(&after[2..], &before[1..]));
    assert!(carries_dates(&after[1]));
    assert_eq!(find_date_chunk(&after), 1);
    assert_eq!(
        after[1].payload().as_slice(),
        &b"DateTimeOriginal\x002021:01:01 00:00:00\0DateTimeDigitized\x002021:01:01 00:00:00"[..]
    );
}

#[test]
fn an_existing_date_chunk_is_replaced_where_it_stands() {
    let mut before = plain();
    before.insert(3, make_date_chunk(&ts(1999, 9, 9, 9, 9, 9), &ts(1998, 8, 8, 8, 8, 8)));
    let taken = ts(2021, 1, 1, 0, 0, 0);
    let created = ts(2021, 6, 7, 8, 9, 10);
    let after = set_dates(&before, &taken, &created).unwrap();
    assert_eq!(after.len(), 5);
    assert!(same(&after[..3], &before[..3]));
    assert!(same(&after[4..], &before[4..]));
    assert_eq!(
        after[3].payload().as_slice(),
        &b"DateTimeOriginal\x002021:01:01 00:00:00\0DateTimeDigitized\x002021:06:07 08:09:10"[..]
    );
}

#[test]
fn a_date_chunk_of_any_content_is_replaced() {
    let mut before = plain();
    before.insert(2, Chunk::new(*b"tEXt", b"DateTimeOriginal\0long ago".to_vec()).unwrap());
    let taken = ts(2021, 1, 1, 0, 0, 0);
    let after = set_dates(&before, &taken, &taken).unwrap();
    assert_eq!(after.len(), 5);
    assert_eq!(after[2].payload().len(), 74);
    assert_eq!(after[1].payload().as_slice(), b"Comment\0hello");
}

#[test]
fn setting_the_same_dates_in_chunks_again_changes_nothing() {
    let taken = ts(2021, 1, 1, 0, 0, 0);
    let created = ts(2021, 6, 7, 8, 9, 10);
    let once = set_dates(&plain(), &taken, &created).unwrap();
    let twice = set_dates(&once, &taken, &created).unwrap();
    assert!(same(&once, &twice));
    assert_eq!(serialize(&once), serialize(&twice));
}

#[test]
fn chunks_without_a_header_in_front_are_refused() {
    let taken = ts(2021, 1, 1, 0, 0, 0);
    assert_eq!(set_dates(&vec![], &taken, &taken).unwrap_err(), InjectError::FormatError);
    let mut chunks = plain();
    chunks.remove(0);
    assert_eq!(set_dates(&chunks, &taken, &taken).unwrap_err(), InjectError::FormatError);
    let mut chunks = plain();
    chunks.swap(0, 1);
    assert_eq!(set_dates(&chunks, &taken, &taken).unwrap_err(), InjectError::FormatError);
}

#[test]
fn other_chunks_are_no_date_chunks() {
    assert!(!carries_dates(&Chunk::new(*b"tEXt", b"Comment\0hello".to_vec()).unwrap()));
    assert!(!carries_dates(&Chunk::new(*b"tEXt", b"DateTimeOriginal".to_vec()).unwrap()));
    assert!(!carries_dates(&Chunk::new(*b"tEXt", b"DateTimeOriginals\0".to_vec()).unwrap()));
    assert!(!carries_dates(&Chunk::new(*b"zTXt", b"DateTimeOriginal\0x".to_vec()).unwrap()));
    assert!(!carries_dates(&Chunk::new(*b"tEXt", vec![]).unwrap()));
    assert!(carries_dates(&Chunk::new(*b"tEXt", b"DateTimeOriginal\0".to_vec()).unwrap()));
}

#[test]
fn the_result_parses_with_the_right_length_and_check_value() {
    let taken = ts(2021, 1, 1, 0, 0, 0);
    let after = set_dates(&plain(), &taken, &taken).unwrap();
    let bytes = serialize(&after);
    // Signature, then the header chunk of 12 + 13 bytes, then the new chunk.
    assert_eq!(&bytes[33..37], &[0, 0, 0, 74]);
    assert_eq!(&bytes[37..41], b"tEXt");
    let stored = u32::from_be_bytes([bytes[115], bytes[116], bytes[117], bytes[118]]);
    assert_eq!(stored, after[1].checksum());
    let again = parse(&bytes).unwrap();
    assert!(same(&again, &after));
}
