use photo_restamp::dates::{
    add_subdirectory, complete, fresh_block, grow, patch, prepare, read_date, relocate, update,
};
use photo_restamp::tagdir::{
    locate_directory, read_directory_at, resolve_layout, EntryType, TAG_DIGITIZED, TAG_ORIGINAL,
    TAG_SUBDIRECTORY,
};

const TAKEN: &[u8; 20] = b"2021:01:01 00:00:00\0";
const CREATED: &[u8; 20] = b"2022:02:02 12:34:56\0";

fn n16(v: u16, le: bool) -> [u8; 2] {
    if le {
        v.to_le_bytes()
    } else {
        v.to_be_bytes()
    }
}

fn n32(v: u32, le: bool) -> [u8; 4] {
    if le {
        v.to_le_bytes()
    } else {
        v.to_be_bytes()
    }
}

fn entry(tag: u16, kind: u16, count: u32, value: u32, le: bool) -> Vec<u8> {
    let mut e = Vec::new();
    e.extend_from_slice(&n16(tag, le));
    e.extend_from_slice(&n16(kind, le));
    e.extend_from_slice(&n32(count, le));
    e.extend_from_slice(&n32(value, le));
    e
}

fn header(le: bool, start: u32) -> Vec<u8> {
    let mut h = Vec::new();
    h.extend_from_slice(if le { b"II" } else { b"MM" });
    h.extend_from_slice(&n16(42, le));
    h.extend_from_slice(&n32(start, le));
    h
}

/// A block with its root directory at 8, the date directory right behind it
/// and `tail` behind that. The root directory holds `root_extra` and the
/// entry that points to the date directory, which starts at
/// `26 + 12 * root_extra.len()`.
fn block(le: bool, root_extra: &[Vec<u8>], dates: &[Vec<u8>], tail: &[u8]) -> Vec<u8> {
    let dates_at = 26 + 12 * root_extra.len();
    let mut t = header(le, 8);
    t.extend_from_slice(&n16(root_extra.len() as u16 + 1, le));
    for e in root_extra {
        t.extend_from_slice(e);
    }
    t.extend(entry(0x8769, 4, 1, dates_at as u32, le));
    t.extend_from_slice(&n32(0, le));
    t.extend_from_slice(&n16(dates.len() as u16, le));
    for e in dates {
        t.extend_from_slice(e);
    }
    t.extend_from_slice(&n32(0, le));
    t.extend_from_slice(tail);
    t
}

/// An orientation entry in the root directory, both dates in the date
/// directory at 38, the values at 68 and 88.
fn block_with_dates(le: bool) -> Vec<u8> {
    let mut values = b"1999:09:09 09:09:09\0".to_vec();
    values.extend_from_slice(b"1998:08:08 08:08:08\0");
    block(
        le,
        &[entry(0x0112, 3, 1, 1, le)],
        &[entry(0x9003, 2, 20, 68, le), entry(0x9004, 2, 20, 88, le)],
        &values,
    )
}

#[test]
fn a_new_block_has_the_canonical_layout() {
    let block = fresh_block(TAKEN, CREATED);
    let mut expected = vec![0x4D, 0x4D, 0x00, 0x2A, 0x00, 0x00, 0x00, 0x08];
    expected.extend_from_slice(&[0x00, 0x01]);
    expected.extend_from_slice(&[0x87, 0x69, 0x00, 0x04, 0x00, 0x00, 0x00, 0x01, 0x00, 0x00, 0x00, 0x1A]);
    expected.extend_from_slice(&[0, 0, 0, 0]);
    expected.extend_from_slice(&[0x00, 0x02]);
    expected.extend_from_slice(&[0x90, 0x03, 0x00, 0x02, 0x00, 0x00, 0x00, 0x14, 0x00, 0x00, 0x00, 0x38]);
    expected.extend_from_slice(&[0x90, 0x04, 0x00, 0x02, 0x00, 0x00, 0x00, 0x14, 0x00, 0x00, 0x00, 0x4C]);
    expected.extend_from_slice(&[0, 0, 0, 0]);
    expected.extend_from_slice(TAKEN);
    expected.extend_from_slice(CREATED);
    assert_eq!(block, expected);
    assert_eq!(block.len(), 96);
    assert_eq!(read_date(&block, TAG_ORIGINAL).unwrap(), TAKEN.to_vec());
    assert_eq!(read_date(&block, TAG_DIGITIZED).unwrap(), CREATED.to_vec());
    let lay = resolve_layout(&block).unwrap();
    assert!(!lay.root.little_endian);
    assert_eq!((lay.root.start, lay.root.count), (8, 1));
    assert_eq!((lay.dates.start, lay.dates.count), (26, 2));
}

#[test]
fn patching_a_new_block_with_its_values_changes_nothing() {
    let block = fresh_block(TAKEN, CREATED);
    assert_eq!(patch(&block, TAKEN, CREATED).unwrap(), block);
}

#[test]
fn values_of_the_right_length_are_overwritten_in_place() {
    for le in [true, false] {
        let block = block_with_dates(le);
        assert_eq!(block.len(), 108);
        let out = patch(&block, TAKEN, CREATED).unwrap();
        assert_eq!(out.len(), 108);
        assert_eq!(&out[..68], &block[..68]);
        assert_eq!(&out[68..88], TAKEN);
        assert_eq!(&out[88..108], CREATED);
        assert_eq!(read_date(&out, TAG_ORIGINAL).unwrap(), TAKEN.to_vec());
        assert_eq!(read_date(&out, TAG_DIGITIZED).unwrap(), CREATED.to_vec());
    }
}

#[test]
fn patching_twice_gives_the_same_bytes() {
    for le in [true, false] {
        let block = block_with_dates(le);
        let once = patch(&block, TAKEN, CREATED).unwrap();
        let twice = patch(&once, TAKEN, CREATED).unwrap();
        assert_eq!(once, twice);
    }
}

#[test]
fn a_value_of_another_length_is_relocated_behind_the_end() {
    for le in [true, false] {
        // The first date is eleven bytes long; the second has the right length.
        let mut values = b"2020:01:01\0".to_vec();
        values.extend_from_slice(b"1998:08:08 08:08:08\0");
        let t = block(
            le,
            &[],
            &[entry(0x9003, 2, 11, 56, le), entry(0x9004, 2, 20, 67, le)],
            &values,
        );
        assert_eq!(t.len(), 87);
        assert!(read_date(&t, TAG_ORIGINAL).is_none());
        assert_eq!(read_date(&t, TAG_DIGITIZED).unwrap(), b"1998:08:08 08:08:08\0".to_vec());

        let out = patch(&t, TAKEN, CREATED).unwrap();
        assert_eq!(out.len(), 107);
        // Header, root directory, entry count and the other entry stay.
        assert_eq!(&out[..28], &t[..28]);
        assert_eq!(&out[40..56], &t[40..56]);
        // The old value stays where it was; nothing is moved.
        assert_eq!(&out[56..67], b"2020:01:01\0");
        // The entry now has twenty bytes at the old end of the block.
        assert_eq!(&out[28..40], entry(0x9003, 2, 20, 87, le).as_slice());
        assert_eq!(&out[87..107], TAKEN);
        // The second value is overwritten where it stood.
        assert_eq!(&out[67..87], CREATED);
        assert_eq!(read_date(&out, TAG_ORIGINAL).unwrap(), TAKEN.to_vec());
        assert_eq!(read_date(&out, TAG_DIGITIZED).unwrap(), CREATED.to_vec());
        // The directories are where they were.
        let lay = resolve_layout(&out).unwrap();
        assert_eq!(lay.root.little_endian, le);
        assert_eq!((lay.root.start, lay.root.count), (8, 1));
        assert_eq!((lay.dates.start, lay.dates.count), (26, 2));
        assert_eq!(patch(&out, TAKEN, CREATED).unwrap(), out);
    }
}

#[test]
fn both_values_of_another_length_go_behind_the_end_in_order() {
    let le = true;
    // An inline value and a value of another type.
    let t = block(
        le,
        &[],
        &[entry(0x9004, 2, 4, 0x0030_3030, le), entry(0x9003, 7, 20, 56, le)],
        &[0xEE; 20],
    );
    assert_eq!(t.len(), 76);
    let out = patch(&t, TAKEN, CREATED).unwrap();
    assert_eq!(out.len(), 116);
    assert_eq!(&out[28..40], entry(0x9004, 2, 20, 96, le).as_slice());
    assert_eq!(&out[40..52], entry(0x9003, 2, 20, 76, le).as_slice());
    assert_eq!(&out[56..76], &[0xEE; 20]);
    assert_eq!(&out[76..96], TAKEN);
    assert_eq!(&out[96..116], CREATED);
    assert_eq!(patch(&out, TAKEN, CREATED).unwrap(), out);
}

#[test]
fn missing_entries_are_added_to_a_copy_of_the_date_directory() {
    for le in [true, false] {
        // A date directory with one entry of a larger tag and a link, then
        // three bytes.
        let mut t = block(le, &[], &[entry(0xA002, 4, 1, 640, le)], b"ab\0");
        t[40..44].copy_from_slice(&n32(0x1234_5678, le));
        assert_eq!(t.len(), 47);

        let out = patch(&t, TAKEN, CREATED).unwrap();
        // One pad byte, then the copy at 48: count, the two new entries in
        // front of the old one, link; then the values at 90 and 110.
        assert_eq!(out.len(), 130);
        assert_eq!(&out[..18], &t[..18]);
        assert_eq!(&out[18..22], &n32(48, le));
        assert_eq!(&out[22..47], &t[22..47]);
        assert_eq!(out[47], 0);
        assert_eq!(&out[48..50], &n16(3, le));
        assert_eq!(&out[50..62], entry(0x9003, 2, 20, 90, le).as_slice());
        assert_eq!(&out[62..74], entry(0x9004, 2, 20, 110, le).as_slice());
        assert_eq!(&out[74..86], &t[28..40]);
        assert_eq!(&out[86..90], &n32(0x1234_5678, le));
        assert_eq!(&out[90..110], TAKEN);
        assert_eq!(&out[110..130], CREATED);
        assert_eq!(read_date(&out, TAG_ORIGINAL).unwrap(), TAKEN.to_vec());
        assert_eq!(read_date(&out, TAG_DIGITIZED).unwrap(), CREATED.to_vec());
        let lay = resolve_layout(&out).unwrap();
        assert_eq!((lay.root.start, lay.root.count), (8, 1));
        assert_eq!((lay.dates.start, lay.dates.count), (48, 3));
        assert_eq!(patch(&out, TAKEN, CREATED).unwrap(), out);
    }
}

#[test]
fn added_entries_keep_a_sorted_directory_sorted() {
    let le = true;
    let t = block(
        le,
        &[],
        &[
            entry(0x829A, 5, 1, 200, le),
            entry(0x9000, 7, 4, 0x3032_3330, le),
            entry(0x9101, 7, 4, 0x0003_0201, le),
            entry(0xA002, 4, 1, 640, le),
        ],
        &[],
    );
    assert_eq!(t.len(), 80);
    let out = patch(&t, TAKEN, CREATED).unwrap();
    let lay = resolve_layout(&out).unwrap();
    assert_eq!((lay.dates.start, lay.dates.count), (80, 6));
    let tags: Vec<u16> = (0..6).map(|i| lay.dates.read_entry(&out, i).tag_id).collect();
    assert_eq!(tags, vec![0x829A, 0x9000, 0x9003, 0x9004, 0x9101, 0xA002]);
    assert_eq!(&out[82..106], &t[28..52]);
    assert_eq!(&out[130..154], &t[52..76]);
    assert_eq!(lay.dates.find_above(&out, 0x9000), 2);
    assert_eq!(lay.dates.find_above(&out, 0x9004), 4);
    assert_eq!(lay.dates.find_above(&out, 0xFFFF), 6);
    assert_eq!(lay.dates.find_above(&out, 0), 0);
    assert_eq!(read_date(&out, TAG_ORIGINAL).unwrap(), TAKEN.to_vec());
    assert_eq!(read_date(&out, TAG_DIGITIZED).unwrap(), CREATED.to_vec());
    assert_eq!(patch(&out, TAKEN, CREATED).unwrap(), out);

    // The second date alone goes behind the first.
    let t = block(
        le,
        &[],
        &[
            entry(0x9000, 7, 4, 0x3032_3330, le),
            entry(0x9003, 2, 20, 68, le),
            entry(0xA002, 4, 1, 640, le),
        ],
        b"1999:09:09 09:09:09\0",
    );
    let out = patch(&t, TAKEN, CREATED).unwrap();
    let lay = resolve_layout(&out).unwrap();
    let tags: Vec<u16> = (0..4).map(|i| lay.dates.read_entry(&out, i).tag_id).collect();
    assert_eq!(tags, vec![0x9000, 0x9003, 0x9004, 0xA002]);
    assert_eq!(&out[68..88], TAKEN);
    assert_eq!(patch(&out, TAKEN, CREATED).unwrap(), out);
}

#[test]
fn one_missing_entry_is_added_and_the_other_kept() {
    let le = false;
    let t = block(le, &[], &[entry(0x9004, 2, 20, 44, le)], b"1998:08:08 08:08:08\0");
    assert_eq!(t.len(), 64);
    let out = patch(&t, TAKEN, CREATED).unwrap();
    // The copy starts at 64: count, the new entry in front of the old one,
    // link, then one new value.
    assert_eq!(out.len(), 64 + 2 + 24 + 4 + 20);
    assert_eq!(&out[18..22], &n32(64, le));
    assert_eq!(&out[64..66], &n16(2, le));
    assert_eq!(&out[66..78], entry(0x9003, 2, 20, 94, le).as_slice());
    assert_eq!(&out[78..90], entry(0x9004, 2, 20, 44, le).as_slice());
    assert_eq!(&out[44..64], CREATED);
    assert_eq!(&out[94..114], TAKEN);
    assert_eq!(patch(&out, TAKEN, CREATED).unwrap(), out);
}

#[test]
fn a_block_without_a_date_directory_gets_one() {
    for le in [true, false] {
        // A root directory with one entry and a link, then three bytes.
        let mut t = header(le, 8);
        t.extend_from_slice(&n16(1, le));
        t.extend(entry(0x010F, 2, 3, 26, le));
        t.extend_from_slice(&n32(0x0102_0304, le));
        t.extend_from_slice(b"ab\0");
        assert_eq!(t.len(), 29);
        assert!(resolve_layout(&t).is_none());
        assert!(read_date(&t, TAG_ORIGINAL).is_none());

        let out = patch(&t, TAKEN, CREATED).unwrap();
        // One pad byte; the copy of the root directory at 30 with the new
        // entry; the date directory at 60; the values at 90 and 110.
        assert_eq!(out.len(), 130);
        assert_eq!(&out[..4], &t[..4]);
        assert_eq!(&out[4..8], &n32(30, le));
        assert_eq!(&out[8..29], &t[8..29]);
        assert_eq!(out[29], 0);
        assert_eq!(&out[30..32], &n16(2, le));
        assert_eq!(&out[32..44], &t[10..22]);
        assert_eq!(&out[44..56], entry(0x8769, 4, 1, 60, le).as_slice());
        assert_eq!(&out[56..60], &n32(0x0102_0304, le));
        assert_eq!(&out[60..62], &n16(2, le));
        assert_eq!(&out[62..74], entry(0x9003, 2, 20, 90, le).as_slice());
        assert_eq!(&out[74..86], entry(0x9004, 2, 20, 110, le).as_slice());
        assert_eq!(&out[86..90], &[0, 0, 0, 0]);
        assert_eq!(&out[90..110], TAKEN);
        assert_eq!(&out[110..130], CREATED);
        assert_eq!(read_date(&out, TAG_ORIGINAL).unwrap(), TAKEN.to_vec());
        assert_eq!(read_date(&out, TAG_DIGITIZED).unwrap(), CREATED.to_vec());
        assert_eq!(patch(&out, TAKEN, CREATED).unwrap(), out);
    }
}

#[test]
fn the_pointing_entry_goes_in_front_of_larger_tags() {
    let le = false;
    let mut t = header(le, 8);
    t.extend_from_slice(&n16(2, le));
    t.extend(entry(0x0112, 3, 1, 0x0001_0000, le));
    t.extend(entry(0x8825, 4, 1, 8, le));
    t.extend_from_slice(&n32(0, le));
    assert_eq!(t.len(), 38);
    let out = patch(&t, TAKEN, CREATED).unwrap();
    let lay = resolve_layout(&out).unwrap();
    assert_eq!((lay.root.start, lay.root.count), (38, 3));
    let tags: Vec<u16> = (0..3).map(|i| lay.root.read_entry(&out, i).tag_id).collect();
    assert_eq!(tags, vec![0x0112, 0x8769, 0x8825]);
    assert_eq!(&out[40..52], &t[10..22]);
    assert_eq!(&out[52..64], entry(0x8769, 4, 1, 80, le).as_slice());
    assert_eq!(&out[64..76], &t[22..34]);
    assert_eq!((lay.dates.start, lay.dates.count), (80, 2));
    assert_eq!(out.len(), 80 + 30 + 40);
    assert_eq!(read_date(&out, TAG_ORIGINAL).unwrap(), TAKEN.to_vec());
    assert_eq!(patch(&out, TAKEN, CREATED).unwrap(), out);
}

#[test]
fn the_steps_of_patching_can_be_taken_one_by_one() {
    let le = true;
    let mut t = header(le, 8);
    t.extend_from_slice(&n16(0, le));
    t.extend_from_slice(&n32(0, le));
    assert_eq!(t.len(), 14);
    let root = locate_directory(&t).unwrap();
    assert_eq!((root.start, root.count), (8, 0));
    assert_eq!(root.find_tag(&t, TAG_SUBDIRECTORY), 0);

    // The root directory is copied to 14 with the new entry; the date
    // directory follows at 32.
    let p = add_subdirectory(&t, &root).unwrap();
    assert_eq!(p.len(), 14 + 18 + 30);
    assert_eq!(prepare(&t).unwrap(), p);
    assert_eq!(prepare(&p).unwrap(), p);
    let lay = resolve_layout(&p).unwrap();
    assert_eq!((lay.root.start, lay.root.count), (14, 1));
    assert_eq!((lay.dates.start, lay.dates.count), (32, 2));
    assert_eq!(lay.dates.find_tag(&p, TAG_ORIGINAL), 0);
    assert_eq!(lay.dates.find_tag(&p, TAG_DIGITIZED), 1);
    assert!(!lay.entry_in_place(&p, 0));
    assert!(!lay.entry_in_place(&p, 1));
    assert!(read_date(&p, TAG_ORIGINAL).is_none());
    assert_eq!(complete(&p).unwrap(), p);

    let out = update(&p, &lay, TAKEN, CREATED).unwrap();
    assert_eq!(out.len(), p.len() + 40);
    assert_eq!(read_date(&out, TAG_ORIGINAL).unwrap(), TAKEN.to_vec());
    assert_eq!(patch(&t, TAKEN, CREATED).unwrap(), out);
    let lay = resolve_layout(&out).unwrap();
    assert!(lay.entry_in_place(&out, 0));
    assert!(lay.entry_in_place(&out, 1));
}

#[test]
fn grow_reserves_entries_without_values() {
    let le = false;
    let t = block(le, &[], &[], &[]);
    assert_eq!(t.len(), 32);
    let lay = resolve_layout(&t).unwrap();
    assert_eq!(lay.dates.count, 0);
    let g = grow(&t, &lay).unwrap();
    assert_eq!(g.len(), 32 + 30);
    assert_eq!(complete(&t).unwrap(), g);
    let grown = resolve_layout(&g).unwrap();
    assert_eq!(grown.root, lay.root);
    assert_eq!((grown.dates.start, grown.dates.count), (32, 2));
    assert_eq!(grown.dates.find_tag(&g, TAG_ORIGINAL), 0);
    assert_eq!(grown.dates.find_tag(&g, TAG_DIGITIZED), 1);
    assert!(update(&t, &lay, TAKEN, CREATED).is_none());
    assert!(update(&g, &grown, TAKEN, CREATED).is_some());
}

#[test]
fn relocate_copies_a_directory_and_repoints_its_link() {
    let le = true;
    let t = block(le, &[], &[entry(0x9004, 2, 20, 44, le)], &[7; 21]);
    assert_eq!(t.len(), 65);
    let lay = resolve_layout(&t).unwrap();
    let added = entry(0x0001, 1, 1, 9, le);
    let r = relocate(&t, &lay.dates, 18, 1, &added);
    assert_eq!(r.len(), 66 + 2 + 24 + 4);
    assert_eq!(&r[..18], &t[..18]);
    assert_eq!(&r[18..22], &n32(66, le));
    assert_eq!(&r[22..65], &t[22..65]);
    assert_eq!(r[65], 0);
    assert_eq!(&r[66..68], &n16(2, le));
    assert_eq!(&r[68..80], &t[28..40]);
    assert_eq!(&r[80..92], added.as_slice());
    assert_eq!(&r[92..96], &t[40..44]);
    let r = relocate(&t, &lay.dates, 18, 0, &added);
    assert_eq!(r.len(), 96);
    assert_eq!(&r[66..68], &n16(2, le));
    assert_eq!(&r[68..80], added.as_slice());
    assert_eq!(&r[80..92], &t[28..40]);
    assert_eq!(&r[92..96], &t[40..44]);
}

#[test]
fn entries_can_be_read_one_by_one() {
    for le in [true, false] {
        let t = block_with_dates(le);
        let lay = resolve_layout(&t).unwrap();
        let e = lay.root.read_entry(&t, 0);
        assert_eq!((e.tag_id, e.type_code, e.count, e.value_or_offset), (0x0112, 3, 1, 1));
        assert_eq!(e.kind(), EntryType::Short);
        let e = lay.root.read_entry(&t, 1);
        assert_eq!((e.tag_id, e.type_code, e.count, e.value_or_offset), (0x8769, 4, 1, 38));
        assert_eq!(e.kind(), EntryType::Long);
        let e = lay.dates.read_entry(&t, 1);
        assert_eq!((e.tag_id, e.type_code, e.count, e.value_or_offset), (0x9004, 2, 20, 88));
        assert_eq!(e.kind(), EntryType::Ascii);
        let d = read_directory_at(&t, le, 38).unwrap();
        assert_eq!(d, lay.dates);
        assert!(read_directory_at(&t, le, 7).is_none());
        assert!(read_directory_at(&t, le, 107).is_none());
        assert!(read_directory_at(&t, le, 0xFFFF_FFFF).is_none());
    }
    let kinds: Vec<EntryType> = (0u16..8)
        .map(|code| {
            let t = block(true, &[entry(0x0100, code, 1, 0, true)], &[], &[]);
            resolve_layout(&t).unwrap().root.read_entry(&t, 0).kind()
        })
        .collect();
    assert_eq!(
        kinds,
        vec![
            EntryType::Other,
            EntryType::Byte,
            EntryType::Ascii,
            EntryType::Short,
            EntryType::Long,
            EntryType::Rational,
            EntryType::Other,
            EntryType::Other,
        ]
    );
}

#[test]
fn a_wrong_byte_order_mark_is_refused() {
    let mut t = block_with_dates(true);
    t[1] = b'M';
    assert!(locate_directory(&t).is_none());
    assert!(patch(&t, TAKEN, CREATED).is_none());
    let mut t = block_with_dates(false);
    t[0] = b'X';
    t[1] = b'X';
    assert!(patch(&t, TAKEN, CREATED).is_none());
}

#[test]
fn a_wrong_magic_number_is_refused() {
    let mut t = block_with_dates(true);
    t[2] = 43;
    assert!(patch(&t, TAKEN, CREATED).is_none());
}

#[test]
fn a_root_directory_outside_the_block_is_refused() {
    // The offset points into the header.
    let mut t = block_with_dates(true);
    t[4] = 4;
    assert!(patch(&t, TAKEN, CREATED).is_none());
    // The offset points behind the end.
    let mut t = block_with_dates(false);
    t[4..8].copy_from_slice(&n32(108, false));
    assert!(patch(&t, TAKEN, CREATED).is_none());
    // The offset is huge.
    let mut t = block_with_dates(true);
    t[4..8].copy_from_slice(&[0xFF, 0xFF, 0xFF, 0xFF]);
    assert!(patch(&t, TAKEN, CREATED).is_none());
    // The entry count runs past the end.
    let mut t = block_with_dates(true);
    t[8] = 9;
    assert!(patch(&t, TAKEN, CREATED).is_none());
    // The block is too short for a header.
    assert!(patch(b"II\x2A\0", TAKEN, CREATED).is_none());
    assert!(patch(&[], TAKEN, CREATED).is_none());
}

#[test]
fn a_date_directory_that_cannot_be_reached_is_refused() {
    for le in [true, false] {
        let good = block_with_dates(le);
        assert!(patch(&good, TAKEN, CREATED).is_some());
        // The pointing entry is at 22: tag, type, count, offset.
        // Its type is not a four-byte number.
        let mut t = good.clone();
        t[24..26].copy_from_slice(&n16(3, le));
        assert!(resolve_layout(&t).is_none());
        assert!(patch(&t, TAKEN, CREATED).is_none());
        // It holds two numbers.
        let mut t = good.clone();
        t[26..30].copy_from_slice(&n32(2, le));
        assert!(patch(&t, TAKEN, CREATED).is_none());
        // It points into the header.
        let mut t = good.clone();
        t[30..34].copy_from_slice(&n32(6, le));
        assert!(patch(&t, TAKEN, CREATED).is_none());
        // It points behind the end.
        let mut t = good.clone();
        t[30..34].copy_from_slice(&n32(107, le));
        assert!(patch(&t, TAKEN, CREATED).is_none());
        // It points into the root directory itself.
        let mut t = good.clone();
        t[30..34].copy_from_slice(&n32(8, le));
        assert!(patch(&t, TAKEN, CREATED).is_none());
        let mut t = good.clone();
        t[30..34].copy_from_slice(&n32(36, le));
        assert!(patch(&t, TAKEN, CREATED).is_none());
        // The date directory claims more entries than the block holds.
        let mut t = good.clone();
        t[38..40].copy_from_slice(&n16(6, le));
        assert!(patch(&t, TAKEN, CREATED).is_none());
    }
}

#[test]
fn values_that_share_bytes_are_refused() {
    for le in [true, false] {
        let mut t = block(
            le,
            &[],
            &[entry(0x9003, 2, 20, 56, le), entry(0x9004, 2, 20, 66, le)],
            &[0x20; 30],
        );
        assert_eq!(t.len(), 86);
        assert!(patch(&t, TAKEN, CREATED).is_none());
        // The same offset for both.
        t[48..52].copy_from_slice(&n32(56, le));
        assert!(patch(&t, TAKEN, CREATED).is_none());
        // Exactly twenty apart is fine.
        t.extend_from_slice(&[0x20; 10]);
        t[48..52].copy_from_slice(&n32(76, le));
        assert!(patch(&t, TAKEN, CREATED).is_some());
    }
}

#[test]
fn an_offset_into_a_directory_or_past_the_end_is_not_written_through() {
    let le = true;
    // The first value claims to lie in the date directory, the second past
    // the end.
    let t = block(
        le,
        &[],
        &[entry(0x9003, 2, 20, 30, le), entry(0x9004, 2, 20, 40, le)],
        &[],
    );
    assert_eq!(t.len(), 56);
    let out = patch(&t, TAKEN, CREATED).unwrap();
    assert_eq!(out.len(), 96);
    assert_eq!(&out[..28], &t[..28]);
    assert_eq!(&out[28..40], entry(0x9003, 2, 20, 56, le).as_slice());
    assert_eq!(&out[40..52], entry(0x9004, 2, 20, 76, le).as_slice());
    assert_eq!(&out[56..76], TAKEN);
    assert_eq!(&out[76..96], CREATED);

    // The first value claims to lie in the root directory.
    let t = block(
        le,
        &[],
        &[entry(0x9003, 2, 20, 8, le), entry(0x9004, 2, 20, 56, le)],
        &[0x20; 20],
    );
    let out = patch(&t, TAKEN, CREATED).unwrap();
    assert_eq!(out.len(), 96);
    assert_eq!(&out[..28], &t[..28]);
    assert_eq!(&out[28..40], entry(0x9003, 2, 20, 76, le).as_slice());
    assert_eq!(&out[56..76], CREATED);
    assert_eq!(&out[76..96], TAKEN);
}

#[test]
fn a_value_in_front_of_the_directories_is_overwritten_in_place() {
    let le = false;
    let mut t = header(le, 48);
    t.extend_from_slice(b"1999:09:09 09:09:09\0");
    t.extend_from_slice(b"1998:08:08 08:08:08\0");
    t.extend_from_slice(&n16(1, le));
    t.extend(entry(0x8769, 4, 1, 66, le));
    t.extend_from_slice(&n32(0, le));
    t.extend_from_slice(&n16(2, le));
    t.extend(entry(0x9003, 2, 20, 8, le));
    t.extend(entry(0x9004, 2, 20, 28, le));
    t.extend_from_slice(&n32(0, le));
    assert_eq!(t.len(), 96);
    let out = patch(&t, TAKEN, CREATED).unwrap();
    assert_eq!(out.len(), t.len());
    assert_eq!(&out[..8], &t[..8]);
    assert_eq!(&out[8..28], TAKEN);
    assert_eq!(&out[28..48], CREATED);
    assert_eq!(&out[48..], &t[48..]);
}

#[test]
fn the_first_entry_with_a_tag_counts() {
    let le = true;
    let mut values = vec![0x41; 20];
    values.extend_from_slice(&[0x42; 20]);
    values.extend_from_slice(&[0x43; 20]);
    let t = block(
        le,
        &[],
        &[
            entry(0x9003, 2, 20, 68, le),
            entry(0x9003, 2, 20, 88, le),
            entry(0x9004, 2, 20, 108, le),
        ],
        &values,
    );
    let lay = resolve_layout(&t).unwrap();
    assert_eq!(lay.dates.find_tag(&t, 0x9003), 0);
    assert_eq!(lay.dates.find_tag(&t, 0x9004), 2);
    assert_eq!(lay.dates.find_tag(&t, 0x0112), 3);
    let out = patch(&t, TAKEN, CREATED).unwrap();
    assert_eq!(&out[68..88], TAKEN);
    assert_eq!(&out[88..108], &[0x42; 20]);
    assert_eq!(&out[108..128], CREATED);
}

#[test]
fn dates_in_the_root_directory_are_not_the_dates() {
    let le = true;
    let mut values = vec![0x41; 20];
    values.extend_from_slice(b"1999:09:09 09:09:09\0");
    values.extend_from_slice(b"1998:08:08 08:08:08\0");
    let t = block(
        le,
        &[entry(0x9003, 2, 20, 68, le)],
        &[entry(0x9003, 2, 20, 88, le), entry(0x9004, 2, 20, 108, le)],
        &values,
    );
    assert_eq!(t.len(), 128);
    assert_eq!(read_date(&t, TAG_ORIGINAL).unwrap(), b"1999:09:09 09:09:09\0".to_vec());
    let out = patch(&t, TAKEN, CREATED).unwrap();
    assert_eq!(&out[..88], &t[..88]);
    assert_eq!(&out[88..108], TAKEN);
    assert_eq!(&out[108..128], CREATED);
}

#[test]
fn a_block_that_would_outgrow_a_segment_is_refused() {
    let le = true;
    let mut t = header(le, 8);
    t.extend_from_slice(&n16(0, le));
    t.extend_from_slice(&n32(0, le));
    // The copy of the root directory starts on an even offset and takes 18
    // bytes, the date directory 30, the two values 40 more.
    t.resize(65439, 0);
    assert!(patch(&t, TAKEN, CREATED).is_none());
    t.truncate(65438);
    let out = patch(&t, TAKEN, CREATED).unwrap();
    assert_eq!(out.len(), 65526);
    // No room for the directories themselves.
    t.resize(65500, 0);
    assert!(prepare(&t).is_none());
    let mut big = block_with_dates(true);
    big.resize(65527, 0);
    assert_eq!(patch(&big, TAKEN, CREATED).unwrap().len(), 65527);
    big.resize(65528, 0);
    assert!(locate_directory(&big).is_none());
    assert!(patch(&big, TAKEN, CREATED).is_none());
    // A value that has to move finds no room at the end.
    let mut full = block(
        le,
        &[],
        &[entry(0x9003, 2, 5, 56, le), entry(0x9004, 2, 20, 61, le)],
        &[0x20; 25],
    );
    full.resize(65508, 0);
    assert!(patch(&full, TAKEN, CREATED).is_none());
    full.truncate(65507);
    assert_eq!(patch(&full, TAKEN, CREATED).unwrap().len(), 65527);
}
