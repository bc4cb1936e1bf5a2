use bitcask::codec::{read_data_record, read_hint_record, DataFileEntry, HintFileEntry};
use bitcask::keydir::KeyDirectory;
use bitcask::naming::{gen_file_id, get_file_id, is_hint_of, is_segment_file, parse_decimal};
use bitcask::recovery::{build_keydir, load_segment, recovery_plan, SegmentImage};

#[test]
fn data_entry_bytes_are_little_endian() {
    let e = DataFileEntry::with_timestamp(b"key".to_vec(), b"val".to_vec(), 0x0102030405060708);
    let b = e.to_bytes();
    assert_eq!(b.len(), 32 + 3 + 3);
    assert_eq!(&b[0..8], &[0u8; 8]);
    assert_eq!(&b[8..16], &[8, 7, 6, 5, 4, 3, 2, 1]);
    assert_eq!(&b[16..24], &[3, 0, 0, 0, 0, 0, 0, 0]);
    assert_eq!(&b[24..32], &[3, 0, 0, 0, 0, 0, 0, 0]);
    assert_eq!(&b[32..], b"keyval");
}

#[test]
fn hint_entry_bytes_are_little_endian() {
    let h = HintFileEntry { timestamp: 1, key_size: 2, value_size: 300, value_pos: 4, key: b"ab".to_vec() };
    let b = h.to_bytes();
    assert_eq!(b.len(), 34);
    assert_eq!(&b[0..8], &1u64.to_le_bytes());
    assert_eq!(&b[8..16], &2u64.to_le_bytes());
    assert_eq!(&b[16..24], &[44, 1, 0, 0, 0, 0, 0, 0]);
    assert_eq!(&b[24..32], &4u64.to_le_bytes());
    assert_eq!(&b[32..], b"ab");
}

#[test]
fn data_record_decodes_back() {
    let e = DataFileEntry::with_timestamp(b"key".to_vec(), b"value".to_vec(), 77);
    let mut b = e.to_bytes();
    b.extend_from_slice(&DataFileEntry::with_timestamp(b"k2".to_vec(), Vec::new(), 78).to_bytes());
    let (key, entry, next) = read_data_record(&b, 0, 4).unwrap();
    assert_eq!(key, b"key".to_vec());
    assert_eq!(entry.file_id, 4);
    assert_eq!(entry.value_pos, 35);
    assert_eq!(entry.value_size, 5);
    assert_eq!(entry.timestamp, 77);
    assert_eq!(next, 40);
    let (key2, entry2, next2) = read_data_record(&b, next, 4).unwrap();
    assert_eq!(key2, b"k2".to_vec());
    assert_eq!(entry2.value_size, 0);
    assert_eq!(entry2.value_pos, 40 + 34);
    assert_eq!(next2, b.len());
    assert!(read_data_record(&b, next2, 4).is_none());
}

#[test]
fn hint_record_decodes_back() {
    let h = HintFileEntry { timestamp: 9, key_size: 1, value_size: 6, value_pos: 33, key: b"z".to_vec() };
    let b = h.to_bytes();
    let (key, entry, next) = read_hint_record(&b, 0, 12).unwrap();
    assert_eq!(key, b"z".to_vec());
    assert_eq!(entry.file_id, 12);
    assert_eq!(entry.value_pos, 33);
    assert_eq!(entry.value_size, 6);
    assert_eq!(entry.timestamp, 9);
    assert_eq!(next, 33);
}

#[test]
fn truncated_tail_is_dropped() {
    let mut b = DataFileEntry::with_timestamp(b"a".to_vec(), b"1".to_vec(), 1).to_bytes();
    let second = DataFileEntry::with_timestamp(b"b".to_vec(), b"2222".to_vec(), 1).to_bytes();
    b.extend_from_slice(&second[..second.len() - 1]);
    let mut kd = KeyDirectory::new();
    load_segment(&mut kd, &SegmentImage { file_id: 1, from_hint: false, bytes: b.clone() });
    assert_eq!(kd.len(), 1);
    assert!(kd.contains_key(b"a"));
    assert!(!kd.contains_key(b"b"));
    let mut header_only = DataFileEntry::with_timestamp(b"a".to_vec(), b"1".to_vec(), 1).to_bytes();
    header_only.extend_from_slice(&[0u8; 20]);
    let mut kd2 = KeyDirectory::new();
    load_segment(&mut kd2, &SegmentImage { file_id: 1, from_hint: false, bytes: header_only });
    assert_eq!(kd2.len(), 1);
}

#[test]
fn later_segment_wins_on_recovery() {
    let old = DataFileEntry::with_timestamp(b"k".to_vec(), b"old".to_vec(), 1).to_bytes();
    let new = DataFileEntry::with_timestamp(b"k".to_vec(), b"new!".to_vec(), 2).to_bytes();
    let images = vec![
        SegmentImage { file_id: 5, from_hint: false, bytes: old },
        SegmentImage { file_id: 8, from_hint: false, bytes: new },
    ];
    let kd = build_keydir(&images);
    let e = kd.get(b"k").unwrap();
    assert_eq!(e.file_id, 8);
    assert_eq!(e.value_size, 4);
    assert_eq!(e.value_pos, 33);
}

#[test]
fn file_ids_from_names() {
    assert_eq!(get_file_id(b"123.dat"), Some(123));
    assert_eq!(get_file_id(b"123.hint"), Some(123));
    assert_eq!(get_file_id(b"123"), Some(123));
    assert_eq!(get_file_id(b"+7.dat"), Some(7));
    assert_eq!(get_file_id(b"007.dat"), Some(7));
    assert_eq!(get_file_id(b"abc.dat"), None);
    assert_eq!(get_file_id(b".dat"), None);
    assert_eq!(get_file_id(b"1.2.dat"), None);
    assert_eq!(get_file_id(b"-1.dat"), None);
    assert_eq!(get_file_id(b"18446744073709551615.dat"), Some(u64::MAX));
    assert_eq!(get_file_id(b"18446744073709551616.dat"), None);
    assert_eq!(parse_decimal(b""), None);
    assert_eq!(parse_decimal(b"+"), None);
    assert_eq!(parse_decimal(b"42"), Some(42));
}

#[test]
fn segment_and_hint_names() {
    assert!(is_segment_file(b"12.dat"));
    assert!(!is_segment_file(b"12.hint"));
    assert!(!is_segment_file(b"12"));
    assert!(!is_segment_file(b"x.dat"));
    assert!(!is_segment_file(b"12.data"));
    assert!(is_hint_of(b"12.hint", b"12.dat"));
    assert!(!is_hint_of(b"13.hint", b"12.dat"));
    assert!(!is_hint_of(b"12.dat", b"12.dat"));
}

#[test]
fn gen_file_id_takes_max_plus_one() {
    let names = vec![b"5.dat".to_vec(), b"900.hint".to_vec(), b"notes".to_vec()];
    assert_eq!(gen_file_id(100, &names), Some(901));
    assert_eq!(gen_file_id(1000, &names), Some(1001));
    assert_eq!(gen_file_id(7, &Vec::new()), Some(8));
    assert_eq!(gen_file_id(u64::MAX, &Vec::new()), None);
}

#[test]
fn recovery_plan_sorts_and_pairs_hints() {
    let names = vec![
        b"30.dat".to_vec(),
        b"x.txt".to_vec(),
        b"10.dat".to_vec(),
        b"30.hint".to_vec(),
        b"010.dat".to_vec(),
        b"20.hint".to_vec(),
    ];
    let plan = recovery_plan(&names);
    assert_eq!(plan.len(), 2);
    assert_eq!(plan[0].file_id, 10);
    assert_eq!(plan[0].data, 2);
    assert_eq!(plan[0].hint, None);
    assert_eq!(plan[1].file_id, 30);
    assert_eq!(plan[1].data, 0);
    assert_eq!(plan[1].hint, Some(3));
}
