use bitcask::codec::DataFileEntry;
use bitcask::engine::{files_to_remove, tombstone_value, Bitcask, Merger};
use bitcask::error::BitcaskError;
use bitcask::keydir::KeyDirectory;
use bitcask::naming::gen_file_id;
use bitcask::recovery::{build_keydir, recovery_plan, SegmentImage};

const NOW: u64 = 1_700_000_000;

/// A directory held in memory: file names and contents.
struct MemDir {
    files: Vec<(Vec<u8>, Vec<u8>)>,
}

impl MemDir {
    fn new() -> MemDir {
        MemDir { files: Vec::new() }
    }

    fn names(&self) -> Vec<Vec<u8>> {
        self.files.iter().map(|f| f.0.clone()).collect()
    }

    fn file_mut(&mut self, name: &[u8]) -> &mut Vec<u8> {
        let i = self.files.iter().position(|f| f.0 == name).expect("no such file");
        &mut self.files[i].1
    }

    fn file(&self, name: &[u8]) -> &Vec<u8> {
        &self.files.iter().find(|f| f.0 == name).expect("no such file").1
    }

    fn create(&mut self, name: Vec<u8>) {
        if !self.files.iter().any(|f| f.0 == name) {
            self.files.push((name, Vec::new()));
        }
    }
}

fn dat(id: u64) -> Vec<u8> {
    format!("{}.dat", id).into_bytes()
}

fn hint(id: u64) -> Vec<u8> {
    format!("{}.hint", id).into_bytes()
}

fn load(d: &MemDir) -> KeyDirectory {
    let names = d.names();
    let plan = recovery_plan(&names);
    let images: Vec<SegmentImage> = plan
        .iter()
        .map(|p| match p.hint {
            Some(h) => SegmentImage { file_id: p.file_id, from_hint: true, bytes: d.files[h].1.clone() },
            None => SegmentImage { file_id: p.file_id, from_hint: false, bytes: d.files[p.data].1.clone() },
        })
        .collect();
    build_keydir(&images)
}

fn open(d: &mut MemDir, now: u64) -> Bitcask {
    let id = gen_file_id(now, &d.names()).expect("id space exhausted");
    d.create(dat(id));
    Bitcask::new(id, load(d))
}

fn put(d: &mut MemDir, b: &mut Bitcask, key: &[u8], value: &[u8], ts: u64) {
    let p = b.prepare_put(key.to_vec(), value.to_vec(), ts).expect("put refused");
    d.file_mut(&dat(b.active_file_id())).extend_from_slice(&p.record);
    b.commit_put(p);
}

fn delete(d: &mut MemDir, b: &mut Bitcask, key: &[u8], ts: u64) {
    let p = b.prepare_delete(key.to_vec(), ts).expect("delete refused");
    d.file_mut(&dat(b.active_file_id())).extend_from_slice(&p.record);
    b.commit_put(p);
}

fn get(d: &MemDir, b: &Bitcask, key: &[u8]) -> Result<Vec<u8>, BitcaskError> {
    let e = b.get(key)?;
    let f = d.file(&dat(e.file_id));
    let start = e.value_pos as usize;
    Ok(f[start..start + e.value_size as usize].to_vec())
}

fn merge(d: &mut MemDir, b: &mut Bitcask, now: u64) -> u64 {
    let snapshot = load(d);
    let id = gen_file_id(now, &d.names()).expect("id space exhausted");
    d.create(dat(id));
    d.create(hint(id));
    let mut m = Merger::new(id);
    for key in snapshot.keys() {
        if let Ok(value) = get(d, b, &key) {
            if let Some((data, h)) = m.add(key, value, now).expect("merge refused") {
                d.file_mut(&dat(id)).extend_from_slice(&data);
                d.file_mut(&hint(id)).extend_from_slice(&h);
            }
        }
    }
    let names = d.names();
    let remove = files_to_remove(&names, id, b.active_file_id());
    for i in remove.into_iter().rev() {
        d.files.remove(i);
    }
    b.adopt_merge(m);
    id
}

fn sorted(mut keys: Vec<Vec<u8>>) -> Vec<Vec<u8>> {
    keys.sort();
    keys
}

fn dir_with_key1() -> MemDir {
    let mut d = MemDir::new();
    let mut b = open(&mut d, NOW);
    put(&mut d, &mut b, b"key1", b"value1", NOW);
    d
}

#[test]
fn test_get_put() {
    let mut d = MemDir::new();
    let mut bitcask = open(&mut d, NOW);
    put(&mut d, &mut bitcask, b"key1", b"value1", NOW);
    let result = get(&d, &bitcask, b"key1").expect("Failed to get value");
    assert_eq!(result, b"value1".to_vec());
}

#[test]
fn test_list_keys() {
    let mut d = dir_with_key1();
    let bitcask = open(&mut d, NOW);
    let keys = bitcask.list_keys();
    assert_eq!(keys, vec![b"key1".to_vec()]);
}

#[test]
fn test_build_keydir() {
    let d = dir_with_key1();
    let key_dir = load(&d);
    assert_eq!(key_dir.len(), 1);
    assert!(key_dir.contains_key(b"key1"));
}

#[test]
fn test_keydir() {
    let mut d = dir_with_key1();
    let bitcask = open(&mut d, NOW);
    let result = get(&d, &bitcask, b"key1").expect("Failed to get value");
    assert_eq!(result, b"value1".to_vec());
}

#[test]
fn test_merge() {
    let mut d = MemDir::new();
    let mut bitcask = open(&mut d, NOW);
    put(&mut d, &mut bitcask, b"key1", b"value1", NOW);
    put(&mut d, &mut bitcask, b"key2", b"value2", NOW);

    let mut bitcask2 = open(&mut d, NOW);
    merge(&mut d, &mut bitcask2, NOW);

    let bitcask3 = open(&mut d, NOW);
    let val1 = get(&d, &bitcask3, b"key1").expect("Failed to get value");
    let val2 = get(&d, &bitcask3, b"key2").expect("Failed to get value");
    let mut files: Vec<u64> = Vec::new();
    for k in bitcask3.list_keys() {
        let id = bitcask3.get(&k).unwrap().file_id;
        if !files.contains(&id) {
            files.push(id);
        }
    }
    assert_eq!(files.len(), 1);
    assert_eq!(val1, b"value1".to_vec());
    assert_eq!(val2, b"value2".to_vec());
}

#[test]
fn put_then_get_returns_value() {
    let mut d = MemDir::new();
    let mut b = open(&mut d, NOW);
    put(&mut d, &mut b, b"key1", b"value1", NOW);
    assert_eq!(get(&d, &b, b"key1").unwrap(), b"value1".to_vec());
}

#[test]
fn overwrite_keeps_last_value_and_one_key() {
    let mut d = MemDir::new();
    let mut b = open(&mut d, NOW);
    put(&mut d, &mut b, b"k", b"a", NOW);
    put(&mut d, &mut b, b"k", b"b", NOW + 1);
    assert_eq!(get(&d, &b, b"k").unwrap(), b"b".to_vec());
    assert_eq!(b.list_keys(), vec![b"k".to_vec()]);
}

#[test]
fn reopen_round_trip() {
    let mut d = MemDir::new();
    let mut b = open(&mut d, NOW);
    put(&mut d, &mut b, b"k1", b"v1", NOW);
    put(&mut d, &mut b, b"k2", b"v2", NOW);
    let b2 = open(&mut d, NOW);
    assert_eq!(get(&d, &b2, b"k1").unwrap(), b"v1".to_vec());
    assert_eq!(get(&d, &b2, b"k2").unwrap(), b"v2".to_vec());
}

#[test]
fn delete_then_merge_drops_key() {
    let mut d = MemDir::new();
    let mut b = open(&mut d, NOW);
    put(&mut d, &mut b, b"a", b"1", NOW);
    put(&mut d, &mut b, b"b", b"2", NOW);
    delete(&mut d, &mut b, b"a", NOW);
    let mut m = open(&mut d, NOW);
    merge(&mut d, &mut m, NOW);
    assert_eq!(m.list_keys(), vec![b"b".to_vec()]);
    let r = open(&mut d, NOW);
    assert_eq!(r.list_keys(), vec![b"b".to_vec()]);
    assert!(matches!(get(&d, &r, b"a"), Err(BitcaskError::KeyNotFound)));
    assert_eq!(get(&d, &r, b"b").unwrap(), b"2".to_vec());
}

#[test]
fn merge_condenses_into_one_segment() {
    let mut d = MemDir::new();
    let mut b = open(&mut d, NOW);
    put(&mut d, &mut b, b"a", b"1", NOW);
    put(&mut d, &mut b, b"b", b"2", NOW);
    delete(&mut d, &mut b, b"a", NOW);
    put(&mut d, &mut b, b"c", b"3", NOW);
    let mut m = open(&mut d, NOW);
    let merge_id = merge(&mut d, &mut m, NOW);
    assert_eq!(m.active_file_id(), merge_id);
    for k in m.list_keys() {
        assert_eq!(m.get(&k).unwrap().file_id, merge_id);
    }
    let r = open(&mut d, NOW);
    let mut ids: Vec<u64> = Vec::new();
    for k in r.list_keys() {
        let id = r.get(&k).unwrap().file_id;
        if !ids.contains(&id) {
            ids.push(id);
        }
    }
    assert_eq!(ids, vec![merge_id]);
    assert_eq!(sorted(r.list_keys()), vec![b"b".to_vec(), b"c".to_vec()]);
    assert_eq!(get(&d, &r, b"c").unwrap(), b"3".to_vec());
}

#[test]
fn tombstone_visible_before_merge() {
    let mut d = MemDir::new();
    let mut b = open(&mut d, NOW);
    put(&mut d, &mut b, b"k", b"v", NOW);
    delete(&mut d, &mut b, b"k", NOW);
    assert_eq!(get(&d, &b, b"k").unwrap(), b"__TOMBSTONE__".to_vec());
    assert_eq!(tombstone_value(), b"__TOMBSTONE__".to_vec());
}

#[test]
fn never_put_key_is_not_found() {
    let mut d = MemDir::new();
    let mut b = open(&mut d, NOW);
    put(&mut d, &mut b, b"x", b"1", NOW);
    assert!(matches!(get(&d, &b, b"y"), Err(BitcaskError::KeyNotFound)));
    assert!(matches!(b.get(b"y"), Err(BitcaskError::KeyNotFound)));
}

#[test]
fn put_twice_grows_log_keeps_value() {
    let mut d = MemDir::new();
    let mut b = open(&mut d, NOW);
    put(&mut d, &mut b, b"k", b"v", NOW);
    let after_one = b.writer_pos();
    put(&mut d, &mut b, b"k", b"v", NOW);
    assert_eq!(after_one, 32 + 1 + 1);
    assert_eq!(b.writer_pos(), 2 * (32 + 1 + 1));
    assert_eq!(b.list_keys(), vec![b"k".to_vec()]);
    assert_eq!(get(&d, &b, b"k").unwrap(), b"v".to_vec());
    assert_eq!(b.get(b"k").unwrap().value_pos, 34 + 32 + 1);
}

#[test]
fn file_ids_increase_across_opens_and_merges() {
    let mut d = MemDir::new();
    let b1 = open(&mut d, NOW);
    let b2 = open(&mut d, NOW - 100);
    assert!(b2.active_file_id() > b1.active_file_id());
    let mut b3 = open(&mut d, NOW);
    let merge_id = merge(&mut d, &mut b3, NOW - 5);
    assert!(merge_id > b2.active_file_id());
    let b4 = open(&mut d, 0);
    assert!(b4.active_file_id() > merge_id);
    assert_eq!(b1.active_file_id(), NOW + 1);
    assert_eq!(b2.active_file_id(), NOW + 2);
}

#[test]
fn empty_key_is_rejected() {
    let mut d = MemDir::new();
    let b = open(&mut d, NOW);
    assert!(matches!(b.prepare_put(Vec::new(), b"v".to_vec(), NOW), Err(BitcaskError::InvalidArgument)));
    assert!(matches!(b.prepare_delete(Vec::new(), NOW), Err(BitcaskError::InvalidArgument)));
}

#[test]
fn put_record_and_entry_are_exact() {
    let b = Bitcask::new(7, KeyDirectory::new());
    let p = b.prepare_put(b"ab".to_vec(), b"xyz".to_vec(), 5).unwrap();
    let mut want = Vec::new();
    want.extend_from_slice(&0u64.to_le_bytes());
    want.extend_from_slice(&5u64.to_le_bytes());
    want.extend_from_slice(&2u64.to_le_bytes());
    want.extend_from_slice(&3u64.to_le_bytes());
    want.extend_from_slice(b"abxyz");
    assert_eq!(p.record, want);
    assert_eq!(p.entry.file_id, 7);
    assert_eq!(p.entry.value_pos, 34);
    assert_eq!(p.entry.value_size, 3);
    assert_eq!(p.entry.timestamp, 5);
}

#[test]
fn merger_skips_tombstones_and_writes_hints() {
    let mut m = Merger::new(9);
    assert!(matches!(m.add(b"a".to_vec(), tombstone_value(), 1), Ok(None)));
    let (data, h) = m.add(b"b".to_vec(), b"2".to_vec(), 1).unwrap().unwrap();
    assert_eq!(data.len(), 34);
    let mut want = Vec::new();
    want.extend_from_slice(&1u64.to_le_bytes());
    want.extend_from_slice(&1u64.to_le_bytes());
    want.extend_from_slice(&1u64.to_le_bytes());
    want.extend_from_slice(&33u64.to_le_bytes());
    want.extend_from_slice(b"b");
    assert_eq!(h, want);
    let (_, h2) = m.add(b"c".to_vec(), b"33".to_vec(), 1).unwrap().unwrap();
    assert_eq!(h2[24..32], (34u64 + 33).to_le_bytes());
    let mut b = Bitcask::new(1, KeyDirectory::new());
    b.adopt_merge(m);
    assert_eq!(b.active_file_id(), 9);
    assert_eq!(b.writer_pos(), 34 + 35);
    assert_eq!(sorted(b.list_keys()), vec![b"b".to_vec(), b"c".to_vec()]);
}

#[test]
fn merge_removes_superseded_files_only() {
    let names: Vec<Vec<u8>> = vec![
        b"10.dat".to_vec(),
        b"10.hint".to_vec(),
        b"notes.txt".to_vec(),
        b"20.dat".to_vec(),
        b"30.dat".to_vec(),
        b"30.hint".to_vec(),
        b"5".to_vec(),
    ];
    assert_eq!(files_to_remove(&names, 30, 20), vec![0, 1, 6]);
}

#[test]
fn data_file_entry_new_stamps_current_time() {
    let e = DataFileEntry::new(b"k".to_vec(), b"v".to_vec());
    assert!(e.timestamp > 1_600_000_000);
    assert_eq!(e.crc, 0);
    assert_eq!(e.key_size, 1);
    assert_eq!(e.value_size, 1);
}
