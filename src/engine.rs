//! The store's in-memory state and its decisions: what a put appends and how the key directory
//! changes, where a get reads, what merge writes and which files it removes.
use crate::codec::{data_record_bytes, hint_record_bytes, scan_data, scan_hint, DataFileEntry, HintFileEntry};
use crate::model::{ends_at, hint_ends_at, lemma_insert_all_push, lemma_scan_append, lemma_scan_hint_append, Put};
use crate::recovery::insert_all;
use crate::error::BitcaskError;
use crate::keydir::{bytes_eq, KeyDir, KeyDirectory};
use crate::naming::{file_id_of, get_file_id};
use vstd::prelude::*;

verus! {

/// The value that marks a key as deleted: the ASCII bytes `__TOMBSTONE__`.
pub open spec fn tombstone() -> Seq<u8> {
    seq![95u8, 95u8, 84u8, 79u8, 77u8, 66u8, 83u8, 84u8, 79u8, 78u8, 69u8, 95u8, 95u8]
}

/// The tombstone value.
pub fn tombstone_value() -> (r: Vec<u8>)
    ensures
        r@ == tombstone(),
{
    let r: Vec<u8> = vec![95u8, 95u8, 84u8, 79u8, 77u8, 66u8, 83u8, 84u8, 79u8, 78u8, 69u8, 95u8, 95u8];
    assert(r@ =~= tombstone());
    r
}

/// The length of the data record of `key` and `value`.
pub open spec fn record_len(key: Seq<u8>, value: Seq<u8>) -> int {
    (32 + key.len() + value.len()) as int
}

/// The entry that a put of `key` and `value` records, appended at `writer_pos` of segment `file_id`.
pub open spec fn put_entry(file_id: u64, writer_pos: u64, key: Seq<u8>, value: Seq<u8>, timestamp: u64) -> KeyDir {
    KeyDir {
        file_id,
        value_size: value.len() as u64,
        value_pos: (writer_pos + 32 + key.len()) as u64,
        timestamp,
    }
}

/// What the store holds in memory.
pub struct BitcaskView {
    pub key_dir: Map<Seq<u8>, KeyDir>,
    pub active_file_id: u64,
    pub writer_pos: u64,
}

/// The in-memory state of an open store: the key directory, the id of the active segment and
/// the number of bytes appended to it through this handle.
#[derive(Debug)]
pub struct Bitcask {
    key_dir: KeyDirectory,
    active_file_id: u64,
    writer_pos: u64,
}

impl View for Bitcask {
    type V = BitcaskView;

    closed spec fn view(&self) -> BitcaskView {
        BitcaskView {
            key_dir: self.key_dir@,
            active_file_id: self.active_file_id,
            writer_pos: self.writer_pos,
        }
    }
}

/// A put that has been decided but not yet applied: the record to append to the active
/// segment and, once it is written, the entry of the key.
#[derive(Debug)]
pub struct PendingPut {
    pub key: Vec<u8>,
    pub entry: KeyDir,
    pub record: Vec<u8>,
}

/// Whether a put of `key` and `value` is accepted at `writer_pos`: the key is not empty and the
/// record fits below `u64::MAX` bytes of segment.
pub open spec fn put_fits(writer_pos: u64, key: Seq<u8>, value: Seq<u8>) -> bool {
    key.len() > 0 && writer_pos + record_len(key, value) <= u64::MAX
}

impl PendingPut {
    /// Whether this is the put of `key` and `value` at `timestamp` on a store in state `s`.
    pub open spec fn decides(&self, s: BitcaskView, key: Seq<u8>, value: Seq<u8>, timestamp: u64) -> bool {
        &&& self.key@ == key
        &&& self.record@ == data_record_bytes(0, timestamp, key.len() as u64, value.len() as u64, key, value)
        &&& self.record@.len() == record_len(key, value)
        &&& self.entry == put_entry(s.active_file_id, s.writer_pos, key, value, timestamp)
    }
}

impl Bitcask {
    /// Well-formed: the key directory holds each key once.
    pub closed spec fn wf(&self) -> bool {
        self.key_dir.wf()
    }

    /// A store whose fresh active segment is `active_file_id`, with the key directory that
    /// recovery built.
    pub fn new(active_file_id: u64, key_dir: KeyDirectory) -> (r: Bitcask)
        requires
            key_dir.wf(),
        ensures
            r.wf(),
            r@.key_dir == key_dir@,
            r@.active_file_id == active_file_id,
            r@.writer_pos == 0,
    {
        Bitcask { key_dir, active_file_id, writer_pos: 0 }
    }

    /// The id of the active segment.
    pub fn active_file_id(&self) -> (r: u64)
        ensures
            r == self@.active_file_id,
    {
        self.active_file_id
    }

    /// The number of bytes appended to the active segment through this store.
    pub fn writer_pos(&self) -> (r: u64)
        ensures
            r == self@.writer_pos,
    {
        self.writer_pos
    }

    /// Where the latest value of `key` lies; `KeyNotFound` where the key is not in the directory.
    pub fn get(&self, key: &[u8]) -> (r: Result<KeyDir, BitcaskError>)
        requires
            self.wf(),
        ensures
            self@.key_dir.contains_key(key@) ==> r == Ok::<KeyDir, BitcaskError>(self@.key_dir[key@]),
            !self@.key_dir.contains_key(key@) ==> r matches Err(BitcaskError::KeyNotFound),
    {
        match self.key_dir.get(key) {
            Some(e) => Ok(e),
            None => Err(BitcaskError::KeyNotFound),
        }
    }

    /// Decides a put of `key` and `value` at `timestamp`: the record to append and the entry
    /// that the key gets once it is written. `InvalidArgument` where the key is empty or the
    /// record would carry the segment past `u64::MAX` bytes.
    pub fn prepare_put(&self, key: Vec<u8>, value: Vec<u8>, timestamp: u64) -> (r: Result<PendingPut, BitcaskError>)
        ensures
            match r {
                Ok(p) => put_fits(self@.writer_pos, key@, value@) && p.decides(self@, key@, value@, timestamp),
                Err(e) => !put_fits(self@.writer_pos, key@, value@) && e is InvalidArgument,
            },
    {
        if key.len() == 0 {
            return Err(BitcaskError::InvalidArgument);
        }
        let room = u64::MAX - self.writer_pos;
        if room < 32 || (key.len() as u64) > room - 32 || (value.len() as u64) > room - 32 - key.len() as u64 {
            return Err(BitcaskError::InvalidArgument);
        }
        let key_size = key.len() as u64;
        let value_size = value.len() as u64;
        let entry = KeyDir {
            file_id: self.active_file_id,
            value_size,
            value_pos: self.writer_pos + 32 + key_size,
            timestamp,
        };
        let record_entry = DataFileEntry::with_timestamp(key.clone(), value, timestamp);
        let record = record_entry.to_bytes();
        proof {
            vstd::bytes::lemma_auto_spec_u64_to_from_le_bytes();
        }
        Ok(PendingPut { key, entry, record })
    }

    /// Decides a delete of `key` at `timestamp`: a put of the tombstone value.
    pub fn prepare_delete(&self, key: Vec<u8>, timestamp: u64) -> (r: Result<PendingPut, BitcaskError>)
        ensures
            match r {
                Ok(p) => put_fits(self@.writer_pos, key@, tombstone()) && p.decides(self@, key@, tombstone(), timestamp),
                Err(e) => !put_fits(self@.writer_pos, key@, tombstone()) && e is InvalidArgument,
            },
    {
        self.prepare_put(key, tombstone_value(), timestamp)
    }

    /// Applies a put once its record has been appended in full: the writer position advances
    /// past the record and the key gets its new entry.
    pub fn commit_put(&mut self, p: PendingPut)
        requires
            old(self).wf(),
            old(self)@.writer_pos + p.record@.len() <= u64::MAX,
        ensures
            final(self).wf(),
            final(self)@.key_dir == old(self)@.key_dir.insert(p.key@, p.entry),
            final(self)@.active_file_id == old(self)@.active_file_id,
            final(self)@.writer_pos == old(self)@.writer_pos + p.record@.len(),
    {
        self.writer_pos = self.writer_pos + p.record.len() as u64;
        self.key_dir.insert(p.key, p.entry);
    }

    /// The keys in the directory, each once, in no particular order.
    pub fn list_keys(&self) -> (r: Vec<Vec<u8>>)
        requires
            self.wf(),
        ensures
            r@.len() == self@.key_dir.dom().len(),
            forall|i: int| 0 <= i < r@.len() ==> self@.key_dir.contains_key(#[trigger] r@[i]@),
            forall|k: Seq<u8>| #[trigger] self@.key_dir.contains_key(k) ==> exists|i: int| 0 <= i < r@.len() && r@[i]@ == k,
            forall|i: int, j: int| 0 <= i < r@.len() && 0 <= j < r@.len() && #[trigger] r@[i]@ == #[trigger] r@[j]@ ==> i == j,
    {
        self.key_dir.keys()
    }
}


/// What a merge in progress holds: the id of the merged segment, the bytes written to it so
/// far, and the key directory of what it holds.
pub struct MergerView {
    pub file_id: u64,
    pub segment: Seq<u8>,
    pub hints: Seq<u8>,
    pub key_dir: Map<Seq<u8>, KeyDir>,
}

/// A merge in progress: live values are added one key at a time, each becoming a record of
/// the merged segment and a record of its hint file.
pub struct Merger {
    file_id: u64,
    write_pos: u64,
    key_dir: KeyDirectory,
    segment: Ghost<Seq<u8>>,
    hints: Ghost<Seq<u8>>,
}

impl View for Merger {
    type V = MergerView;

    closed spec fn view(&self) -> MergerView {
        MergerView {
            file_id: self.file_id,
            segment: self.segment@,
            hints: self.hints@,
            key_dir: self.key_dir@,
        }
    }
}

/// The bytes of `segment` that the entry `e` points at.
pub open spec fn value_at(segment: Seq<u8>, e: KeyDir) -> Seq<u8> {
    segment.subrange(e.value_pos as int, e.value_pos + e.value_size)
}

/// Whether every entry of `key_dir` lies in the one segment `file_id`, whose bytes are
/// `segment`, and points at a value that is not the tombstone.
pub open spec fn condensed(key_dir: Map<Seq<u8>, KeyDir>, file_id: u64, segment: Seq<u8>) -> bool {
    forall|k: Seq<u8>|
        #[trigger] key_dir.contains_key(k) ==> {
            &&& key_dir[k].file_id == file_id
            &&& key_dir[k].value_pos + key_dir[k].value_size <= segment.len()
            &&& value_at(segment, key_dir[k]) != tombstone()
        }
}

proof fn lemma_record_layout(timestamp: u64, key: Seq<u8>, value: Seq<u8>)
    ensures
        ({
            let r = data_record_bytes(0, timestamp, key.len() as u64, value.len() as u64, key, value);
            &&& r.len() == record_len(key, value)
            &&& r.subrange(32 + key.len() as int, record_len(key, value)) == value
        }),
{
    vstd::bytes::lemma_auto_spec_u64_to_from_le_bytes();
    let r = data_record_bytes(0, timestamp, key.len() as u64, value.len() as u64, key, value);
    assert(r.subrange(32 + key.len() as int, record_len(key, value)) =~= value);
}

impl Merger {
    /// Well-formed: the write position is the length of the merged segment, and the key
    /// directory is condensed into it.
    pub closed spec fn wf(&self) -> bool {
        &&& self.key_dir.wf()
        &&& self.write_pos == self.segment@.len()
        &&& condensed(self.key_dir@, self.file_id, self.segment@)
        &&& ends_at(self.segment@, 0)
        &&& hint_ends_at(self.hints@, 0)
        &&& insert_all(Map::empty(), scan_data(self.segment@, 0, self.file_id)) == self.key_dir@
        &&& insert_all(Map::empty(), scan_hint(self.hints@, 0, self.file_id)) == self.key_dir@
    }

    /// A merged segment and its hint file can each be recovered: scanning the data records,
    /// or the hint records, rebuilds exactly the merged key directory, and every entry lies in
    /// the merged segment at a value that is not the tombstone.
    pub proof fn lemma_merge_recoverable(&self)
        requires
            self.wf(),
        ensures
            insert_all(Map::empty(), scan_data(self@.segment, 0, self@.file_id)) == self@.key_dir,
            insert_all(Map::empty(), scan_hint(self@.hints, 0, self@.file_id)) == self@.key_dir,
            condensed(self@.key_dir, self@.file_id, self@.segment),
    {
    }

    /// The write position: the number of bytes of the merged segment so far.
    pub closed spec fn write_pos(&self) -> u64 {
        self.write_pos
    }

    /// An empty merge into the new segment `file_id`.
    pub fn new(file_id: u64) -> (r: Merger)
        ensures
            r.wf(),
            r@.file_id == file_id,
            r@.segment == Seq::<u8>::empty(),
            r@.hints == Seq::<u8>::empty(),
            r@.key_dir == Map::<Seq<u8>, KeyDir>::empty(),
    {
        let r = Merger {
            file_id,
            write_pos: 0,
            key_dir: KeyDirectory::new(),
            segment: Ghost(Seq::empty()),
            hints: Ghost(Seq::empty()),
        };
        assert(scan_data(Seq::<u8>::empty(), 0, file_id) == Seq::<(Seq<u8>, KeyDir)>::empty());
        assert(scan_hint(Seq::<u8>::empty(), 0, file_id) == Seq::<(Seq<u8>, KeyDir)>::empty());
        r
    }

    /// The id of the merged segment.
    pub fn file_id(&self) -> (r: u64)
        ensures
            r == self@.file_id,
    {
        self.file_id
    }

    /// Adds the live value of `key`, read before the merge, at `timestamp`. A tombstone is
    /// dropped: `Ok(None)`, nothing written. Otherwise `Ok(Some((data, hint)))`: the data
    /// record to append to the merged segment and the hint record to append to its hint
    /// file. `InvalidArgument` where the record would carry the segment past `u64::MAX` bytes.
    pub fn add(&mut self, key: Vec<u8>, value: Vec<u8>, timestamp: u64) -> (r: Result<Option<(Vec<u8>, Vec<u8>)>, BitcaskError>)
        requires
            old(self).wf(),
        ensures
            final(self).wf(),
            final(self)@.file_id == old(self)@.file_id,
            value@ == tombstone() ==> (r matches Ok(None)) && final(self)@ == old(self)@,
            value@ != tombstone() && old(self)@.segment.len() + record_len(key@, value@) > u64::MAX
                ==> (r matches Err(BitcaskError::InvalidArgument)) && final(self)@ == old(self)@,
            r matches Ok(Some((data, hint))) ==> {
                let pos = old(self)@.segment.len() as u64;
                let entry = put_entry(old(self)@.file_id, pos, key@, value@, timestamp);
                &&& value@ != tombstone()
                &&& data@ == data_record_bytes(0, timestamp, key@.len() as u64, value@.len() as u64, key@, value@)
                &&& hint@ == hint_record_bytes(timestamp, key@.len() as u64, value@.len() as u64, entry.value_pos, key@)
                &&& final(self)@.segment == old(self)@.segment + data@
                &&& final(self)@.hints == old(self)@.hints + hint@
                &&& final(self)@.key_dir == old(self)@.key_dir.insert(key@, entry)
            },
            value@ != tombstone() && old(self)@.segment.len() + record_len(key@, value@) <= u64::MAX
                ==> r is Ok && r->Ok_0 is Some,
    {
        let tomb = tombstone_value();
        if bytes_eq(value.as_slice(), tomb.as_slice()) {
            return Ok(None);
        }
        let room = u64::MAX - self.write_pos;
        if room < 32 || (key.len() as u64) > room - 32 || (value.len() as u64) > room - 32 - key.len() as u64 {
            return Err(BitcaskError::InvalidArgument);
        }
        let key_size = key.len() as u64;
        let value_size = value.len() as u64;
        let value_pos = self.write_pos + 32 + key_size;
        let ghost v = value@;
        let record_entry = DataFileEntry::with_timestamp(key.clone(), value, timestamp);
        let data = record_entry.to_bytes();
        let hint_entry = HintFileEntry { timestamp, key_size, value_size, value_pos, key: key.clone() };
        let hint = hint_entry.to_bytes();
        let entry = KeyDir { file_id: self.file_id, value_size, value_pos, timestamp };
        let ghost old_seg = self.segment@;
        let ghost old_kd = self.key_dir@;
        proof {
            lemma_record_layout(timestamp, key@, v);
        }
        self.write_pos = self.write_pos + data.len() as u64;
        let ghost old_hints = self.hints@;
        self.segment = Ghost(self.segment@ + data@);
        self.hints = Ghost(self.hints@ + hint@);
        self.key_dir.insert(key, entry);
        proof {
            let p = Put { key: hint_entry.key@, value: v, timestamp };
            lemma_scan_append(old_seg, p, 0, self.file_id);
            let de = (p.key, put_entry(self.file_id, old_seg.len() as u64, p.key, v, timestamp));
            assert(de.1 == entry);
            assert(scan_data(old_seg, 0, self.file_id) + seq![de] =~= scan_data(old_seg, 0, self.file_id).push(de));
            lemma_insert_all_push(Map::empty(), scan_data(old_seg, 0, self.file_id), de);
            lemma_scan_hint_append(old_hints, p.key, entry, 0, self.file_id);
            assert(scan_hint(old_hints, 0, self.file_id) + seq![de] =~= scan_hint(old_hints, 0, self.file_id).push(de));
            lemma_insert_all_push(Map::empty(), scan_hint(old_hints, 0, self.file_id), de);
            let seg = self.segment@;
            assert forall|k: Seq<u8>| #[trigger] self.key_dir@.contains_key(k) implies {
                &&& self.key_dir@[k].file_id == self.file_id
                &&& self.key_dir@[k].value_pos + self.key_dir@[k].value_size <= seg.len()
                &&& value_at(seg, self.key_dir@[k]) != tombstone()
            } by {
                if k == hint_entry.key@ {
                    assert(value_at(seg, entry) =~= data@.subrange(32 + key_size as int, record_len(hint_entry.key@, v)));
                } else {
                    let e = old_kd[k];
                    assert(value_at(seg, e) =~= value_at(old_seg, e));
                }
            }
        }
        Ok(Some((data, hint)))
    }
}

impl Bitcask {
    /// Adopts a finished merge: its segment becomes the active one, written up to its end, and
    /// its key directory replaces the store's.
    pub fn adopt_merge(&mut self, m: Merger)
        requires
            m.wf(),
        ensures
            final(self).wf(),
            final(self)@.active_file_id == m@.file_id,
            final(self)@.writer_pos == m@.segment.len(),
            final(self)@.key_dir == m@.key_dir,
            condensed(final(self)@.key_dir, final(self)@.active_file_id, m@.segment),
    {
        self.active_file_id = m.file_id;
        self.writer_pos = m.write_pos;
        self.key_dir = m.key_dir;
    }
}

/// Whether merge removes the file called `name`: it carries a segment id that is neither the
/// merged segment's nor the active segment's.
pub open spec fn removed_by_merge(name: Seq<u8>, merge_id: u64, active_id: u64) -> bool {
    match file_id_of(name) {
        Some(id) => id != merge_id && id != active_id,
        None => false,
    }
}

/// The indices, ascending, of the names of the files that merge removes from the directory.
pub fn files_to_remove(names: &Vec<Vec<u8>>, merge_id: u64, active_id: u64) -> (r: Vec<usize>)
    ensures
        forall|a: int, b: int| 0 <= a < b < r@.len() ==> r@[a] < r@[b],
        forall|a: int| 0 <= a < r@.len() ==> (#[trigger] r@[a]) < names@.len(),
        forall|i: int| 0 <= i < names@.len() ==> (removed_by_merge(#[trigger] names@[i]@, merge_id, active_id) <==> exists|a: int| 0 <= a < r@.len() && r@[a] == i),
{
    let mut r: Vec<usize> = Vec::new();
    let mut i: usize = 0;
    while i < names.len()
        invariant
            0 <= i <= names@.len(),
            forall|a: int, b: int| 0 <= a < b < r@.len() ==> r@[a] < r@[b],
            forall|a: int| 0 <= a < r@.len() ==> (#[trigger] r@[a]) < i,
            forall|j: int| 0 <= j < i ==> (removed_by_merge(#[trigger] names@[j]@, merge_id, active_id) <==> exists|a: int| 0 <= a < r@.len() && r@[a] == j),
        decreases names@.len() - i,
    {
        let remove = match get_file_id(names[i].as_slice()) {
            Some(id) => id != merge_id && id != active_id,
            None => false,
        };
        let ghost old_r = r@;
        if remove {
            r.push(i);
            proof {
                assert(r@[old_r.len() as int] == i);
                assert forall|j: int| 0 <= j < i implies (removed_by_merge(#[trigger] names@[j]@, merge_id, active_id) <==> exists|a: int| 0 <= a < r@.len() && r@[a] == j) by {
                    if removed_by_merge(names@[j]@, merge_id, active_id) {
                        let a = choose|a: int| 0 <= a < old_r.len() && old_r[a] == j;
                        assert(r@[a] == j);
                    }
                    if exists|a: int| 0 <= a < r@.len() && r@[a] == j {
                        let a = choose|a: int| 0 <= a < r@.len() && r@[a] == j;
                        assert(a < old_r.len());
                        assert(old_r[a] == j);
                    }
                }
            }
        } else {
            proof {
                assert forall|a: int| 0 <= a < r@.len() implies r@[a] != i by {
                    assert(r@[a] < i);
                }
            }
        }
        i = i + 1;
    }
    r
}

} // verus!
