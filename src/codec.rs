//! Encoding of data records and hint records.
use crate::keydir::KeyDir;
use vstd::bytes::*;
use vstd::prelude::*;
use vstd::slice::*;

verus! {

/// Length of the fixed header of a data record: crc, timestamp, key size, value size.
pub const DATA_HEADER_SIZE: u64 = 32;

/// Length of the fixed header of a hint record: timestamp, key size, value size, value position.
pub const HINT_HEADER_SIZE: u64 = 32;

/// The bytes of a data record: `crc | timestamp | key_size | value_size | key | value`.
pub open spec fn data_record_bytes(
    crc: u64,
    timestamp: u64,
    key_size: u64,
    value_size: u64,
    key: Seq<u8>,
    value: Seq<u8>,
) -> Seq<u8> {
    spec_u64_to_le_bytes(crc) + spec_u64_to_le_bytes(timestamp) + spec_u64_to_le_bytes(key_size)
        + spec_u64_to_le_bytes(value_size) + key + value
}

/// The bytes of a hint record: `timestamp | key_size | value_size | value_pos | key`.
pub open spec fn hint_record_bytes(
    timestamp: u64,
    key_size: u64,
    value_size: u64,
    value_pos: u64,
    key: Seq<u8>,
) -> Seq<u8> {
    spec_u64_to_le_bytes(timestamp) + spec_u64_to_le_bytes(key_size) + spec_u64_to_le_bytes(
        value_size,
    ) + spec_u64_to_le_bytes(value_pos) + key
}

/// Appends the little-endian bytes of `n` to `out`.
fn push_u64(out: &mut Vec<u8>, n: u64)
    ensures
        final(out)@ == old(out)@ + spec_u64_to_le_bytes(n),
{
    let b = u64_to_le_bytes(n);
    let mut i: usize = 0;
    while i < b.len()
        invariant
            b@ == spec_u64_to_le_bytes(n),
            0 <= i <= b.len(),
            out@ == old(out)@ + b@.subrange(0, i as int),
        decreases b.len() - i,
    {
        out.push(b[i]);
        i = i + 1;
        assert(out@ == old(out)@ + b@.subrange(0, i as int));
    }
    assert(b@.subrange(0, b@.len() as int) == b@);
}

/// Appends `bytes` to `out`.
fn push_bytes(out: &mut Vec<u8>, bytes: &[u8])
    ensures
        final(out)@ == old(out)@ + bytes@,
{
    let mut i: usize = 0;
    while i < bytes.len()
        invariant
            0 <= i <= bytes@.len(),
            out@ == old(out)@ + bytes@.subrange(0, i as int),
        decreases bytes@.len() - i,
    {
        out.push(bytes[i]);
        i = i + 1;
        assert(out@ == old(out)@ + bytes@.subrange(0, i as int));
    }
    assert(bytes@.subrange(0, bytes@.len() as int) == bytes@);
}

/// The index entry that merge writes beside each record of a merged segment.
#[derive(Debug)]
pub struct HintFileEntry {
    pub timestamp: u64,
    pub key_size: u64,
    pub value_size: u64,
    pub value_pos: u64,
    pub key: Vec<u8>,
}

impl HintFileEntry {
    /// Encodes the entry, integers little-endian, followed by the key.
    pub fn to_bytes(&self) -> (r: Vec<u8>)
        ensures
            r@ == hint_record_bytes(
                self.timestamp,
                self.key_size,
                self.value_size,
                self.value_pos,
                self.key@,
            ),
    {
        let mut bytes: Vec<u8> = Vec::new();
        push_u64(&mut bytes, self.timestamp);
        push_u64(&mut bytes, self.key_size);
        push_u64(&mut bytes, self.value_size);
        push_u64(&mut bytes, self.value_pos);
        push_bytes(&mut bytes, self.key.as_slice());
        bytes
    }
}


/// Relies on `SystemTime::now` and `duration_since(UNIX_EPOCH)`: the whole seconds since the
/// Unix epoch, or 0 where the clock stands before it. Nothing is promised of the value.
#[verifier::external_body]
fn now_secs() -> u64 {
    match std::time::SystemTime::now().duration_since(std::time::UNIX_EPOCH) {
        Ok(d) => d.as_secs(),
        Err(_) => 0,
    }
}

/// A data record as it is appended to a segment.
#[derive(Debug)]
pub struct DataFileEntry {
    pub crc: u64,
    pub timestamp: u64,
    pub key_size: u64,
    pub value_size: u64,
    pub key: Vec<u8>,
    pub value: Vec<u8>,
}

impl DataFileEntry {
    /// Whether the size fields agree with the key and the value.
    pub open spec fn wf(&self) -> bool {
        self.key_size == self.key@.len() && self.value_size == self.value@.len()
    }

    /// A record of `key` and `value` stamped with the current time; the crc is left 0.
    pub fn new(key: Vec<u8>, value: Vec<u8>) -> (r: DataFileEntry)
        ensures
            r.wf(),
            r.crc == 0,
            r.key@ == key@,
            r.value@ == value@,
    {
        let timestamp = now_secs();
        DataFileEntry::with_timestamp(key, value, timestamp)
    }

    /// A record of `key` and `value` with the given timestamp; the crc is left 0.
    pub fn with_timestamp(key: Vec<u8>, value: Vec<u8>, timestamp: u64) -> (r: DataFileEntry)
        ensures
            r.wf(),
            r.crc == 0,
            r.timestamp == timestamp,
            r.key@ == key@,
            r.value@ == value@,
    {
        let key_size = key.len() as u64;
        let value_size = value.len() as u64;
        DataFileEntry { crc: 0, timestamp, key_size, value_size, key, value }
    }

    /// Encodes the record: the 32-byte header, little-endian, then the key and the value.
    pub fn to_bytes(&self) -> (r: Vec<u8>)
        ensures
            r@ == data_record_bytes(
                self.crc,
                self.timestamp,
                self.key_size,
                self.value_size,
                self.key@,
                self.value@,
            ),
    {
        let mut bytes: Vec<u8> = Vec::new();
        push_u64(&mut bytes, self.crc);
        push_u64(&mut bytes, self.timestamp);
        push_u64(&mut bytes, self.key_size);
        push_u64(&mut bytes, self.value_size);
        push_bytes(&mut bytes, self.key.as_slice());
        push_bytes(&mut bytes, self.value.as_slice());
        bytes
    }
}

/// The little-endian integer in the eight bytes at `pos`.
pub open spec fn u64_at(b: Seq<u8>, pos: int) -> u64 {
    spec_u64_from_le_bytes(b.subrange(pos, pos + 8))
}

/// Whether a whole data record starts at `pos`: its header and its payload lie within `b`.
pub open spec fn data_record_fits(b: Seq<u8>, pos: int) -> bool {
    &&& 0 <= pos
    &&& pos + DATA_HEADER_SIZE <= b.len()
    &&& pos + DATA_HEADER_SIZE + u64_at(b, pos + 16) + u64_at(b, pos + 24) <= b.len()
}

/// The entries of a data segment from `pos` on, one per whole record, in order; a truncated
/// record at the end, and what follows it, is left out.
pub open spec fn scan_data(b: Seq<u8>, pos: int, file_id: u64) -> Seq<(Seq<u8>, KeyDir)>
    decreases b.len() - pos,
{
    if data_record_fits(b, pos) {
        let key_size = u64_at(b, pos + 16);
        let value_size = u64_at(b, pos + 24);
        let value_pos = pos + DATA_HEADER_SIZE + key_size;
        seq![
            (
                b.subrange(pos + DATA_HEADER_SIZE, value_pos),
                KeyDir {
                    file_id,
                    value_size,
                    value_pos: value_pos as u64,
                    timestamp: u64_at(b, pos + 8),
                },
            ),
        ] + scan_data(b, value_pos + value_size, file_id)
    } else {
        seq![]
    }
}

/// Whether a whole hint record starts at `pos`.
pub open spec fn hint_record_fits(b: Seq<u8>, pos: int) -> bool {
    &&& 0 <= pos
    &&& pos + HINT_HEADER_SIZE <= b.len()
    &&& pos + HINT_HEADER_SIZE + u64_at(b, pos + 8) <= b.len()
}

/// The entries of a hint file from `pos` on, one per whole record, in order.
pub open spec fn scan_hint(b: Seq<u8>, pos: int, file_id: u64) -> Seq<(Seq<u8>, KeyDir)>
    decreases b.len() - pos,
{
    if hint_record_fits(b, pos) {
        let key_end = pos + HINT_HEADER_SIZE + u64_at(b, pos + 8);
        seq![
            (
                b.subrange(pos + HINT_HEADER_SIZE, key_end),
                KeyDir {
                    file_id,
                    value_size: u64_at(b, pos + 16),
                    value_pos: u64_at(b, pos + 24),
                    timestamp: u64_at(b, pos),
                },
            ),
        ] + scan_hint(b, key_end, file_id)
    } else {
        seq![]
    }
}

/// Reads the little-endian integer at `pos`.
fn read_u64(b: &[u8], pos: usize) -> (r: u64)
    requires
        pos + 8 <= b@.len(),
    ensures
        r == u64_at(b@, pos as int),
{
    let len = b.len();
    assert(pos + 8 <= len);
    let s = slice_subrange(b, pos, pos + 8);
    u64_from_le_bytes(s)
}

/// Decodes the data record at `pos`: its key, its entry, and where the next record starts.
/// `None` where no whole record starts there.
pub fn read_data_record(b: &[u8], pos: usize, file_id: u64) -> (r: Option<(Vec<u8>, KeyDir, usize)>)
    ensures
        match r {
            Some((key, entry, next)) => {
                &&& data_record_fits(b@, pos as int)
                &&& scan_data(b@, pos as int, file_id) == seq![(key@, entry)] + scan_data(
                    b@,
                    next as int,
                    file_id,
                )
                &&& pos < next <= b@.len()
            },
            None => !data_record_fits(b@, pos as int) && scan_data(b@, pos as int, file_id)
                == Seq::<(Seq<u8>, KeyDir)>::empty(),
        },
{
    let len = b.len();
    if pos > len || len - pos < 32 {
        return None;
    }
    let timestamp = read_u64(b, pos + 8);
    let key_size = read_u64(b, pos + 16);
    let value_size = read_u64(b, pos + 24);
    let room = (len - pos - 32) as u64;
    if key_size > room || value_size > room - key_size {
        return None;
    }
    let value_pos = pos + 32 + key_size as usize;
    let next = value_pos + value_size as usize;
    let key = slice_to_vec(slice_subrange(b, pos + 32, value_pos));
    let entry = KeyDir { file_id, value_size, value_pos: value_pos as u64, timestamp };
    Some((key, entry, next))
}

/// Decodes the hint record at `pos`: its key, its entry, and where the next record starts.
/// `None` where no whole record starts there.
pub fn read_hint_record(b: &[u8], pos: usize, file_id: u64) -> (r: Option<(Vec<u8>, KeyDir, usize)>)
    ensures
        match r {
            Some((key, entry, next)) => {
                &&& hint_record_fits(b@, pos as int)
                &&& scan_hint(b@, pos as int, file_id) == seq![(key@, entry)] + scan_hint(
                    b@,
                    next as int,
                    file_id,
                )
                &&& pos < next <= b@.len()
            },
            None => !hint_record_fits(b@, pos as int) && scan_hint(b@, pos as int, file_id)
                == Seq::<(Seq<u8>, KeyDir)>::empty(),
        },
{
    let len = b.len();
    if pos > len || len - pos < 32 {
        return None;
    }
    let timestamp = read_u64(b, pos);
    let key_size = read_u64(b, pos + 8);
    let value_size = read_u64(b, pos + 16);
    let value_pos = read_u64(b, pos + 24);
    let room = (len - pos - 32) as u64;
    if key_size > room {
        return None;
    }
    let next = pos + 32 + key_size as usize;
    let key = slice_to_vec(slice_subrange(b, pos + 32, next));
    let entry = KeyDir { file_id, value_size, value_pos, timestamp };
    Some((key, entry, next))
}

} // verus!
