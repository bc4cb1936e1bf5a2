//! The store as a sequence of puts into one segment, and what holds of it: reads return the
//! last value put, and recovering the segment from disk rebuilds the same key directory.
use crate::codec::{data_record_bytes, data_record_fits, hint_record_bytes, hint_record_fits, scan_data, scan_hint, u64_at};
use crate::engine::{put_entry, record_len, value_at};
use crate::keydir::KeyDir;
use crate::recovery::{insert_all, recover, SegmentImage};
use vstd::bytes::{lemma_auto_spec_u64_to_from_le_bytes, spec_u64_to_le_bytes};
use vstd::prelude::*;

verus! {

/// One put: a key, a value and the time it was written.
pub struct Put {
    pub key: Seq<u8>,
    pub value: Seq<u8>,
    pub timestamp: u64,
}

/// The data record that a put appends.
pub open spec fn put_record(p: Put) -> Seq<u8> {
    data_record_bytes(0, p.timestamp, p.key.len() as u64, p.value.len() as u64, p.key, p.value)
}

/// The key directory and the bytes of segment `file_id` after the puts `ops`, in order, on a
/// store whose key directory was `key_dir` and whose segment held `segment`.
pub open spec fn apply_puts(
    key_dir: Map<Seq<u8>, KeyDir>,
    file_id: u64,
    segment: Seq<u8>,
    ops: Seq<Put>,
) -> (Map<Seq<u8>, KeyDir>, Seq<u8>)
    decreases ops.len(),
{
    if ops.len() == 0 {
        (key_dir, segment)
    } else {
        let (kd, seg) = apply_puts(key_dir, file_id, segment, ops.drop_last());
        let p = ops.last();
        (
            kd.insert(p.key, put_entry(file_id, seg.len() as u64, p.key, p.value, p.timestamp)),
            seg + put_record(p),
        )
    }
}

proof fn lemma_put_record_layout(p: Put)
    ensures
        put_record(p).len() == record_len(p.key, p.value),
        put_record(p).subrange(32 + p.key.len() as int, record_len(p.key, p.value)) == p.value,
{
    lemma_auto_spec_u64_to_from_le_bytes();
    assert(put_record(p).subrange(32 + p.key.len() as int, record_len(p.key, p.value)) =~= p.value);
}

proof fn lemma_segment_grows(
    key_dir: Map<Seq<u8>, KeyDir>,
    file_id: u64,
    segment: Seq<u8>,
    ops: Seq<Put>,
    n: int,
)
    requires
        0 <= n <= ops.len(),
    ensures
        apply_puts(key_dir, file_id, segment, ops).1.subrange(
            0,
            apply_puts(key_dir, file_id, segment, ops.subrange(0, n)).1.len() as int,
        ) == apply_puts(key_dir, file_id, segment, ops.subrange(0, n)).1,
        apply_puts(key_dir, file_id, segment, ops.subrange(0, n)).1.len() <= apply_puts(
            key_dir,
            file_id,
            segment,
            ops,
        ).1.len(),
    decreases ops.len(),
{
    if n == ops.len() {
        assert(ops.subrange(0, n) =~= ops);
        let s = apply_puts(key_dir, file_id, segment, ops).1;
        assert(s.subrange(0, s.len() as int) =~= s);
    } else {
        let prev = ops.drop_last();
        lemma_segment_grows(key_dir, file_id, segment, prev, n);
        assert(prev.subrange(0, n) =~= ops.subrange(0, n));
        let s1 = apply_puts(key_dir, file_id, segment, prev).1;
        let s = apply_puts(key_dir, file_id, segment, ops).1;
        let sn = apply_puts(key_dir, file_id, segment, ops.subrange(0, n)).1;
        assert(s == s1 + put_record(ops.last()));
        assert(s.subrange(0, sn.len() as int) =~= s1.subrange(0, sn.len() as int));
    }
}

/// A read after a run of puts returns the last value put under the key: where `ops[i]` is the
/// last put of `k`, the key directory holds `k`, in the segment written, at the bytes of that
/// value.
pub proof fn lemma_get_returns_last_put(
    key_dir: Map<Seq<u8>, KeyDir>,
    file_id: u64,
    segment: Seq<u8>,
    ops: Seq<Put>,
    k: Seq<u8>,
    i: int,
)
    requires
        apply_puts(key_dir, file_id, segment, ops).1.len() <= u64::MAX,
        0 <= i < ops.len(),
        ops[i].key == k,
        forall|j: int| i < j < ops.len() ==> (#[trigger] ops[j]).key != k,
    ensures
        ({
            let (kd, seg) = apply_puts(key_dir, file_id, segment, ops);
            &&& kd.contains_key(k)
            &&& kd[k].file_id == file_id
            &&& kd[k].value_pos + kd[k].value_size <= seg.len()
            &&& value_at(seg, kd[k]) == ops[i].value
        }),
    decreases ops.len(),
{
    let prev = ops.drop_last();
    let (kd1, seg1) = apply_puts(key_dir, file_id, segment, prev);
    let (kd, seg) = apply_puts(key_dir, file_id, segment, ops);
    lemma_segment_grows(key_dir, file_id, segment, ops, ops.len() - 1);
    assert(ops.subrange(0, ops.len() - 1) =~= prev);
    lemma_put_record_layout(ops.last());
    if i == ops.len() - 1 {
        let e = kd[k];
        assert(value_at(seg, e) =~= put_record(ops.last()).subrange(
            32 + k.len() as int,
            record_len(k, ops[i].value),
        ));
    } else {
        assert(ops.last().key != k);
        lemma_get_returns_last_put(key_dir, file_id, segment, prev, k, i);
        assert(prev[i] == ops[i]);
        let e = kd1[k];
        assert(value_at(seg, e) =~= value_at(seg1, e));
    }
}

/// After a run of puts the key directory holds exactly the keys it held before and the keys
/// put; in particular a key never put is absent from the directory of a fresh store.
pub proof fn lemma_keys_after_puts(
    key_dir: Map<Seq<u8>, KeyDir>,
    file_id: u64,
    segment: Seq<u8>,
    ops: Seq<Put>,
    k: Seq<u8>,
)
    ensures
        apply_puts(key_dir, file_id, segment, ops).0.contains_key(k) <==> (key_dir.contains_key(k)
            || exists|i: int| 0 <= i < ops.len() && (#[trigger] ops[i]).key == k),
    decreases ops.len(),
{
    if ops.len() > 0 {
        let prev = ops.drop_last();
        lemma_keys_after_puts(key_dir, file_id, segment, prev, k);
        if exists|i: int| 0 <= i < ops.len() && (#[trigger] ops[i]).key == k {
            let i = choose|i: int| 0 <= i < ops.len() && (#[trigger] ops[i]).key == k;
            if i < ops.len() - 1 {
                assert(prev[i] == ops[i]);
            }
        }
        if exists|i: int| 0 <= i < prev.len() && (#[trigger] prev[i]).key == k {
            let i = choose|i: int| 0 <= i < prev.len() && (#[trigger] prev[i]).key == k;
            assert(ops[i] == prev[i]);
        }
    }
}

/// Putting the same key and value twice: the segment grows by a second record, the key
/// directory holds the same keys as after one put, and a read returns the value.
pub proof fn lemma_put_twice(
    key_dir: Map<Seq<u8>, KeyDir>,
    file_id: u64,
    segment: Seq<u8>,
    p: Put,
    q: Put,
)
    requires
        q.key == p.key,
        q.value == p.value,
        apply_puts(key_dir, file_id, segment, seq![p, q]).1.len() <= u64::MAX,
    ensures
        ({
            let (kd1, seg1) = apply_puts(key_dir, file_id, segment, seq![p]);
            let (kd2, seg2) = apply_puts(key_dir, file_id, segment, seq![p, q]);
            &&& seg2.len() == seg1.len() + record_len(p.key, p.value)
            &&& kd2.dom() == kd1.dom()
            &&& kd2.contains_key(p.key)
            &&& value_at(seg2, kd2[p.key]) == p.value
            &&& value_at(seg1, kd1[p.key]) == p.value
        }),
{
    let ops = seq![p, q];
    assert(ops.drop_last() =~= seq![p]);
    assert(seq![p].drop_last() =~= Seq::<Put>::empty());
    lemma_put_record_layout(q);
    lemma_get_returns_last_put(key_dir, file_id, segment, ops, p.key, 1);
    lemma_segment_grows(key_dir, file_id, segment, ops, 1);
    assert(ops.subrange(0, 1) =~= seq![p]);
    lemma_get_returns_last_put(key_dir, file_id, segment, seq![p], p.key, 0);
    let (kd1, seg1) = apply_puts(key_dir, file_id, segment, seq![p]);
    let (kd2, seg2) = apply_puts(key_dir, file_id, segment, ops);
    assert(kd2.dom() =~= kd1.dom());
}


/// Whether the records of `b` from `pos` on are all whole and end exactly at the end of `b`.
pub open spec fn ends_at(b: Seq<u8>, pos: int) -> bool
    decreases b.len() - pos,
{
    if pos < 0 || pos > b.len() {
        false
    } else if pos == b.len() {
        true
    } else if data_record_fits(b, pos) {
        ends_at(b, pos + 32 + u64_at(b, pos + 16) + u64_at(b, pos + 24))
    } else {
        false
    }
}

proof fn lemma_read_prefix(a: Seq<u8>, r: Seq<u8>, pos: int)
    requires
        0 <= pos,
        pos + 8 <= a.len(),
    ensures
        u64_at(a + r, pos) == u64_at(a, pos),
{
    assert((a + r).subrange(pos, pos + 8) =~= a.subrange(pos, pos + 8));
}

pub(crate) proof fn lemma_scan_append(a: Seq<u8>, p: Put, pos: int, file_id: u64)
    requires
        0 <= pos <= a.len(),
        ends_at(a, pos),
        a.len() + record_len(p.key, p.value) <= u64::MAX,
    ensures
        scan_data(a + put_record(p), pos, file_id) == scan_data(a, pos, file_id) + seq![
            (p.key, put_entry(file_id, a.len() as u64, p.key, p.value, p.timestamp)),
        ],
        ends_at(a + put_record(p), pos),
    decreases a.len() - pos,
{
    let r = put_record(p);
    let b = a + r;
    lemma_put_record_layout(p);
    lemma_auto_spec_u64_to_from_le_bytes();
    if pos == a.len() {
        let n = a.len() as int;
        assert(b.subrange(n + 8, n + 16) =~= spec_u64_to_le_bytes(p.timestamp));
        assert(b.subrange(n + 16, n + 24) =~= spec_u64_to_le_bytes(p.key.len() as u64));
        assert(b.subrange(n + 24, n + 32) =~= spec_u64_to_le_bytes(p.value.len() as u64));
        assert(u64_at(b, n + 16) == p.key.len() as u64);
        assert(u64_at(b, n + 24) == p.value.len() as u64);
        assert(u64_at(b, n + 8) == p.timestamp);
        assert(data_record_fits(b, n));
        assert(b.subrange(n + 32, n + 32 + p.key.len()) =~= p.key);
        assert(!data_record_fits(b, b.len() as int));
        assert(scan_data(b, b.len() as int, file_id) == Seq::<(Seq<u8>, KeyDir)>::empty());
        assert(!data_record_fits(a, n));
        assert(scan_data(a, n, file_id) == Seq::<(Seq<u8>, KeyDir)>::empty());
        assert(scan_data(b, n, file_id) =~= seq![
            (p.key, put_entry(file_id, a.len() as u64, p.key, p.value, p.timestamp)),
        ]);
        assert(ends_at(b, b.len() as int));
    } else {
        assert(data_record_fits(a, pos));
        lemma_read_prefix(a, r, pos + 8);
        lemma_read_prefix(a, r, pos + 16);
        lemma_read_prefix(a, r, pos + 24);
        let next = pos + 32 + u64_at(a, pos + 16) + u64_at(a, pos + 24);
        let vpos = pos + 32 + u64_at(a, pos + 16);
        assert(b.subrange(pos + 32, vpos) =~= a.subrange(pos + 32, vpos));
        lemma_scan_append(a, p, next, file_id);
        let e = seq![(p.key, put_entry(file_id, a.len() as u64, p.key, p.value, p.timestamp))];
        let head = seq![
            (
                a.subrange(pos + 32, vpos),
                KeyDir {
                    file_id,
                    value_size: u64_at(a, pos + 24),
                    value_pos: vpos as u64,
                    timestamp: u64_at(a, pos + 8),
                },
            ),
        ];
        assert(scan_data(a, pos, file_id) == head + scan_data(a, next, file_id));
        assert(scan_data(b, pos, file_id) == head + scan_data(b, next, file_id));
        assert(head + (scan_data(a, next, file_id) + e) =~= (head + scan_data(a, next, file_id)) + e);
    }
}

pub(crate) proof fn lemma_insert_all_push(
    m: Map<Seq<u8>, KeyDir>,
    s: Seq<(Seq<u8>, KeyDir)>,
    e: (Seq<u8>, KeyDir),
)
    ensures
        insert_all(m, s.push(e)) == insert_all(m, s).insert(e.0, e.1),
    decreases s.len(),
{
    if s.len() == 0 {
        assert(s.push(e).drop_first() =~= Seq::<(Seq<u8>, KeyDir)>::empty());
        assert(s.push(e)[0] == e);
        assert(insert_all(m, s) == m);
        assert(insert_all(m.insert(e.0, e.1), Seq::<(Seq<u8>, KeyDir)>::empty()) == m.insert(e.0, e.1));
    } else {
        assert(s.push(e).drop_first() =~= s.drop_first().push(e));
        assert(s.push(e)[0] == s[0]);
        lemma_insert_all_push(m.insert(s[0].0, s[0].1), s.drop_first(), e);
    }
}

/// Round trip across reopening: recovering the segment that a run of puts wrote into a fresh
/// directory rebuilds exactly the key directory those puts produced, so every read after
/// reopening returns what it returned before.
pub proof fn lemma_reopen_round_trip(file_id: u64, ops: Seq<Put>)
    requires
        apply_puts(Map::empty(), file_id, Seq::empty(), ops).1.len() <= u64::MAX,
    ensures
        ({
            let (kd, seg) = apply_puts(Map::empty(), file_id, Seq::empty(), ops);
            &&& insert_all(Map::empty(), scan_data(seg, 0, file_id)) == kd
            &&& ends_at(seg, 0)
        }),
    decreases ops.len(),
{
    if ops.len() == 0 {
        assert(scan_data(Seq::<u8>::empty(), 0, file_id) == Seq::<(Seq<u8>, KeyDir)>::empty());
    } else {
        let prev = ops.drop_last();
        lemma_segment_grows(Map::empty(), file_id, Seq::empty(), ops, ops.len() - 1);
        assert(ops.subrange(0, ops.len() - 1) =~= prev);
        lemma_put_record_layout(ops.last());
        lemma_reopen_round_trip(file_id, prev);
        let (kd1, seg1) = apply_puts(Map::empty(), file_id, Seq::empty(), prev);
        let p = ops.last();
        lemma_scan_append(seg1, p, 0, file_id);
        let e = (p.key, put_entry(file_id, seg1.len() as u64, p.key, p.value, p.timestamp));
        assert(scan_data(seg1, 0, file_id) + seq![e] =~= scan_data(seg1, 0, file_id).push(e));
        lemma_insert_all_push(Map::empty(), scan_data(seg1, 0, file_id), e);
    }
}


/// Reopening a directory whose one segment was written by a run of puts: recovery, as
/// `build_keydir` performs it on the image of that segment, yields the key directory the puts
/// produced.
pub proof fn lemma_reopen_rebuilds_key_dir(image: SegmentImage, ops: Seq<Put>)
    requires
        !image.from_hint,
        image.bytes@ == apply_puts(Map::empty(), image.file_id, Seq::empty(), ops).1,
        image.bytes@.len() <= u64::MAX,
    ensures
        recover(Map::empty(), seq![image]) == apply_puts(Map::empty(), image.file_id, Seq::empty(), ops).0,
{
    lemma_reopen_round_trip(image.file_id, ops);
    let kd = insert_all(Map::empty(), scan_data(image.bytes@, 0, image.file_id));
    assert(seq![image].drop_first() =~= Seq::<SegmentImage>::empty());
    assert(recover(kd, Seq::<SegmentImage>::empty()) == kd);
}

/// Whether the hint records of `b` from `pos` on are all whole and end exactly at the end of `b`.
pub open spec fn hint_ends_at(b: Seq<u8>, pos: int) -> bool
    decreases b.len() - pos,
{
    if pos < 0 || pos > b.len() {
        false
    } else if pos == b.len() {
        true
    } else if hint_record_fits(b, pos) {
        hint_ends_at(b, pos + 32 + u64_at(b, pos + 8))
    } else {
        false
    }
}

pub(crate) proof fn lemma_scan_hint_append(a: Seq<u8>, key: Seq<u8>, e: KeyDir, pos: int, file_id: u64)
    requires
        0 <= pos <= a.len(),
        hint_ends_at(a, pos),
        e.file_id == file_id,
        key.len() <= u64::MAX,
    ensures
        scan_hint(a + hint_record_bytes(e.timestamp, key.len() as u64, e.value_size, e.value_pos, key), pos, file_id)
            == scan_hint(a, pos, file_id) + seq![(key, e)],
        hint_ends_at(a + hint_record_bytes(e.timestamp, key.len() as u64, e.value_size, e.value_pos, key), pos),
    decreases a.len() - pos,
{
    let r = hint_record_bytes(e.timestamp, key.len() as u64, e.value_size, e.value_pos, key);
    let b = a + r;
    lemma_auto_spec_u64_to_from_le_bytes();
    assert(r.len() == 32 + key.len());
    if pos == a.len() {
        let n = a.len() as int;
        assert(b.subrange(n, n + 8) =~= spec_u64_to_le_bytes(e.timestamp));
        assert(b.subrange(n + 8, n + 16) =~= spec_u64_to_le_bytes(key.len() as u64));
        assert(b.subrange(n + 16, n + 24) =~= spec_u64_to_le_bytes(e.value_size));
        assert(b.subrange(n + 24, n + 32) =~= spec_u64_to_le_bytes(e.value_pos));
        assert(u64_at(b, n) == e.timestamp);
        assert(u64_at(b, n + 8) == key.len() as u64);
        assert(u64_at(b, n + 16) == e.value_size);
        assert(u64_at(b, n + 24) == e.value_pos);
        assert(hint_record_fits(b, n));
        assert(b.subrange(n + 32, n + 32 + key.len()) =~= key);
        assert(!hint_record_fits(b, b.len() as int));
        assert(scan_hint(b, b.len() as int, file_id) == Seq::<(Seq<u8>, KeyDir)>::empty());
        assert(!hint_record_fits(a, n));
        assert(scan_hint(a, n, file_id) == Seq::<(Seq<u8>, KeyDir)>::empty());
        assert(scan_hint(b, n, file_id) =~= seq![(key, e)]);
        assert(hint_ends_at(b, b.len() as int));
    } else {
        assert(hint_record_fits(a, pos));
        lemma_read_prefix(a, r, pos);
        lemma_read_prefix(a, r, pos + 8);
        lemma_read_prefix(a, r, pos + 16);
        lemma_read_prefix(a, r, pos + 24);
        let next = pos + 32 + u64_at(a, pos + 8);
        assert(b.subrange(pos + 32, next) =~= a.subrange(pos + 32, next));
        lemma_scan_hint_append(a, key, e, next, file_id);
        let head = seq![
            (
                a.subrange(pos + 32, next),
                KeyDir {
                    file_id,
                    value_size: u64_at(a, pos + 16),
                    value_pos: u64_at(a, pos + 24),
                    timestamp: u64_at(a, pos),
                },
            ),
        ];
        assert(scan_hint(a, pos, file_id) == head + scan_hint(a, next, file_id));
        assert(scan_hint(b, pos, file_id) == head + scan_hint(b, next, file_id));
        assert(head + (scan_hint(a, next, file_id) + seq![(key, e)]) =~= (head + scan_hint(a, next, file_id)) + seq![(key, e)]);
    }
}

} // verus!
