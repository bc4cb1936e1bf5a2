//! Segment file names: `<file_id>.dat` and `<file_id>.hint`, and the allocation of new ids.
use vstd::prelude::*;

verus! {

/// The byte `.`.
pub const DOT: u8 = 46;

/// The position of the last `.` among the first `n` bytes of `b`, or -1 where there is none.
pub open spec fn last_dot(b: Seq<u8>, n: int) -> int
    decreases n,
{
    if n <= 0 {
        -1
    } else if b[n - 1] == DOT {
        n - 1
    } else {
        last_dot(b, n - 1)
    }
}

/// The stem of a file name: the part before its last `.`, or the whole name where it has no
/// `.` or only a leading one.
pub open spec fn file_stem(b: Seq<u8>) -> Seq<u8> {
    let d = last_dot(b, b.len() as int);
    if d > 0 {
        b.subrange(0, d)
    } else {
        b
    }
}

/// The extension of a file name: the part after its last `.`, where the stem is not the whole name.
pub open spec fn file_extension(b: Seq<u8>) -> Option<Seq<u8>> {
    let d = last_dot(b, b.len() as int);
    if d > 0 {
        Some(b.subrange(d + 1, b.len() as int))
    } else {
        None
    }
}

/// Whether `c` is an ASCII decimal digit.
pub open spec fn is_digit(c: u8) -> bool {
    48 <= c <= 57
}

/// The value of a string of decimal digits.
pub open spec fn decimal_value(d: Seq<u8>) -> nat
    decreases d.len(),
{
    if d.len() == 0 {
        0
    } else {
        10 * decimal_value(d.drop_last()) + (d.last() - 48) as nat
    }
}

/// A string without its leading `+`, where it has one.
pub open spec fn unsigned_digits(b: Seq<u8>) -> Seq<u8> {
    if b.len() > 0 && b[0] == 43 {
        b.drop_first()
    } else {
        b
    }
}

/// The `u64` that a string spells in decimal, with an optional leading `+`; `None` where it is
/// empty, holds another byte, or names a number beyond `u64::MAX`.
pub open spec fn parse_u64(b: Seq<u8>) -> Option<u64> {
    let d = unsigned_digits(b);
    if d.len() > 0 && (forall|i: int| 0 <= i < d.len() ==> is_digit(#[trigger] d[i]))
        && decimal_value(d) <= u64::MAX {
        Some(decimal_value(d) as u64)
    } else {
        None
    }
}

/// The segment id that a file name carries: its stem read as a decimal `u64`.
pub open spec fn file_id_of(name: Seq<u8>) -> Option<u64> {
    parse_u64(file_stem(name))
}

proof fn lemma_decimal_prefix_grows(d: Seq<u8>, i: int)
    requires
        0 <= i <= d.len(),
        forall|j: int| 0 <= j < d.len() ==> is_digit(#[trigger] d[j]),
    ensures
        decimal_value(d.subrange(0, i)) <= decimal_value(d),
    decreases d.len() - i,
{
    if i < d.len() {
        lemma_decimal_prefix_grows(d, i + 1);
        let p = d.subrange(0, i + 1);
        assert(p.drop_last() =~= d.subrange(0, i));
    } else {
        assert(d.subrange(0, i) =~= d);
    }
}

/// The position of the last `.` in `b`, as `last_dot` gives it.
fn find_last_dot(b: &[u8]) -> (r: Option<usize>)
    ensures
        match r {
            Some(d) => d < b@.len() && d as int == last_dot(b@, b@.len() as int),
            None => last_dot(b@, b@.len() as int) == -1,
        },
{
    let mut n: usize = b.len();
    while n > 0
        invariant
            0 <= n <= b@.len(),
            last_dot(b@, b@.len() as int) == last_dot(b@, n as int),
        decreases n,
    {
        if b[n - 1] == DOT {
            return Some(n - 1);
        }
        n = n - 1;
    }
    None
}

/// Reads a decimal `u64` with an optional leading `+`, as `str::parse::<u64>` does.
pub fn parse_decimal(b: &[u8]) -> (r: Option<u64>)
    ensures
        r == parse_u64(b@),
{
    let mut start: usize = 0;
    if b.len() > 0 && b[0] == 43 {
        start = 1;
    }
    let ghost d = unsigned_digits(b@);
    assert(d =~= b@.subrange(start as int, b@.len() as int));
    if start >= b.len() {
        return None;
    }
    let mut acc: u64 = 0;
    let mut i: usize = start;
    while i < b.len()
        invariant
            start <= i <= b@.len(),
            d == b@.subrange(start as int, b@.len() as int),
            d == unsigned_digits(b@),
            forall|j: int| start <= j < i ==> is_digit(#[trigger] b@[j]),
            acc as nat == decimal_value(b@.subrange(start as int, i as int)),
        decreases b@.len() - i,
    {
        let c = b[i];
        let ghost p = b@.subrange(start as int, i as int + 1);
        assert(p.drop_last() =~= b@.subrange(start as int, i as int));
        if c < 48 || c > 57 {
            assert(d[i - start] == c);
            assert(!is_digit(d[i - start]));
            return None;
        }
        let digit = (c - 48) as u64;
        if acc > (u64::MAX - digit) / 10 {
            proof {
                assert(decimal_value(p) > u64::MAX) by (nonlinear_arith)
                    requires
                        decimal_value(p) == 10 * acc + digit,
                        acc > (u64::MAX - digit) / 10,
                        digit <= 9,
                ;
                if forall|j: int| 0 <= j < d.len() ==> is_digit(#[trigger] d[j]) {
                    lemma_decimal_prefix_grows(d, i - start + 1);
                    assert(d.subrange(0, i - start + 1) =~= p);
                }
            }
            return None;
        }
        acc = acc * 10 + digit;
        i = i + 1;
    }
    assert(b@.subrange(start as int, i as int) =~= d);
    Some(acc)
}

/// The segment id that a file name carries, as `file_id_of` gives it.
pub fn get_file_id(file_name: &[u8]) -> (r: Option<u64>)
    ensures
        r == file_id_of(file_name@),
{
    match find_last_dot(file_name) {
        Some(d) => {
            if d > 0 {
                let stem = vstd::slice::slice_subrange(file_name, 0, d);
                parse_decimal(stem)
            } else {
                parse_decimal(file_name)
            }
        },
        None => parse_decimal(file_name),
    }
}


/// The largest of `now` and the ids that the names carry.
pub open spec fn max_file_id(now: u64, names: Seq<Vec<u8>>) -> u64
    decreases names.len(),
{
    if names.len() == 0 {
        now
    } else {
        let m = max_file_id(now, names.drop_last());
        match file_id_of(names.last()@) {
            Some(id) => if id > m {
                id
            } else {
                m
            },
            None => m,
        }
    }
}

/// The id of a new segment: one more than the largest of `now` and every id in the directory;
/// `None` where that largest is `u64::MAX`.
pub open spec fn next_file_id(now: u64, names: Seq<Vec<u8>>) -> Option<u64> {
    let m = max_file_id(now, names);
    if m == u64::MAX {
        None
    } else {
        Some((m + 1) as u64)
    }
}

proof fn lemma_max_file_id_bounds(now: u64, names: Seq<Vec<u8>>)
    ensures
        max_file_id(now, names) >= now,
        forall|i: int|
            0 <= i < names.len() && (#[trigger] file_id_of(names[i]@)) is Some ==> file_id_of(
                names[i]@,
            )->0 <= max_file_id(now, names),
    decreases names.len(),
{
    if names.len() > 0 {
        lemma_max_file_id_bounds(now, names.drop_last());
        assert forall|i: int|
            0 <= i < names.len() && (#[trigger] file_id_of(names[i]@)) is Some implies file_id_of(
                names[i]@,
            )->0 <= max_file_id(now, names) by {
            if i < names.len() - 1 {
                assert(names.drop_last()[i] == names[i]);
            }
        }
    }
}

/// Allocates the id of a new segment from the time now and the names in the directory.
pub fn gen_file_id(now: u64, names: &Vec<Vec<u8>>) -> (r: Option<u64>)
    ensures
        r == next_file_id(now, names@),
        r matches Some(id) ==> id > now && forall|i: int|
            0 <= i < names@.len() && (#[trigger] file_id_of(names@[i]@)) is Some ==> file_id_of(
                names@[i]@,
            )->0 < id,
{
    proof {
        lemma_max_file_id_bounds(now, names@);
    }
    let mut max_id: u64 = now;
    let mut i: usize = 0;
    while i < names.len()
        invariant
            0 <= i <= names@.len(),
            max_id == max_file_id(now, names@.subrange(0, i as int)),
        decreases names@.len() - i,
    {
        proof {
            assert(names@.subrange(0, i as int + 1).drop_last() =~= names@.subrange(0, i as int));
        }
        match get_file_id(names[i].as_slice()) {
            Some(id) => {
                if id > max_id {
                    max_id = id;
                }
            },
            None => {},
        }
        i = i + 1;
    }
    assert(names@.subrange(0, i as int) =~= names@);
    if max_id == u64::MAX {
        None
    } else {
        Some(max_id + 1)
    }
}

/// Segment ids only grow: once a segment has been created under an allocated id, every later
/// allocation in that directory, at whatever time, yields a strictly greater id.
pub proof fn lemma_file_ids_increase(
    now1: u64,
    names1: Seq<Vec<u8>>,
    now2: u64,
    names2: Seq<Vec<u8>>,
    created: int,
)
    requires
        next_file_id(now1, names1) is Some,
        0 <= created < names2.len(),
        file_id_of(names2[created]@) == next_file_id(now1, names1),
        next_file_id(now2, names2) is Some,
    ensures
        next_file_id(now2, names2)->0 > next_file_id(now1, names1)->0,
{
    lemma_max_file_id_bounds(now2, names2);
    assert(file_id_of(names2[created]@) is Some);
}

/// The bytes `dat`.
pub open spec fn dat_ext() -> Seq<u8> {
    seq![100u8, 97u8, 116u8]
}

/// The bytes `.hint`.
pub open spec fn hint_suffix() -> Seq<u8> {
    seq![46u8, 104u8, 105u8, 110u8, 116u8]
}

/// Whether a file name is that of a segment: extension `dat` and a stem that is a `u64`.
pub open spec fn is_segment_name(name: Seq<u8>) -> bool {
    file_extension(name) == Some(dat_ext()) && file_id_of(name) is Some
}

/// The name of the hint file beside a segment file.
pub open spec fn hint_name_of(segment_name: Seq<u8>) -> Seq<u8> {
    file_stem(segment_name) + hint_suffix()
}

/// Whether a file name is that of a segment, as `is_segment_name` gives it.
pub fn is_segment_file(name: &[u8]) -> (r: bool)
    ensures
        r == is_segment_name(name@),
{
    match find_last_dot(name) {
        Some(d) => {
            if d == 0 {
                return false;
            }
            let ghost e = name@.subrange(d + 1, name@.len() as int);
            assert(file_extension(name@) == Some(e));
            if name.len() - d != 4 {
                assert(e.len() != dat_ext().len());
                return false;
            }
            if name[d + 1] != 100 || name[d + 2] != 97 || name[d + 3] != 116 {
                assert(e[0] == name@[d + 1] && e[1] == name@[d + 2] && e[2] == name@[d + 3]);
                assert(e != dat_ext());
                return false;
            }
            assert(file_extension(name@)->0 =~= dat_ext());
            get_file_id(name).is_some()
        },
        None => false,
    }
}

/// Whether `name` is the hint file beside the segment file `segment_name`.
pub fn is_hint_of(name: &[u8], segment_name: &[u8]) -> (r: bool)
    ensures
        r == (name@ == hint_name_of(segment_name@)),
{
    let stem_len = match find_last_dot(segment_name) {
        Some(d) => if d > 0 {
            d
        } else {
            segment_name.len()
        },
        None => segment_name.len(),
    };
    let ghost stem = file_stem(segment_name@);
    assert(stem =~= segment_name@.subrange(0, stem_len as int));
    if name.len() < 5 || name.len() - 5 != stem_len {
        assert(name@.len() != hint_name_of(segment_name@).len());
        return false;
    }
    let mut i: usize = 0;
    while i < stem_len
        invariant
            0 <= i <= stem_len,
            stem_len <= segment_name@.len(),
            name@.len() == stem_len + 5,
            hint_name_of(segment_name@) == segment_name@.subrange(0, stem_len as int)
                + hint_suffix(),
            forall|j: int| 0 <= j < i ==> name@[j] == segment_name@[j],
        decreases stem_len - i,
    {
        if name[i] != segment_name[i] {
            assert(name@[i as int] != hint_name_of(segment_name@)[i as int]);
            return false;
        }
        i = i + 1;
    }
    let r = name[stem_len] == 46 && name[stem_len + 1] == 104 && name[stem_len + 2] == 105
        && name[stem_len + 3] == 110 && name[stem_len + 4] == 116;
    if r {
        assert(name@ =~= hint_name_of(segment_name@));
    } else {
        assert(name@ != hint_name_of(segment_name@)) by {
            let h = hint_name_of(segment_name@);
            assert(h[stem_len as int] == 46 && h[stem_len + 1] == 104 && h[stem_len + 2] == 105
                && h[stem_len + 3] == 110 && h[stem_len + 4] == 116);
        }
    }
    r
}

} // verus!
