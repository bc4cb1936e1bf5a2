//! Rebuilding the key directory from the segments and hint files of a directory.
use crate::codec::{read_data_record, read_hint_record, scan_data, scan_hint};
use crate::keydir::{KeyDir, KeyDirectory};
use crate::naming::{file_id_of, get_file_id, hint_name_of, is_hint_of, is_segment_file, is_segment_name};
use vstd::prelude::*;

verus! {

/// One segment to read on recovery: its id, the index of its data file among the directory's
/// names, and the index of its hint file, where there is one.
#[derive(Debug, Clone, Copy, PartialEq, Eq, Structural)]
pub struct SegmentPlan {
    pub file_id: u64,
    pub data: usize,
    pub hint: Option<usize>,
}

/// Whether `id` is the id of some segment file among `names`.
pub open spec fn names_segment(names: Seq<Vec<u8>>, id: u64) -> bool {
    exists|i: int|
        0 <= i < names.len() && is_segment_name(names[i]@) && #[trigger] file_id_of(names[i]@)
            == Some(id)
}

/// Whether `p` names a segment file of `names` with its id, and its hint file exactly where
/// the directory holds one.
pub open spec fn plan_entry_ok(names: Seq<Vec<u8>>, p: SegmentPlan) -> bool {
    &&& p.data < names.len()
    &&& is_segment_name(names[p.data as int]@)
    &&& file_id_of(names[p.data as int]@) == Some(p.file_id)
    &&& match p.hint {
        Some(h) => h < names.len() && names[h as int]@ == hint_name_of(names[p.data as int]@),
        None => forall|h: int|
            0 <= h < names.len() ==> (#[trigger] names[h])@ != hint_name_of(names[p.data as int]@),
    }
}

/// Whether `plan` lists each segment id of `names` once, ascending, with the file to read.
pub open spec fn is_recovery_plan(names: Seq<Vec<u8>>, plan: Seq<SegmentPlan>) -> bool {
    &&& forall|a: int, b: int| 0 <= a < b < plan.len() ==> plan[a].file_id < plan[b].file_id
    &&& forall|id: u64| names_segment(names, id) <==> exists|a: int| 0 <= a < plan.len() && #[trigger] plan[a].file_id == id
    &&& forall|a: int| 0 <= a < plan.len() ==> plan_entry_ok(names, #[trigger] plan[a])
}

/// The index of the hint file beside `names[data]`, if the directory holds one.
fn find_hint(names: &Vec<Vec<u8>>, data: usize) -> (r: Option<usize>)
    requires
        data < names@.len(),
    ensures
        match r {
            Some(h) => h < names@.len() && names@[h as int]@ == hint_name_of(names@[data as int]@),
            None => forall|h: int|
                0 <= h < names@.len() ==> (#[trigger] names@[h])@ != hint_name_of(names@[data as int]@),
        },
{
    let mut h: usize = 0;
    while h < names.len()
        invariant
            0 <= h <= names@.len(),
            data < names@.len(),
            forall|j: int| 0 <= j < h ==> names@[j]@ != hint_name_of(names@[data as int]@),
        decreases names@.len() - h,
    {
        if is_hint_of(names[h].as_slice(), names[data].as_slice()) {
            return Some(h);
        }
        h = h + 1;
    }
    None
}

/// The smallest segment id among `names` above `floor` (above nothing where `floor` is `None`),
/// with the index of the first of its files.
fn next_segment_above(names: &Vec<Vec<u8>>, floor: Option<u64>) -> (r: Option<(u64, usize)>)
    ensures
        match r {
            Some((id, i)) => {
                &&& i < names@.len()
                &&& is_segment_name(names@[i as int]@)
                &&& file_id_of(names@[i as int]@) == Some(id)
                &&& floor matches Some(f) ==> id > f
                &&& forall|j: int|
                    0 <= j < names@.len() && is_segment_name(names@[j]@) && (floor matches Some(
                        f,
                    ) ==> file_id_of(names@[j]@)->0 > f) ==> id <= file_id_of(names@[j]@)->0
            },
            None => forall|j: int|
                0 <= j < names@.len() && is_segment_name(names@[j]@) ==> (floor matches Some(f)
                    && file_id_of(names@[j]@)->0 <= f),
        },
{
    let mut best: Option<(u64, usize)> = None;
    let mut j: usize = 0;
    while j < names.len()
        invariant
            0 <= j <= names@.len(),
            match best {
                Some((id, i)) => {
                    &&& i < names@.len()
                    &&& is_segment_name(names@[i as int]@)
                    &&& file_id_of(names@[i as int]@) == Some(id)
                    &&& floor matches Some(f) ==> id > f
                    &&& forall|k: int|
                        0 <= k < j && is_segment_name(names@[k]@) && (floor matches Some(f)
                            ==> file_id_of(names@[k]@)->0 > f) ==> id <= file_id_of(
                            names@[k]@,
                        )->0
                },
                None => forall|k: int|
                    0 <= k < j && is_segment_name(names@[k]@) ==> (floor matches Some(f)
                        && file_id_of(names@[k]@)->0 <= f),
            },
        decreases names@.len() - j,
    {
        if is_segment_file(names[j].as_slice()) {
            let id = match get_file_id(names[j].as_slice()) {
                Some(id) => id,
                None => 0,
            };
            let above = match floor {
                Some(f) => id > f,
                None => true,
            };
            if above {
                match best {
                    Some((b, _)) => {
                        if id < b {
                            best = Some((id, j));
                        }
                    },
                    None => {
                        best = Some((id, j));
                    },
                }
            }
        }
        j = j + 1;
    }
    best
}

/// Lists the segments of a directory, given the names of its files, in the order in which
/// recovery reads them: ascending id, each id once, with the hint file where one exists.
pub fn recovery_plan(names: &Vec<Vec<u8>>) -> (r: Vec<SegmentPlan>)
    ensures
        is_recovery_plan(names@, r@),
{
    let mut plan: Vec<SegmentPlan> = Vec::new();
    let mut floor: Option<u64> = None;
    loop
        invariant
            forall|a: int, b: int| 0 <= a < b < plan@.len() ==> plan@[a].file_id < plan@[b].file_id,
            plan@.len() == 0 <==> floor is None,
            floor matches Some(f) ==> plan@.last().file_id == f,
            forall|a: int| 0 <= a < plan@.len() ==> names_segment(names@, #[trigger] plan@[a].file_id),
            forall|id: u64|
                names_segment(names@, id) && (floor matches Some(f) && id <= f) ==> exists|a: int|
                    0 <= a < plan@.len() && #[trigger] plan@[a].file_id == id,
            forall|a: int| 0 <= a < plan@.len() ==> plan_entry_ok(names@, #[trigger] plan@[a]),
        decreases (if floor is Some {
            u64::MAX - floor->0
        } else {
            u64::MAX + 1
        }),
    {
        match next_segment_above(names, floor) {
            Some((id, data)) => {
                let hint = find_hint(names, data);
                let ghost old_plan = plan@;
                plan.push(SegmentPlan { file_id: id, data, hint });
                proof {
                    assert(names_segment(names@, id));
                    assert forall|a: int| 0 <= a < plan@.len() implies names_segment(
                        names@,
                        #[trigger] plan@[a].file_id,
                    ) by {
                        if a < old_plan.len() {
                            assert(plan@[a] == old_plan[a]);
                        }
                    }
                    assert forall|x: u64| names_segment(names@, x) && x <= id implies exists|a: int|
                        0 <= a < plan@.len() && #[trigger] plan@[a].file_id == x by {
                        let i = choose|i: int|
                            0 <= i < names@.len() && is_segment_name(names@[i]@)
                                && #[trigger] file_id_of(names@[i]@) == Some(x);
                        if x == id {
                            assert(plan@[old_plan.len() as int].file_id == x);
                        } else {
                            let a = choose|a: int|
                                0 <= a < old_plan.len() && #[trigger] old_plan[a].file_id == x;
                            assert(plan@[a] == old_plan[a]);
                        }
                    }
                }
                floor = Some(id);
            },
            None => {
                proof {
                    assert forall|x: u64| names_segment(names@, x) implies exists|a: int|
                        0 <= a < plan@.len() && #[trigger] plan@[a].file_id == x by {
                        let i = choose|i: int|
                            0 <= i < names@.len() && is_segment_name(names@[i]@)
                                && #[trigger] file_id_of(names@[i]@) == Some(x);
                    }
                }
                return plan;
            },
        }
    }
}


/// The contents of one segment as read from disk: the hint file where the plan names one,
/// else the data file.
#[derive(Debug)]
pub struct SegmentImage {
    pub file_id: u64,
    pub from_hint: bool,
    pub bytes: Vec<u8>,
}

/// `m` with each entry of `entries` inserted in turn, so that a later entry of a key wins.
pub open spec fn insert_all(m: Map<Seq<u8>, KeyDir>, entries: Seq<(Seq<u8>, KeyDir)>) -> Map<
    Seq<u8>,
    KeyDir,
>
    decreases entries.len(),
{
    if entries.len() == 0 {
        m
    } else {
        insert_all(m.insert(entries[0].0, entries[0].1), entries.drop_first())
    }
}

/// The entries that one segment image yields, in file order.
pub open spec fn image_entries(s: SegmentImage) -> Seq<(Seq<u8>, KeyDir)> {
    if s.from_hint {
        scan_hint(s.bytes@, 0, s.file_id)
    } else {
        scan_data(s.bytes@, 0, s.file_id)
    }
}

/// `m` updated by every segment image in turn.
pub open spec fn recover(m: Map<Seq<u8>, KeyDir>, images: Seq<SegmentImage>) -> Map<
    Seq<u8>,
    KeyDir,
>
    decreases images.len(),
{
    if images.len() == 0 {
        m
    } else {
        recover(insert_all(m, image_entries(images[0])), images.drop_first())
    }
}

proof fn lemma_insert_all_step(m: Map<Seq<u8>, KeyDir>, e: (Seq<u8>, KeyDir), rest: Seq<(Seq<u8>, KeyDir)>)
    ensures
        insert_all(m, seq![e] + rest) == insert_all(m.insert(e.0, e.1), rest),
{
    assert((seq![e] + rest).drop_first() =~= rest);
}

/// Inserts the entries of one segment image into `key_dir`, in file order.
pub fn load_segment(key_dir: &mut KeyDirectory, image: &SegmentImage)
    requires
        old(key_dir).wf(),
    ensures
        final(key_dir).wf(),
        final(key_dir)@ == insert_all(old(key_dir)@, image_entries(*image)),
{
    let b = image.bytes.as_slice();
    let mut pos: usize = 0;
    loop
        invariant
            key_dir.wf(),
            b@ == image.bytes@,
            pos <= b@.len(),
            insert_all(old(key_dir)@, image_entries(*image)) == insert_all(
                key_dir@,
                if image.from_hint {
                    scan_hint(b@, pos as int, image.file_id)
                } else {
                    scan_data(b@, pos as int, image.file_id)
                },
            ),
        decreases b@.len() - pos,
    {
        let step = if image.from_hint {
            read_hint_record(b, pos, image.file_id)
        } else {
            read_data_record(b, pos, image.file_id)
        };
        match step {
            Some((key, entry, next)) => {
                proof {
                    let rest = if image.from_hint {
                        scan_hint(b@, next as int, image.file_id)
                    } else {
                        scan_data(b@, next as int, image.file_id)
                    };
                    lemma_insert_all_step(key_dir@, (key@, entry), rest);
                }
                key_dir.insert(key, entry);
                pos = next;
            },
            None => {
                return;
            },
        }
    }
}

/// Rebuilds the key directory from the images of a directory's segments, read in the order of
/// its recovery plan: a later segment overwrites an earlier one, and a later record of a
/// segment an earlier one.
pub fn build_keydir(images: &Vec<SegmentImage>) -> (r: KeyDirectory)
    ensures
        r.wf(),
        r@ == recover(Map::empty(), images@),
{
    let mut key_dir = KeyDirectory::new();
    let mut i: usize = 0;
    assert(images@.subrange(0, images@.len() as int) =~= images@);
    while i < images.len()
        invariant
            0 <= i <= images@.len(),
            key_dir.wf(),
            recover(Map::empty(), images@) == recover(key_dir@, images@.subrange(i as int, images@.len() as int)),
        decreases images@.len() - i,
    {
        proof {
            let rest = images@.subrange(i as int, images@.len() as int);
            assert(rest.drop_first() =~= images@.subrange(i as int + 1, images@.len() as int));
        }
        load_segment(&mut key_dir, &images[i]);
        i = i + 1;
    }
    key_dir
}

} // verus!
