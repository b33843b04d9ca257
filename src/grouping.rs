//! Grouping of records by fingerprint.
use vstd::prelude::*;
use crate::record::{FileHashKey, ProcessedFile};

verus! {

/// The records that share one fingerprint, in the order they came.
pub struct FileGroup {
    pub key: FileHashKey,
    pub files: Vec<ProcessedFile>,
}

/// All groups, each fingerprint once, in the order of first appearance.
pub type FileStorage = Vec<FileGroup>;

pub type Fingerprint = (Seq<u8>, u64);

pub type GroupModel = Seq<(Fingerprint, Seq<ProcessedFile>)>;

/// The groups as fingerprints with their records.
pub open spec fn model(st: Seq<FileGroup>) -> GroupModel {
    st.map_values(|g: FileGroup| (g.key@, g.files@))
}

/// The first position of the group with fingerprint `k`, or -1.
pub open spec fn find_group(m: GroupModel, k: Fingerprint) -> int
    decreases m.len(),
{
    if m.len() == 0 {
        -1
    } else if find_group(m.drop_last(), k) >= 0 {
        find_group(m.drop_last(), k)
    } else if m.last().0 == k {
        m.len() - 1
    } else {
        -1
    }
}

/// One record added: appended to the group of its fingerprint, or opening a
/// new group at the end; a Duplicate is left out.
pub open spec fn add_record(m: GroupModel, f: ProcessedFile) -> GroupModel {
    match f.key() {
        None => m,
        Some(k) => {
            let i = find_group(m, k);
            if i >= 0 {
                m.update(i, (k, m[i].1.push(f)))
            } else {
                m.push((k, seq![f]))
            }
        },
    }
}

/// The groups of a sequence of records.
pub open spec fn grouped(fs: Seq<ProcessedFile>) -> GroupModel
    decreases fs.len(),
{
    if fs.len() == 0 {
        Seq::empty()
    } else {
        add_record(grouped(fs.drop_last()), fs.last())
    }
}

/// The records of `fs` with fingerprint `k`, in order.
pub open spec fn records_with(fs: Seq<ProcessedFile>, k: Fingerprint) -> Seq<ProcessedFile>
    decreases fs.len(),
{
    if fs.len() == 0 {
        Seq::empty()
    } else if fs.last().key() == Some(k) {
        records_with(fs.drop_last(), k).push(fs.last())
    } else {
        records_with(fs.drop_last(), k)
    }
}

/// `m` splits `fs` by fingerprint: one non-empty group per fingerprint that
/// occurs, holding exactly the records with it.
pub open spec fn partitions(m: GroupModel, fs: Seq<ProcessedFile>) -> bool {
    &&& forall|i: int, j: int| 0 <= i < j < m.len() ==> m[i].0 != m[j].0
    &&& forall|i: int| 0 <= i < m.len() ==> (#[trigger] m[i]).1 == records_with(fs, m[i].0)
    &&& forall|i: int| 0 <= i < m.len() ==> (#[trigger] m[i]).1.len() > 0
    &&& forall|j: int| 0 <= j < fs.len() && (#[trigger] fs[j]).key() is Some ==>
            exists|i: int| 0 <= i < m.len() && Some(m[i].0) == fs[j].key()
}

pub proof fn lemma_find_group(m: GroupModel, k: Fingerprint)
    ensures
        -1 <= find_group(m, k) < m.len(),
        find_group(m, k) >= 0 ==> m[find_group(m, k)].0 == k,
        find_group(m, k) < 0 ==> forall|i: int| 0 <= i < m.len() ==> m[i].0 != k,
        forall|i: int| 0 <= i < find_group(m, k) ==> m[i].0 != k,
    decreases m.len(),
{
    if m.len() > 0 {
        let p = m.drop_last();
        lemma_find_group(p, k);
        assert forall|i: int| 0 <= i < p.len() implies m[i] == p[i] by {}
    }
}

proof fn lemma_records_with_push(fs: Seq<ProcessedFile>, f: ProcessedFile, k: Fingerprint)
    ensures
        records_with(fs.push(f), k) == if f.key() == Some(k) {
            records_with(fs, k).push(f)
        } else {
            records_with(fs, k)
        },
{
    assert(fs.push(f).drop_last() =~= fs);
}

proof fn lemma_records_with_absent(fs: Seq<ProcessedFile>, k: Fingerprint)
    requires
        forall|j: int| 0 <= j < fs.len() ==> fs[j].key() != Some(k),
    ensures
        records_with(fs, k) == Seq::<ProcessedFile>::empty(),
    decreases fs.len(),
{
    if fs.len() > 0 {
        lemma_records_with_absent(fs.drop_last(), k);
    }
}

/// Every record of `records_with(fs, k)` has fingerprint `k`, and every
/// record of `fs` with fingerprint `k` is among them.
pub proof fn lemma_records_with_members(fs: Seq<ProcessedFile>, k: Fingerprint)
    ensures
        forall|x: ProcessedFile| records_with(fs, k).contains(x) ==> x.key() == Some(k),
        forall|j: int| 0 <= j < fs.len() && fs[j].key() == Some(k) ==>
            records_with(fs, k).contains(#[trigger] fs[j]),
        forall|x: ProcessedFile| records_with(fs, k).contains(x) ==> fs.contains(x),
    decreases fs.len(),
{
    if fs.len() > 0 {
        let p = fs.drop_last();
        lemma_records_with_members(p, k);
        let r = records_with(fs, k);
        assert forall|x: ProcessedFile| r.contains(x) implies x.key() == Some(k) by {
            if fs.last().key() == Some(k) {
                let i = choose|i: int| 0 <= i < r.len() && r[i] == x;
                if i < r.len() - 1 {
                    assert(records_with(p, k).contains(x));
                }
            } else {
                assert(records_with(p, k).contains(x));
            }
        }
        assert forall|x: ProcessedFile| r.contains(x) implies fs.contains(x) by {
            let i = choose|i: int| 0 <= i < r.len() && r[i] == x;
            if fs.last().key() == Some(k) && i == r.len() - 1 {
                assert(fs[fs.len() - 1] == x);
            } else {
                if fs.last().key() == Some(k) {
                    assert(records_with(p, k)[i] == x);
                } else {
                    assert(records_with(p, k)[i] == x);
                }
                assert(records_with(p, k).contains(x));
                assert(p.contains(x));
                let j = choose|j: int| 0 <= j < p.len() && p[j] == x;
                assert(fs[j] == p[j]);
            }
        }
        assert forall|j: int| 0 <= j < fs.len() && fs[j].key() == Some(k) implies r.contains(
            #[trigger] fs[j],
        ) by {
            if j == fs.len() - 1 {
                assert(r[r.len() - 1] == fs[j]);
            } else {
                assert(p[j] == fs[j]);
                assert(records_with(p, k).contains(p[j]));
                let i = choose|i: int| 0 <= i < records_with(p, k).len() && records_with(p, k)[i] == p[j];
                if fs.last().key() == Some(k) {
                    assert(r[i] == fs[j]);
                }
            }
        }
    }
}

proof fn lemma_add_record_partitions(m: GroupModel, fs: Seq<ProcessedFile>, f: ProcessedFile)
    requires
        partitions(m, fs),
    ensures
        partitions(add_record(m, f), fs.push(f)),
{
    let fs2 = fs.push(f);
    let m2 = add_record(m, f);
    assert forall|k: Fingerprint| #[trigger] records_with(fs2, k) == if f.key() == Some(k) {
        records_with(fs, k).push(f)
    } else {
        records_with(fs, k)
    } by {
        lemma_records_with_push(fs, f, k);
    }
    match f.key() {
        None => {
            assert forall|j: int| 0 <= j < fs2.len() && (#[trigger] fs2[j]).key() is Some implies
                exists|i: int| 0 <= i < m2.len() && Some(m2[i].0) == fs2[j].key() by {
                assert(fs[j] == fs2[j]);
            }
        },
        Some(k) => {
            lemma_find_group(m, k);
            let g = find_group(m, k);
            if g < 0 {
                assert forall|j: int| 0 <= j < fs.len() implies fs[j].key() != Some(k) by {
                    if fs[j].key() == Some(k) {
                        let i = choose|i: int| 0 <= i < m.len() && Some(m[i].0) == fs[j].key();
                        assert(m[i].0 == k);
                    }
                }
                lemma_records_with_absent(fs, k);
                assert(records_with(fs2, k) =~= seq![f]);
                assert forall|j: int| 0 <= j < fs2.len() && (#[trigger] fs2[j]).key() is Some implies
                    exists|i: int| 0 <= i < m2.len() && Some(m2[i].0) == fs2[j].key() by {
                    if j == fs.len() {
                        assert(m2[m.len() as int].0 == k);
                    } else {
                        assert(fs[j] == fs2[j]);
                        let i = choose|i: int| 0 <= i < m.len() && Some(m[i].0) == fs[j].key();
                        assert(m2[i] == m[i]);
                    }
                }
            } else {
                assert forall|j: int| 0 <= j < fs2.len() && (#[trigger] fs2[j]).key() is Some implies
                    exists|i: int| 0 <= i < m2.len() && Some(m2[i].0) == fs2[j].key() by {
                    if j == fs.len() {
                        assert(m2[g].0 == k);
                    } else {
                        assert(fs[j] == fs2[j]);
                        let i = choose|i: int| 0 <= i < m.len() && Some(m[i].0) == fs[j].key();
                        assert(m2[i].0 == m[i].0);
                    }
                }
            }
        },
    }
}

/// The groups of any sequence of records split it by fingerprint.
pub proof fn lemma_grouped_partitions(fs: Seq<ProcessedFile>)
    ensures
        partitions(grouped(fs), fs),
    decreases fs.len(),
{
    if fs.len() > 0 {
        lemma_grouped_partitions(fs.drop_last());
        lemma_add_record_partitions(grouped(fs.drop_last()), fs.drop_last(), fs.last());
        assert(fs.drop_last().push(fs.last()) =~= fs);
    }
}

/// Two records of a sequence fall into one group exactly when their digests
/// and sizes are both equal.
pub proof fn lemma_same_group_iff_same_fingerprint(fs: Seq<ProcessedFile>, a: int, b: int)
    requires
        0 <= a < fs.len(),
        0 <= b < fs.len(),
        fs[a].key() is Some,
        fs[b].key() is Some,
    ensures
        (exists|i: int|
            0 <= i < grouped(fs).len() && (#[trigger] grouped(fs)[i]).1.contains(fs[a])
                && grouped(fs)[i].1.contains(fs[b])) <==> fs[a].key() == fs[b].key(),
{
    let m = grouped(fs);
    lemma_grouped_partitions(fs);
    if fs[a].key() == fs[b].key() {
        let i = choose|i: int| 0 <= i < m.len() && Some(m[i].0) == fs[a].key();
        lemma_records_with_members(fs, m[i].0);
        assert(m[i].1.contains(fs[a]) && m[i].1.contains(fs[b]));
    } else {
        assert forall|i: int| 0 <= i < m.len() implies !((#[trigger] m[i]).1.contains(fs[a])
            && m[i].1.contains(fs[b])) by {
            lemma_records_with_members(fs, m[i].0);
        }
    }
}

/// Adds one record to the groups: a Duplicate is dropped, any other record
/// is appended to the group of its fingerprint, or starts a new group.
pub fn group_by_hash(file_index: FileStorage, processed_file: ProcessedFile) -> (r: FileStorage)
    ensures
        model(r@) == add_record(model(file_index@), processed_file),
{
    let ghost m = model(file_index@);
    let mut groups = file_index;
    let key = match processed_file.hash_key() {
        None => {
            assert(add_record(m, processed_file) == m);
            return groups;
        },
        Some(k) => k,
    };
    proof { lemma_find_group(m, key@); }
    let mut i: usize = 0;
    while i < groups.len()
        invariant
            i <= groups@.len(),
            m == model(groups@),
            m == model(file_index@),
            processed_file.key() == Some(key@),
            forall|j: int| 0 <= j < i ==> groups@[j].key@ != key@,
        decreases groups@.len() - i,
    {
        if groups[i].key.same(&key) {
            proof {
                lemma_find_group(m, key@);
                assert(m[i as int].0 == key@);
                if find_group(m, key@) > i as int {
                    assert(m[i as int].0 == key@);
                } else if find_group(m, key@) < i as int {
                    assert(m[find_group(m, key@)].0 == groups@[find_group(m, key@)].key@);
                }
                assert(find_group(m, key@) == i as int);
            }
            let mut group = groups.remove(i);
            group.files.push(processed_file);
            groups.insert(i, group);
            assert(model(groups@) =~= m.update(i as int, (key@, m[i as int].1.push(processed_file))));
            assert(model(groups@) == add_record(m, processed_file));
            return groups;
        }
        i = i + 1;
    }
    assert forall|j: int| 0 <= j < m.len() implies m[j].0 != key@ by {
        assert(m[j].0 == groups@[j].key@);
    }
    proof { lemma_find_group(m, key@); }
    let mut files: Vec<ProcessedFile> = Vec::new();
    files.push(processed_file);
    groups.push(FileGroup { key, files });
    assert(model(groups@) =~= m.push((key@, seq![processed_file])));
    assert(model(groups@) == add_record(m, processed_file));
    groups
}

/// The records grouped by fingerprint, in the order of first appearance.
pub fn group_files(files: &Vec<ProcessedFile>) -> (r: FileStorage)
    ensures
        model(r@) == grouped(files@),
{
    let mut st: FileStorage = Vec::new();
    let mut i: usize = 0;
    assert(model(st@) =~= grouped(files@.subrange(0, 0)));
    while i < files.len()
        invariant
            i <= files@.len(),
            model(st@) == grouped(files@.subrange(0, i as int)),
        decreases files@.len() - i,
    {
        let f = files[i].copy();
        st = group_by_hash(st, f);
        assert(files@.subrange(0, i + 1).drop_last() =~= files@.subrange(0, i as int));
        i = i + 1;
    }
    assert(files@.subrange(0, i as int) =~= files@);
    st
}

} // verus!
