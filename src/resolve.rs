//! Resolution of one fingerprint group: one record is kept in the store and
//! every other new record becomes a duplicate.
use vstd::prelude::*;
use vstd::string::*;
use crate::error::FileError;
use crate::location::FileLocation;
use crate::naming::{unique_name, unique_relative_path, NameSet};
use crate::record::ProcessedFile;
use crate::text::{decimal, file_name, file_name_of, join_path, join_path_str, push_char, push_decimal};

verus! {

/// The directory name of a year.
pub open spec fn year_name(y: i32) -> Seq<char> {
    if y < 0 {
        seq!['-'] + decimal((-y) as nat)
    } else {
        decimal(y as nat)
    }
}

pub fn year_string(year: i32) -> (r: String)
    ensures
        r@ == year_name(year),
{
    let mut r = String::new();
    if year < 0 {
        push_char(&mut r, '-');
        push_decimal(&mut r, (0i64 - year as i64) as u64);
    } else {
        push_decimal(&mut r, year as u64);
    }
    assert(r@ =~= year_name(year));
    r
}

pub open spec fn has_stored(group: Seq<ProcessedFile>) -> bool {
    exists|i: int| 0 <= i < group.len() && group[i] is Stored
}

/// The store-relative name that promotion gives a new record.
pub open spec fn storage_name(f: ProcessedFile, used: Set<Seq<char>>) -> Seq<char> {
    match f {
        ProcessedFile::New { path, year, .. } => unique_name(year_name(year), file_name_of(path@), used),
        _ => Seq::empty(),
    }
}

/// `r` is `group` after promotion: where no record is stored yet and the
/// last record is new, that record becomes NewStored with a fresh place
/// in the store, whose name is then taken; otherwise nothing changes.
pub open spec fn promotion(
    group: Seq<ProcessedFile>,
    r: Seq<ProcessedFile>,
    store: Seq<char>,
    used: Set<Seq<char>>,
    used_after: Set<Seq<char>>,
) -> bool {
    if has_stored(group) || group.len() == 0 || !(group.last() is New) {
        r == group && used_after == used
    } else {
        let rel = storage_name(group.last(), used);
        &&& r.len() == group.len()
        &&& r.drop_last() == group.drop_last()
        &&& used_after == used.insert(rel)
        &&& !used.contains(rel)
        &&& match (group.last(), r.last()) {
            (
                ProcessedFile::New { hash, size, path, year },
                ProcessedFile::NewStored { hash: h, size: s, path: p, stored_path, year: y },
            ) => h == hash && s == size && p == path && y == year && stored_path@ == join_path(store, rel),
            _ => false,
        }
    }
}

/// Promotes the last new record of a group that has no stored record.
pub fn mark_new_storage(grouped_files: Vec<ProcessedFile>, names: &mut NameSet, locations: &FileLocation) -> (r: Vec<ProcessedFile>)
    ensures
        promotion(grouped_files@, r@, locations.store_path@, old(names)@, final(names)@),
{
    let ghost group = grouped_files@;
    let mut files = grouped_files;
    let mut i: usize = 0;
    while i < files.len()
        invariant
            i <= files@.len(),
            files@ == group,
            group == grouped_files@,
            names == old(names),
            forall|j: int| 0 <= j < i ==> !(group[j] is Stored),
        decreases files@.len() - i,
    {
        if files[i].is_stored() {
            assert(group[i as int] is Stored);
            assert(has_stored(group));
            return files;
        }
        i = i + 1;
    }
    assert(!has_stored(group));
    match files.pop() {
        None => files,
        Some(ProcessedFile::New { hash, size, path, year }) => {
            let name = file_name(path.as_str());
            let year_dir = year_string(year);
            let rel = unique_relative_path(year_dir.as_str(), name.as_str(), names);
            let stored_path = join_path_str(locations.store_path.as_str(), rel.as_str());
            files.push(ProcessedFile::NewStored { hash, size, path, stored_path, year });
            assert(files@.drop_last() =~= group.drop_last());
            files
        },
        Some(other) => {
            files.push(other);
            assert(files@ =~= group);
            files
        },
    }
}

/// The position of the first Stored or NewStored record, or -1.
pub open spec fn first_canonical(group: Seq<ProcessedFile>) -> int
    decreases group.len(),
{
    if group.len() == 0 {
        -1
    } else if first_canonical(group.drop_last()) >= 0 {
        first_canonical(group.drop_last())
    } else if group.last().is_canonical() {
        group.len() - 1
    } else {
        -1
    }
}

pub proof fn lemma_first_canonical(group: Seq<ProcessedFile>)
    ensures
        -1 <= first_canonical(group) < group.len(),
        first_canonical(group) >= 0 ==> group[first_canonical(group)].is_canonical(),
        forall|i: int| 0 <= i < group.len() && (i < first_canonical(group) || first_canonical(group) < 0)
            ==> !group[i].is_canonical(),
    decreases group.len(),
{
    if group.len() > 0 {
        let p = group.drop_last();
        lemma_first_canonical(p);
        assert forall|i: int| 0 <= i < p.len() implies group[i] == p[i] by {}
    }
}

/// The archive name and the link name given to a new record, and the names
/// taken after both.
pub open spec fn duplicate_name(f: ProcessedFile, used: Set<Seq<char>>) -> Seq<char> {
    unique_name(Seq::empty(), file_name_of(f->New_path@), used)
}

pub open spec fn link_name(f: ProcessedFile, used: Set<Seq<char>>) -> Seq<char> {
    let d = duplicate_name(f, used);
    unique_name(Seq::empty(), d + ".lnk"@, used.insert(d))
}

pub open spec fn names_after(f: ProcessedFile, used: Set<Seq<char>>) -> Set<Seq<char>> {
    if f is New {
        used.insert(duplicate_name(f, used)).insert(link_name(f, used))
    } else {
        used
    }
}

/// The names taken after the records of `fs` were handled in order.
pub open spec fn names_after_all(fs: Seq<ProcessedFile>, used: Set<Seq<char>>) -> Set<Seq<char>>
    decreases fs.len(),
{
    if fs.len() == 0 {
        used
    } else {
        names_after(fs.last(), names_after_all(fs.drop_last(), used))
    }
}

/// `g` is `f` after duplicate marking against the names `used`: a new record
/// becomes a Duplicate of the kept copy at `canonical`, archived under its
/// first free name in `dup_root`, with its link under the first free name
/// for that name with `.lnk` added; any other record stays as it is.
pub open spec fn marked(
    f: ProcessedFile,
    g: ProcessedFile,
    canonical: Seq<char>,
    dup_root: Seq<char>,
    used: Set<Seq<char>>,
) -> bool {
    match f {
        ProcessedFile::New { path, .. } => match g {
            ProcessedFile::Duplicate { path: p, stored_path, duplicate_path, ln_path } => {
                &&& p == path
                &&& stored_path@ == canonical
                &&& duplicate_path@ == join_path(dup_root, duplicate_name(f, used))
                &&& ln_path@ == join_path(dup_root, link_name(f, used))
            },
            _ => false,
        },
        _ => g == f,
    }
}

/// `r` is `group` after duplicate marking, with names taken from `used` on.
pub open spec fn duplicates_marked(
    group: Seq<ProcessedFile>,
    r: Seq<ProcessedFile>,
    dup_root: Seq<char>,
    used: Set<Seq<char>>,
) -> bool {
    let c = first_canonical(group);
    &&& c >= 0
    &&& r.len() == group.len()
    &&& forall|i: int| 0 <= i < group.len() ==> #[trigger] marked(group[i], r[i], group[c].canonical_path(), dup_root,
        names_after_all(group.subrange(0, i), used))
}

/// The path of the kept copy, for a Stored or NewStored record.
pub fn canonical_path_string(f: &ProcessedFile) -> (r: String)
    requires
        f.is_canonical(),
    ensures
        r@ == f.canonical_path(),
{
    match f {
        ProcessedFile::Stored { path, .. } => path.clone(),
        ProcessedFile::NewStored { stored_path, .. } => stored_path.clone(),
        _ => String::new(),
    }
}

/// Turns every new record of a group into a Duplicate of the group's kept
/// copy; fails where the group has none.
pub fn mark_duplicates(
    grouped_files: Vec<ProcessedFile>,
    duplicate_names: &mut NameSet,
    locations: &FileLocation,
) -> (r: Result<Vec<ProcessedFile>, FileError>)
    ensures
        match r {
            Ok(rs) => duplicates_marked(grouped_files@, rs@, locations.duplicates_path@, old(duplicate_names)@)
                && final(duplicate_names)@ == names_after_all(grouped_files@, old(duplicate_names)@),
            Err(e) => e == FileError::MissingCanonical && first_canonical(grouped_files@) < 0
                && final(duplicate_names)@ == old(duplicate_names)@,
        },
{
    let ghost group = grouped_files@;
    let ghost used = duplicate_names@;
    proof { lemma_first_canonical(group); }
    let mut c: usize = 0;
    while c < grouped_files.len() && !grouped_files[c].is_canonical_record()
        invariant
            c <= group.len(),
            group == grouped_files@,
            forall|j: int| 0 <= j < c ==> !group[j].is_canonical(),
        decreases group.len() - c,
    {
        c = c + 1;
    }
    if c == grouped_files.len() {
        proof {
            lemma_first_canonical(group);
            if first_canonical(group) >= 0 {
                assert(group[first_canonical(group)].is_canonical());
            }
        }
        return Err(FileError::MissingCanonical);
    }
    proof {
        lemma_first_canonical(group);
        if first_canonical(group) < c {
            assert(group[first_canonical(group)].is_canonical());
        }
        assert(first_canonical(group) == c as int);
    }
    let stored_path = canonical_path_string(&grouped_files[c]);
    proof { reveal_strlit(""); reveal_strlit(".lnk"); }
    assert(""@ =~= Seq::<char>::empty());
    let mut out: Vec<ProcessedFile> = Vec::new();
    let mut i: usize = 0;
    while i < grouped_files.len()
        invariant
            i <= group.len(),
            group == grouped_files@,
            first_canonical(group) == c as int,
            stored_path@ == group[c as int].canonical_path(),
            out@.len() == i,
            ""@ == Seq::<char>::empty(),
            duplicate_names@ == names_after_all(group.subrange(0, i as int), used),
            forall|j: int| 0 <= j < i ==> #[trigger] marked(group[j], out@[j], group[c as int].canonical_path(),
                locations.duplicates_path@, names_after_all(group.subrange(0, j), used)),
        decreases group.len() - i,
    {
        let ghost before = duplicate_names@;
        assert(group.subrange(0, i + 1).drop_last() =~= group.subrange(0, i as int));
        match &grouped_files[i] {
            ProcessedFile::New { path, .. } => {
                let name = file_name(path.as_str());
                let dup = unique_relative_path("", name.as_str(), duplicate_names);
                let mut ln = dup.clone();
                ln.append(".lnk");
                let link = unique_relative_path("", ln.as_str(), duplicate_names);
                out.push(ProcessedFile::Duplicate {
                    path: path.clone(),
                    stored_path: stored_path.clone(),
                    duplicate_path: join_path_str(locations.duplicates_path.as_str(), dup.as_str()),
                    ln_path: join_path_str(locations.duplicates_path.as_str(), link.as_str()),
                });
                assert(dup@ == duplicate_name(group[i as int], before));
                assert(link@ == link_name(group[i as int], before));
            },
            _ => {
                out.push(grouped_files[i].copy());
            },
        }
        assert(marked(group[i as int], out@[i as int], group[c as int].canonical_path(),
            locations.duplicates_path@, names_after_all(group.subrange(0, i as int), used)));
        i = i + 1;
    }
    assert(group.subrange(0, i as int) =~= group);
    Ok(out)
}

} // verus!

verus! {

/// A group of stored and new records, with at most one stored, leaves
/// resolution with exactly one kept record; every other record is a
/// Duplicate.
pub proof fn lemma_single_canonical(
    group: Seq<ProcessedFile>,
    promoted: Seq<ProcessedFile>,
    resolved: Seq<ProcessedFile>,
    store: Seq<char>,
    dup_root: Seq<char>,
    used: Set<Seq<char>>,
    used_after: Set<Seq<char>>,
    dup_used: Set<Seq<char>>,
)
    requires
        group.len() > 0,
        forall|i: int| 0 <= i < group.len() ==> (#[trigger] group[i] is Stored) || group[i] is New,
        forall|i: int, j: int| 0 <= i < group.len() && 0 <= j < group.len() && group[i] is Stored
            && group[j] is Stored ==> i == j,
        promotion(group, promoted, store, used, used_after),
        duplicates_marked(promoted, resolved, dup_root, dup_used),
    ensures
        exists|c: int| 0 <= c < resolved.len() && (#[trigger] resolved[c]).is_canonical()
            && forall|i: int| 0 <= i < resolved.len() && i != c ==> (#[trigger] resolved[i]) is Duplicate,
{
    let c0 = first_canonical(promoted);
    let canon = promoted[c0].canonical_path();
    let c: int = if has_stored(group) {
        choose|i: int| 0 <= i < group.len() && group[i] is Stored
    } else {
        group.len() - 1
    };
    assert forall|i: int| 0 <= i < resolved.len() implies (i == c) == (#[trigger] resolved[i]).is_canonical()
        && (i != c ==> resolved[i] is Duplicate) by {
        assert(marked(promoted[i], resolved[i], canon, dup_root,
            names_after_all(promoted.subrange(0, i), dup_used)));
        if has_stored(group) {
            assert(promoted[i] == group[i]);
        } else if i < group.len() - 1 {
            assert(promoted[i] == promoted.drop_last()[i]);
            assert(promoted[i] == group[i]);
            assert(!(group[i] is Stored));
        }
    }
    assert(resolved[c].is_canonical());
}

} // verus!
