//! The three commands as computations: `add`, `check` and `reindex` take
//! what was read from disk and return what is to be written.
use vstd::prelude::*;
use crate::codec::{decode_line, encodable, encoded, kept_fields, size_end, stored_fields};
use crate::error::FileError;
use crate::grouping::{
    group_files, grouped, lemma_grouped_partitions, lemma_records_with_members, model, partitions,
    records_with, GroupModel,
};
use crate::lines::{join_lines, join_text, lines_of, split_lines};
use crate::loader::FileLoader;
use crate::location::FileLocation;
use crate::naming::{seeded_names, NameSet};
use crate::record::ProcessedFile;
use crate::resolve::{
    duplicates_marked, first_canonical, has_stored, lemma_first_canonical, mark_duplicates,
    mark_new_storage, marked, names_after_all, promotion,
};
use crate::text::{file_name_of, join_path, lemma_strip_join, relative_path, strip_base};

verus! {

/// The store-relative path field of an index line.
pub open spec fn rel_field(line: Seq<char>) -> Seq<char> {
    line.subrange(size_end(line) + 1, line.len() as int)
}

/// The store-relative names that the lines of an index take.
pub open spec fn index_names(lines: Seq<Seq<char>>) -> Set<Seq<char>>
    decreases lines.len(),
{
    if lines.len() == 0 {
        Set::empty()
    } else {
        index_names(lines.drop_last()).insert(rel_field(lines.last()))
    }
}

/// Every line decodes.
pub open spec fn index_ok(lines: Seq<Seq<char>>, store: Seq<char>) -> bool {
    forall|i: int| 0 <= i < lines.len() ==> (#[trigger] decode_line(lines[i], store)) is Some
}

/// `fs` are the Stored records of the lines, in order.
pub open spec fn decoded_all(fs: Seq<ProcessedFile>, lines: Seq<Seq<char>>, store: Seq<char>) -> bool {
    &&& fs.len() == lines.len()
    &&& forall|i: int| 0 <= i < fs.len() ==> (#[trigger] fs[i]) is Stored
        && stored_fields(fs[i]) == decode_line(lines[i], store)
}

impl<'a> FileLoader<'a> {
    /// Reads the index text: one Stored record per line, and the set of the
    /// store-relative names that they take; a line that does not decode is a
    /// corrupt index.
    pub fn load_stored_file(&self, index_text: &str) -> (r: Result<(Vec<ProcessedFile>, NameSet), FileError>)
        ensures
            match r {
                Ok((fs, names)) => index_ok(lines_of(index_text@), self.locations.store_path@)
                    && decoded_all(fs@, lines_of(index_text@), self.locations.store_path@)
                    && names@ == index_names(lines_of(index_text@)),
                Err(e) => e == FileError::CorruptIndex && !index_ok(lines_of(index_text@), self.locations.store_path@),
            },
    {
        load_index(index_text, self.locations.store_path.as_str())
    }

    /// The index text of the given lines: joined by newlines, none at the end.
    pub fn save_stored_files(&self, stored_file_lines: &Vec<String>) -> (r: String)
        ensures
            r@ == join_lines(stored_file_lines@.map_values(|l: String| l@)),
    {
        join_text(stored_file_lines)
    }
}

fn load_index(index_text: &str, store_path: &str) -> (r: Result<(Vec<ProcessedFile>, NameSet), FileError>)
    ensures
        match r {
            Ok((fs, names)) => index_ok(lines_of(index_text@), store_path@)
                && decoded_all(fs@, lines_of(index_text@), store_path@)
                && names@ == index_names(lines_of(index_text@)),
            Err(e) => e == FileError::CorruptIndex && !index_ok(lines_of(index_text@), store_path@),
        },
{
    let lines = split_lines(index_text);
    let ghost ls = lines_of(index_text@);
    let mut files: Vec<ProcessedFile> = Vec::new();
    let mut names = NameSet::new();
    let mut i: usize = 0;
    assert(ls.subrange(0, 0) =~= Seq::<Seq<char>>::empty());
    while i < lines.len()
        invariant
            i <= lines@.len(),
            lines@.map_values(|l: String| l@) == ls,
            ls == lines_of(index_text@),
            index_ok(ls.subrange(0, i as int), store_path@),
            decoded_all(files@, ls.subrange(0, i as int), store_path@),
            names@ == index_names(ls.subrange(0, i as int)),
        decreases lines@.len() - i,
    {
        assert(ls[i as int] == lines@[i as int]@);
        let f = match ProcessedFile::decode_stored_file(lines[i].as_str(), store_path) {
            Ok(f) => f,
            Err(e) => {
                assert(decode_line(ls[i as int], store_path@) is None);
                assert(!index_ok(ls, store_path@));
                return Err(e);
            },
        };
        let ghost next = ls.subrange(0, i + 1);
        assert(next.drop_last() =~= ls.subrange(0, i as int));
        match &f {
            ProcessedFile::Stored { path, .. } => {
                proof { lemma_strip_join(store_path@, rel_field(ls[i as int])); }
                let rel = relative_path(path.as_str(), store_path);
                names.insert(rel);
            },
            _ => {},
        }
        files.push(f);
        assert forall|j: int| 0 <= j < next.len() implies (#[trigger] decode_line(next[j], store_path@)) is Some by {
            if j < i {
                assert(next[j] == ls.subrange(0, i as int)[j]);
            }
        }
        assert forall|j: int| 0 <= j < files@.len() implies (#[trigger] files@[j]) is Stored
            && stored_fields(files@[j]) == decode_line(next[j], store_path@) by {
            if j < i {
                assert(next[j] == ls.subrange(0, i as int)[j]);
            }
        }
        i = i + 1;
    }
    assert(ls.subrange(0, i as int) =~= ls);
    Ok((files, names))
}

/// A copy of the records.
pub fn copy_records(v: &Vec<ProcessedFile>) -> (r: Vec<ProcessedFile>)
    ensures
        r@ == v@,
{
    let mut r: Vec<ProcessedFile> = Vec::new();
    let mut i: usize = 0;
    while i < v.len()
        invariant
            i <= v@.len(),
            r@ == v@.subrange(0, i as int),
        decreases v@.len() - i,
    {
        r.push(v[i].copy());
        assert(r@ =~= v@.subrange(0, i + 1));
        i = i + 1;
    }
    assert(v@.subrange(0, i as int) =~= v@);
    r
}

/// The records of all groups, group after group.
pub open spec fn flat(groups: Seq<Vec<ProcessedFile>>) -> Seq<ProcessedFile>
    decreases groups.len(),
{
    if groups.len() == 0 {
        Seq::empty()
    } else {
        flat(groups.drop_last()) + groups.last()@
    }
}

/// The index lines of the kept records, in order.
pub open spec fn kept_lines(fs: Seq<ProcessedFile>, store: Seq<char>) -> Seq<Seq<char>>
    decreases fs.len(),
{
    if fs.len() == 0 {
        Seq::empty()
    } else if fs.last().is_canonical() {
        kept_lines(fs.drop_last(), store).push(encoded(fs.last(), store))
    } else {
        kept_lines(fs.drop_last(), store)
    }
}

/// The years of the NewStored records.
pub open spec fn new_years(fs: Seq<ProcessedFile>) -> Set<i32>
    decreases fs.len(),
{
    if fs.len() == 0 {
        Set::empty()
    } else if fs.last() is NewStored {
        new_years(fs.drop_last()).insert(fs.last()->NewStored_year)
    } else {
        new_years(fs.drop_last())
    }
}

/// Every kept record lies under the store.
pub open spec fn all_encodable(fs: Seq<ProcessedFile>, store: Seq<char>) -> bool {
    forall|i: int| 0 <= i < fs.len() && (#[trigger] fs[i]).is_canonical() ==> encodable(fs[i], store)
}

/// What a run of `add` does: the resolved groups to carry out, the year
/// directories to create first, and the new index text.
pub struct AddPlan {
    /// Each fingerprint group after promotion and duplicate marking.
    pub groups: Vec<Vec<ProcessedFile>>,
    /// The distinct years of the NewStored records.
    pub years: Vec<i32>,
    /// One line per kept record.
    pub index_text: String,
    /// The records grouped: those of the index, then those of the intake.
    pub records: Ghost<Seq<ProcessedFile>>,
    /// Each group after promotion.
    pub promoted: Ghost<Seq<Seq<ProcessedFile>>>,
    /// The store names taken before each group and after the last.
    pub store_names: Ghost<Seq<Set<Seq<char>>>>,
    /// The duplicate-area names taken before each group and after the last.
    pub duplicate_names: Ghost<Seq<Set<Seq<char>>>>,
}

/// `plan` is the outcome of `add` on the index `lines`, the intake records
/// `new_files` and the files found in the duplicates area.
pub open spec fn add_outcome(
    plan: AddPlan,
    lines: Seq<Seq<char>>,
    new_files: Seq<ProcessedFile>,
    duplicate_files: Seq<Seq<char>>,
    locations: FileLocation,
) -> bool {
    let store = locations.store_path@;
    let dup = locations.duplicates_path@;
    let all = plan.records@;
    let g = grouped(all);
    let n = g.len();
    &&& all.len() == lines.len() + new_files.len()
    &&& decoded_all(all.subrange(0, lines.len() as int), lines, store)
    &&& all.subrange(lines.len() as int, all.len() as int) == new_files
    &&& plan.groups@.len() == n
    &&& plan.promoted@.len() == n
    &&& plan.store_names@.len() == n + 1
    &&& plan.duplicate_names@.len() == n + 1
    &&& plan.store_names@[0] == index_names(lines)
    &&& plan.duplicate_names@[0] == seeded_names(duplicate_files.map_values(|p: Seq<char>| file_name_of(p)))
    &&& forall|i: int| 0 <= i < n ==> #[trigger] promotion(g[i].1, plan.promoted@[i], store,
        plan.store_names@[i], plan.store_names@[i + 1])
    &&& forall|i: int| 0 <= i < n ==> #[trigger] duplicates_marked(plan.promoted@[i], plan.groups@[i]@, dup,
        plan.duplicate_names@[i])
    &&& forall|i: int| 0 <= i < n ==> plan.duplicate_names@[i + 1] == names_after_all(
        #[trigger] plan.promoted@[i], plan.duplicate_names@[i])
    &&& plan.index_text@ == join_lines(kept_lines(flat(plan.groups@), store))
    &&& plan.years@.to_set() == new_years(flat(plan.groups@))
    &&& plan.years@.no_duplicates()
}

} // verus!

verus! {

proof fn lemma_index_encodable(fs: Seq<ProcessedFile>, lines: Seq<Seq<char>>, store: Seq<char>)
    requires
        decoded_all(fs, lines, store),
    ensures
        all_encodable(fs, store),
        forall|i: int| 0 <= i < fs.len() ==> (#[trigger] fs[i]) is Stored,
{
    assert forall|i: int| 0 <= i < fs.len() && (#[trigger] fs[i]).is_canonical() implies encodable(fs[i], store) by {
        lemma_strip_join(store, rel_field(lines[i]));
    }
}

/// A group of stored and new records keeps a record after promotion.
proof fn lemma_promotion_keeps_one(
    g: Seq<ProcessedFile>,
    p: Seq<ProcessedFile>,
    store: Seq<char>,
    u: Set<Seq<char>>,
    u2: Set<Seq<char>>,
)
    requires
        g.len() > 0,
        forall|i: int| 0 <= i < g.len() ==> (#[trigger] g[i]) is Stored || g[i] is New,
        promotion(g, p, store, u, u2),
    ensures
        first_canonical(p) >= 0,
{
    lemma_first_canonical(p);
    if has_stored(g) {
        let i = choose|i: int| 0 <= i < g.len() && g[i] is Stored;
        assert(p[i].is_canonical());
    } else {
        assert(g[g.len() - 1] is New);
        assert(p[p.len() - 1].is_canonical());
    }
}

proof fn lemma_resolution_encodable(
    g: Seq<ProcessedFile>,
    p: Seq<ProcessedFile>,
    r: Seq<ProcessedFile>,
    store: Seq<char>,
    dup: Seq<char>,
    u: Set<Seq<char>>,
    u2: Set<Seq<char>>,
    v: Set<Seq<char>>,
)
    requires
        all_encodable(g, store),
        promotion(g, p, store, u, u2),
        duplicates_marked(p, r, dup, v),
    ensures
        all_encodable(r, store),
{
    assert forall|i: int| 0 <= i < p.len() && (#[trigger] p[i]).is_canonical() implies encodable(p[i], store) by {
        if !(has_stored(g) || g.len() == 0 || !(g.last() is New)) && i == p.len() - 1 {
            lemma_strip_join(store, crate::resolve::storage_name(g.last(), u));
        } else if !(has_stored(g) || g.len() == 0 || !(g.last() is New)) {
            assert(p[i] == p.drop_last()[i]);
            assert(g[i] == g.drop_last()[i]);
        }
    }
    let c = first_canonical(p);
    assert forall|i: int| 0 <= i < r.len() && (#[trigger] r[i]).is_canonical() implies encodable(r[i], store) by {
        assert(marked(p[i], r[i], p[c].canonical_path(), dup, names_after_all(p.subrange(0, i), v)));
    }
}

fn contains_year(years: &Vec<i32>, year: i32) -> (r: bool)
    ensures
        r == years@.contains(year),
{
    let mut i: usize = 0;
    while i < years.len()
        invariant
            i <= years@.len(),
            forall|j: int| 0 <= j < i ==> years@[j] != year,
        decreases years@.len() - i,
    {
        if years[i] == year {
            return true;
        }
        i = i + 1;
    }
    false
}

/// Plans a run of `add`: the index records and the intake records are
/// grouped by fingerprint, each group is promoted and its duplicates marked,
/// and the new index holds one line per kept record. Fails only on a corrupt
/// index.
pub fn add_new_files(
    locations: &FileLocation,
    index_text: &str,
    new_files: Vec<ProcessedFile>,
    duplicate_files: &Vec<String>,
) -> (r: Result<AddPlan, FileError>)
    requires
        forall|i: int| 0 <= i < new_files@.len() ==> (#[trigger] new_files@[i]) is New,
    ensures
        match r {
            Ok(plan) => index_ok(lines_of(index_text@), locations.store_path@) && add_outcome(
                plan,
                lines_of(index_text@),
                new_files@,
                duplicate_files@.map_values(|s: String| s@),
                *locations,
            ),
            Err(e) => e == FileError::CorruptIndex && !index_ok(lines_of(index_text@), locations.store_path@),
        },
{
    let ghost store = locations.store_path@;
    let ghost dup = locations.duplicates_path@;
    let ghost ls = lines_of(index_text@);
    let loader = FileLoader { locations };
    let (stored, mut stored_names) = match loader.load_stored_file(index_text) {
        Ok(x) => x,
        Err(e) => {
            return Err(e);
        },
    };
    let mut duplicate_names = locations.get_duplicates_filenames(duplicate_files);
    proof {
        assert(duplicate_files@.map_values(|s: String| s@).map_values(|p: Seq<char>| file_name_of(p))
            =~= duplicate_files@.map_values(|p: String| file_name_of(p@)));
        lemma_index_encodable(stored@, ls, store);
    }
    let mut all = copy_records(&stored);
    let mut k: usize = 0;
    while k < new_files.len()
        invariant
            k <= new_files@.len(),
            all@ == stored@ + new_files@.subrange(0, k as int),
        decreases new_files@.len() - k,
    {
        all.push(new_files[k].copy());
        assert(all@ =~= stored@ + new_files@.subrange(0, k + 1));
        k = k + 1;
    }
    assert(new_files@.subrange(0, k as int) =~= new_files@);
    let ghost allv = all@;
    assert(allv.subrange(0, ls.len() as int) =~= stored@);
    assert(allv.subrange(ls.len() as int, allv.len() as int) =~= new_files@);
    assert forall|i: int| 0 <= i < allv.len() implies ((#[trigger] allv[i]) is Stored || allv[i] is New)
        && (allv[i].is_canonical() ==> encodable(allv[i], store)) by {
        if i < stored@.len() {
            assert(allv[i] == stored@[i]);
        } else {
            assert(allv[i] == new_files@[i - stored@.len()]);
        }
    }
    let storage = group_files(&all);
    let ghost g = grouped(allv);
    proof { lemma_grouped_partitions(allv); }
    let mut groups: Vec<Vec<ProcessedFile>> = Vec::new();
    let ghost mut promoted: Seq<Seq<ProcessedFile>> = Seq::empty();
    let ghost mut sn: Seq<Set<Seq<char>>> = seq![stored_names@];
    let ghost mut dn: Seq<Set<Seq<char>>> = seq![duplicate_names@];
    let mut i: usize = 0;
    while i < storage.len()
        invariant
            i <= storage@.len(),
            model(storage@) == g,
            g == grouped(allv),
            partitions(g, allv),
            forall|j: int| 0 <= j < allv.len() ==> ((#[trigger] allv[j]) is Stored || allv[j] is New)
                && (allv[j].is_canonical() ==> encodable(allv[j], store)),
            store == locations.store_path@,
            dup == locations.duplicates_path@,
            groups@.len() == i,
            promoted.len() == i,
            sn.len() == i + 1,
            dn.len() == i + 1,
            sn[i as int] == stored_names@,
            dn[i as int] == duplicate_names@,
            sn[0] == index_names(ls),
            dn[0] == seeded_names(duplicate_files@.map_values(|p: String| file_name_of(p@))),
            forall|j: int| 0 <= j < i ==> #[trigger] promotion(g[j].1, promoted[j], store, sn[j], sn[j + 1]),
            forall|j: int| 0 <= j < i ==> #[trigger] duplicates_marked(promoted[j], groups@[j]@, dup, dn[j]),
            forall|j: int| 0 <= j < i ==> dn[j + 1] == names_after_all(#[trigger] promoted[j], dn[j]),
            forall|j: int| 0 <= j < i ==> all_encodable(#[trigger] groups@[j]@, store),
        decreases storage@.len() - i,
    {
        assert(g[i as int] == (storage@[i as int].key@, storage@[i as int].files@));
        let files = copy_records(&storage[i].files);
        let ghost gi = g[i as int].1;
        proof {
            lemma_records_with_members(allv, g[i as int].0);
            assert forall|j: int| 0 <= j < gi.len() implies ((#[trigger] gi[j]) is Stored || gi[j] is New)
                && (gi[j].is_canonical() ==> encodable(gi[j], store)) by {
                assert(gi.contains(gi[j]));
                assert(allv.contains(gi[j]));
            }
        }
        let ghost sn_before = stored_names@;
        let p = mark_new_storage(files, &mut stored_names, locations);
        let ghost pv = p@;
        proof { lemma_promotion_keeps_one(gi, pv, store, sn_before, stored_names@); }
        let ghost dn_before = duplicate_names@;
        let resolved = match mark_duplicates(p, &mut duplicate_names, locations) {
            Ok(x) => x,
            Err(e) => {
                return Err(e);
            },
        };
        proof {
            lemma_resolution_encodable(gi, pv, resolved@, store, dup, sn_before, stored_names@, dn_before);
            promoted = promoted.push(pv);
            sn = sn.push(stored_names@);
            dn = dn.push(duplicate_names@);
        }
        groups.push(resolved);
        i = i + 1;
    }
    assert(g.len() == storage@.len());
    // Flatten the groups.
    let mut flat_files: Vec<ProcessedFile> = Vec::new();
    let mut j: usize = 0;
    assert(groups@.subrange(0, 0) =~= Seq::<Vec<ProcessedFile>>::empty());
    while j < groups.len()
        invariant
            j <= groups@.len(),
            flat_files@ == flat(groups@.subrange(0, j as int)),
            forall|m: int| 0 <= m < groups@.len() ==> all_encodable(#[trigger] groups@[m]@, store),
            all_encodable(flat_files@, store),
        decreases groups@.len() - j,
    {
        let ghost before = flat_files@;
        let mut m: usize = 0;
        while m < groups[j].len()
            invariant
                j < groups@.len(),
                m <= groups@[j as int]@.len(),
                flat_files@ == before + groups@[j as int]@.subrange(0, m as int),
                all_encodable(before, store),
                all_encodable(groups@[j as int]@, store),
            decreases groups@[j as int]@.len() - m,
        {
            flat_files.push(groups[j][m].copy());
            assert(flat_files@ =~= before + groups@[j as int]@.subrange(0, m + 1));
            m = m + 1;
        }
        assert(groups@[j as int]@.subrange(0, m as int) =~= groups@[j as int]@);
        assert(groups@.subrange(0, j + 1).drop_last() =~= groups@.subrange(0, j as int));
        assert forall|q: int| 0 <= q < flat_files@.len() && (#[trigger] flat_files@[q]).is_canonical()
            implies encodable(flat_files@[q], store) by {
            if q >= before.len() {
                assert(flat_files@[q] == groups@[j as int]@[q - before.len()]);
            } else {
                assert(flat_files@[q] == before[q]);
            }
        }
        j = j + 1;
    }
    assert(groups@.subrange(0, j as int) =~= groups@);
    // Index lines and years.
    let mut lines: Vec<String> = Vec::new();
    let mut years: Vec<i32> = Vec::new();
    let mut q: usize = 0;
    assert(flat_files@.subrange(0, 0) =~= Seq::<ProcessedFile>::empty());
    assert(years@.to_set() =~= Set::<i32>::empty());
    while q < flat_files.len()
        invariant
            q <= flat_files@.len(),
            all_encodable(flat_files@, store),
            store == locations.store_path@,
            lines@.map_values(|l: String| l@) == kept_lines(flat_files@.subrange(0, q as int), store),
            years@.to_set() == new_years(flat_files@.subrange(0, q as int)),
            years@.no_duplicates(),
        decreases flat_files@.len() - q,
    {
        let ghost next = flat_files@.subrange(0, q + 1);
        assert(next.drop_last() =~= flat_files@.subrange(0, q as int));
        if flat_files[q].is_canonical_record() {
            let line = flat_files[q].encode_stored_file(locations.store_path.as_str());
            let ghost before = lines@.map_values(|l: String| l@);
            lines.push(line);
            assert(lines@.map_values(|l: String| l@) =~= before.push(encoded(flat_files@[q as int], store)));
        }
        match &flat_files[q] {
            ProcessedFile::NewStored { year, .. } => {
                if !contains_year(&years, *year) {
                    let ghost before = years@;
                    years.push(*year);
                    proof { before.lemma_push_to_set_commute(*year); }
                    assert(years@.to_set() =~= before.to_set().insert(*year));
                } else {
                    assert(years@.to_set().contains(*year));
                    assert(years@.to_set() =~= years@.to_set().insert(*year));
                }
            },
            _ => {},
        }
        q = q + 1;
    }
    assert(flat_files@.subrange(0, q as int) =~= flat_files@);
    let index_text = loader.save_stored_files(&lines);
    Ok(AddPlan {
        groups,
        years,
        index_text,
        records: Ghost(allv),
        promoted: Ghost(promoted),
        store_names: Ghost(sn),
        duplicate_names: Ghost(dn),
    })
}

} // verus!

verus! {

/// The groups that do not hold exactly two records.
pub open spec fn bad_groups(m: GroupModel) -> Seq<Seq<ProcessedFile>>
    decreases m.len(),
{
    if m.len() == 0 {
        Seq::empty()
    } else if m.last().1.len() != 2 {
        bad_groups(m.drop_last()).push(m.last().1)
    } else {
        bad_groups(m.drop_last())
    }
}

/// A consistent group holds one record from the index and one from the
/// store.
pub fn is_correct_files(files: &Vec<ProcessedFile>) -> (r: bool)
    ensures
        r == (files@.len() == 2),
{
    files.len() == 2
}

/// Checks the index against the store: the records of the index and the
/// records read afresh from the store are grouped by fingerprint, and every
/// group that does not hold exactly two records is returned. Fails only on a
/// corrupt index.
pub fn check_stored_files(
    locations: &FileLocation,
    index_text: &str,
    store_files: Vec<ProcessedFile>,
) -> (r: Result<Vec<Vec<ProcessedFile>>, FileError>)
    ensures
        match r {
            Ok(bad) => index_ok(lines_of(index_text@), locations.store_path@) && exists|all: Seq<ProcessedFile>|
                #![trigger grouped(all)]
                all.len() == lines_of(index_text@).len() + store_files@.len()
                && decoded_all(all.subrange(0, lines_of(index_text@).len() as int), lines_of(index_text@),
                    locations.store_path@)
                && all.subrange(lines_of(index_text@).len() as int, all.len() as int) == store_files@
                && bad@.map_values(|g: Vec<ProcessedFile>| g@) == bad_groups(grouped(all)),
            Err(e) => e == FileError::CorruptIndex && !index_ok(lines_of(index_text@), locations.store_path@),
        },
{
    let ghost ls = lines_of(index_text@);
    let loader = FileLoader { locations };
    let (stored, _names) = match loader.load_stored_file(index_text) {
        Ok(x) => x,
        Err(e) => {
            return Err(e);
        },
    };
    let mut all = stored;
    let ghost stored_v = all@;
    let mut k: usize = 0;
    while k < store_files.len()
        invariant
            k <= store_files@.len(),
            all@ == stored_v + store_files@.subrange(0, k as int),
        decreases store_files@.len() - k,
    {
        all.push(store_files[k].copy());
        assert(all@ =~= stored_v + store_files@.subrange(0, k + 1));
        k = k + 1;
    }
    assert(store_files@.subrange(0, k as int) =~= store_files@);
    let ghost allv = all@;
    assert(allv.subrange(0, ls.len() as int) =~= stored_v);
    assert(allv.subrange(ls.len() as int, allv.len() as int) =~= store_files@);
    let storage = group_files(&all);
    let ghost m = model(storage@);
    let mut bad: Vec<Vec<ProcessedFile>> = Vec::new();
    let mut i: usize = 0;
    assert(m.subrange(0, 0) =~= GroupModel::empty());
    while i < storage.len()
        invariant
            i <= storage@.len(),
            m == model(storage@),
            bad@.map_values(|g: Vec<ProcessedFile>| g@) == bad_groups(m.subrange(0, i as int)),
        decreases storage@.len() - i,
    {
        let ghost next = m.subrange(0, i + 1);
        assert(next.drop_last() =~= m.subrange(0, i as int));
        assert(next.last() == (storage@[i as int].key@, storage@[i as int].files@));
        if !is_correct_files(&storage[i].files) {
            let ghost before = bad@.map_values(|g: Vec<ProcessedFile>| g@);
            bad.push(copy_records(&storage[i].files));
            assert(bad@.map_values(|g: Vec<ProcessedFile>| g@) =~= before.push(storage@[i as int].files@));
        }
        i = i + 1;
    }
    assert(m.subrange(0, i as int) =~= m);
    assert(bad@.map_values(|g: Vec<ProcessedFile>| g@) == bad_groups(grouped(allv)));
    Ok(bad)
}

/// Whether `path` lies under the directory `base`.
pub fn is_under(path: &str, base: &str) -> (r: bool)
    ensures
        r == strip_base(path@, base@) is Some,
{
    let ghost pre = crate::text::dir_prefix(base@);
    let n = base.unicode_len();
    let m = path.unicode_len();
    let with_slash = n > 0 && base.get_char(n - 1) != '/';
    assert(pre.len() == if with_slash { n + 1 } else { n as int });
    if n > m || (with_slash && n == m) {
        return false;
    }
    let mut i: usize = 0;
    while i < n
        invariant
            i <= n,
            n == base@.len(),
            m == path@.len(),
            n <= m,
            pre == crate::text::dir_prefix(base@),
            pre.len() <= m,
            forall|j: int| 0 <= j < i ==> path@[j] == base@[j],
        decreases n - i,
    {
        if path.get_char(i) != base.get_char(i) {
            assert(pre[i as int] == base@[i as int]);
            assert(path@.subrange(0, pre.len() as int)[i as int] != pre[i as int]);
            return false;
        }
        i = i + 1;
    }
    if with_slash && path.get_char(n) != '/' {
        assert(pre[n as int] == '/');
        assert(path@.subrange(0, pre.len() as int)[n as int] != pre[n as int]);
        return false;
    }
    assert(path@.subrange(0, pre.len() as int) =~= pre);
    true
}

/// The new index text built from the records read afresh from the store;
/// the old index takes no part.
pub fn rebuild_index(locations: &FileLocation, store_files: &Vec<ProcessedFile>) -> (r: String)
    requires
        forall|i: int| 0 <= i < store_files@.len() ==> (#[trigger] store_files@[i]) is Stored
            && encodable(store_files@[i], locations.store_path@),
    ensures
        r@ == join_lines(kept_lines(store_files@, locations.store_path@)),
        kept_lines(store_files@, locations.store_path@).len() == store_files@.len(),
{
    let ghost store = locations.store_path@;
    let mut lines: Vec<String> = Vec::new();
    let mut i: usize = 0;
    assert(store_files@.subrange(0, 0) =~= Seq::<ProcessedFile>::empty());
    while i < store_files.len()
        invariant
            i <= store_files@.len(),
            store == locations.store_path@,
            forall|j: int| 0 <= j < store_files@.len() ==> (#[trigger] store_files@[j]) is Stored
                && encodable(store_files@[j], store),
            lines@.map_values(|l: String| l@) == kept_lines(store_files@.subrange(0, i as int), store),
            lines@.len() == i,
        decreases store_files@.len() - i,
    {
        let ghost next = store_files@.subrange(0, i + 1);
        assert(next.drop_last() =~= store_files@.subrange(0, i as int));
        assert(store_files@[i as int] is Stored);
        let line = store_files[i].encode_stored_file(locations.store_path.as_str());
        let ghost before = lines@.map_values(|l: String| l@);
        lines.push(line);
        assert(lines@.map_values(|l: String| l@) =~= before.push(encoded(store_files@[i as int], store)));
        i = i + 1;
    }
    assert(store_files@.subrange(0, i as int) =~= store_files@);
    let loader = FileLoader { locations };
    loader.save_stored_files(&lines)
}

/// The three commands.
#[derive(Clone, Copy, Debug, PartialEq, Eq, Structural)]
pub enum Command {
    Add,
    Check,
    Reindex,
}

fn same_text(a: &str, b: &str) -> (r: bool)
    ensures
        r == (a@ == b@),
{
    let n = a.unicode_len();
    if n != b.unicode_len() {
        return false;
    }
    let mut i: usize = 0;
    while i < n
        invariant
            i <= n,
            n == a@.len(),
            n == b@.len(),
            forall|j: int| 0 <= j < i ==> a@[j] == b@[j],
        decreases n - i,
    {
        if a.get_char(i) != b.get_char(i) {
            return false;
        }
        i = i + 1;
    }
    assert(a@ =~= b@);
    true
}

/// The command that a run performs: `add` for the empty name, otherwise
/// `check` or `reindex`; any other name is refused.
pub fn run(command: &str) -> (r: Result<Command, FileError>)
    ensures
        r == if command@.len() == 0 {
            Ok(Command::Add)
        } else if command@ == "check"@ {
            Ok(Command::Check)
        } else if command@ == "reindex"@ {
            Ok(Command::Reindex)
        } else {
            Err(FileError::BadCommand)
        },
{
    if command.unicode_len() == 0 {
        Ok(Command::Add)
    } else if same_text(command, "check") {
        Ok(Command::Check)
    } else if same_text(command, "reindex") {
        Ok(Command::Reindex)
    } else {
        Err(FileError::BadCommand)
    }
}

} // verus!

verus! {

proof fn lemma_encoded_line(f: ProcessedFile, store: Seq<char>)
    requires
        encodable(f, store),
        !crate::lines::has_newline(strip_base(kept_fields(f).2, store)->0),
    ensures
        !crate::lines::has_newline(encoded(f, store)),
        encoded(f, store).len() > 0,
{
    let (h, size, p) = kept_fields(f);
    let rel = strip_base(p, store)->0;
    let line = encoded(f, store);
    assert(h.len() == 32);
    crate::codec::lemma_hex_bytes(h);
    crate::codec::lemma_hex_of(h);
    crate::text::lemma_decimal_digits(size as nat);
    let d = crate::text::decimal(size as nat);
    assert(line == crate::codec::hex_of(h) + seq!['|'] + d + seq!['|'] + rel);
    assert forall|i: int| 0 <= i < line.len() implies line[i] != '\n' by {
        if i < 64 {
            assert(line[i] == crate::codec::hex_of(h)[i]);
            assert(crate::text::is_hex_char(crate::codec::hex_of(h)[i]));
        } else if i == 64 {
        } else if i < 65 + d.len() {
            assert(line[i] == d[i - 65]);
            assert(crate::text::is_decimal_digit(d[i - 65]));
        } else if i == 65 + d.len() {
        } else {
            assert(line[i] == rel[i - 66 - d.len()]);
        }
    }
}

proof fn lemma_kept_lines_all(files: Seq<ProcessedFile>, store: Seq<char>)
    requires
        forall|i: int| 0 <= i < files.len() ==> (#[trigger] files[i]).is_canonical(),
    ensures
        kept_lines(files, store) == files.map_values(|f: ProcessedFile| encoded(f, store)),
    decreases files.len(),
{
    if files.len() > 0 {
        let p = files.drop_last();
        assert forall|i: int| 0 <= i < p.len() implies (#[trigger] p[i]).is_canonical() by {
            assert(p[i] == files[i]);
        }
        lemma_kept_lines_all(p, store);
        assert(files[files.len() - 1].is_canonical());
        assert(kept_lines(files, store) =~= files.map_values(|f: ProcessedFile| encoded(f, store)));
    }
}

/// Whatever the old index held, the index that `reindex` writes for the
/// files of the store splits into exactly one line per file, the line that
/// encodes it.
pub proof fn lemma_reindex_lines(files: Seq<ProcessedFile>, store: Seq<char>)
    requires
        forall|i: int| 0 <= i < files.len() ==> (#[trigger] files[i]) is Stored && encodable(files[i], store)
            && !crate::lines::has_newline(strip_base(kept_fields(files[i]).2, store)->0),
    ensures
        lines_of(join_lines(kept_lines(files, store))) == files.map_values(|f: ProcessedFile| encoded(f, store)),
        lines_of(join_lines(kept_lines(files, store))).len() == files.len(),
{
    lemma_kept_lines_all(files, store);
    let ls = files.map_values(|f: ProcessedFile| encoded(f, store));
    assert forall|i: int| 0 <= i < ls.len() implies !crate::lines::has_newline(#[trigger] ls[i]) && ls[i].len() > 0 by {
        lemma_encoded_line(files[i], store);
    }
    crate::lines::lemma_lines_of_join(ls);
}

} // verus!

verus! {

proof fn lemma_flat_stored(groups: Seq<Vec<ProcessedFile>>)
    requires
        forall|i: int, j: int| 0 <= i < groups.len() && 0 <= j < groups[i]@.len() ==> (#[trigger] groups[i]@[j]) is Stored,
    ensures
        forall|k: int| 0 <= k < flat(groups).len() ==> (#[trigger] flat(groups)[k]) is Stored,
        new_years(flat(groups)) == Set::<i32>::empty(),
    decreases groups.len(),
{
    if groups.len() > 0 {
        let p = groups.drop_last();
        assert forall|i: int, j: int| 0 <= i < p.len() && 0 <= j < p[i]@.len() implies (#[trigger] p[i]@[j]) is Stored by {
            assert(p[i] == groups[i]);
        }
        lemma_flat_stored(p);
        let last = groups[groups.len() - 1]@;
        assert forall|k: int| 0 <= k < flat(groups).len() implies (#[trigger] flat(groups)[k]) is Stored by {
            if k >= flat(p).len() {
                assert(flat(groups)[k] == last[k - flat(p).len()]);
            } else {
                assert(flat(groups)[k] == flat(p)[k]);
            }
        }
        lemma_new_years_stored(flat(groups));
    } else {
        lemma_new_years_stored(flat(groups));
    }
}

proof fn lemma_new_years_stored(fs: Seq<ProcessedFile>)
    requires
        forall|k: int| 0 <= k < fs.len() ==> (#[trigger] fs[k]) is Stored,
    ensures
        new_years(fs) == Set::<i32>::empty(),
    decreases fs.len(),
{
    if fs.len() > 0 {
        let p = fs.drop_last();
        assert forall|k: int| 0 <= k < p.len() implies (#[trigger] p[k]) is Stored by {
            assert(p[k] == fs[k]);
        }
        lemma_new_years_stored(p);
        assert(fs[fs.len() - 1] is Stored);
    }
}

/// With nothing in the intake, `add` moves nothing and makes no year
/// directory: every resolved record is a Stored record of the index, so the
/// store and the duplicates area stay as they are.
pub proof fn lemma_add_without_intake_moves_nothing(
    plan: AddPlan,
    lines: Seq<Seq<char>>,
    duplicate_files: Seq<Seq<char>>,
    locations: FileLocation,
)
    requires
        add_outcome(plan, lines, Seq::empty(), duplicate_files, locations),
    ensures
        forall|i: int, j: int| 0 <= i < plan.groups@.len() && 0 <= j < plan.groups@[i]@.len()
            ==> (#[trigger] plan.groups@[i]@[j]) is Stored,
        plan.years@.len() == 0,
{
    let all = plan.records@;
    let g = grouped(all);
    let store = locations.store_path@;
    let dup = locations.duplicates_path@;
    lemma_grouped_partitions(all);
    assert(all.subrange(0, lines.len() as int) =~= all);
    assert forall|i: int, j: int| 0 <= i < plan.groups@.len() && 0 <= j < plan.groups@[i]@.len()
        implies (#[trigger] plan.groups@[i]@[j]) is Stored by {
        let gi = g[i].1;
        let p = plan.promoted@[i];
        assert(promotion(gi, p, store, plan.store_names@[i], plan.store_names@[i + 1]));
        assert(duplicates_marked(p, plan.groups@[i]@, dup, plan.duplicate_names@[i]));
        lemma_records_with_members(all, g[i].0);
        assert(gi == records_with(all, g[i].0));
        assert(all.len() == lines.len());
        assert(gi.len() > 0);
        assert forall|m: int| 0 <= m < gi.len() implies (#[trigger] gi[m]) is Stored by {
            assert(gi.contains(gi[m]));
            assert(records_with(all, g[i].0).contains(gi[m]));
            assert(all.contains(gi[m]));
            let q = choose|q: int| 0 <= q < all.len() && all[q] == gi[m];
            assert(all.subrange(0, lines.len() as int)[q] == all[q]);
        }
        assert(gi[0] is Stored);
        assert(has_stored(gi));
        assert(p == gi);
        assert(plan.groups@[i]@.len() == p.len());
        let c = first_canonical(p);
        assert(marked(p[j], plan.groups@[i]@[j], p[c].canonical_path(), dup,
            names_after_all(p.subrange(0, j), plan.duplicate_names@[i])));
    }
    lemma_flat_stored(plan.groups@);
    if plan.years@.len() > 0 {
        assert(plan.years@.to_set().contains(plan.years@[0]));
    }
}

} // verus!

verus! {

proof fn lemma_grouped_distinct(fs: Seq<ProcessedFile>)
    requires
        forall|i: int| 0 <= i < fs.len() ==> (#[trigger] fs[i]).key() is Some,
        forall|i: int, j: int| 0 <= i < j < fs.len() ==> (#[trigger] fs[i]).key() != (#[trigger] fs[j]).key(),
    ensures
        grouped(fs) == Seq::new(fs.len(), |i: int| (fs[i].key()->0, seq![fs[i]])),
    decreases fs.len(),
{
    if fs.len() > 0 {
        let p = fs.drop_last();
        assert forall|i: int| 0 <= i < p.len() implies (#[trigger] p[i]).key() is Some by {
            assert(p[i] == fs[i]);
        }
        assert forall|i: int, j: int| 0 <= i < j < p.len() implies (#[trigger] p[i]).key() != (#[trigger] p[j]).key() by {
            assert(p[i] == fs[i] && p[j] == fs[j]);
        }
        lemma_grouped_distinct(p);
        let m = grouped(p);
        let f = fs[fs.len() - 1];
        assert(f.key() is Some);
        let k = f.key()->0;
        crate::grouping::lemma_find_group(m, k);
        if crate::grouping::find_group(m, k) >= 0 {
            let q = crate::grouping::find_group(m, k);
            assert(m[q].0 == p[q].key()->0);
            assert(p[q] == fs[q]);
            assert(fs[q].key() != fs[fs.len() - 1].key());
        }
        assert(grouped(fs) =~= Seq::new(fs.len(), |i: int| (fs[i].key()->0, seq![fs[i]])));
    }
}

proof fn lemma_flat_singletons(groups: Seq<Vec<ProcessedFile>>, fs: Seq<ProcessedFile>)
    requires
        groups.len() == fs.len(),
        forall|i: int| 0 <= i < groups.len() ==> (#[trigger] groups[i])@ == seq![fs[i]],
    ensures
        flat(groups) == fs,
    decreases groups.len(),
{
    if groups.len() > 0 {
        let p = groups.drop_last();
        assert forall|i: int| 0 <= i < p.len() implies (#[trigger] p[i])@ == seq![fs.drop_last()[i]] by {
            assert(p[i] == groups[i]);
        }
        lemma_flat_singletons(p, fs.drop_last());
        assert(groups[groups.len() - 1]@ == seq![fs.last()]);
        assert(flat(groups) =~= fs);
    } else {
        assert(flat(groups) =~= fs);
    }
}

/// An index whose lines encode records with distinct fingerprints is
/// rewritten unchanged by `add` when the intake is empty.
pub proof fn lemma_add_without_intake_keeps_index(
    plan: AddPlan,
    lines: Seq<Seq<char>>,
    duplicate_files: Seq<Seq<char>>,
    locations: FileLocation,
    hashes: Seq<Seq<u8>>,
    sizes: Seq<u64>,
    rels: Seq<Seq<char>>,
)
    requires
        add_outcome(plan, lines, Seq::empty(), duplicate_files, locations),
        hashes.len() == lines.len(),
        sizes.len() == lines.len(),
        rels.len() == lines.len(),
        forall|i: int| 0 <= i < lines.len() ==> (#[trigger] hashes[i]).len() == 32
            && lines[i] == crate::codec::encode_line(hashes[i], sizes[i], rels[i]),
        forall|i: int, j: int| 0 <= i < j < lines.len() ==> (#[trigger] hashes[i], sizes[i]) != (#[trigger] hashes[j], sizes[j]),
    ensures
        plan.index_text@ == join_lines(lines),
{
    let all = plan.records@;
    let store = locations.store_path@;
    let dup = locations.duplicates_path@;
    let n = lines.len();
    assert(all.subrange(0, n as int) =~= all);
    assert forall|i: int| 0 <= i < n implies (#[trigger] all[i]) is Stored
        && all[i].key() == Some((hashes[i], sizes[i]))
        && encoded(all[i], store) == lines[i] by {
        assert(all.subrange(0, n as int)[i] == all[i]);
        lemma_strip_join(store, rels[i]);
        crate::codec::lemma_codec_round_trip(hashes[i], sizes[i], join_path(store, rels[i]), store);
    }
    assert forall|i: int, j: int| 0 <= i < j < all.len() implies (#[trigger] all[i]).key() != (#[trigger] all[j]).key() by {
        assert(all[i].key() == Some((hashes[i], sizes[i])));
        assert(all[j].key() == Some((hashes[j], sizes[j])));
    }
    assert forall|i: int| 0 <= i < all.len() implies (#[trigger] all[i]).key() is Some by {}
    lemma_grouped_distinct(all);
    let g = grouped(all);
    assert forall|i: int| 0 <= i < plan.groups@.len() implies (#[trigger] plan.groups@[i])@ == seq![all[i]] by {
        let gi = g[i].1;
        let p = plan.promoted@[i];
        assert(gi == seq![all[i]]);
        assert(promotion(gi, p, store, plan.store_names@[i], plan.store_names@[i + 1]));
        assert(duplicates_marked(p, plan.groups@[i]@, dup, plan.duplicate_names@[i]));
        assert(gi[0] is Stored);
        assert(has_stored(gi));
        assert(p == gi);
        let c = first_canonical(p);
        assert(marked(p[0], plan.groups@[i]@[0], p[c].canonical_path(), dup,
            names_after_all(p.subrange(0, 0), plan.duplicate_names@[i])));
        assert(plan.groups@[i]@ =~= seq![all[i]]);
    }
    lemma_flat_singletons(plan.groups@, all);
    assert forall|i: int| 0 <= i < all.len() implies (#[trigger] all[i]).is_canonical() by {}
    lemma_kept_lines_all(all, store);
    assert(all.map_values(|f: ProcessedFile| encoded(f, store)) =~= lines);
}

} // verus!

verus! {

proof fn lemma_bad_groups_contains(m: GroupModel, x: Seq<ProcessedFile>)
    ensures
        bad_groups(m).contains(x) <==> exists|i: int| 0 <= i < m.len() && (#[trigger] m[i]).1 == x && x.len() != 2,
    decreases m.len(),
{
    if m.len() > 0 {
        let p = m.drop_last();
        lemma_bad_groups_contains(p, x);
        let b = bad_groups(m);
        if b.contains(x) {
            if m.last().1.len() != 2 && b[b.len() - 1] == x {
                assert(m[m.len() - 1].1 == x);
            } else {
                let q = choose|q: int| 0 <= q < b.len() && b[q] == x;
                if m.last().1.len() != 2 {
                    assert(bad_groups(p)[q] == x);
                }
                assert(bad_groups(p).contains(x));
                let i = choose|i: int| 0 <= i < p.len() && (#[trigger] p[i]).1 == x && x.len() != 2;
                assert(m[i] == p[i]);
            }
        }
        if exists|i: int| 0 <= i < m.len() && (#[trigger] m[i]).1 == x && x.len() != 2 {
            let i = choose|i: int| 0 <= i < m.len() && (#[trigger] m[i]).1 == x && x.len() != 2;
            if i == m.len() - 1 {
                assert(b[b.len() - 1] == x);
            } else {
                assert(p[i] == m[i]);
                assert(bad_groups(p).contains(x));
                let q = choose|q: int| 0 <= q < bad_groups(p).len() && bad_groups(p)[q] == x;
                if m.last().1.len() != 2 {
                    assert(b[q] == x);
                }
            }
        }
    }
}

/// `check` reports the records that carry a fingerprint exactly when the
/// index and the store together hold other than two of them: a file whose
/// bytes changed since indexing leaves its fresh record and its index record
/// alone in their groups, while an unchanged file pairs with its line.
pub proof fn lemma_check_reports(all: Seq<ProcessedFile>, j: int)
    requires
        0 <= j < all.len(),
        all[j].key() is Some,
    ensures
        bad_groups(grouped(all)).contains(records_with(all, all[j].key()->0))
            <==> records_with(all, all[j].key()->0).len() != 2,
{
    let m = grouped(all);
    let k = all[j].key()->0;
    lemma_grouped_partitions(all);
    let i = choose|i: int| 0 <= i < m.len() && Some(m[i].0) == all[j].key();
    assert(m[i].1 == records_with(all, k));
    lemma_bad_groups_contains(m, records_with(all, k));
}

} // verus!
