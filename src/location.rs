//! The fixed layout under one root directory.
use vstd::prelude::*;
use vstd::string::*;
use crate::naming::{unique_relative_path, NameSet, seeded_names};
use crate::text::{file_name, file_name_of, join_path, join_path_str};

verus! {

/// The four places under a root: the store, the duplicates area, the intake
/// area and the index file.
pub struct FileLocation {
    pub store_path: String,
    pub duplicates_path: String,
    pub new_files_path: String,
    pub index_path: String,
}

impl FileLocation {
    /// The places under `root`.
    pub open spec fn under(self, root: Seq<char>) -> bool {
        &&& self.store_path@ == join_path(root, "store"@)
        &&& self.duplicates_path@ == join_path(root, "duplicates"@)
        &&& self.new_files_path@ == join_path(root, "new_files"@)
        &&& self.index_path@ == join_path(root, "index.txt"@)
    }

    pub fn new(root: &str) -> (r: FileLocation)
        ensures
            r.under(root@),
    {
        FileLocation {
            store_path: join_path_str(root, "store"),
            duplicates_path: join_path_str(root, "duplicates"),
            new_files_path: join_path_str(root, "new_files"),
            index_path: join_path_str(root, "index.txt"),
        }
    }

    /// The names already taken in the duplicates area, from the paths of the
    /// files found there: each file name in turn is given its first free
    /// variant.
    pub fn get_duplicates_filenames(&self, duplicate_files: &Vec<String>) -> (r: NameSet)
        ensures
            r@ == seeded_names(duplicate_files@.map_values(|p: String| file_name_of(p@))),
    {
        let ghost names = duplicate_files@.map_values(|p: String| file_name_of(p@));
        let mut duplicate_names = NameSet::new();
        let mut i: usize = 0;
        assert(names.subrange(0, 0) =~= Seq::<Seq<char>>::empty());
        while i < duplicate_files.len()
            invariant
                i <= duplicate_files@.len(),
                names == duplicate_files@.map_values(|p: String| file_name_of(p@)),
                duplicate_names@ == seeded_names(names.subrange(0, i as int)),
            decreases duplicate_files@.len() - i,
        {
            let name = file_name(duplicate_files[i].as_str());
            proof { reveal_strlit(""); }
            assert(""@ =~= Seq::<char>::empty());
            assert(names[i as int] == name@);
            unique_relative_path("", name.as_str(), &mut duplicate_names);
            assert(names.subrange(0, i + 1).drop_last() =~= names.subrange(0, i as int));
            assert(names.subrange(0, i + 1).last() == name@);
            i = i + 1;
        }
        assert(names.subrange(0, i as int) =~= names);
        duplicate_names
    }
}

} // verus!
