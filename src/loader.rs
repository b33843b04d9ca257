//! The filesystem changes that resolved records call for, decided from what
//! already exists so that a rerun after a partial failure is safe.
use vstd::prelude::*;
use vstd::string::*;
use crate::hashing::{get_hash, sha256};
use crate::location::FileLocation;
use crate::record::ProcessedFile;
use crate::resolve::{year_name, year_string};
use crate::text::{join_path, join_path_str};

verus! {

/// The moves and links that carry out resolved records.
pub struct FileLoader<'a> {
    pub locations: &'a FileLocation,
}

/// Filing a new record into the store: move `from` to `to`.
pub struct StorageMove {
    pub from: String,
    pub to: String,
}

/// Archiving a duplicate: move `from` to `to`, then link `link` to `target`.
pub struct DuplicateMove {
    pub from: String,
    pub to: String,
    pub target: String,
    pub link: String,
}

impl<'a> FileLoader<'a> {
    /// The record of an intake file from its bytes, its path and the year
    /// it was last modified.
    pub fn read_new_file(data: &[u8], path: &str, year: i32) -> (r: ProcessedFile)
        requires
            data@.len() < 0x2000_0000_0000_0000,
        ensures
            match r {
                ProcessedFile::New { hash, size, path: p, year: y } => hash@ == sha256(data@)
                    && size == data@.len() && p@ == path@ && y == year,
                _ => false,
            },
    {
        ProcessedFile::New { hash: get_hash(data), size: data.len() as u64, path: String::from_str(path), year }
    }

    /// The record of a store file read afresh from its bytes and its path.
    pub fn read_stored_file(data: &[u8], path: &str) -> (r: ProcessedFile)
        requires
            data@.len() < 0x2000_0000_0000_0000,
        ensures
            match r {
                ProcessedFile::Stored { hash, size, path: p } => hash@ == sha256(data@)
                    && size == data@.len() && p@ == path@,
                _ => false,
            },
    {
        ProcessedFile::Stored { hash: get_hash(data), size: data.len() as u64, path: String::from_str(path) }
    }

    /// The store directory of a year, created before any promotion.
    pub fn create_year_dir(&self, year: i32) -> (r: String)
        ensures
            r@ == join_path(self.locations.store_path@, year_name(year)),
    {
        let name = year_string(year);
        join_path_str(self.locations.store_path.as_str(), name.as_str())
    }

    /// The rename that files a NewStored record into the store, unless its
    /// destination already exists.
    pub fn move_storage(&self, file: &ProcessedFile, stored_exists: bool) -> (r: Option<StorageMove>)
        ensures
            match file {
                ProcessedFile::NewStored { path, stored_path, .. } => if stored_exists {
                    r is None
                } else {
                    r is Some && r->0.from@ == path@ && r->0.to@ == stored_path@
                },
                _ => r is None,
            },
    {
        match file {
            ProcessedFile::NewStored { path, stored_path, .. } => {
                if stored_exists {
                    None
                } else {
                    Some(StorageMove { from: path.clone(), to: stored_path.clone() })
                }
            },
            _ => None,
        }
    }

    /// The archive step of a Duplicate record, unless its archive or its
    /// link already exists.
    pub fn move_duplicate(&self, file: &ProcessedFile, duplicate_exists: bool, ln_exists: bool) -> (r: Option<DuplicateMove>)
        ensures
            match file {
                ProcessedFile::Duplicate { path, stored_path, duplicate_path, ln_path } => if duplicate_exists || ln_exists {
                    r is None
                } else {
                    r is Some && r->0.from@ == path@ && r->0.to@ == duplicate_path@
                        && r->0.target@ == stored_path@ && r->0.link@ == ln_path@
                },
                _ => r is None,
            },
    {
        match file {
            ProcessedFile::Duplicate { path, stored_path, duplicate_path, ln_path } => {
                if duplicate_exists || ln_exists {
                    None
                } else {
                    Some(DuplicateMove {
                        from: path.clone(),
                        to: duplicate_path.clone(),
                        target: stored_path.clone(),
                        link: ln_path.clone(),
                    })
                }
            },
            _ => None,
        }
    }
}

} // verus!
