//! The fingerprint and the file record, the value that classifies each
//! observed file.
use vstd::prelude::*;

verus! {

/// Bytes in a SHA-256 digest.
pub const HASH_LEN: usize = 32;

pub type FileHash = [u8; 32];

/// What identifies content: the digest together with the length.
#[derive(Clone, Copy, Debug)]
pub struct FileHashKey {
    pub hash: FileHash,
    pub size: u64,
}

impl View for FileHashKey {
    type V = (Seq<u8>, u64);

    open spec fn view(&self) -> (Seq<u8>, u64) {
        (self.hash@, self.size)
    }
}

impl FileHashKey {
    /// Whether both keys have the same digest and the same size.
    pub fn same(&self, other: &FileHashKey) -> (r: bool)
        ensures
            r == (self@ == other@),
    {
        if self.size != other.size {
            return false;
        }
        let mut i: usize = 0;
        while i < HASH_LEN
            invariant
                i <= HASH_LEN,
                forall|j: int| 0 <= j < i ==> self.hash@[j] == other.hash@[j],
            decreases HASH_LEN - i,
        {
            if self.hash[i] != other.hash[i] {
                return false;
            }
            i = i + 1;
        }
        assert(self.hash@ =~= other.hash@);
        true
    }
}

/// A file observed in one run, in the state it has reached.
#[derive(Debug)]
pub enum ProcessedFile {
    /// Already in the store.
    Stored { hash: FileHash, size: u64, path: String },
    /// Found in the intake and chosen as the copy to keep, with its place in
    /// the store assigned.
    NewStored { hash: FileHash, size: u64, path: String, stored_path: String, year: i32 },
    /// Found in the intake, not yet classified.
    New { hash: FileHash, size: u64, path: String, year: i32 },
    /// Found in the intake with content that is kept elsewhere.
    Duplicate { path: String, stored_path: String, duplicate_path: String, ln_path: String },
}

impl ProcessedFile {
    /// The fingerprint of a record that takes part in grouping.
    pub open spec fn key(self) -> Option<(Seq<u8>, u64)> {
        match self {
            ProcessedFile::Stored { hash, size, .. } => Some((hash@, size)),
            ProcessedFile::NewStored { hash, size, .. } => Some((hash@, size)),
            ProcessedFile::New { hash, size, .. } => Some((hash@, size)),
            ProcessedFile::Duplicate { .. } => None,
        }
    }

    /// Stored and NewStored records are the copies that the store keeps.
    pub open spec fn is_canonical(self) -> bool {
        self is Stored || self is NewStored
    }

    /// Where the kept copy of this content lives, for a canonical record.
    pub open spec fn canonical_path(self) -> Seq<char> {
        match self {
            ProcessedFile::Stored { path, .. } => path@,
            ProcessedFile::NewStored { stored_path, .. } => stored_path@,
            _ => Seq::empty(),
        }
    }

    pub fn hash_key(&self) -> (r: Option<FileHashKey>)
        ensures
            match r {
                Some(k) => self.key() == Some(k@),
                None => self.key() is None,
            },
    {
        match self {
            ProcessedFile::Stored { hash, size, .. } => Some(FileHashKey { hash: *hash, size: *size }),
            ProcessedFile::NewStored { hash, size, .. } => Some(FileHashKey { hash: *hash, size: *size }),
            ProcessedFile::New { hash, size, .. } => Some(FileHashKey { hash: *hash, size: *size }),
            ProcessedFile::Duplicate { .. } => None,
        }
    }

    pub fn is_stored(&self) -> (r: bool)
        ensures
            r == (*self is Stored),
    {
        match self {
            ProcessedFile::Stored { .. } => true,
            _ => false,
        }
    }

    pub fn is_canonical_record(&self) -> (r: bool)
        ensures
            r == self.is_canonical(),
    {
        match self {
            ProcessedFile::Stored { .. } => true,
            ProcessedFile::NewStored { .. } => true,
            _ => false,
        }
    }

    /// An equal record.
    pub fn copy(&self) -> (r: ProcessedFile)
        ensures
            r == *self,
    {
        match self {
            ProcessedFile::Stored { hash, size, path } => ProcessedFile::Stored {
                hash: *hash,
                size: *size,
                path: path.clone(),
            },
            ProcessedFile::NewStored { hash, size, path, stored_path, year } => ProcessedFile::NewStored {
                hash: *hash,
                size: *size,
                path: path.clone(),
                stored_path: stored_path.clone(),
                year: *year,
            },
            ProcessedFile::New { hash, size, path, year } => ProcessedFile::New {
                hash: *hash,
                size: *size,
                path: path.clone(),
                year: *year,
            },
            ProcessedFile::Duplicate { path, stored_path, duplicate_path, ln_path } => ProcessedFile::Duplicate {
                path: path.clone(),
                stored_path: stored_path.clone(),
                duplicate_path: duplicate_path.clone(),
                ln_path: ln_path.clone(),
            },
        }
    }
}

} // verus!
