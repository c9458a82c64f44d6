//! What the index records of each entry, and why an operation can fail.
use vstd::prelude::*;


verus! {

/// Kind of a filesystem entry.
#[derive(Clone, Copy, Debug, PartialEq, Eq, Structural)]
pub enum FileType {
    File,
    Directory,
}

/// What the index records of one entry.
#[derive(Debug)]
pub struct FileMetadata {
    /// Last path segment, or `/` for the root.
    pub name: String,
    pub file_type: FileType,
    /// Byte length of the content; 0 for a directory.
    pub size: usize,
    /// Creation time, in milliseconds.
    pub created: u64,
    /// Time of the last write, in milliseconds.
    pub modified: u64,
}

impl Clone for FileMetadata {
    fn clone(&self) -> (r: Self)
        ensures
            r == *self,
    {
        FileMetadata {
            name: self.name.clone(),
            file_type: self.file_type,
            size: self.size,
            created: self.created,
            modified: self.modified,
        }
    }
}

impl PartialEq for FileMetadata {
    fn eq(&self, o: &FileMetadata) -> (r: bool) {
        self.name == o.name && self.file_type == o.file_type && self.size == o.size
            && self.created == o.created && self.modified == o.modified
    }
}

impl vstd::std_specs::cmp::PartialEqSpecImpl for FileMetadata {
    open spec fn obeys_eq_spec() -> bool {
        true
    }

    open spec fn eq_spec(&self, o: &FileMetadata) -> bool {
        self.name@ == o.name@ && self.file_type == o.file_type && self.size == o.size
            && self.created == o.created && self.modified == o.modified
    }
}

/// Why an operation failed.
#[derive(Clone, Copy, Debug, PartialEq, Eq, Structural)]
pub enum FsError {
    /// The store could not be reached at startup.
    InitError,
    NotFound,
    NotADirectory,
    NotAFile,
    AlreadyExists,
    ParentMissing,
    DirectoryNotEmpty,
    InvalidPath,
    /// A store access failed, or the index names a file whose content is gone.
    IoError,
}

} // verus!
