//! A hierarchical filesystem kept as a flat index of normalized absolute
//! paths, mirrored to a string-keyed key-value store.
//!
//! The index lives in memory. Each mutation returns the store writes that
//! its host must perform, in order; reads of file content take what the
//! store holds under the file's content key.
use vstd::prelude::*;

pub mod entry;
pub mod filesystem;
pub mod index;
pub mod path;
pub mod store;

pub use entry::{FileMetadata, FileType, FsError};
pub use filesystem::FileSystem;
pub use store::{content_key_of, StoreAction, CONTENT_KEY_PREFIX, INDEX_KEY};

verus! {

} // verus!
