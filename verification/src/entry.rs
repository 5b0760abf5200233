//! The value describing one filesystem object.

use vstd::prelude::*;

verus! {

/// Whether an entry stands for a regular file or for a directory.
#[derive(Clone, Copy, Debug, PartialEq, Eq, Structural)]
pub enum FileType {
    File,
    Directory,
}

/// One filesystem object as it was seen when the index was built.
///
/// For a directory, `size` is the total of everything below it; for a file it
/// is the file's own length in bytes.
#[derive(Debug, PartialEq, Eq)]
pub struct FileMetadata {
    pub name: String,
    pub path: String,
    pub size: u64,
    pub file_type: FileType,
}

/// The mathematical value of a [`FileMetadata`].
pub ghost struct EntryView {
    pub name: Seq<char>,
    pub path: Seq<char>,
    pub size: u64,
    pub file_type: FileType,
}

impl View for FileMetadata {
    type V = EntryView;

    open spec fn view(&self) -> EntryView {
        EntryView {
            name: self.name@,
            path: self.path@,
            size: self.size,
            file_type: self.file_type,
        }
    }
}

/// The mathematical values of a sequence of entries.
pub open spec fn entry_views(s: Seq<FileMetadata>) -> Seq<EntryView> {
    s.map_values(|e: FileMetadata| e@)
}

impl EntryView {
    /// Two entries are the same object in the same observed state when they
    /// agree on name, path and size.
    pub open spec fn same_identity(self, other: EntryView) -> bool {
        &&& self.name == other.name
        &&& self.path == other.path
        &&& self.size == other.size
    }
}

impl Clone for FileMetadata {
    fn clone(&self) -> (r: Self)
        ensures
            r == *self,
    {
        FileMetadata {
            name: self.name.clone(),
            path: self.path.clone(),
            size: self.size,
            file_type: self.file_type,
        }
    }
}

impl FileMetadata {
    /// Tells whether `self` and `other` agree on name, path and size.
    pub fn same_identity(&self, other: &FileMetadata) -> (r: bool)
        ensures
            r == self@.same_identity(other@),
    {
        self.name == other.name && self.path == other.path && self.size == other.size
    }
}

} // verus!
