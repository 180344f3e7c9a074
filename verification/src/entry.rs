//! The value type for one discovered regular file.

use vstd::prelude::*;

verus! {

/// One discovered regular file: its path and its size in bytes.
///
/// Created once per qualifying filesystem entry and immutable afterwards.
pub struct FileEntry {
    pub path: String,
    pub size: u64,
}

/// The mathematical image of a `FileEntry`: the path as a sequence of
/// characters, and the size in bytes.
#[verifier::ext_equal]
pub struct EntryView {
    pub path: Seq<char>,
    pub size: u64,
}

impl View for FileEntry {
    type V = EntryView;

    open spec fn view(&self) -> EntryView {
        EntryView { path: self.path@, size: self.size }
    }
}

impl Clone for FileEntry {
    /// Cloning keeps the path text and the size.
    fn clone(&self) -> (r: Self)
        ensures
            r@ == self@,
    {
        FileEntry { path: self.path.clone(), size: self.size }
    }
}

/// The views of a sequence of entries, in the same order.
pub open spec fn views(s: Seq<FileEntry>) -> Seq<EntryView> {
    s.map_values(|e: FileEntry| e@)
}

} // verus!
