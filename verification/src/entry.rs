//! The entries of a directory listing.

use vstd::prelude::*;

verus! {

/// What a `DirectoryEntry` stands for in contracts.
pub struct EntryView {
    pub name: Seq<char>,
    pub is_dir: bool,
    pub path: Seq<char>,
}

/// One item of a directory listing, as the caller read it.
#[derive(Debug)]
pub struct DirectoryEntry {
    /// The entry's own name, without any directory part.
    pub name: String,
    /// Whether the entry is a directory.
    pub is_dir: bool,
    /// The path under which the entry can be listed in turn.
    pub full_path: String,
}

impl View for DirectoryEntry {
    type V = EntryView;

    open spec fn view(&self) -> EntryView {
        EntryView { name: self.name@, is_dir: self.is_dir, path: self.full_path@ }
    }
}

/// The views of a listing's entries, in order.
pub open spec fn listing_view(entries: Seq<DirectoryEntry>) -> Seq<EntryView> {
    entries.map_values(|e: DirectoryEntry| e@)
}

impl DirectoryEntry {
    /// An entry as read from a listing.
    pub fn new(name: String, is_dir: bool, full_path: String) -> (entry: Self)
        ensures
            entry@ == (EntryView { name: name@, is_dir, path: full_path@ }),
    {
        DirectoryEntry { name, is_dir, full_path }
    }
}

} // verus!
