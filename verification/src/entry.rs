//! Directory entries as a listing reports them.

use vstd::prelude::*;

verus! {

/// One result of listing a directory.
#[derive(Debug, PartialEq, Eq)]
pub struct Entry {
    pub is_dir: bool,
    pub name: String,
    pub path: String,
}

/// The mathematical value of an [`Entry`].
pub struct EntryView {
    pub is_dir: bool,
    pub name: Seq<char>,
    pub path: Seq<char>,
}

impl View for Entry {
    type V = EntryView;

    open spec fn view(&self) -> EntryView {
        EntryView { is_dir: self.is_dir, name: self.name@, path: self.path@ }
    }
}

impl Clone for Entry {
    fn clone(&self) -> (copy: Entry)
        ensures
            copy@ == self@,
    {
        Entry { is_dir: self.is_dir, name: self.name.clone(), path: self.path.clone() }
    }
}

impl Entry {
    /// An entry for the file at `path` whose last component is `name`.
    pub fn file(name: &str, path: &str) -> (entry: Entry)
        ensures
            entry@ == (EntryView { is_dir: false, name: name@, path: path@ }),
    {
        Entry { is_dir: false, name: name.to_owned(), path: path.to_owned() }
    }

    /// An entry for the directory at `path` whose last component is `name`.
    pub fn directory(name: &str, path: &str) -> (entry: Entry)
        ensures
            entry@ == (EntryView { is_dir: true, name: name@, path: path@ }),
    {
        Entry { is_dir: true, name: name.to_owned(), path: path.to_owned() }
    }
}

/// The values of a sequence of entries, in order.
pub open spec fn entry_views(entries: Seq<Entry>) -> Seq<EntryView> {
    entries.map_values(|e: Entry| e@)
}

} // verus!
