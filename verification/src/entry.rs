//! Directory entries and the exclusion test on their names.

use vstd::prelude::*;
use vstd::string::*;
use vstd::utf8::*;

verus! {

/// A child of a directory: where it is, and the final segment of that path.
#[derive(Clone, Debug, PartialEq, Eq)]
pub struct DirectoryEntry {
    pub path: String,
    pub name: String,
}

/// What a `DirectoryEntry` stands for in contracts.
pub struct EntryView {
    pub path: Seq<char>,
    pub name: Seq<char>,
}

impl View for DirectoryEntry {
    type V = EntryView;

    open spec fn view(&self) -> EntryView {
        EntryView { path: self.path@, name: self.name@ }
    }
}

impl DeepView for DirectoryEntry {
    type V = EntryView;

    open spec fn deep_view(&self) -> EntryView {
        self@
    }
}

impl DirectoryEntry {
    pub fn new(path: String, name: String) -> (entry: DirectoryEntry)
        ensures
            entry@ == (EntryView { path: path@, name: name@ }),
    {
        DirectoryEntry { path, name }
    }
}

/// Membership of a name in the exclusion set: exact equality with one of
/// its elements.
pub open spec fn excluded(name: Seq<char>, exclude: Seq<Seq<char>>) -> bool {
    exclude.contains(name)
}

/// Decides whether two names are the same string.
pub fn same_name(a: &str, b: &str) -> (same: bool)
    ensures
        same == (a@ == b@),
{
    let x = a.as_bytes();
    let y = b.as_bytes();
    proof {
        encode_utf8_decode_utf8(a@);
        encode_utf8_decode_utf8(b@);
    }
    if x.len() != y.len() {
        return false;
    }
    let mut i: usize = 0;
    while i < x.len()
        invariant
            i <= x.len(),
            x.len() == y.len(),
            x@ == encode_utf8(a@),
            y@ == encode_utf8(b@),
            forall|j: int| 0 <= j < i ==> x@[j] == y@[j],
        decreases x.len() - i,
    {
        if x[i] != y[i] {
            return false;
        }
        i += 1;
    }
    assert(x@ =~= y@);
    true
}

/// Decides whether an entry of this name is left out of the tree.
pub fn should_exclude(entry_name: &str, exclude_dirs: &[String]) -> (skip: bool)
    ensures
        skip == excluded(entry_name@, exclude_dirs.deep_view()),
{
    let mut i: usize = 0;
    while i < exclude_dirs.len()
        invariant
            i <= exclude_dirs.len(),
            forall|j: int| 0 <= j < i ==> exclude_dirs.deep_view()[j] != entry_name@,
        decreases exclude_dirs.len() - i,
    {
        if same_name(exclude_dirs[i].as_str(), entry_name) {
            assert(exclude_dirs.deep_view()[i as int] == entry_name@);
            return true;
        }
        i += 1;
    }
    false
}

} // verus!
