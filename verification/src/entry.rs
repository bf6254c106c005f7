//! What a traversal reports of one path: where it is and how many bytes it holds.

use crate::path::{is_normal, lemma_normal_form_is_normal, normal_form, normalize};
use vstd::prelude::*;

verus! {

/// A file entry as contracts see it.
pub ghost struct EntryView {
    pub path: Seq<char>,
    pub size: u64,
}

/// One visited path with its byte count. The path is kept in normal form.
#[derive(Debug)]
pub struct FileEntry {
    path: String,
    size: u64,
}

impl View for FileEntry {
    type V = EntryView;

    closed spec fn view(&self) -> EntryView {
        EntryView { path: self.path@, size: self.size }
    }
}

impl FileEntry {
    #[verifier::type_invariant]
    spec fn well_formed(self) -> bool {
        is_normal(self.path@)
    }

    /// An entry for `raw`, brought to normal form, holding `size` bytes.
    pub fn new(raw: &str, size: u64) -> (entry: FileEntry)
        ensures
            entry@ == (EntryView { path: normal_form(raw@), size }),
    {
        proof {
            lemma_normal_form_is_normal(raw@);
        }
        FileEntry { path: normalize(raw), size }
    }

    /// The path, in normal form.
    pub fn path(&self) -> (p: &str)
        ensures
            p@ == self@.path,
            is_normal(p@),
    {
        proof {
            use_type_invariant(self);
        }
        self.path.as_str()
    }

    /// The byte count.
    pub fn size(&self) -> (n: u64)
        ensures
            n == self@.size,
    {
        self.size
    }
}

/// The views of `entries`, in order.
pub open spec fn views(entries: Seq<FileEntry>) -> Seq<EntryView> {
    entries.map_values(|e: FileEntry| e@)
}

} // verus!
