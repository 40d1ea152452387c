//! A single task record: the description, its completion flag, and the
//! timestamp captured when it was inserted.

use crate::stamp::Timestamp;
use crate::strutil::free_of;
use vstd::prelude::*;

verus! {

/// One task record.
pub struct Entry {
    pub text: String,
    pub done: bool,
    pub created_at: Timestamp,
}

/// The mathematical value of an [`Entry`].
#[verifier::ext_equal]
pub struct EntryV {
    pub text: Seq<char>,
    pub done: bool,
    pub created_at: Timestamp,
}

impl View for Entry {
    type V = EntryV;

    open spec fn view(&self) -> EntryV {
        EntryV { text: self.text@, done: self.done, created_at: self.created_at }
    }
}

impl DeepView for Entry {
    type V = EntryV;

    open spec fn deep_view(&self) -> EntryV {
        self@
    }
}

/// The reserved characters that anchor the three separator tokens of the
/// database file. Task text that avoids them cannot collide with a
/// separator.
pub open spec fn reserved_chars() -> Seq<char> {
    seq!['\u{1d}', '\u{1e}', '\u{1f}']
}

/// A record the file format can carry faithfully: the text avoids the
/// reserved separator characters and the timestamp fields are in range.
pub open spec fn wf_entry(e: EntryV) -> bool {
    &&& free_of(e.text, '\u{1d}')
    &&& free_of(e.text, '\u{1e}')
    &&& free_of(e.text, '\u{1f}')
    &&& e.created_at.valid()
}

impl Entry {
    /// A fresh record with the given description: not yet done, stamped
    /// with the given creation time.
    pub fn new(text: String, created_at: Timestamp) -> (e: Entry)
        ensures
            e@ == (EntryV { text: text@, done: false, created_at }),
    {
        Entry { text, done: false, created_at }
    }
}

} // verus!
