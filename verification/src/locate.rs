//! Database discovery: the backing file is the reserved filename in the
//! nearest directory on the walk from the working directory up to the
//! filesystem root. When no ancestor holds one, a new database belongs in
//! the starting directory itself.
//!
//! The caller probes the filesystem: it hands in, for the starting
//! directory and each ancestor in order, whether that directory holds the
//! reserved filename as a regular file.

use vstd::prelude::*;

verus! {

/// The reserved database filename.
pub open spec fn db_name_rep() -> Seq<char> {
    ".todo.db.txt"@
}

pub fn db_file_name() -> (s: &'static str)
    ensures
        s@ == db_name_rep(),
{
    ".todo.db.txt"
}

/// Pick the database directory: the position of the nearest directory (the
/// start first, then its ancestors) that already holds a database file;
/// nothing when none does, in which case a fresh database belongs at
/// position 0, the starting directory.
pub fn locate(has_db: &Vec<bool>) -> (r: Option<usize>)
    ensures
        match r {
            Some(j) => j < has_db@.len() && has_db@[j as int] && forall|i: int|
                0 <= i < j ==> !has_db@[i],
            None => forall|i: int| 0 <= i < has_db@.len() ==> !has_db@[i],
        },
{
    let mut j: usize = 0;
    while j < has_db.len()
        invariant
            0 <= j <= has_db@.len(),
            forall|i: int| 0 <= i < j ==> !has_db@[i],
        decreases has_db@.len() - j,
    {
        if has_db[j] {
            return Some(j);
        }
        j = j + 1;
    }
    None
}

} // verus!
