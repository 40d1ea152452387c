//! The list engine: the in-memory ordered collection of entries, the
//! index-normalization policies for 1-based command-line positions, and the
//! mutation and query operations.

use crate::codec::{parse_rep, serialize_rep};
use crate::entry::{Entry, EntryV};
use crate::sorting::{sort_by, sort_entries, SortKey};
use crate::stamp::now_timestamp;
use crate::strutil::dec_rep;
use vstd::arithmetic::div_mod::{
    lemma_add_mod_noop, lemma_fundamental_div_mod, lemma_mod_bound, lemma_mod_multiples_vanish,
    lemma_small_mod,
};
use vstd::prelude::*;

verus! {

/// Strict validation of a 1-based index against a list of length `len`:
/// the 0-based position, or nothing when out of range.
pub open spec fn validated(index: int, len: int) -> Option<int> {
    if 1 <= index <= len {
        Option::Some(index - 1)
    } else {
        Option::None
    }
}

/// Leniently clamp a 1-based index into the 0-based range of a list of
/// length `len` (0 when the list is empty): near-miss indices act on the
/// nearest valid item.
pub open spec fn clamped(index: int, len: int) -> int {
    if len <= 0 {
        0
    } else if index <= 1 {
        0
    } else if index - 1 >= len {
        len - 1
    } else {
        index - 1
    }
}

/// Circular repositioning: the 0-based slot `shift` places forward (or
/// backward) of `index`, wrapping around a list of length `len` (0 when the
/// list is empty).
pub open spec fn wrapped(index: int, shift: int, len: int) -> int {
    if len <= 0 {
        0
    } else {
        (index + shift) % len
    }
}

/// One rendered listing line: `<1-based index> [X|space]: <text>`.
pub open spec fn line_rep(i: nat, e: EntryV) -> Seq<char> {
    dec_rep(i) + seq![' ', '['] + (if e.done {
        seq!['X']
    } else {
        seq![' ']
    }) + seq![']', ':', ' '] + e.text
}

/// The rendered listing: one line per entry, indices starting at 1. A pure
/// function of the list value, so listing twice without a mutation in
/// between yields the same output both times.
pub open spec fn render_rep(es: Seq<EntryV>) -> Seq<Seq<char>> {
    Seq::new(es.len(), |k: int| line_rep((k + 1) as nat, es[k]))
}

/// Listing is determined by the list value alone: two lists holding equal
/// entries render to identical output.
pub proof fn lemma_list_deterministic(a: Seq<EntryV>, b: Seq<EntryV>)
    requires
        a == b,
    ensures
        render_rep(a) == render_rep(b),
{
}

/// The in-memory task list for one database file.
pub struct ToDo {
    pub entries: Vec<Entry>,
}

impl View for ToDo {
    type V = Seq<EntryV>;

    open spec fn view(&self) -> Seq<EntryV> {
        self.entries.deep_view()
    }
}

impl ToDo {
    /// Every stored timestamp within range, so the list can be saved.
    pub open spec fn wf(self) -> bool {
        forall|i: int| 0 <= i < self@.len() ==> (#[trigger] self@[i]).created_at.valid()
    }

    /// Build the list from the text of its database file.
    pub fn new(content: &str) -> (t: ToDo)
        ensures
            t@ == parse_rep(content@),
            t.wf(),
    {
        let entries = crate::codec::parse_content(content);
        ToDo { entries }
    }

    /// The full text to store back to the database file.
    pub fn save(&self) -> (r: String)
        requires
            self.wf(),
        ensures
            r@ == serialize_rep(self@),
    {
        crate::codec::serialize(&self.entries)
    }

    /// The number of entries.
    pub fn len(&self) -> (n: usize)
        ensures
            n == self@.len(),
    {
        self.entries.len()
    }

    /// Append a new, not-yet-done entry with the given text, stamped with
    /// the current time.
    pub fn insert(&mut self, key: &String)
        requires
            old(self).wf(),
        ensures
            final(self).wf(),
            final(self)@.len() == old(self)@.len() + 1,
            final(self)@.take(old(self)@.len() as int) == old(self)@,
            final(self)@.last().text == key@,
            final(self)@.last().done == false,
            final(self)@.last().created_at.valid(),
    {
        let stamp = now_timestamp();
        let e = Entry::new(key.clone(), stamp);
        let ghost pre = self@;
        self.entries.push(e);
        proof {
            assert forall|j: int| 0 <= j < self@.len() implies self@[j] == pre.push(e@)[j] by {
                if j < pre.len() {
                    assert(self.entries@[j] == old(self).entries@[j]);
                }
            }
            assert(self@ =~= pre.push(e@));
            assert(self@.take(pre.len() as int) =~= pre);
        }
    }

    /// Remove the entry at a strict-validated 0-based position; out-of-range
    /// positions leave the list unchanged and report failure.
    pub fn delete(&mut self, item: usize) -> (r: Option<()>)
        ensures
            item < old(self)@.len() ==> r is Some && final(self)@ == old(self)@.remove(
                item as int,
            ),
            item >= old(self)@.len() ==> r is None && *final(self) == *old(self),
            old(self).wf() ==> final(self).wf(),
    {
        if item < self.entries.len() {
            let ghost pre = self@;
            self.entries.remove(item);
            proof {
                assert forall|j: int| 0 <= j < self@.len() implies self@[j] == pre.remove(
                    item as int,
                )[j] by {
                    if j < item {
                        assert(self.entries@[j] == old(self).entries@[j]);
                    } else {
                        assert(self.entries@[j] == old(self).entries@[j + 1]);
                    }
                }
                assert(self@ =~= pre.remove(item as int));
            }
            Some(())
        } else {
            None
        }
    }

    /// Flip the completion flag of the entry at a 0-based position;
    /// reports failure only when the position is out of range (in
    /// particular, on an empty list).
    pub fn toggle(&mut self, key: usize) -> (r: Option<()>)
        ensures
            key < old(self)@.len() ==> r is Some && final(self)@ == old(self)@.update(
                key as int,
                EntryV { done: !old(self)@[key as int].done, ..old(self)@[key as int] },
            ),
            key >= old(self)@.len() ==> r is None && *final(self) == *old(self),
            old(self).wf() ==> final(self).wf(),
    {
        if key < self.entries.len() {
            let ghost pre = self@;
            let mut e = self.entries.remove(key);
            proof {
                assert(e@ == pre[key as int]);
            }
            e.done = !e.done;
            self.entries.insert(key, e);
            proof {
                assert forall|j: int| 0 <= j < self@.len() implies self@[j] == pre.update(
                    key as int,
                    EntryV { done: !pre[key as int].done, ..pre[key as int] },
                )[j] by {
                    if j < key {
                        assert(self.entries@[j] == old(self).entries@[j]);
                    } else if j > key {
                        assert(self.entries@[j] == old(self).entries@[j]);
                    }
                }
                assert(self@ =~= pre.update(
                    key as int,
                    EntryV { done: !pre[key as int].done, ..pre[key as int] },
                ));
            }
            Some(())
        } else {
            None
        }
    }

    /// Move the entry at 0-based `index` to 0-based `to`, clamping the
    /// destination to the end of the now-shorter list; an out-of-range
    /// source leaves the list unchanged and reports failure.
    pub fn movef(&mut self, index: usize, to: usize) -> (r: Option<()>)
        ensures
            index < old(self)@.len() ==> r is Some && final(self)@ == old(self)@.remove(
                index as int,
            ).insert(
                if to as int <= old(self)@.len() - 1 {
                    to as int
                } else {
                    old(self)@.len() - 1
                },
                old(self)@[index as int],
            ),
            index >= old(self)@.len() ==> r is None && *final(self) == *old(self),
            old(self).wf() ==> final(self).wf(),
    {
        if index >= self.entries.len() {
            return None;
        }
        let ghost pre = self@;
        let item = self.entries.remove(index);
        proof {
            assert(item@ == pre[index as int]);
            assert forall|j: int| 0 <= j < self@.len() implies self@[j] == pre.remove(
                index as int,
            )[j] by {
                if j < index {
                    assert(self.entries@[j] == old(self).entries@[j]);
                } else {
                    assert(self.entries@[j] == old(self).entries@[j + 1]);
                }
            }
            assert(self@ =~= pre.remove(index as int));
        }
        let mut new_index = to;
        if to > self.entries.len() {
            new_index = self.entries.len();
        }
        let ghost mid = self@;
        self.entries.insert(new_index, item);
        proof {
            assert(self@ =~= mid.insert(new_index as int, item@));
            assert(new_index as int == if to as int <= pre.len() - 1 {
                to as int
            } else {
                pre.len() - 1
            });
        }
        Some(())
    }

    /// Remove every entry.
    pub fn clear(&mut self)
        ensures
            final(self)@ == Seq::<EntryV>::empty(),
            final(self).wf(),
    {
        self.entries.clear();
        proof {
            assert(self@ =~= Seq::<EntryV>::empty());
        }
    }

    /// Stable alphabetic sort by task text; `strict` compares the raw text,
    /// otherwise both sides are lowercased first; `reverse` flips the
    /// comparator's operands.
    pub fn order_alpha(&mut self, reverse: bool, strict: bool)
        ensures
            final(self)@ == sort_by(old(self)@, SortKey::Alpha { reverse, strict }),
            old(self).wf() ==> final(self).wf(),
    {
        sort_entries(&mut self.entries, SortKey::Alpha { reverse, strict });
        proof {
            if old(self).wf() {
                crate::sorting::lemma_sort_by_valid(
                    old(self)@,
                    SortKey::Alpha { reverse, strict },
                );
            }
        }
    }

    /// Stable chronological sort by creation timestamp, ascending unless
    /// reversed.
    pub fn order_date(&mut self, reverse: bool)
        ensures
            final(self)@ == sort_by(old(self)@, SortKey::ByDate { reverse }),
            old(self).wf() ==> final(self).wf(),
    {
        sort_entries(&mut self.entries, SortKey::ByDate { reverse });
        proof {
            if old(self).wf() {
                crate::sorting::lemma_sort_by_valid(old(self)@, SortKey::ByDate { reverse });
            }
        }
    }

    /// Render the listing: one line per entry, 1-based indices.
    pub fn list(&self) -> (lines: Vec<String>)
        ensures
            lines.deep_view() == render_rep(self@),
    {
        let mut lines: Vec<String> = Vec::new();
        let mut i: usize = 0;
        while i < self.entries.len()
            invariant
                0 <= i <= self@.len(),
                self@.len() == self.entries@.len(),
                lines.deep_view().len() == i,
                forall|k: int|
                    0 <= k < i ==> lines.deep_view()[k] == line_rep((k + 1) as nat, self@[k]),
            decreases self@.len() - i,
        {
            proof {
                reveal_strlit(" [");
                reveal_strlit("X");
                reveal_strlit(" ");
                reveal_strlit("]: ");
            }
            let e = &self.entries[i];
            let mut line = crate::strutil::usize_to_dec(i + 1);
            line.append(" [");
            if e.done {
                line.append("X");
            } else {
                line.append(" ");
            }
            line.append("]: ");
            line.append(e.text.as_str());
            proof {
                assert(e@ == self@[i as int]);
                assert(line@ =~= line_rep((i + 1) as nat, self@[i as int]));
            }
            let ghost before = lines.deep_view();
            lines.push(line);
            proof {
                assert(lines.deep_view() =~= before.push(line@));
            }
            i = i + 1;
        }
        proof {
            assert(lines.deep_view() =~= render_rep(self@));
        }
        lines
    }

    /// Strict-validate a 1-based index: its 0-based position, or nothing
    /// when it is out of range.
    pub fn validate_index(&self, index: i8) -> (r: Option<usize>)
        ensures
            r == match validated(index as int, self@.len() as int) {
                Option::Some(p) => Option::Some(p as usize),
                Option::None => Option::<usize>::None,
            },
    {
        if index < 1 {
            return None;
        }
        let z = (index - 1) as usize;
        if z < self.entries.len() {
            Some(z)
        } else {
            None
        }
    }

    /// Clamp a 1-based index into the list's 0-based range (0 on an empty
    /// list).
    pub fn clamp_index(&self, index: i8) -> (r: usize)
        ensures
            r == clamped(index as int, self@.len() as int),
    {
        let len = self.entries.len();
        if len == 0 {
            return 0;
        }
        if index <= 1 {
            return 0;
        }
        let z = (index - 1) as usize;
        if z >= len {
            len - 1
        } else {
            z
        }
    }

    /// Wrap `index + shift` around the list, Euclidean-style, so shifting
    /// past either end re-enters from the other (0 on an empty list).
    pub fn loop_index(&self, index: usize, shift: i8) -> (r: usize)
        requires
            index < self@.len() || self@.len() == 0,
        ensures
            r == wrapped(index as int, shift as int, self@.len() as int),
    {
        let len = self.entries.len();
        if len == 0 {
            return 0;
        }
        let ghost l = len as int;
        if shift >= 0 {
            let m = (shift as usize) % len;
            proof {
                lemma_mod_bound(shift as int, l);
                lemma_mod_bound(index as int, l);
                lemma_add_mod_noop(index as int, shift as int, l);
            }
            let b = index % len;
            if m < len - b {
                proof {
                    lemma_small_mod((b + m) as nat, len as nat);
                    assert(index as int % l == index as int) by {
                        lemma_small_mod(index as nat, len as nat);
                    }
                }
                b + m
            } else {
                proof {
                    lemma_small_mod(index as nat, len as nat);
                    lemma_mod_multiples_vanish(1, b + m - l, l);
                    lemma_small_mod((b + m - len) as nat, len as nat);
                }
                b - (len - m)
            }
        } else {
            let neg = (-(shift as i64)) as usize;
            let m = neg % len;
            let b = index % len;
            proof {
                assert(neg as int == -(shift as int));
                lemma_mod_bound(neg as int, l);
                lemma_mod_bound(index as int, l);
                lemma_small_mod(index as nat, len as nat);
                assert(b as int == index as int);
                lemma_fundamental_div_mod(neg as int, l);
                assert(neg as int == l * (neg as int / l) + m as int);
                assert(index as int + shift as int == l * (-(neg as int / l)) + (b as int
                    - m as int)) by (nonlinear_arith)
                    requires
                        neg as int == -(shift as int),
                        b as int == index as int,
                        neg as int == l * (neg as int / l) + m as int,
                ;
                lemma_mod_multiples_vanish(-(neg as int / l), b as int - m as int, l);
            }
            if m <= b {
                proof {
                    lemma_small_mod((b - m) as nat, len as nat);
                }
                b - m
            } else {
                proof {
                    lemma_mod_multiples_vanish(-1, b as int - m as int + l, l);
                    lemma_small_mod((b - m + len) as nat, len as nat);
                }
                len - (m - b)
            }
        }
    }
}

} // verus!
