//! Stable reordering of the list: alphabetically by task text (optionally
//! case-insensitive, optionally reversed) or chronologically by creation
//! timestamp. A reversed order flips the comparator's operands rather than
//! reversing afterwards, so ties keep their original relative order either
//! way.

use crate::entry::{Entry, EntryV};
use crate::stamp::{stamp_le, stamp_le_exec};
use crate::strutil::{lex_le, lex_le_from, str_le};
use vstd::multiset::Multiset;
use vstd::prelude::*;

verus! {

/// Which order a reordering operation uses.
#[derive(Clone, Copy)]
pub enum SortKey {
    /// By task text; `strict` compares the raw text, otherwise both sides
    /// are lowercased first; `reverse` flips the comparator's operands.
    Alpha { reverse: bool, strict: bool },
    /// By creation timestamp; `reverse` flips the comparator's operands.
    ByDate { reverse: bool },
}

/// What `str::to_lowercase` returns; the result depends on the characters
/// alone.
pub uninterp spec fn lower_of(s: Seq<char>) -> Seq<char>;

/// Relies on `str::to_lowercase`, whose result is a function of the
/// characters of its argument alone.
#[verifier::external_body]
fn lowercase(s: &str) -> (r: String)
    ensures
        r@ == lower_of(s@),
{
    s.to_lowercase()
}

/// The text key an alphabetic sort compares.
pub open spec fn alpha_key(e: EntryV, strict: bool) -> Seq<char> {
    if strict {
        e.text
    } else {
        lower_of(e.text)
    }
}

/// The comparator: does `a` sort at or before `b` under `k`?
pub open spec fn entry_le(k: SortKey, a: EntryV, b: EntryV) -> bool {
    match k {
        SortKey::Alpha { reverse, strict } => if reverse {
            lex_le(alpha_key(b, strict), alpha_key(a, strict))
        } else {
            lex_le(alpha_key(a, strict), alpha_key(b, strict))
        },
        SortKey::ByDate { reverse } => if reverse {
            stamp_le(b.created_at, a.created_at)
        } else {
            stamp_le(a.created_at, b.created_at)
        },
    }
}

/// Decide `entry_le`.
pub fn entry_le_exec(k: SortKey, a: &Entry, b: &Entry) -> (r: bool)
    ensures
        r == entry_le(k, a@, b@),
{
    match k {
        SortKey::Alpha { reverse, strict } => {
            let (x, y) = if reverse {
                (b, a)
            } else {
                (a, b)
            };
            if strict {
                str_le(x.text.as_str(), y.text.as_str())
            } else {
                let lx = lowercase(x.text.as_str());
                let ly = lowercase(y.text.as_str());
                str_le(lx.as_str(), ly.as_str())
            }
        },
        SortKey::ByDate { reverse } => {
            if reverse {
                stamp_le_exec(&b.created_at, &a.created_at)
            } else {
                stamp_le_exec(&a.created_at, &b.created_at)
            }
        },
    }
}

/// Insert `e` into the already-sorted `s`, after every element that sorts
/// at or before it; this placement is what makes the sort stable.
pub open spec fn insort(s: Seq<EntryV>, e: EntryV, k: SortKey) -> Seq<EntryV>
    decreases s.len(),
{
    if s.len() == 0 {
        seq![e]
    } else if entry_le(k, s[0], e) {
        seq![s[0]] + insort(s.drop_first(), e, k)
    } else {
        seq![e] + s
    }
}

/// Insertion sort of the whole sequence under `k`: processing the elements
/// in their original order and inserting each after its equals pins down
/// the unique stable result.
pub open spec fn sort_by(s: Seq<EntryV>, k: SortKey) -> Seq<EntryV>
    decreases s.len(),
{
    if s.len() == 0 {
        s
    } else {
        insort(sort_by(s.drop_last(), k), s.last(), k)
    }
}

proof fn lemma_insort_insert_at(s: Seq<EntryV>, e: EntryV, k: SortKey, p: int)
    requires
        0 <= p <= s.len(),
        forall|j: int| 0 <= j < p ==> entry_le(k, #[trigger] s[j], e),
        p < s.len() ==> !entry_le(k, s[p], e),
    ensures
        insort(s, e, k) == s.insert(p, e),
    decreases p,
{
    if p == 0 {
        if s.len() == 0 {
            assert(insort(s, e, k) =~= s.insert(0, e));
        } else {
            assert(!entry_le(k, s[0], e));
            assert(insort(s, e, k) =~= s.insert(0, e));
        }
    } else {
        assert(entry_le(k, s[0], e));
        let d = s.drop_first();
        assert(forall|j: int| 0 <= j < p - 1 ==> entry_le(k, #[trigger] d[j], e));
        lemma_insort_insert_at(d, e, k, p - 1);
        assert(insort(s, e, k) == seq![s[0]] + d.insert(p - 1, e));
        assert(seq![s[0]] + d.insert(p - 1, e) =~= s.insert(p, e));
    }
}

proof fn lemma_insort_valid(s: Seq<EntryV>, e: EntryV, k: SortKey)
    requires
        forall|i: int| 0 <= i < s.len() ==> (#[trigger] s[i]).created_at.valid(),
        e.created_at.valid(),
    ensures
        forall|i: int|
            0 <= i < insort(s, e, k).len() ==> (#[trigger] insort(s, e, k)[i]).created_at.valid(),
    decreases s.len(),
{
    let r = insort(s, e, k);
    if s.len() == 0 {
    } else if entry_le(k, s[0], e) {
        let d = s.drop_first();
        lemma_insort_valid(d, e, k);
        assert forall|i: int| 0 <= i < r.len() implies (#[trigger] r[i]).created_at.valid() by {
            if i > 0 {
                assert(r[i] == insort(d, e, k)[i - 1]);
            }
        }
    } else {
        assert forall|i: int| 0 <= i < r.len() implies (#[trigger] r[i]).created_at.valid() by {
            if i > 0 {
                assert(r[i] == s[i - 1]);
            }
        }
    }
}

/// Every reordering keeps exactly the original records.
pub proof fn lemma_insort_multiset(s: Seq<EntryV>, e: EntryV, k: SortKey)
    ensures
        insort(s, e, k).to_multiset() == s.to_multiset().insert(e),
    decreases s.len(),
{
    broadcast use vstd::seq_lib::group_to_multiset_ensures;

    let r = insort(s, e, k);
    if s.len() == 0 {
        assert(r =~= seq![e]);
        assert(seq![e] =~= Seq::<EntryV>::empty().push(e));
        assert(s.to_multiset() =~= Multiset::<EntryV>::empty());
        assert(r.to_multiset() =~= s.to_multiset().insert(e));
    } else if entry_le(k, s[0], e) {
        let d = s.drop_first();
        lemma_insort_multiset(d, e, k);
        assert(r =~= insort(d, e, k).insert(0, s[0]));
        assert(s =~= d.insert(0, s[0]));
        assert(r.to_multiset() =~= s.to_multiset().insert(e));
    } else {
        assert(r =~= s.insert(0, e));
        assert(r.to_multiset() =~= s.to_multiset().insert(e));
    }
}

/// A sorted list is a permutation of the original.
pub proof fn lemma_sort_by_multiset(s: Seq<EntryV>, k: SortKey)
    ensures
        sort_by(s, k).to_multiset() == s.to_multiset(),
    decreases s.len(),
{
    broadcast use vstd::seq_lib::group_to_multiset_ensures;

    if s.len() > 0 {
        lemma_sort_by_multiset(s.drop_last(), k);
        lemma_insort_multiset(sort_by(s.drop_last(), k), s.last(), k);
        assert(s =~= s.drop_last().push(s.last()));
        assert(s.drop_last().push(s.last()).to_multiset() == s.drop_last().to_multiset().insert(
            s.last(),
        ));
    }
}

/// Sorting keeps every timestamp within range.
pub proof fn lemma_sort_by_valid(s: Seq<EntryV>, k: SortKey)
    requires
        forall|i: int| 0 <= i < s.len() ==> (#[trigger] s[i]).created_at.valid(),
    ensures
        forall|i: int|
            0 <= i < sort_by(s, k).len() ==> (#[trigger] sort_by(s, k)[i]).created_at.valid(),
    decreases s.len(),
{
    if s.len() > 0 {
        let d = s.drop_last();
        assert(forall|i: int| 0 <= i < d.len() ==> (#[trigger] d[i]).created_at.valid());
        lemma_sort_by_valid(d, k);
        lemma_insort_valid(sort_by(d, k), s.last(), k);
    }
}

/// Sort the entries under `k` by stable insertion.
pub fn sort_entries(v: &mut Vec<Entry>, k: SortKey)
    ensures
        final(v).deep_view() == sort_by(old(v).deep_view(), k),
{
    let ghost orig = v.deep_view();
    let n = v.len();
    proof {
        assert(n == orig.len());
    }
    let mut out: Vec<Entry> = Vec::new();
    proof {
        assert(orig.take(0) =~= Seq::<EntryV>::empty());
        assert(out.deep_view() =~= sort_by(orig.take(0), k));
        assert(v.deep_view() =~= orig.skip(0));
    }
    let mut i: usize = 0;
    while v.len() > 0
        invariant
            0 <= i <= orig.len(),
            orig.len() == n,
            v.deep_view() == orig.skip(i as int),
            out.deep_view() == sort_by(orig.take(i as int), k),
            out@.len() == i,
        decreases v.len(),
    {
        let ghost pre = v.deep_view();
        let ghost prev = v@;
        let e = v.remove(0);
        proof {
            assert(pre == orig.skip(i as int));
            assert(pre.len() == prev.len());
            assert(e.deep_view() == pre[0]);
            assert(orig.skip(i as int)[0] == orig[i as int]);
            assert(e.deep_view() == orig[i as int]);
            assert forall|j: int| 0 <= j < v@.len() implies v.deep_view()[j] == orig.skip(
                i + 1,
            )[j] by {
                assert(v@[j] == prev[j + 1]);
                assert(pre[j + 1] == orig.skip(i as int)[j + 1]);
            }
            assert(v.deep_view() =~= orig.skip(i + 1));
        }
        let ghost before = out.deep_view();
        let mut p: usize = 0;
        loop
            invariant
                0 <= p <= out@.len(),
                out.deep_view() == before,
                forall|j: int| 0 <= j < p ==> entry_le(k, #[trigger] before[j], e.deep_view()),
            ensures
                0 <= p <= before.len(),
                out.deep_view() == before,
                forall|j: int| 0 <= j < p ==> entry_le(k, #[trigger] before[j], e.deep_view()),
                p < before.len() ==> !entry_le(k, before[p as int], e.deep_view()),
            decreases out@.len() - p,
        {
            if p >= out.len() {
                break ;
            }
            if !entry_le_exec(k, &out[p], &e) {
                proof {
                    assert(out.deep_view()[p as int] == out@[p as int].deep_view());
                }
                break ;
            }
            proof {
                assert(out.deep_view()[p as int] == out@[p as int].deep_view());
            }
            p = p + 1;
        }
        out.insert(p, e);
        proof {
            lemma_insort_insert_at(before, e.deep_view(), k, p as int);
            assert(out.deep_view() =~= before.insert(p as int, e.deep_view()));
            assert(i + 1 <= orig.len());
            let t = orig.take(i + 1);
            assert(t.drop_last() =~= orig.take(i as int));
            assert(t.last() == orig[i as int]);
            assert(out.deep_view() == sort_by(orig.take(i + 1), k));
        }
        i = i + 1;
    }
    proof {
        assert(orig.take(orig.len() as int) =~= orig);
    }
    *v = out;
}

/// Lexicographic order is total: one of the two directions always holds.
proof fn lemma_lex_connex(a: Seq<char>, b: Seq<char>, i: int)
    requires
        0 <= i,
    ensures
        lex_le_from(a, b, i) || lex_le_from(b, a, i),
    decreases a.len() - i,
{
    if i >= a.len() {
    } else if i >= b.len() {
    } else if a[i] != b[i] {
        vstd::utf8::char_u32_cast(a[i], a[i] as u32);
        vstd::utf8::char_u32_cast(b[i], b[i] as u32);
        assert((a[i] as u32) != (b[i] as u32));
    } else {
        lemma_lex_connex(a, b, i + 1);
    }
}

/// Lexicographic order is transitive.
proof fn lemma_lex_trans(a: Seq<char>, b: Seq<char>, c: Seq<char>, i: int)
    requires
        0 <= i,
        lex_le_from(a, b, i),
        lex_le_from(b, c, i),
    ensures
        lex_le_from(a, c, i),
    decreases a.len() - i,
{
    if i >= a.len() {
    } else {
        assert(i < b.len());
        assert(i < c.len());
        if a[i] == b[i] && b[i] == c[i] {
            lemma_lex_trans(a, b, c, i + 1);
        } else {
            vstd::utf8::char_u32_cast(a[i], a[i] as u32);
            vstd::utf8::char_u32_cast(b[i], b[i] as u32);
            vstd::utf8::char_u32_cast(c[i], c[i] as u32);
            assert((a[i] as u32) <= (b[i] as u32));
            assert((b[i] as u32) <= (c[i] as u32));
        }
    }
}

/// The comparator is total under every sort key.
pub proof fn lemma_entry_le_connex(k: SortKey, a: EntryV, b: EntryV)
    ensures
        entry_le(k, a, b) || entry_le(k, b, a),
{
    match k {
        SortKey::Alpha { reverse, strict } => {
            lemma_lex_connex(alpha_key(a, strict), alpha_key(b, strict), 0);
        },
        SortKey::ByDate { reverse } => {},
    }
}

/// The comparator is transitive under every sort key.
pub proof fn lemma_entry_le_trans(k: SortKey, a: EntryV, b: EntryV, c: EntryV)
    requires
        entry_le(k, a, b),
        entry_le(k, b, c),
    ensures
        entry_le(k, a, c),
{
    match k {
        SortKey::Alpha { reverse, strict } => {
            if reverse {
                lemma_lex_trans(alpha_key(c, strict), alpha_key(b, strict), alpha_key(a, strict), 0);
            } else {
                lemma_lex_trans(alpha_key(a, strict), alpha_key(b, strict), alpha_key(c, strict), 0);
            }
        },
        SortKey::ByDate { reverse } => {},
    }
}

/// Every earlier element sorts at or before every later one.
pub open spec fn sorted_under(s: Seq<EntryV>, k: SortKey) -> bool {
    forall|i: int, j: int| 0 <= i < j < s.len() ==> entry_le(k, #[trigger] s[i], #[trigger] s[j])
}

proof fn lemma_insort_sorted(s: Seq<EntryV>, e: EntryV, k: SortKey)
    requires
        sorted_under(s, k),
    ensures
        sorted_under(insort(s, e, k), k),
    decreases s.len(),
{
    broadcast use vstd::seq_lib::group_to_multiset_ensures;

    let r = insort(s, e, k);
    if s.len() == 0 {
    } else if entry_le(k, s[0], e) {
        let d = s.drop_first();
        assert(sorted_under(d, k));
        lemma_insort_sorted(d, e, k);
        let t = insort(d, e, k);
        lemma_insort_multiset(d, e, k);
        assert forall|i: int, j: int| 0 <= i < j < r.len() implies entry_le(
            k,
            #[trigger] r[i],
            #[trigger] r[j],
        ) by {
            if i == 0 {
                let x = t[j - 1];
                assert(r[j] == x);
                assert(t.to_multiset().count(x) > 0);
                assert(t.to_multiset() == d.to_multiset().insert(e));
                if x == e {
                    assert(entry_le(k, s[0], x));
                } else {
                    assert(d.to_multiset().count(x) > 0);
                    assert(d.contains(x));
                    let m = choose|m: int| 0 <= m < d.len() && d[m] == x;
                    assert(s[m + 1] == x);
                    assert(entry_le(k, s[0], x));
                }
            } else {
                assert(r[i] == t[i - 1]);
                assert(r[j] == t[j - 1]);
            }
        }
    } else {
        lemma_entry_le_connex(k, s[0], e);
        assert(entry_le(k, e, s[0]));
        assert forall|i: int, j: int| 0 <= i < j < r.len() implies entry_le(
            k,
            #[trigger] r[i],
            #[trigger] r[j],
        ) by {
            if i == 0 {
                assert(r[0] == e);
                assert(r[j] == s[j - 1]);
                if j == 1 {
                } else {
                    assert(entry_le(k, s[0], s[j - 1]));
                    lemma_entry_le_trans(k, e, s[0], s[j - 1]);
                }
            } else {
                assert(r[i] == s[i - 1]);
                assert(r[j] == s[j - 1]);
            }
        }
    }
}

/// The reordering operations leave the list sorted under their comparator.
pub proof fn lemma_sort_by_sorted(s: Seq<EntryV>, k: SortKey)
    ensures
        sorted_under(sort_by(s, k), k),
    decreases s.len(),
{
    if s.len() > 0 {
        lemma_sort_by_sorted(s.drop_last(), k);
        lemma_insort_sorted(sort_by(s.drop_last(), k), s.last(), k);
    }
}

} // verus!
