//! Sequence-of-character utilities: splitting on a multi-character token,
//! decimal rendering and parsing, and lexicographic comparison.

use vstd::prelude::*;
use vstd::string::StrSliceExecFns;

verus! {

/// Character `c` does not occur in `s`.
pub open spec fn free_of(s: Seq<char>, c: char) -> bool {
    forall|i: int| 0 <= i < s.len() ==> s[i] != c
}

/// Token `tok` occurs in `s` starting at position `i`.
pub open spec fn occurs_at(s: Seq<char>, tok: Seq<char>, i: int) -> bool {
    0 <= i && i + tok.len() <= s.len() && s.subrange(i, i + tok.len()) == tok
}

/// Split `s` at every occurrence of `tok`, scanning left to right.
/// The result always has at least one element; splitting never loses
/// characters other than the separators themselves.
pub open spec fn split_on(s: Seq<char>, tok: Seq<char>) -> Seq<Seq<char>>
    decreases s.len(),
{
    if tok.len() == 0 || s.len() == 0 {
        seq![s]
    } else if s.len() >= tok.len() && s.take(tok.len() as int) == tok {
        seq![Seq::<char>::empty()] + split_on(s.skip(tok.len() as int), tok)
    } else {
        let rest = split_on(s.drop_first(), tok);
        seq![seq![s[0]] + rest[0]] + rest.drop_first()
    }
}

pub proof fn lemma_split_on_len(s: Seq<char>, tok: Seq<char>)
    ensures
        split_on(s, tok).len() >= 1,
    decreases s.len(),
{
    if !(tok.len() == 0 || s.len() == 0) {
        if s.len() >= tok.len() && s.take(tok.len() as int) == tok {
        } else {
            lemma_split_on_len(s.drop_first(), tok);
        }
    }
}

/// If the first occurrence of `tok` in `r` is at `j`, the split peels off
/// exactly the prefix before `j`.
pub proof fn lemma_split_at_first(r: Seq<char>, tok: Seq<char>, j: int)
    requires
        tok.len() >= 1,
        occurs_at(r, tok, j),
        forall|i: int| 0 <= i < j ==> !occurs_at(r, tok, i),
    ensures
        split_on(r, tok) == seq![r.take(j)] + split_on(r.skip(j + tok.len()), tok),
    decreases j,
{
    let l = tok.len() as int;
    if j == 0 {
        assert(r.take(l) == r.subrange(0, l));
        assert(r.take(0) =~= Seq::<char>::empty());
        assert(split_on(r, tok) =~= seq![r.take(0)] + split_on(r.skip(l), tok));
    } else {
        assert(r.len() > 0);
        assert(!occurs_at(r, tok, 0));
        if r.len() >= l {
            assert(r.take(l) == r.subrange(0, l));
        }
        let d = r.drop_first();
        assert forall|i: int| 0 <= i < j - 1 implies !occurs_at(d, tok, i) by {
            if occurs_at(d, tok, i) {
                assert(d.subrange(i, i + l) =~= r.subrange(i + 1, i + 1 + l));
                assert(occurs_at(r, tok, i + 1));
            }
        }
        assert(d.subrange(j - 1, j - 1 + l) =~= r.subrange(j, j + l));
        assert(occurs_at(d, tok, j - 1));
        lemma_split_at_first(d, tok, j - 1);
        lemma_split_on_len(d.skip(j - 1 + l), tok);
        let rest = split_on(d, tok);
        assert(rest[0] == d.take(j - 1));
        assert(seq![r[0]] + d.take(j - 1) =~= r.take(j));
        assert(d.skip(j - 1 + l) =~= r.skip(j + l));
        assert(rest.drop_first() =~= split_on(r.skip(j + l), tok));
        assert(split_on(r, tok) =~= seq![r.take(j)] + split_on(r.skip(j + l), tok));
    }
}

/// If `tok` does not occur in `r` at all, the split keeps `r` whole.
pub proof fn lemma_split_none(r: Seq<char>, tok: Seq<char>)
    requires
        tok.len() >= 1,
        forall|i: int| !occurs_at(r, tok, i),
    ensures
        split_on(r, tok) == seq![r],
    decreases r.len(),
{
    let l = tok.len() as int;
    if r.len() == 0 {
    } else {
        if r.len() >= l {
            assert(!occurs_at(r, tok, 0));
            assert(r.take(l) == r.subrange(0, l));
        }
        let d = r.drop_first();
        assert forall|i: int| !occurs_at(d, tok, i) by {
            if occurs_at(d, tok, i) {
                assert(d.subrange(i, i + l) =~= r.subrange(i + 1, i + 1 + l));
                assert(occurs_at(r, tok, i + 1));
            }
        }
        lemma_split_none(d, tok);
        assert(seq![r[0]] + d =~= r);
        assert(split_on(r, tok) =~= seq![r]);
    }
}

/// A token anchored by a leading character that is absent from `p` cannot
/// occur before the planted copy, so splitting `p + tok + z` peels off `p`.
pub proof fn lemma_split_marked(p: Seq<char>, tok: Seq<char>, z: Seq<char>)
    requires
        tok.len() >= 1,
        free_of(p, tok[0]),
    ensures
        split_on(p + tok + z, tok) == seq![p] + split_on(z, tok),
{
    let l = tok.len() as int;
    let s = p + tok + z;
    assert(s.subrange(p.len() as int, p.len() + l) =~= tok);
    assert(occurs_at(s, tok, p.len() as int));
    assert forall|i: int| 0 <= i < p.len() implies !occurs_at(s, tok, i) by {
        if occurs_at(s, tok, i) {
            assert(s.subrange(i, i + l)[0] == s[i]);
            assert(s[i] == p[i]);
            assert(tok[0] == s[i]);
        }
    }
    lemma_split_at_first(s, tok, p.len() as int);
    assert(s.take(p.len() as int) =~= p);
    assert(s.skip(p.len() + l) =~= z);
}

/// A token whose leading character is absent from `r` does not occur in `r`.
pub proof fn lemma_split_absent(r: Seq<char>, tok: Seq<char>)
    requires
        tok.len() >= 1,
        free_of(r, tok[0]),
    ensures
        split_on(r, tok) == seq![r],
{
    let l = tok.len() as int;
    assert forall|i: int| !occurs_at(r, tok, i) by {
        if occurs_at(r, tok, i) {
            assert(r.subrange(i, i + l)[0] == r[i]);
            assert(tok[0] == r[i]);
        }
    }
    lemma_split_none(r, tok);
}

pub proof fn lemma_free_of_concat(a: Seq<char>, b: Seq<char>, c: char)
    requires
        free_of(a, c),
        free_of(b, c),
    ensures
        free_of(a + b, c),
{
    assert forall|i: int| 0 <= i < (a + b).len() implies (a + b)[i] != c by {
        if i < a.len() {
            assert((a + b)[i] == a[i]);
        } else {
            assert((a + b)[i] == b[i - a.len()]);
        }
    }
}

/// Does `tok` occur in `s` at character position `i`?
fn tok_matches_at(s: &str, i: usize, tok: &str) -> (r: bool)
    requires
        i + tok@.len() <= s@.len(),
        s@.len() <= usize::MAX,
    ensures
        r == occurs_at(s@, tok@, i as int),
{
    let l = tok.unicode_len();
    let mut j: usize = 0;
    while j < l
        invariant
            0 <= j <= l,
            l == tok@.len(),
            i + l <= s@.len() <= usize::MAX,
            forall|k: int| 0 <= k < j ==> s@[i + k] == tok@[k],
        decreases l - j,
    {
        if s.get_char(i + j) != tok.get_char(j) {
            proof {
                assert(s@.subrange(i as int, i + l)[j as int] != tok@[j as int]);
            }
            return false;
        }
        j = j + 1;
    }
    proof {
        assert(s@.subrange(i as int, i + l) =~= tok@);
    }
    true
}

/// First occurrence of `tok` in `s` at or after character position `from`.
fn find_tok(s: &str, tok: &str, from: usize) -> (r: Option<usize>)
    requires
        tok@.len() >= 1,
        from <= s@.len(),
    ensures
        match r {
            Some(j) => from <= j && occurs_at(s@, tok@, j as int) && forall|i: int|
                from <= i < j ==> !occurs_at(s@, tok@, i),
            None => forall|i: int| from <= i ==> !occurs_at(s@, tok@, i),
        },
{
    let n = s.unicode_len();
    let l = tok.unicode_len();
    let mut j: usize = from;
    loop
        invariant
            from <= j <= n,
            l >= 1,
            n == s@.len(),
            l == tok@.len(),
            forall|i: int| from <= i < j ==> !occurs_at(s@, tok@, i),
        decreases n - j,
    {
        if l > n || j > n - l {
            proof {
                assert forall|i: int| from <= i implies !occurs_at(s@, tok@, i) by {
                    if occurs_at(s@, tok@, i) {
                        assert(i + l <= n);
                        assert(i < j);
                    }
                }
            }
            return None;
        }
        if tok_matches_at(s, j, tok) {
            return Some(j);
        }
        j = j + 1;
    }
}

/// Split `s` at every occurrence of `tok`, left to right, as the view-level
/// `split_on` does.
pub fn split_str(s: &str, tok: &str) -> (parts: Vec<String>)
    requires
        tok@.len() >= 1,
    ensures
        parts.deep_view() == split_on(s@, tok@),
{
    let n = s.unicode_len();
    let l = tok.unicode_len();
    let mut parts: Vec<String> = Vec::new();
    let mut start: usize = 0;
    proof {
        assert(s@.skip(0) =~= s@);
        assert(parts.deep_view() =~= Seq::<Seq<char>>::empty());
        assert(parts.deep_view() + split_on(s@, tok@) =~= split_on(s@, tok@));
    }
    loop
        invariant
            0 <= start <= n,
            l >= 1,
            n == s@.len(),
            l == tok@.len(),
            split_on(s@, tok@) == parts.deep_view() + split_on(s@.skip(start as int), tok@),
        decreases n - start,
    {
        match find_tok(s, tok, start) {
            Some(j) => {
                let piece = s.substring_char(start, j).to_owned();
                proof {
                    let r = s@.skip(start as int);
                    assert(r.subrange(
                        j - start,
                        j - start + l,
                    ) =~= s@.subrange(j as int, j + l));
                    assert(occurs_at(r, tok@, j - start));
                    assert forall|i: int| 0 <= i < j - start implies !occurs_at(r, tok@, i) by {
                        if occurs_at(r, tok@, i) {
                            assert(r.subrange(i, i + l) =~= s@.subrange(
                                start + i,
                                start + i + l,
                            ));
                            assert(occurs_at(s@, tok@, start + i));
                        }
                    }
                    lemma_split_at_first(r, tok@, j - start);
                    assert(r.take(j - start) =~= s@.subrange(start as int, j as int));
                    assert(r.skip(j - start + l) =~= s@.skip(j + l));
                    assert(piece@ == r.take(j - start));
                }
                let ghost old_parts = parts.deep_view();
                parts.push(piece);
                proof {
                    assert(parts.deep_view() =~= old_parts.push(piece@));
                    assert(parts.deep_view() + split_on(s@.skip(j + l), tok@) =~= old_parts
                        + (seq![piece@] + split_on(s@.skip(j + l), tok@)));
                }
                start = j + l;
            },
            None => {
                let piece = s.substring_char(start, n).to_owned();
                proof {
                    let r = s@.skip(start as int);
                    assert forall|i: int| !occurs_at(r, tok@, i) by {
                        if occurs_at(r, tok@, i) {
                            assert(r.subrange(i, i + l) =~= s@.subrange(
                                start + i,
                                start + i + l,
                            ));
                            assert(occurs_at(s@, tok@, start + i));
                        }
                    }
                    lemma_split_none(r, tok@);
                    assert(piece@ =~= r);
                }
                let ghost old_parts = parts.deep_view();
                parts.push(piece);
                proof {
                    assert(parts.deep_view() =~= old_parts.push(piece@));
                    assert(parts.deep_view() =~= old_parts + seq![piece@]);
                }
                return parts;
            },
        }
    }
}

/// The character for a single decimal digit.
pub open spec fn digit_char(d: int) -> char {
    if d == 0 {
        '0'
    } else if d == 1 {
        '1'
    } else if d == 2 {
        '2'
    } else if d == 3 {
        '3'
    } else if d == 4 {
        '4'
    } else if d == 5 {
        '5'
    } else if d == 6 {
        '6'
    } else if d == 7 {
        '7'
    } else if d == 8 {
        '8'
    } else {
        '9'
    }
}

/// The value of a decimal digit character; 10 marks a non-digit.
pub open spec fn digit_val(c: char) -> int {
    if c == '0' {
        0
    } else if c == '1' {
        1
    } else if c == '2' {
        2
    } else if c == '3' {
        3
    } else if c == '4' {
        4
    } else if c == '5' {
        5
    } else if c == '6' {
        6
    } else if c == '7' {
        7
    } else if c == '8' {
        8
    } else if c == '9' {
        9
    } else {
        10
    }
}

pub open spec fn is_digit(c: char) -> bool {
    digit_val(c) < 10
}

pub open spec fn is_digits(t: Seq<char>) -> bool {
    forall|i: int| 0 <= i < t.len() ==> is_digit(t[i])
}

/// The plain decimal rendering of `n`: no sign, no padding, no leading zeros.
pub open spec fn dec_rep(n: nat) -> Seq<char>
    decreases n,
{
    if n < 10 {
        seq![digit_char(n as int)]
    } else {
        dec_rep(n / 10) + seq![digit_char(n as int % 10)]
    }
}

/// The numeric value of a digit string.
pub open spec fn dec_val(t: Seq<char>) -> int
    decreases t.len(),
{
    if t.len() == 0 {
        0
    } else {
        dec_val(t.drop_last()) * 10 + digit_val(t.last())
    }
}

pub proof fn lemma_dec_rep(n: nat)
    ensures
        dec_rep(n).len() >= 1,
        is_digits(dec_rep(n)),
        dec_val(dec_rep(n)) == n,
    decreases n,
{
    if n < 10 {
        assert(dec_rep(n) =~= seq![digit_char(n as int)]);
        assert(dec_rep(n).drop_last() =~= Seq::<char>::empty());
        assert(digit_val(digit_char(n as int)) == n as int);
        assert(dec_rep(n).last() == digit_char(n as int));
        assert(dec_val(Seq::<char>::empty()) == 0);
        assert(dec_val(dec_rep(n)) == dec_val(Seq::<char>::empty()) * 10 + digit_val(
            dec_rep(n).last(),
        ));
    } else {
        lemma_dec_rep(n / 10);
        let r = dec_rep(n);
        assert(r.drop_last() =~= dec_rep(n / 10));
        assert(r.last() == digit_char(n as int % 10));
        assert(dec_val(r) == (n / 10) * 10 + n % 10);
        assert((n / 10) * 10 + n % 10 == n) by (nonlinear_arith);
        assert forall|i: int| 0 <= i < r.len() implies is_digit(r[i]) by {
            if i < r.len() - 1 {
                assert(r[i] == dec_rep(n / 10)[i]);
            }
        }
    }
}

pub proof fn lemma_dec_val_nonneg(t: Seq<char>)
    requires
        is_digits(t),
    ensures
        dec_val(t) >= 0,
    decreases t.len(),
{
    if t.len() > 0 {
        assert(is_digits(t.drop_last()));
        lemma_dec_val_nonneg(t.drop_last());
    }
}

pub proof fn lemma_dec_val_take_le(t: Seq<char>, k: int)
    requires
        is_digits(t),
        0 <= k <= t.len(),
    ensures
        dec_val(t.take(k)) <= dec_val(t),
    decreases t.len() - k,
{
    if k == t.len() {
        assert(t.take(k) =~= t);
    } else {
        lemma_dec_val_take_le(t, k + 1);
        assert(t.take(k + 1).drop_last() =~= t.take(k));
        assert(t.take(k + 1).last() == t[k]);
        assert(is_digits(t.take(k)));
        lemma_dec_val_nonneg(t.take(k));
        assert(dec_val(t.take(k + 1)) == dec_val(t.take(k)) * 10 + digit_val(t[k]));
    }
}

/// The one-character string for a decimal digit.
pub fn digit_str(d: u8) -> (r: &'static str)
    requires
        d < 10,
    ensures
        r@ == seq![digit_char(d as int)],
{
    proof {
        reveal_strlit("0");
        reveal_strlit("1");
        reveal_strlit("2");
        reveal_strlit("3");
        reveal_strlit("4");
        reveal_strlit("5");
        reveal_strlit("6");
        reveal_strlit("7");
        reveal_strlit("8");
        reveal_strlit("9");
    }
    let r: &'static str = match d {
        0 => "0",
        1 => "1",
        2 => "2",
        3 => "3",
        4 => "4",
        5 => "5",
        6 => "6",
        7 => "7",
        8 => "8",
        _ => "9",
    };
    proof {
        assert(r@ =~= seq![digit_char(d as int)]);
    }
    r
}

/// Render `n` in plain decimal.
pub fn u32_to_dec(n: u32) -> (r: String)
    ensures
        r@ == dec_rep(n as nat),
    decreases n,
{
    if n < 10 {
        let r = digit_str(n as u8).to_owned();
        proof {
            assert(r@ =~= dec_rep(n as nat));
        }
        r
    } else {
        let mut r = u32_to_dec(n / 10);
        r.append(digit_str((n % 10) as u8));
        proof {
            assert(r@ =~= dec_rep(n as nat));
        }
        r
    }
}

/// Render `n` in plain decimal.
pub fn usize_to_dec(n: usize) -> (r: String)
    ensures
        r@ == dec_rep(n as nat),
    decreases n,
{
    if n < 10 {
        let r = digit_str(n as u8).to_owned();
        proof {
            assert(r@ =~= dec_rep(n as nat));
        }
        r
    } else {
        let mut r = usize_to_dec(n / 10);
        r.append(digit_str((n % 10) as u8));
        proof {
            assert(r@ =~= dec_rep(n as nat));
        }
        r
    }
}

/// The digit value of `c`, if `c` is a decimal digit.
pub fn digit_of(c: char) -> (r: Option<u8>)
    ensures
        match r {
            Some(d) => is_digit(c) && d == digit_val(c),
            None => !is_digit(c),
        },
{
    match c {
        '0' => Some(0),
        '1' => Some(1),
        '2' => Some(2),
        '3' => Some(3),
        '4' => Some(4),
        '5' => Some(5),
        '6' => Some(6),
        '7' => Some(7),
        '8' => Some(8),
        '9' => Some(9),
        _ => None,
    }
}

/// What parsing an unsigned decimal field yields: the value, when the text
/// is one or more digits and fits in a `u32`; nothing otherwise.
pub open spec fn parse_u32_spec(t: Seq<char>) -> Option<u32> {
    if is_digits(t) && t.len() >= 1 && dec_val(t) <= u32::MAX {
        Some(dec_val(t) as u32)
    } else {
        None
    }
}

/// Parse an unsigned decimal field.
pub fn parse_u32(s: &str) -> (r: Option<u32>)
    ensures
        r == parse_u32_spec(s@),
{
    let n = s.unicode_len();
    if n == 0 {
        return None;
    }
    let mut val: u32 = 0;
    let mut i: usize = 0;
    while i < n
        invariant
            0 <= i <= n,
            n == s@.len(),
            is_digits(s@.take(i as int)),
            val == dec_val(s@.take(i as int)),
        decreases n - i,
    {
        let c = s.get_char(i);
        proof {
            assert(s@.take(i + 1).drop_last() =~= s@.take(i as int));
            assert(s@.take(i + 1).last() == s@[i as int]);
        }
        match digit_of(c) {
            Some(d) => {
                if val > (u32::MAX - d as u32) / 10 {
                    proof {
                        assert(dec_val(s@.take(i + 1)) > u32::MAX);
                        if is_digits(s@) {
                            lemma_dec_val_take_le(s@, i + 1);
                        }
                    }
                    return None;
                }
                val = val * 10 + d as u32;
            },
            None => {
                proof {
                    assert(!is_digit(s@[i as int]));
                }
                return None;
            },
        }
        i = i + 1;
    }
    proof {
        assert(s@.take(n as int) =~= s@);
    }
    Some(val)
}

/// Compare two strings character by character.
pub fn str_eq(a: &str, b: &str) -> (r: bool)
    ensures
        r == (a@ == b@),
{
    let na = a.unicode_len();
    let nb = b.unicode_len();
    if na != nb {
        return false;
    }
    let mut i: usize = 0;
    while i < na
        invariant
            0 <= i <= na,
            na == a@.len(),
            na == b@.len(),
            forall|k: int| 0 <= k < i ==> a@[k] == b@[k],
        decreases na - i,
    {
        if a.get_char(i) != b.get_char(i) {
            return false;
        }
        i = i + 1;
    }
    proof {
        assert(a@ =~= b@);
    }
    true
}

/// Is `a` lexicographically at most `b`, comparing by code point, with both
/// already equal on the first `i` characters?
pub open spec fn lex_le_from(a: Seq<char>, b: Seq<char>, i: int) -> bool
    decreases a.len() - i,
{
    if i >= a.len() {
        true
    } else if i >= b.len() {
        false
    } else if a[i] != b[i] {
        (a[i] as u32) < (b[i] as u32)
    } else {
        lex_le_from(a, b, i + 1)
    }
}

/// Lexicographic order on character sequences, by code point; a prefix
/// sorts before its extensions.
pub open spec fn lex_le(a: Seq<char>, b: Seq<char>) -> bool {
    lex_le_from(a, b, 0)
}

/// Compare two strings in lexicographic (code point) order.
pub fn str_le(a: &str, b: &str) -> (r: bool)
    ensures
        r == lex_le(a@, b@),
{
    let na = a.unicode_len();
    let nb = b.unicode_len();
    let mut i: usize = 0;
    loop
        invariant
            0 <= i <= na,
            i <= nb,
            na == a@.len(),
            nb == b@.len(),
            lex_le(a@, b@) == lex_le_from(a@, b@, i as int),
        decreases na - i,
    {
        if i == na {
            return true;
        }
        if i == nb {
            return false;
        }
        let ca = a.get_char(i);
        let cb = b.get_char(i);
        if ca != cb {
            return (ca as u32) < (cb as u32);
        }
        i = i + 1;
    }
}

} // verus!
