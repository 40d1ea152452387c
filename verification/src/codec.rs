//! The on-disk format of a task list.
//!
//! A file is a human-readable banner, a start marker, then one record per
//! entry. Each record is four fields — text, completion flag, timestamp,
//! fractional seconds — joined by a key-value separator token, and records
//! are joined by an entry separator token. The separator tokens are long
//! opaque strings, each anchored by a distinct reserved control character,
//! so that ordinary task text cannot collide with them. Content before the
//! start marker is ignored when loading, and any record that does not parse
//! is skipped rather than failing the whole load.

use crate::entry::{wf_entry, Entry, EntryV};
use crate::stamp::{parse_stamp_spec, stamp_rep, Timestamp};
use crate::strutil::{
    dec_rep, digit_char, free_of, is_digit, is_digits, lemma_dec_rep, lemma_free_of_concat,
    lemma_split_absent, lemma_split_marked, parse_u32_spec, split_on,
};
use vstd::prelude::*;

verus! {

/// The key-value separator token.
pub open spec fn kv_tok_rep() -> Seq<char> {
    "\u{1f}4<'}/gB^$M=s~"@
}

/// The entry separator token.
pub open spec fn entry_tok_rep() -> Seq<char> {
    "\u{1e}!>(]4>gNdE)he7"@
}

/// The start marker: everything before its first occurrence is ignored.
pub open spec fn mark_tok_rep() -> Seq<char> {
    "\u{1d}ohIw*s^ZP;4SYF#"@
}

/// The banner written ahead of the start marker.
pub open spec fn banner_rep() -> Seq<char> {
    "task list database\n\n"@
}

pub fn kv_tok() -> (s: &'static str)
    ensures
        s@ == kv_tok_rep(),
        s@.len() == 14,
{
    proof {
        lemma_tokens();
    }
    "\u{1f}4<'}/gB^$M=s~"
}

pub fn entry_tok() -> (s: &'static str)
    ensures
        s@ == entry_tok_rep(),
        s@.len() == 15,
{
    proof {
        lemma_tokens();
    }
    "\u{1e}!>(]4>gNdE)he7"
}

pub fn mark_tok() -> (s: &'static str)
    ensures
        s@ == mark_tok_rep(),
        s@.len() == 16,
{
    proof {
        lemma_tokens();
    }
    "\u{1d}ohIw*s^ZP;4SYF#"
}

pub fn banner_text() -> (s: &'static str)
    ensures
        s@ == banner_rep(),
{
    "task list database\n\n"
}

proof fn lemma_tokens()
    ensures
        kv_tok_rep().len() == 14,
        kv_tok_rep()[0] == '\u{1f}',
        free_of(kv_tok_rep(), '\u{1d}'),
        free_of(kv_tok_rep(), '\u{1e}'),
        entry_tok_rep().len() == 15,
        entry_tok_rep()[0] == '\u{1e}',
        free_of(entry_tok_rep(), '\u{1d}'),
        mark_tok_rep().len() == 16,
        mark_tok_rep()[0] == '\u{1d}',
        banner_rep().len() == 20,
        free_of(banner_rep(), '\u{1d}'),
{
    reveal_strlit("\u{1f}4<'}/gB^$M=s~");
    reveal_strlit("\u{1e}!>(]4>gNdE)he7");
    reveal_strlit("\u{1d}ohIw*s^ZP;4SYF#");
    reveal_strlit("task list database\n\n");
}

/// The stored form of the completion flag.
pub open spec fn bool_rep(b: bool) -> Seq<char> {
    if b {
        "true"@
    } else {
        "false"@
    }
}

/// The stored form of one record: its four fields joined by the key-value
/// separator token.
pub open spec fn record_rep(e: EntryV) -> Seq<char> {
    e.text + kv_tok_rep() + bool_rep(e.done) + kv_tok_rep() + stamp_rep(e.created_at)
        + kv_tok_rep() + dec_rep(e.created_at.microsecond as nat)
}

/// The stored form of a sequence of records, each followed by the entry
/// separator token.
pub open spec fn records_rep(es: Seq<EntryV>) -> Seq<char>
    decreases es.len(),
{
    if es.len() == 0 {
        Seq::<char>::empty()
    } else {
        record_rep(es[0]) + entry_tok_rep() + records_rep(es.drop_first())
    }
}

/// The full stored form of a list: banner, start marker, records.
pub open spec fn serialize_rep(es: Seq<EntryV>) -> Seq<char> {
    banner_rep() + mark_tok_rep() + records_rep(es)
}

/// What loading one record chunk yields: the entry, when the chunk has
/// exactly four fields and the flag, the timestamp and the fractional part
/// all parse and are in range; nothing otherwise.
pub open spec fn parse_record(chunk: Seq<char>) -> Option<EntryV> {
    let fs = split_on(chunk, kv_tok_rep());
    if fs.len() != 4 {
        Option::None
    } else {
        let done = if fs[1] == bool_rep(true) {
            Option::Some(true)
        } else if fs[1] == bool_rep(false) {
            Option::Some(false)
        } else {
            Option::None
        };
        match (done, parse_stamp_spec(fs[2]), parse_u32_spec(fs[3])) {
            (Option::Some(d), Option::Some(st), Option::Some(micro)) => {
                if micro < 1000000 {
                    Option::Some(
                        EntryV {
                            text: fs[0],
                            done: d,
                            created_at: Timestamp { microsecond: micro, ..st },
                        },
                    )
                } else {
                    Option::None
                }
            },
            _ => Option::None,
        }
    }
}

/// Load a sequence of record chunks, skipping empty chunks and chunks that
/// do not parse.
pub open spec fn parse_chunks(chunks: Seq<Seq<char>>) -> Seq<EntryV>
    decreases chunks.len(),
{
    if chunks.len() == 0 {
        Seq::<EntryV>::empty()
    } else {
        let rest = parse_chunks(chunks.drop_first());
        if chunks[0].len() == 0 {
            rest
        } else {
            match parse_record(chunks[0]) {
                Option::Some(e) => seq![e] + rest,
                Option::None => rest,
            }
        }
    }
}

/// What loading a whole file yields: the records found after the first
/// start marker (or in the whole content when no marker is present), in
/// stored order, with unparsable records skipped.
pub open spec fn parse_rep(content: Seq<char>) -> Seq<EntryV> {
    let parts = split_on(content, mark_tok_rep());
    let body = if parts.len() >= 2 {
        parts[1]
    } else {
        parts[0]
    };
    parse_chunks(split_on(body, entry_tok_rep()))
}

proof fn lemma_digit_char_reserved(d: int)
    ensures
        digit_char(d) != '\u{1d}',
        digit_char(d) != '\u{1e}',
        digit_char(d) != '\u{1f}',
{
}

proof fn lemma_dec_rep_free(n: nat, c: char)
    requires
        c == '\u{1d}' || c == '\u{1e}' || c == '\u{1f}',
    ensures
        free_of(dec_rep(n), c),
    decreases n,
{
    if n < 10 {
        assert forall|i: int| 0 <= i < dec_rep(n).len() implies dec_rep(n)[i] != c by {
            lemma_digit_char_reserved(n as int);
        }
    } else {
        lemma_dec_rep_free(n / 10, c);
        assert forall|i: int| 0 <= i < dec_rep(n).len() implies dec_rep(n)[i] != c by {
            if i < dec_rep(n / 10).len() {
                assert(dec_rep(n)[i] == dec_rep(n / 10)[i]);
            } else {
                assert(dec_rep(n)[i] == digit_char(n as int % 10));
                lemma_digit_char_reserved(n as int % 10);
            }
        }
    }
}

proof fn lemma_stamp_rep_free(t: Timestamp, c: char)
    requires
        c == '\u{1d}' || c == '\u{1e}' || c == '\u{1f}',
    ensures
        free_of(stamp_rep(t), c),
{
    assert forall|i: int| 0 <= i < stamp_rep(t).len() implies stamp_rep(t)[i] != c by {
        lemma_digit_char_reserved(t.year as int / 1000 % 10);
        lemma_digit_char_reserved(t.year as int / 100 % 10);
        lemma_digit_char_reserved(t.year as int / 10 % 10);
        lemma_digit_char_reserved(t.year as int % 10);
        lemma_digit_char_reserved(t.month as int / 10 % 10);
        lemma_digit_char_reserved(t.month as int % 10);
        lemma_digit_char_reserved(t.day as int / 10 % 10);
        lemma_digit_char_reserved(t.day as int % 10);
        lemma_digit_char_reserved(t.hour as int / 10 % 10);
        lemma_digit_char_reserved(t.hour as int % 10);
        lemma_digit_char_reserved(t.minute as int / 10 % 10);
        lemma_digit_char_reserved(t.minute as int % 10);
        lemma_digit_char_reserved(t.second as int / 10 % 10);
        lemma_digit_char_reserved(t.second as int % 10);
    }
}

proof fn lemma_bool_rep_free(b: bool, c: char)
    requires
        c == '\u{1d}' || c == '\u{1e}' || c == '\u{1f}',
    ensures
        free_of(bool_rep(b), c),
{
    reveal_strlit("true");
    reveal_strlit("false");
}

/// A well-formed record's stored form avoids the entry separator's and the
/// start marker's reserved characters entirely.
proof fn lemma_record_free(e: EntryV, c: char)
    requires
        wf_entry(e),
        c == '\u{1d}' || c == '\u{1e}',
    ensures
        free_of(record_rep(e), c),
{
    lemma_tokens();
    lemma_bool_rep_free(e.done, c);
    lemma_stamp_rep_free(e.created_at, c);
    lemma_dec_rep_free(e.created_at.microsecond as nat, c);
    lemma_free_of_concat(e.text, kv_tok_rep(), c);
    lemma_free_of_concat(e.text + kv_tok_rep(), bool_rep(e.done), c);
    lemma_free_of_concat(e.text + kv_tok_rep() + bool_rep(e.done), kv_tok_rep(), c);
    lemma_free_of_concat(
        e.text + kv_tok_rep() + bool_rep(e.done) + kv_tok_rep(),
        stamp_rep(e.created_at),
        c,
    );
    lemma_free_of_concat(
        e.text + kv_tok_rep() + bool_rep(e.done) + kv_tok_rep() + stamp_rep(e.created_at),
        kv_tok_rep(),
        c,
    );
    lemma_free_of_concat(
        e.text + kv_tok_rep() + bool_rep(e.done) + kv_tok_rep() + stamp_rep(e.created_at)
            + kv_tok_rep(),
        dec_rep(e.created_at.microsecond as nat),
        c,
    );
}

proof fn lemma_records_free(es: Seq<EntryV>, c: char)
    requires
        forall|i: int| 0 <= i < es.len() ==> wf_entry(#[trigger] es[i]),
        c == '\u{1d}',
    ensures
        free_of(records_rep(es), c),
    decreases es.len(),
{
    lemma_tokens();
    if es.len() > 0 {
        assert(wf_entry(es[0]));
        lemma_record_free(es[0], c);
        assert(forall|i: int|
            0 <= i < es.drop_first().len() ==> wf_entry(#[trigger] es.drop_first()[i]));
        lemma_records_free(es.drop_first(), c);
        lemma_free_of_concat(record_rep(es[0]), entry_tok_rep(), c);
        lemma_free_of_concat(
            record_rep(es[0]) + entry_tok_rep(),
            records_rep(es.drop_first()),
            c,
        );
    }
}

proof fn lemma_parse_record_rt(e: EntryV)
    requires
        wf_entry(e),
    ensures
        parse_record(record_rep(e)) == Option::Some(e),
{
    lemma_tokens();
    reveal_strlit("true");
    reveal_strlit("false");
    let kv = kv_tok_rep();
    let f0 = e.text;
    let f1 = bool_rep(e.done);
    let f2 = stamp_rep(e.created_at);
    let f3 = dec_rep(e.created_at.microsecond as nat);
    lemma_bool_rep_free(e.done, '\u{1f}');
    lemma_stamp_rep_free(e.created_at, '\u{1f}');
    lemma_dec_rep_free(e.created_at.microsecond as nat, '\u{1f}');
    assert(record_rep(e) =~= f0 + kv + (f1 + kv + (f2 + kv + f3)));
    lemma_split_marked(f0, kv, f1 + kv + (f2 + kv + f3));
    lemma_split_marked(f1, kv, f2 + kv + f3);
    lemma_split_marked(f2, kv, f3);
    lemma_split_absent(f3, kv);
    let fs = split_on(record_rep(e), kv);
    assert(fs =~= seq![f0, f1, f2, f3]);
    assert("true"@.len() == 4);
    assert("false"@.len() == 5);
    if e.done {
        assert(fs[1] == bool_rep(true));
    } else {
        assert(fs[1] != bool_rep(true));
        assert(fs[1] == bool_rep(false));
    }
    crate::stamp::lemma_stamp_round_trip(e.created_at);
    lemma_dec_rep(e.created_at.microsecond as nat);
    assert(parse_u32_spec(f3) == Option::Some(e.created_at.microsecond));
    let st = parse_stamp_spec(f2).unwrap();
    assert(Timestamp { microsecond: e.created_at.microsecond, ..st } == e.created_at);
}

#[verifier::rlimit(100)]
proof fn lemma_records_rt(es: Seq<EntryV>)
    requires
        forall|i: int| 0 <= i < es.len() ==> wf_entry(#[trigger] es[i]),
    ensures
        parse_chunks(split_on(records_rep(es), entry_tok_rep())) == es,
    decreases es.len(),
{
    lemma_tokens();
    let etok = entry_tok_rep();
    if es.len() == 0 {
        assert(records_rep(es).len() == 0);
        let chunks = split_on(records_rep(es), etok);
        assert(chunks =~= seq![Seq::<char>::empty()]);
        assert(chunks.drop_first() =~= Seq::<Seq<char>>::empty());
        assert(parse_chunks(Seq::<Seq<char>>::empty()) == Seq::<EntryV>::empty());
        assert(chunks[0].len() == 0);
        assert(parse_chunks(chunks) == parse_chunks(chunks.drop_first()));
        assert(parse_chunks(chunks) =~= es);
    } else {
        let r0 = record_rep(es[0]);
        let z = records_rep(es.drop_first());
        lemma_record_free(es[0], '\u{1e}');
        lemma_split_marked(r0, etok, z);
        assert(records_rep(es) == r0 + etok + z);
        let chunks = split_on(records_rep(es), etok);
        assert(chunks == seq![r0] + split_on(z, etok));
        assert(forall|i: int|
            0 <= i < es.drop_first().len() ==> wf_entry(#[trigger] es.drop_first()[i]));
        lemma_records_rt(es.drop_first());
        assert(r0.len() >= kv_tok_rep().len());
        lemma_parse_record_rt(es[0]);
        assert(chunks[0] == r0);
        assert(chunks.drop_first() =~= split_on(z, etok));
        assert(parse_chunks(chunks) =~= seq![es[0]] + es.drop_first());
        assert(seq![es[0]] + es.drop_first() =~= es);
    }
}

/// Round trip: storing any list of well-formed records and loading the
/// stored text back yields exactly the same ordered sequence of records.
pub proof fn lemma_round_trip(es: Seq<EntryV>)
    requires
        forall|i: int| 0 <= i < es.len() ==> wf_entry(#[trigger] es[i]),
    ensures
        parse_rep(serialize_rep(es)) == es,
{
    lemma_tokens();
    let mark = mark_tok_rep();
    let recs = records_rep(es);
    lemma_split_marked(banner_rep(), mark, recs);
    lemma_records_free(es, '\u{1d}');
    lemma_split_absent(recs, mark);
    let parts = split_on(serialize_rep(es), mark);
    assert(parts =~= seq![banner_rep(), recs]);
    lemma_records_rt(es);
}

#[verifier::rlimit(100)]
proof fn lemma_records_snoc(s: Seq<EntryV>, e: EntryV)
    ensures
        records_rep(s.push(e)) == records_rep(s) + record_rep(e) + entry_tok_rep(),
    decreases s.len(),
{
    if s.len() == 0 {
        assert(s.push(e)[0] == e);
        assert(s.push(e).drop_first() =~= Seq::<EntryV>::empty());
        assert(records_rep(Seq::<EntryV>::empty()) == Seq::<char>::empty());
        assert(records_rep(s.push(e)) == record_rep(e) + entry_tok_rep() + Seq::<char>::empty());
        assert(records_rep(s.push(e)) =~= records_rep(s) + record_rep(e) + entry_tok_rep());
    } else {
        assert(s.push(e).drop_first() =~= s.drop_first().push(e));
        lemma_records_snoc(s.drop_first(), e);
        assert(s.push(e)[0] == s[0]);
        assert(records_rep(s.push(e)) == record_rep(s[0]) + entry_tok_rep() + records_rep(
            s.drop_first().push(e),
        ));
        assert(records_rep(s) == record_rep(s[0]) + entry_tok_rep() + records_rep(s.drop_first()));
        assert(records_rep(s.push(e)) =~= records_rep(s) + record_rep(e) + entry_tok_rep());
    }
}

proof fn lemma_parse_chunks_snoc(cs: Seq<Seq<char>>, c: Seq<char>)
    ensures
        parse_chunks(cs.push(c)) == parse_chunks(cs) + (if c.len() == 0 {
            Seq::<EntryV>::empty()
        } else {
            match parse_record(c) {
                Option::Some(e) => seq![e],
                Option::None => Seq::<EntryV>::empty(),
            }
        }),
    decreases cs.len(),
{
    let tail = if c.len() == 0 {
        Seq::<EntryV>::empty()
    } else {
        match parse_record(c) {
            Option::Some(e) => seq![e],
            Option::None => Seq::<EntryV>::empty(),
        }
    };
    if cs.len() == 0 {
        assert(cs.push(c)[0] == c);
        assert(cs.push(c).drop_first() =~= Seq::<Seq<char>>::empty());
        assert(parse_chunks(Seq::<Seq<char>>::empty()) == Seq::<EntryV>::empty());
        assert(parse_chunks(cs) == Seq::<EntryV>::empty());
        assert(parse_chunks(cs.push(c)) == tail);
        assert(parse_chunks(cs.push(c)) =~= parse_chunks(cs) + tail);
    } else {
        assert(cs.push(c).drop_first() =~= cs.drop_first().push(c));
        lemma_parse_chunks_snoc(cs.drop_first(), c);
        assert(cs.push(c)[0] == cs[0]);
        let rest = parse_chunks(cs.drop_first());
        if cs[0].len() == 0 {
            assert(parse_chunks(cs) == rest);
            assert(parse_chunks(cs.push(c)) == parse_chunks(cs.drop_first().push(c)));
            assert(parse_chunks(cs.push(c)) =~= parse_chunks(cs) + tail);
        } else {
            match parse_record(cs[0]) {
                Option::Some(e) => {
                    assert(parse_chunks(cs) == seq![e] + rest);
                    assert(parse_chunks(cs.push(c)) == seq![e] + parse_chunks(
                        cs.drop_first().push(c),
                    ));
                    assert(parse_chunks(cs.push(c)) =~= parse_chunks(cs) + tail);
                },
                Option::None => {
                    assert(parse_chunks(cs) == rest);
                    assert(parse_chunks(cs.push(c)) == parse_chunks(cs.drop_first().push(c)));
                    assert(parse_chunks(cs.push(c)) =~= parse_chunks(cs) + tail);
                },
            }
        }
    }
}

/// Parse one record chunk.
fn parse_record_exec(chunk: &str) -> (r: Option<Entry>)
    ensures
        match r {
            Some(e) => parse_record(chunk@) == Option::Some(e.deep_view())
                && e.created_at.valid(),
            None => parse_record(chunk@) is None,
        },
{
    let fields = crate::strutil::split_str(chunk, kv_tok());
    proof {
        assert(fields.deep_view().len() == fields@.len());
    }
    if fields.len() != 4 {
        return None;
    }
    proof {
        assert(fields.deep_view()[0] == fields@[0]@);
        assert(fields.deep_view()[1] == fields@[1]@);
        assert(fields.deep_view()[2] == fields@[2]@);
        assert(fields.deep_view()[3] == fields@[3]@);
    }
    let done: Option<bool> = if crate::strutil::str_eq(fields[1].as_str(), "true") {
        Some(true)
    } else if crate::strutil::str_eq(fields[1].as_str(), "false") {
        Some(false)
    } else {
        None
    };
    let st = crate::stamp::parse_stamp(fields[2].as_str());
    let micro = crate::strutil::parse_u32(fields[3].as_str());
    match (done, st, micro) {
        (Some(d), Some(stv), Some(m)) => {
            if m < 1000000 {
                let text = fields[0].clone();
                let e = Entry { text, done: d, created_at: Timestamp { microsecond: m, ..stv } };
                proof {
                    assert(parse_record(chunk@) == Option::Some(e.deep_view()));
                }
                Some(e)
            } else {
                None
            }
        },
        _ => None,
    }
}

/// Render one record: the four fields joined by the key-value separator.
fn record_string(e: &Entry) -> (r: String)
    requires
        e.created_at.valid(),
    ensures
        r@ == record_rep(e@),
{
    let mut r = String::new();
    r.append(e.text.as_str());
    r.append(kv_tok());
    if e.done {
        r.append("true");
    } else {
        r.append("false");
    }
    r.append(kv_tok());
    let st = crate::stamp::fmt_stamp(&e.created_at);
    r.append(st.as_str());
    r.append(kv_tok());
    let micro = crate::strutil::u32_to_dec(e.created_at.microsecond);
    r.append(micro.as_str());
    proof {
        assert(r@ =~= record_rep(e@));
    }
    r
}

/// Store a list as the full text of its database file.
pub fn serialize(entries: &Vec<Entry>) -> (r: String)
    requires
        forall|i: int|
            0 <= i < entries.deep_view().len() ==> (#[trigger] entries.deep_view()[i]).created_at.valid(),
    ensures
        r@ == serialize_rep(entries.deep_view()),
{
    let ghost dv = entries.deep_view();
    let mut r = String::new();
    r.append(banner_text());
    r.append(mark_tok());
    let mut i: usize = 0;
    proof {
        assert(dv.take(0) =~= Seq::<EntryV>::empty());
        assert(r@ =~= banner_rep() + mark_tok_rep() + records_rep(dv.take(0)));
    }
    while i < entries.len()
        invariant
            0 <= i <= entries.len(),
            dv == entries.deep_view(),
            dv.len() == entries@.len(),
            forall|k: int| 0 <= k < dv.len() ==> (#[trigger] dv[k]).created_at.valid(),
            r@ == banner_rep() + mark_tok_rep() + records_rep(dv.take(i as int)),
        decreases entries.len() - i,
    {
        let e = &entries[i];
        proof {
            assert(dv[i as int] == entries@[i as int].deep_view());
            assert(e@.created_at.valid());
        }
        let rec = record_string(e);
        r.append(rec.as_str());
        r.append(entry_tok());
        proof {
            lemma_records_snoc(dv.take(i as int), dv[i as int]);
            assert(dv.take(i + 1) =~= dv.take(i as int).push(dv[i as int]));
            assert(r@ =~= banner_rep() + mark_tok_rep() + records_rep(dv.take(i + 1)));
        }
        i = i + 1;
    }
    proof {
        assert(dv.take(dv.len() as int) =~= dv);
    }
    r
}

/// Load a list from the full text of its database file: take what follows
/// the first start marker (or everything, when no marker is present), cut
/// it into record chunks, and keep each chunk that parses; empty chunks and
/// corrupted chunks are skipped.
pub fn parse_content(s: &str) -> (entries: Vec<Entry>)
    ensures
        entries.deep_view() == parse_rep(s@),
        forall|i: int|
            0 <= i < entries.deep_view().len() ==> (#[trigger] entries.deep_view()[i]).created_at.valid(),
{
    let parts = crate::strutil::split_str(s, mark_tok());
    proof {
        crate::strutil::lemma_split_on_len(s@, mark_tok_rep());
        assert(parts.deep_view().len() == parts@.len());
    }
    let body: &String = if parts.len() >= 2 {
        &parts[1]
    } else {
        &parts[0]
    };
    proof {
        assert(body@ == (if parts.deep_view().len() >= 2 {
            parts.deep_view()[1]
        } else {
            parts.deep_view()[0]
        }));
    }
    let chunks = crate::strutil::split_str(body.as_str(), entry_tok());
    let ghost cdv = chunks.deep_view();
    proof {
        assert(cdv.len() == chunks@.len());
        assert(parse_rep(s@) == parse_chunks(cdv));
    }
    let mut out: Vec<Entry> = Vec::new();
    let mut i: usize = 0;
    proof {
        assert(cdv.take(0) =~= Seq::<Seq<char>>::empty());
        assert(out.deep_view() =~= parse_chunks(cdv.take(0)));
    }
    while i < chunks.len()
        invariant
            0 <= i <= chunks.len(),
            cdv == chunks.deep_view(),
            cdv.len() == chunks@.len(),
            out.deep_view() == parse_chunks(cdv.take(i as int)),
            forall|k: int|
                0 <= k < out.deep_view().len() ==> (#[trigger] out.deep_view()[k]).created_at.valid(),
        decreases chunks.len() - i,
    {
        let chunk = &chunks[i];
        proof {
            assert(cdv[i as int] == chunks@[i as int]@);
        }
        if chunk.as_str().unicode_len() > 0 {
            match parse_record_exec(chunk.as_str()) {
                Some(e) => {
                    out.push(e);
                },
                None => {},
            }
        }
        proof {
            lemma_parse_chunks_snoc(cdv.take(i as int), cdv[i as int]);
            assert(cdv.take(i + 1) =~= cdv.take(i as int).push(cdv[i as int]));
            assert(out.deep_view() =~= parse_chunks(cdv.take(i + 1)));
        }
        i = i + 1;
    }
    proof {
        assert(cdv.take(cdv.len() as int) =~= cdv);
    }
    out
}

} // verus!
