use d_td::codec::{entry_tok, kv_tok, mark_tok, serialize};
use d_td::engine::ToDo;
use d_td::entry::Entry;
use d_td::stamp::{fmt_stamp, Timestamp};

fn stamp(micro: u32) -> Timestamp {
    Timestamp {
        year: 2024,
        month: 5,
        day: 1,
        hour: 10,
        minute: 20,
        second: 30,
        microsecond: micro,
    }
}

fn entry(text: &str, done: bool, micro: u32) -> Entry {
    let mut e = Entry::new(text.to_string(), stamp(micro));
    e.done = done;
    e
}

#[test]
fn save_then_load_round_trips() {
    let entries = vec![
        entry("buy milk", false, 123456),
        entry("write tests", true, 0),
        entry("", false, 999999),
        entry("unicode: grüße ∀x", true, 42),
    ];
    let t = ToDo { entries };
    let saved = t.save();
    let loaded = ToDo::new(saved.as_str());
    assert_eq!(loaded.entries.len(), 4);
    for (a, b) in t.entries.iter().zip(loaded.entries.iter()) {
        assert_eq!(a.text, b.text);
        assert_eq!(a.done, b.done);
        assert_eq!(a.created_at, b.created_at);
    }
}

#[test]
fn round_trip_of_empty_list() {
    let t = ToDo { entries: Vec::new() };
    let saved = t.save();
    let loaded = ToDo::new(saved.as_str());
    assert_eq!(loaded.entries.len(), 0);
}

#[test]
fn timestamp_renders_fixed_offset_second_precision() {
    assert_eq!(fmt_stamp(&stamp(0)), "2024-05-01T10:20:30+00:00".to_string());
    let t = Timestamp { year: 7, month: 12, day: 31, hour: 0, minute: 0, second: 0, microsecond: 0 };
    assert_eq!(fmt_stamp(&t), "0007-12-31T00:00:00+00:00".to_string());
}

#[test]
fn corrupted_record_is_skipped_not_fatal() {
    let kv = kv_tok();
    let sep = entry_tok();
    let good = format!("task one{kv}true{kv}2024-05-01T10:20:30+00:00{kv}77");
    let missing_field = format!("task two{kv}false{kv}2024-05-01T10:20:30+00:00");
    let content = format!("{good}{sep}{missing_field}{sep}");
    let loaded = ToDo::new(content.as_str());
    assert_eq!(loaded.entries.len(), 1);
    assert_eq!(loaded.entries[0].text, "task one".to_string());
    assert!(loaded.entries[0].done);
    assert_eq!(loaded.entries[0].created_at.microsecond, 77);
}

#[test]
fn bad_flag_timestamp_or_fraction_skips_only_that_record() {
    let kv = kv_tok();
    let sep = entry_tok();
    let good = format!("keep{kv}false{kv}2024-05-01T10:20:30+00:00{kv}0");
    let bad_flag = format!("a{kv}maybe{kv}2024-05-01T10:20:30+00:00{kv}0");
    let bad_stamp = format!("b{kv}true{kv}2024-13-01T10:20:30+00:00{kv}0");
    let bad_micro = format!("c{kv}true{kv}2024-05-01T10:20:30+00:00{kv}12x");
    let big_micro = format!("d{kv}true{kv}2024-05-01T10:20:30+00:00{kv}1000000");
    let content =
        format!("{bad_flag}{sep}{good}{sep}{bad_stamp}{sep}{bad_micro}{sep}{big_micro}{sep}");
    let loaded = ToDo::new(content.as_str());
    assert_eq!(loaded.entries.len(), 1);
    assert_eq!(loaded.entries[0].text, "keep".to_string());
}

#[test]
fn content_before_start_marker_is_ignored() {
    let kv = kv_tok();
    let sep = entry_tok();
    let mark = mark_tok();
    let rec = format!("real{kv}false{kv}2024-05-01T10:20:30+00:00{kv}5");
    let content = format!("any banner text at all\n{mark}{rec}{sep}");
    let loaded = ToDo::new(content.as_str());
    assert_eq!(loaded.entries.len(), 1);
    assert_eq!(loaded.entries[0].text, "real".to_string());
}

#[test]
fn content_without_marker_is_parsed_whole() {
    let kv = kv_tok();
    let sep = entry_tok();
    let rec = format!("plain{kv}true{kv}2024-05-01T10:20:30+00:00{kv}1");
    let content = format!("{rec}{sep}");
    let loaded = ToDo::new(content.as_str());
    assert_eq!(loaded.entries.len(), 1);
    assert_eq!(loaded.entries[0].text, "plain".to_string());
}

#[test]
fn empty_file_loads_empty_list() {
    let loaded = ToDo::new("");
    assert_eq!(loaded.entries.len(), 0);
}

#[test]
fn saved_file_begins_with_banner_and_marker() {
    let t = ToDo { entries: vec![entry("x", false, 0)] };
    let saved = t.save();
    assert!(saved.starts_with(d_td::codec::banner_text()));
    assert!(saved[d_td::codec::banner_text().len()..].starts_with(mark_tok()));
}

#[test]
fn decimal_rendering_and_parsing() {
    assert_eq!(d_td::strutil::u32_to_dec(0), "0".to_string());
    assert_eq!(d_td::strutil::u32_to_dec(456), "456".to_string());
    assert_eq!(d_td::strutil::u32_to_dec(u32::MAX), "4294967295".to_string());
    assert_eq!(d_td::strutil::parse_u32("456"), Some(456));
    assert_eq!(d_td::strutil::parse_u32(""), None);
    assert_eq!(d_td::strutil::parse_u32("12a"), None);
    assert_eq!(d_td::strutil::parse_u32("4294967295"), Some(u32::MAX));
    assert_eq!(d_td::strutil::parse_u32("4294967296"), None);
}

#[test]
fn lowercasing_feeds_the_non_strict_order() {
    // Would fail if the lowercasing step handed its argument back
    // unchanged: "B" (66) sorts before "a" (97) raw, after it lowercased.
    let mut t = ToDo { entries: vec![entry("B", false, 0), entry("a", false, 0)] };
    t.order_alpha(false, false);
    assert_eq!(t.entries[0].text, "a".to_string());
    assert_eq!(t.entries[1].text, "B".to_string());
}

#[test]
fn serialize_uses_plain_fields() {
    let t = ToDo { entries: vec![entry("todo", true, 9)] };
    let saved = serialize(&t.entries);
    let kv = kv_tok();
    let expected_rec = format!("todo{kv}true{kv}2024-05-01T10:20:30+00:00{kv}9");
    assert!(saved.contains(&expected_rec));
}
