//! Exact values, edge cases, and the errors.

use contextor::calendar::{
    days_to_ymd, format_iso8601, format_unix_secs, is_leap, now_f64, now_iso8601,
};
use contextor::codec::{decode_vector, encode_vector};
use contextor::command::{
    default_limit, default_max_per_theme, default_memento_limit, default_retention_days,
    default_sessions_limit, default_top_k, dispatch, draw, Command, Draw, Reply, Step,
};
use contextor::ids::{generate_entry_id, generate_session_id, session_id_from};
use contextor::index::VectorIndex;
use contextor::json::{metadata_from_text, metadata_to_text};
use contextor::numbers::{double_lt, double_order, double_to_whole, single_ge, single_order};
use contextor::startup::{
    migrate, open_or_recover, resolve_storage_path, Migration, Probe, Root, Verdict,
};
use contextor::store::{load_index, Outcome, Store};
use contextor::tables::{Entry, Memento, Session};
use contextor::text::{push_decimal, push_padded, same_text, text_not_after};
use serde_json::{Number, Value};

fn temp_store() -> Store {
    Store::open(Vec::new(), Vec::new(), Vec::new(), "/tmp/test".to_string())
}

fn bits(v: &[f32]) -> Vec<u32> {
    v.iter().map(|x| x.to_bits()).collect()
}

fn entry(id: &str, theme: &str, content: &str, at: f64, session: Option<&str>) -> Entry {
    Entry {
        id: id.to_string(),
        theme: theme.to_string(),
        content: content.to_string(),
        vector: encode_vector(&bits(&[1.0, 0.0])),
        stored_at: at.to_bits(),
        metadata: None,
        session_id: session.map(str::to_string),
    }
}

fn memento(id: &str, content: &str, archived_at: f64) -> Memento {
    Memento {
        id: id.to_string(),
        theme: "t".to_string(),
        content: content.to_string(),
        vector: Vec::new(),
        stored_at: 0.0_f64.to_bits(),
        archived_at: archived_at.to_bits(),
        metadata: None,
        session_id: None,
    }
}

fn session(id: &str, updated_at: &str) -> Session {
    Session {
        id: id.to_string(),
        title: "title".to_string(),
        created_at: "2025-01-01T00:00:00Z".to_string(),
        updated_at: updated_at.to_string(),
        message_count: 0,
        rolling_summary: String::new(),
    }
}

fn with_entries(entries: Vec<Entry>) -> Store {
    Store::open(entries, Vec::new(), Vec::new(), "/tmp/test".to_string())
}

fn some_draw() -> Draw {
    Draw {
        entry_id: "e-1".to_string(),
        session_id: "5e551011".to_string(),
        archived_at: 20.0_f64.to_bits(),
        stored_at: 30.0_f64.to_bits(),
        now: "2025-01-15T10:16:40Z".to_string(),
    }
}

#[test]
fn defaults() {
    assert_eq!(default_limit(), 20);
    assert_eq!(default_top_k(), 5);
    assert_eq!(default_retention_days(), 90);
    assert_eq!(default_max_per_theme(), 500);
    assert_eq!(default_sessions_limit(), 50);
    assert_eq!(default_memento_limit(), 5);
}

#[test]
fn leap_years() {
    assert!(is_leap(2024));
    assert!(is_leap(2000));
    assert!(!is_leap(1900));
    assert!(!is_leap(2025));
}

#[test]
fn dates_of_days() {
    assert_eq!(days_to_ymd(0), (1970, 1, 1));
    assert_eq!(days_to_ymd(58), (1970, 2, 28));
    assert_eq!(days_to_ymd(59), (1970, 3, 1));
    assert_eq!(days_to_ymd(364), (1970, 12, 31));
    assert_eq!(days_to_ymd(365), (1971, 1, 1));
    assert_eq!(days_to_ymd(11_016), (2000, 2, 29));
    assert_eq!(days_to_ymd(20_103), (2025, 1, 15));
    assert_eq!(days_to_ymd(146_097), (2370, 1, 1));
}

#[test]
fn written_times() {
    assert_eq!(format_iso8601(1_736_936_200), "2025-01-15T10:16:40Z");
    assert_eq!(format_iso8601(951_782_399), "2000-02-28T23:59:59Z");
    assert_eq!(format_unix_secs(253_402_300_800), "10000-01-01 00:00:00");
    let now = f64::from_bits(now_f64());
    assert!(now > 1_700_000_000.0);
    assert!(now_iso8601() > format_iso8601(1_700_000_000));
}

#[test]
fn written_times_keep_order() {
    let times = [0, 59, 60, 3_599, 86_399, 86_400, 5_097_599, 1_736_936_200, 253_402_300_799];
    for i in 1..times.len() {
        assert!(format_iso8601(times[i - 1]) < format_iso8601(times[i]));
    }
}

#[test]
fn decimals() {
    let mut s = String::from("x");
    push_decimal(&mut s, 0);
    push_decimal(&mut s, 10_203);
    push_padded(&mut s, 7, 2);
    push_padded(&mut s, 12_345, 4);
    assert_eq!(s, "x0102030712345");
}

#[test]
fn text_order_is_that_of_bytes() {
    assert!(text_not_after("", "a"));
    assert!(text_not_after("a", "ab"));
    assert!(!text_not_after("b", "ab"));
    assert!(text_not_after("Z", "a"));
    assert!(text_not_after("z", "\u{e9}"));
    assert!(same_text("\u{e9}", "\u{e9}"));
    assert!(!same_text("e", "\u{e9}"));
}

#[test]
fn vectors_as_bytes() {
    assert_eq!(encode_vector(&bits(&[1.0_f32])), vec![0x00, 0x00, 0x80, 0x3f]);
    assert_eq!(decode_vector(&vec![0x00, 0x00, 0x80, 0x3f]), bits(&[1.0_f32]));
    assert_eq!(decode_vector(&vec![0x00, 0x00, 0x80, 0x3f, 0x01]), bits(&[1.0_f32]));
    let v = bits(&[0.1, -2.5, f32::MAX, 0.0]);
    assert_eq!(decode_vector(&encode_vector(&v)), v);
}

#[test]
fn numbers_by_their_bits() {
    let values = [f32::NEG_INFINITY, -2.0, -0.0, 0.0, 1.0e-40, 0.5, 3.0, f32::INFINITY];
    for a in values {
        for b in values {
            assert_eq!(single_ge(a.to_bits(), b.to_bits()), a >= b);
            assert_eq!(single_order(a.to_bits()) >= single_order(b.to_bits()), a >= b);
            let (x, y) = (a as f64, b as f64);
            assert_eq!(double_lt(x.to_bits(), y.to_bits()), x < y);
            assert_eq!(double_order(x.to_bits()) < double_order(y.to_bits()), x < y);
        }
    }
    assert!(!single_ge(f32::NAN.to_bits(), 0.0_f32.to_bits()));
    assert!(!single_ge(0.0_f32.to_bits(), f32::NAN.to_bits()));
    assert!(!double_lt(f64::NAN.to_bits(), 0.0_f64.to_bits()));
    assert!(!double_lt(0.0_f64.to_bits(), f64::NAN.to_bits()));
}

#[test]
fn whole_part_of_times() {
    let times = [
        0.0,
        0.999,
        1.0,
        1.5,
        1_736_936_200.75,
        4_503_599_627_370_497.0,
        9.0e15,
        1.8e19,
        1.0e300,
        f64::INFINITY,
        f64::NAN,
        -1.0,
        -0.0,
        5.0e-324,
    ];
    for t in times {
        assert_eq!(double_to_whole(t.to_bits()), t as u64);
    }
}

#[test]
fn metadata_as_text() {
    let mut map = serde_json::Map::new();
    map.insert("k".to_string(), Value::Array(vec![Value::Bool(true), Value::Null]));
    map.insert("n".to_string(), Value::Number(Number::from(7)));
    let value = Value::Object(map);
    let text = metadata_to_text(&Some(value.clone()));
    assert_eq!(text, Some("{\"k\":[true,null],\"n\":7}".to_string()));
    assert_eq!(metadata_from_text(&text), Some(value));
    assert_eq!(metadata_to_text(&None), None);
    assert_eq!(metadata_from_text(&None), None);
    assert_eq!(metadata_from_text(&Some("not json".to_string())), None);
    assert_eq!(metadata_from_text(&Some(" null ".to_string())), Some(Value::Null));
}

#[test]
fn identifiers() {
    let id = generate_entry_id();
    assert_eq!(id.len(), 36);
    for (i, c) in id.chars().enumerate() {
        if i == 8 || i == 13 || i == 18 || i == 23 {
            assert_eq!(c, '-');
        } else {
            assert!(c.is_ascii_digit() || ('a'..='f').contains(&c));
        }
    }
    assert_eq!(id.chars().nth(14), Some('4'));
    assert_ne!(id, generate_entry_id());
    let sid = generate_session_id();
    assert_eq!(sid.len(), 8);
    assert!(sid.chars().all(|c| c.is_ascii_digit() || ('a'..='f').contains(&c)));
    assert_eq!(session_id_from("0123456789ab4def8123456789abcdef"), "01234567");
}

#[test]
fn store_rejects_empty_vector() {
    let mut s = temp_store();
    let error = s.cmd_store("t", "c", Vec::new(), None, None).err().unwrap();
    assert_eq!(error, "dimension mismatch: the vector is empty");
    assert_eq!(s.entries.len(), 0);
    assert_eq!(s.index.len(), 0);
}

#[test]
fn store_rejects_other_dimension() {
    let mut s = temp_store();
    assert!(s.cmd_store("t", "c", bits(&[1.0, 2.0]), None, None).is_ok());
    let error = s.cmd_store("t", "c", bits(&[1.0, 2.0, 3.0]), None, None).err().unwrap();
    assert!(error.starts_with("dimension mismatch: "));
    assert_eq!(
        error,
        "dimension mismatch: the index has dimension 2, the vector has dimension 3"
    );
    assert_eq!(s.entries.len(), 1);
    s.cmd_delete("t");
    assert!(s.cmd_store("t", "c", bits(&[1.0, 2.0, 3.0]), None, None).is_ok());
}

#[test]
fn store_rejects_taken_id() {
    let s = with_entries(vec![entry("e-1", "t", "c", 1.0, None)]);
    let error = s
        .plan_store(
            "t",
            "c",
            &bits(&[1.0, 2.0]),
            &None,
            None,
            "e-1".to_string(),
            0,
            String::new(),
        )
        .err()
        .unwrap();
    assert_eq!(error, "UNIQUE constraint failed: entries.id");
}

#[test]
fn store_writes_the_row() {
    let mut s = temp_store();
    let cmd = Command::Store {
        theme: "t".to_string(),
        content: "c".to_string(),
        vector: bits(&[1.0]),
        metadata: Some(Value::String("m".to_string())),
        session_id: Some("s".to_string()),
    };
    match s.plan(cmd, some_draw()) {
        Step::Write(plan, reply) => {
            let reply = s.finish(plan, reply, Outcome::Done);
            assert!(matches!(reply, Reply::Stored(r) if r.theme == "t"));
        }
        Step::Answer(_) => panic!("nothing to write"),
    }
    let e = &s.entries[0];
    assert_eq!(e.id, "e-1");
    assert_eq!(e.theme, "t");
    assert_eq!(e.content, "c");
    assert_eq!(e.vector, vec![0x00, 0x00, 0x80, 0x3f]);
    assert_eq!(f64::from_bits(e.stored_at), 30.0);
    assert_eq!(e.metadata, Some("\"m\"".to_string()));
    assert_eq!(e.session_id, Some("s".to_string()));
    assert_eq!(*s.index.vector(0), bits(&[1.0]));
    let recalled = s.cmd_recall("t", 1, None);
    assert_eq!(recalled.entries[0].metadata, Some(Value::String("m".to_string())));
}

#[test]
fn plan_that_failed_changes_nothing() {
    let mut s = with_entries(vec![entry("a", "t", "c", 1.0, None)]);
    let (plan, _) = s.plan_delete("t");
    let r = s.settle(plan, Outcome::Failed("disk full".to_string()));
    assert_eq!(r, Err("disk full".to_string()));
    assert_eq!(s.entries.len(), 1);
    assert_eq!(s.index.len(), 1);
    let (plan, reply) = s.plan_delete("t");
    let r = s.finish(plan, Reply::Deleted(reply), Outcome::Failed("locked".to_string()));
    assert!(matches!(r, Reply::Failed(reason) if reason == "locked"));
}

#[test]
fn prune_that_stopped_keeps_what_was_done() {
    let rows = || {
        vec![
            entry("1", "t", "old", 0.0, None),
            entry("2", "t", "t 5", 5.0, None),
            entry("3", "u", "u 5", 5.0, None),
            entry("4", "t", "t 6", 6.0, None),
            entry("5", "u", "u 6", 6.0, None),
        ]
    };
    let stopped = |done: usize| -> Vec<String> {
        let mut s = with_entries(rows());
        let (plan, reply) = s.plan_prune(1.0_f64.to_bits(), 1);
        assert_eq!(plan.parts, Some(vec![0, 2, 3, 2, 3]));
        assert_eq!(plan.keep, vec![false, false, false, true, true]);
        let r = s.finish(plan, Reply::Pruned(reply), Outcome::Stopped(done, "io".to_string()));
        assert!(matches!(r, Reply::Failed(reason) if reason == "io"));
        assert_eq!(s.index.len(), 5);
        s.entries.into_iter().map(|e| e.content).collect()
    };
    assert_eq!(stopped(0), vec!["old", "t 5", "u 5", "t 6", "u 6"]);
    assert_eq!(stopped(1), vec!["t 5", "u 5", "t 6", "u 6"]);
    assert_eq!(stopped(3), vec!["u 5", "t 6", "u 6"]);
    assert_eq!(stopped(4), vec!["t 6", "u 6"]);
}

#[test]
fn session_deletion_that_stopped_keeps_the_session() {
    let mut s = with_entries(vec![
        entry("1", "t", "mine", 1.0, Some("a")),
        entry("2", "t", "global", 2.0, None),
    ]);
    s.sessions.push(session("a", "2025"));
    let (plan, _) = s.plan_delete_session("a");
    assert_eq!(plan.parts, Some(vec![0, 0]));
    let r = s.settle(plan, Outcome::Stopped(1, "io".to_string()));
    assert_eq!(r, Err("io".to_string()));
    assert_eq!(s.entries.len(), 1);
    assert!(s.cmd_get_session("a").is_ok());
    assert_eq!(s.index.len(), 2);
    assert_eq!(s.cmd_reindex().indexed, 1);
}

#[test]
fn session_not_written_keeps_entry() {
    let mut s = temp_store();
    s.sessions.push(session("s", "2025"));
    let (plan, _) = s
        .plan_store(
            "t",
            "c",
            &bits(&[1.0]),
            &None,
            Some("s"),
            "id".to_string(),
            0,
            "2026".to_string(),
        )
        .unwrap();
    assert!(s.settle(plan, Outcome::SessionNotWritten).is_ok());
    assert_eq!(s.entries.len(), 1);
    assert_eq!(s.sessions[0].message_count, 0);
    assert_eq!(s.sessions[0].updated_at, "2025");
    assert_eq!(s.index.len(), 1);
}

#[test]
fn recall_returns_latest_oldest_first() {
    let s = with_entries(vec![
        entry("1", "t", "third", 3.0, None),
        entry("2", "t", "first", 1.0, None),
        entry("3", "t", "second", 2.0, None),
        entry("4", "u", "elsewhere", 9.0, None),
        entry("5", "t", "third, later", 3.0, None),
    ]);
    let contents = |limit: usize| -> Vec<String> {
        s.cmd_recall("t", limit, None).entries.into_iter().map(|e| e.content).collect()
    };
    assert_eq!(contents(2), vec!["third", "third, later"]);
    assert_eq!(contents(3), vec!["second", "third", "third, later"]);
    assert_eq!(contents(9), vec!["first", "second", "third", "third, later"]);
    assert!(contents(0).is_empty());
    assert!(!s.cmd_recall("t", 0, None).found);
    assert_eq!(f64::from_bits(s.cmd_recall("u", 1, None).entries[0].stored_at), 9.0);
}

#[test]
fn search_orders_and_pages() {
    let s = with_entries(vec![
        entry("a", "t", "low", 1.0, None),
        entry("b", "t", "high", 2.0, None),
        entry("c", "u", "middle", 3.0, None),
        entry("d", "t", "no number", 4.0, None),
    ]);
    let scores = bits(&[0.2, 0.9, 0.5, f32::NAN]);
    let found = |top_k: usize, offset: usize, min: f32, theme: Option<&str>| -> Vec<String> {
        s.cmd_search(&scores, top_k, offset, min.to_bits(), theme, None)
            .unwrap()
            .results
            .into_iter()
            .map(|f| f.content)
            .collect()
    };
    assert_eq!(found(9, 0, -1.0, None), vec!["high", "middle", "low"]);
    assert_eq!(found(2, 0, -1.0, None), vec!["high", "middle"]);
    assert_eq!(found(2, 2, -1.0, None), vec!["low"]);
    assert_eq!(found(2, 9, -1.0, None), Vec::<String>::new());
    assert_eq!(found(9, 0, 0.5, None), vec!["high", "middle"]);
    assert_eq!(found(9, 0, -1.0, Some("t")), vec!["high", "low"]);
    let r = s.cmd_search(&scores, 1, 0, 0.0_f32.to_bits(), None, None).unwrap();
    assert_eq!(f32::from_bits(r.results[0].score), 0.9);
    assert_eq!(f64::from_bits(r.results[0].stored_at), 2.0);
    assert_eq!(r.results[0].theme, "t");
}

#[test]
fn search_refuses_too_many_hits() {
    let mut s = temp_store();
    let mut scores = Vec::new();
    for i in 0..32_767 {
        s.index.push(format!("{i}"), "t".into(), bits(&[1.0]), None);
        scores.push(0.5_f32.to_bits());
    }
    let search = |top_k: usize| s.cmd_search(&scores, top_k, 0, 0.0_f32.to_bits(), None, None);
    assert_eq!(search(40_000).err(), Some("too many SQL variables".to_string()));
    assert_eq!(search(32_767).err(), Some("too many SQL variables".to_string()));
    assert!(search(10).is_ok());
}

#[test]
fn search_passes_over_missing_rows() {
    let mut s = with_entries(vec![entry("a", "t", "there", 1.0, None)]);
    s.index.push("gone".into(), "t".into(), bits(&[1.0, 0.0]), None);
    s.index.push("a".into(), "t".into(), bits(&[1.0, 0.0]), None);
    let r = s.cmd_search(&bits(&[0.5, 0.9, 0.7]), 9, 0, 0.0_f32.to_bits(), None, None).unwrap();
    assert_eq!(r.results.len(), 1);
    assert_eq!(r.results[0].content, "there");
    assert_eq!(f32::from_bits(r.results[0].score), 0.7);
}

#[test]
fn index_is_loaded_in_order_of_time() {
    let entries = vec![entry("late", "t", "c", 2.0, None), entry("early", "t", "c", 1.0, None)];
    let mut early = entry("third", "t", "c", 3.0, None);
    early.vector = encode_vector(&bits(&[1.0]));
    let index = load_index(&entries);
    assert_eq!(index.len(), 2);
    assert_eq!(index.dim(), 2);
    let s = with_entries(vec![entry("late", "t", "c", 4.0, None), early]);
    assert_eq!(s.index.dim(), 1);
}

#[test]
fn index_removes_and_counts() {
    let mut index = VectorIndex::new();
    assert_eq!(index.dim(), 0);
    assert!(index.histogram().is_empty());
    index.push("a".into(), "t".into(), bits(&[1.0, 2.0]), Some("s".into()));
    index.push("b".into(), "u".into(), bits(&[1.0]), None);
    index.push("c".into(), "u".into(), bits(&[1.0, 2.0]), Some("r".into()));
    let counts: Vec<(usize, usize)> =
        index.histogram().iter().map(|c| (c.dimension, c.count)).collect();
    assert_eq!(counts, vec![(1, 1), (2, 2)]);
    index.remove_active("t", None);
    assert_eq!(index.len(), 3);
    index.push("d".into(), "t".into(), bits(&[1.0, 2.0]), None);
    index.remove_active("t", None);
    assert_eq!(index.len(), 3);
    index.remove_session("s");
    assert_eq!(index.len(), 2);
    index.remove_theme("u");
    assert_eq!(index.len(), 0);
}

#[test]
fn list_groups_by_theme() {
    let s = with_entries(vec![
        entry("1", "b", "c", 1_736_936_200.9, None),
        entry("2", "a", "c", 5.0, Some("s")),
        entry("3", "b", "c", 3.0, Some("r")),
    ]);
    let all = s.cmd_list(None).themes;
    assert_eq!(all.len(), 2);
    assert_eq!((all[0].theme.as_str(), all[0].entries), ("a", 1));
    assert_eq!(all[0].last_modified, "1970-01-01 00:00:05");
    assert_eq!((all[1].theme.as_str(), all[1].entries), ("b", 2));
    assert_eq!(all[1].last_modified, "2025-01-15 10:16:40");
    let scoped = s.cmd_list(Some("r")).themes;
    assert_eq!(scoped.len(), 1);
    assert_eq!((scoped[0].theme.as_str(), scoped[0].entries), ("b", 2));
    assert_eq!(s.cmd_list(Some("s")).themes[1].entries, 1);
    assert!(temp_store().cmd_list(None).themes.is_empty());
}

#[test]
fn status_counts() {
    let s = with_entries(vec![
        entry("1", "b", "c", 1.0, None),
        entry("2", "a", "c", 2.0, Some("s")),
        entry("3", "b", "c", 3.0, None),
    ]);
    let r = s.cmd_status();
    assert_eq!(r.total_entries, 3);
    assert_eq!(r.themes, 2);
    assert_eq!(r.vector_dimensions, 2);
    assert_eq!(r.dimension_histogram.len(), 1);
    assert_eq!(r.dimension_histogram[0].dimension, 2);
    assert_eq!(r.dimension_histogram[0].count, 3);
    assert_eq!(r.storage_path, "/tmp/test");
    assert_eq!(temp_store().cmd_status().vector_dimensions, 0);
}

#[test]
fn delete_tells_whether_there_was_something() {
    let mut s = with_entries(vec![entry("1", "t", "c", 1.0, None)]);
    assert!(!s.cmd_delete("other").deleted);
    assert!(s.cmd_delete("t").deleted);
    assert!(!s.cmd_delete("t").deleted);
    assert_eq!(s.cmd_delete("t").theme, "t");
}

#[test]
fn prune_keeps_latest_of_each_bucket() {
    let mut s = with_entries(vec![
        entry("1", "t", "global 5", 5.0, None),
        entry("2", "t", "global 3", 3.0, None),
        entry("3", "t", "global 3, later", 3.0, None),
        entry("4", "t", "global 0", 0.0, None),
        entry("5", "t", "session 1", 1.0, Some("s")),
        entry("6", "t", "session 2", 2.0, Some("s")),
        entry("7", "t", "session 0", 0.0, Some("s")),
        entry("8", "u", "other 1", 1.0, None),
    ]);
    let r = s.cmd_prune(1.0_f64.to_bits(), 2);
    assert_eq!(r.pruned, 3);
    let left: Vec<&str> = s.entries.iter().map(|e| e.content.as_str()).collect();
    assert_eq!(left, vec!["global 5", "global 3, later", "session 1", "session 2", "other 1"]);
    assert_eq!(s.index.len(), 5);
    assert_eq!(s.cmd_prune(1.0_f64.to_bits(), 2).pruned, 0);
    assert_eq!(s.cmd_prune(0.0_f64.to_bits(), 0).pruned, 5);
}

#[test]
fn prune_without_effect_keeps_index() {
    let mut s = with_entries(vec![entry("1", "t", "c", 5.0, None)]);
    s.index.push("extra".into(), "t".into(), bits(&[1.0, 0.0]), None);
    assert_eq!(s.cmd_prune(1.0_f64.to_bits(), 2).pruned, 0);
    assert_eq!(s.index.len(), 2);
    assert_eq!(s.cmd_reindex().indexed, 1);
    assert_eq!(s.index.len(), 1);
}

#[test]
fn replace_archives_and_peek_shows() {
    let mut s = temp_store();
    let v = bits(&[1.0, 0.0]);
    let r = s.cmd_replace_active("t", "one", v.clone(), None, None).unwrap();
    assert!(!r.archived && !r.forgotten);
    assert_eq!(r.theme, "t");
    let r = s
        .cmd_replace_active("t", "two", v.clone(), Some(Value::Bool(true)), None)
        .unwrap();
    assert!(r.archived && !r.forgotten);
    assert_eq!(s.cmd_recall("t", 9, None).entries.len(), 1);
    assert_eq!(s.cmd_recall("t", 9, None).entries[0].content, "two");
    let r = s.cmd_replace_active("t", "", Vec::new(), None, None).unwrap();
    assert!(r.archived && r.forgotten);
    assert!(!s.cmd_recall("t", 9, None).found);
    assert_eq!(s.index.len(), 0);
    let peeked = s.cmd_peek_memento("t", 5, None);
    assert_eq!(peeked.theme, "t");
    let contents: Vec<&str> = peeked.mementos.iter().map(|m| m.content.as_str()).collect();
    assert_eq!(contents, vec!["two", "one"]);
    assert_eq!(peeked.mementos[0].metadata, Some(Value::Bool(true)));
    assert_eq!(peeked.mementos[1].metadata, None);
    assert_eq!(s.cmd_peek_memento("t", 1, None).mementos.len(), 1);
    assert!(s.cmd_peek_memento("t", 5, Some("s")).mementos.is_empty());
}

#[test]
fn replace_touches_one_session() {
    let mut s = with_entries(vec![
        entry("1", "t", "global", 1.0, None),
        entry("2", "t", "mine", 2.0, Some("s")),
        entry("3", "t", "theirs", 3.0, Some("r")),
    ]);
    assert!(s.cmd_replace_active("t", "new", bits(&[1.0, 0.0]), None, Some("s")).is_ok());
    let left: Vec<&str> = s.entries.iter().map(|e| e.content.as_str()).collect();
    assert_eq!(left, vec!["global", "theirs", "new"]);
    assert_eq!(s.mementos.len(), 1);
    assert_eq!(s.mementos[0].id, "2");
    // The other sessions' entries of the theme stay in the index.
    assert_eq!(s.index.len(), 3);
    assert_eq!(s.cmd_reindex().indexed, 3);
}

#[test]
fn replace_takes_any_dimension() {
    let mut s = with_entries(vec![entry("1", "t", "c", 1.0, None)]);
    assert!(s.cmd_replace_active("u", "c", bits(&[1.0, 2.0, 3.0]), None, None).is_ok());
    let counts: Vec<(usize, usize)> =
        s.cmd_status().dimension_histogram.iter().map(|c| (c.dimension, c.count)).collect();
    assert_eq!(counts, vec![(2, 1), (3, 1)]);
}

#[test]
fn replace_rejects_taken_ids() {
    let mut s =
        with_entries(vec![entry("1", "t", "c", 1.0, None), entry("2", "u", "c", 1.0, None)]);
    let plan = |s: &Store, content: &str, id: &str| {
        s.plan_replace_active("t", content, &bits(&[1.0]), &None, None, 0, id.to_string(), 0).err()
    };
    assert_eq!(plan(&s, "c", "2"), Some("UNIQUE constraint failed: entries.id".to_string()));
    assert_eq!(plan(&s, "", "2"), None);
    assert_eq!(plan(&s, "c", "1"), None);
    s.mementos.push(memento("1", "c", 0.0));
    assert_eq!(plan(&s, "c", "9"), Some("UNIQUE constraint failed: mementos.id".to_string()));
}

#[test]
fn peek_shows_latest_first() {
    let s = Store::open(
        Vec::new(),
        Vec::new(),
        vec![memento("1", "early", 1.0), memento("2", "late", 61.5), memento("3", "later", 61.5)],
        String::new(),
    );
    let shown = s.cmd_peek_memento("t", 2, None).mementos;
    assert_eq!(shown[0].content, "later");
    assert_eq!(shown[1].content, "late");
    assert_eq!(shown[0].archived_at, "1970-01-01 00:01:01");
    assert_eq!(shown[0].stored_at, "1970-01-01 00:00:00");
}

#[test]
fn create_session_rejects_taken_id() {
    let mut s = temp_store();
    s.sessions.push(session("5e551011", "2025"));
    match s.plan(Command::CreateSession { title: "x".to_string() }, some_draw()) {
        Step::Answer(Reply::Failed(error)) => {
            assert_eq!(error, "UNIQUE constraint failed: sessions.id")
        }
        _ => panic!("the identifier is taken"),
    }
}

#[test]
fn created_session_as_written() {
    let mut s = temp_store();
    let (plan, reply) = s
        .plan_create_session("x", "id".to_string(), "2025-01-15T10:16:40Z".to_string())
        .ok()
        .unwrap();
    assert_eq!(reply.session_id, "id");
    assert_eq!(reply.created_at, "2025-01-15T10:16:40Z");
    assert!(s.settle(plan, Outcome::Done).is_ok());
    let got = s.cmd_get_session("id").unwrap();
    assert_eq!(got.id, "id");
    assert_eq!(got.created_at, "2025-01-15T10:16:40Z");
    assert_eq!(got.updated_at, "2025-01-15T10:16:40Z");
    assert_eq!(got.rolling_summary, "");
}

#[test]
fn sessions_are_listed_latest_first() {
    let mut s = temp_store();
    s.sessions.push(session("a", "2025-01-01T00:00:00Z"));
    s.sessions.push(session("b", "2025-03-01T00:00:00Z"));
    s.sessions.push(session("c", "2025-01-01T00:00:00Z"));
    let ids = |limit: usize, offset: usize| -> Vec<String> {
        s.cmd_list_sessions(limit, offset).sessions.into_iter().map(|s| s.id).collect()
    };
    assert_eq!(ids(9, 0), vec!["b", "a", "c"]);
    assert_eq!(ids(2, 1), vec!["a", "c"]);
    assert_eq!(ids(1, 1), vec!["a"]);
    assert!(ids(9, 3).is_empty());
    assert!(ids(0, 0).is_empty());
    assert_eq!(ids(1, usize::MAX), vec!["b"]);
}

#[test]
fn update_session_keeps_what_is_not_given() {
    let mut s = temp_store();
    s.sessions.push(session("a", "2025"));
    s.sessions.push(session("b", "2025"));
    s.cmd_update_session("a", Some("new".to_string()), Some("sum".to_string()));
    let a = s.cmd_get_session("a").unwrap();
    assert_eq!((a.title.as_str(), a.rolling_summary.as_str()), ("new", "sum"));
    assert!(a.updated_at > "2025".to_string());
    assert_eq!(a.created_at, "2025-01-01T00:00:00Z");
    s.cmd_update_session("b", None, None);
    let b = s.cmd_get_session("b").unwrap();
    assert_eq!(b.title, "title");
    assert!(b.updated_at > "2025".to_string());
    s.cmd_update_session("nobody", Some("x".to_string()), None);
    assert_eq!(s.sessions.len(), 2);
}

#[test]
fn message_count_stops_growing() {
    let mut s = temp_store();
    s.sessions.push(session("a", "2025"));
    s.sessions[0].message_count = i64::MAX - 1;
    for _ in 0..2 {
        assert!(s.cmd_store("t", "c", bits(&[1.0]), None, Some("a")).is_ok());
    }
    assert_eq!(s.sessions[0].message_count, i64::MAX);
}

#[test]
fn delete_session_keeps_mementos() {
    let mut s = with_entries(vec![entry("1", "t", "c", 1.0, Some("a"))]);
    s.mementos.push(memento("m", "c", 0.0));
    assert_eq!(s.cmd_delete_session("a").deleted_entries, 1);
    assert_eq!(s.cmd_delete_session("a").deleted_entries, 0);
    assert_eq!(s.mementos.len(), 1);
    assert_eq!(s.index.len(), 0);
}

#[test]
fn refresh_takes_rows_and_keeps_index() {
    let mut s = with_entries(vec![entry("1", "t", "c", 1.0, None)]);
    s.refresh(Vec::new(), vec![session("a", "2025")], Vec::new());
    assert_eq!(s.entries.len(), 0);
    assert_eq!(s.sessions.len(), 1);
    assert_eq!(s.index.len(), 1);
}

#[test]
fn dispatch_answers_every_command() {
    let mut s = temp_store();
    let store = Command::Store {
        theme: "t".to_string(),
        content: "c".to_string(),
        vector: bits(&[1.0]),
        metadata: None,
        session_id: None,
    };
    assert!(matches!(dispatch(&mut s, store), Reply::Stored(r) if r.theme == "t"));
    let bad = Command::Store {
        theme: "t".to_string(),
        content: "c".to_string(),
        vector: Vec::new(),
        metadata: None,
        session_id: None,
    };
    assert!(matches!(dispatch(&mut s, bad), Reply::Failed(_)));
    let recall = Command::Recall { theme: "t".to_string(), limit: 1, session_id: None };
    assert!(matches!(dispatch(&mut s, recall), Reply::Recalled(r) if r.found));
    let search = Command::Search {
        scores: bits(&[0.5]),
        top_k: 1,
        offset: 0,
        min_score: 0.0_f32.to_bits(),
        theme: Some("t".to_string()),
        session_id: None,
    };
    assert!(matches!(dispatch(&mut s, search), Reply::Found(r) if r.results.len() == 1));
    let list = Command::List { session_id: None };
    assert!(matches!(dispatch(&mut s, list), Reply::Themes(r) if r.themes.len() == 1));
    let replace = Command::ReplaceActive {
        theme: "t".to_string(),
        content: "d".to_string(),
        vector: bits(&[1.0]),
        metadata: None,
        session_id: None,
    };
    assert!(matches!(dispatch(&mut s, replace), Reply::Replaced(r) if r.archived));
    let peek = Command::PeekMemento { theme: "t".to_string(), limit: 1, session_id: None };
    assert!(matches!(dispatch(&mut s, peek), Reply::Peeked(r) if r.mementos[0].content == "c"));
    assert!(matches!(dispatch(&mut s, Command::Reindex), Reply::Reindexed(r) if r.indexed == 1));
    assert!(matches!(dispatch(&mut s, Command::Status), Reply::Status(r) if r.themes == 1));
    let create = Command::CreateSession { title: "x".to_string() };
    let id = match dispatch(&mut s, create) {
        Reply::Created(r) => r.session_id,
        _ => panic!("no session was created"),
    };
    let sessions = Command::ListSessions { limit: 5, offset: 0 };
    assert!(matches!(dispatch(&mut s, sessions), Reply::Sessions(r) if r.sessions.len() == 1));
    let update = Command::UpdateSession {
        session_id: id.clone(),
        title: Some("y".to_string()),
        rolling_summary: None,
    };
    assert!(matches!(dispatch(&mut s, update), Reply::Updated));
    let get = Command::GetSession { session_id: id.clone() };
    assert!(matches!(dispatch(&mut s, get), Reply::Session(r) if r.title == "y"));
    let gone = Command::DeleteSession { session_id: id.clone() };
    assert!(matches!(dispatch(&mut s, gone), Reply::SessionDeleted(r) if r.deleted_entries == 0));
    let get = Command::GetSession { session_id: id };
    assert!(matches!(dispatch(&mut s, get), Reply::Failed(_)));
    let prune = Command::Prune { cutoff: f64::INFINITY.to_bits(), max_per_theme: 5 };
    assert!(matches!(dispatch(&mut s, prune), Reply::Pruned(r) if r.pruned == 1));
    let delete = Command::Delete { theme: "t".to_string() };
    assert!(matches!(dispatch(&mut s, delete), Reply::Deleted(r) if !r.deleted));
}

#[test]
fn draws_are_fresh() {
    let a = draw();
    let b = draw();
    assert_ne!(a.entry_id, b.entry_id);
    assert_eq!(a.session_id.len(), 8);
    assert!(f64::from_bits(a.stored_at) >= f64::from_bits(a.archived_at));
    assert_eq!(a.now.len(), 20);
}

#[test]
fn storage_directory() {
    let dir = resolve_storage_path(true, true);
    assert!(dir.root == Root::Override);
    assert_eq!(dir.below, vec!["memory"]);
    let dir = resolve_storage_path(false, true);
    assert!(dir.root == Root::DataDir);
    assert_eq!(dir.below, vec!["jarvis", "memory"]);
    let dir = resolve_storage_path(false, false);
    assert!(dir.root == Root::WorkingDir);
    assert_eq!(dir.below, vec!["jarvis", "memory"]);
}

#[test]
fn damaged_database_is_set_aside() {
    let warning = |probe: Probe| match open_or_recover(probe) {
        Verdict::Use => None,
        Verdict::StartFresh(text) => Some(text),
    };
    assert_eq!(warning(Probe::Checked("ok".to_string())), None);
    assert_eq!(
        warning(Probe::Checked("row 3 missing".to_string())),
        Some(
            "contextor: database integrity check failed (row 3 missing), starting fresh".to_string()
        )
    );
    assert_eq!(
        warning(Probe::NotChecked("e".to_string())),
        Some("contextor: could not run integrity check (e), starting fresh".to_string())
    );
    assert_eq!(
        warning(Probe::NotOpened("e".to_string())),
        Some("contextor: failed to open database (e), starting fresh".to_string())
    );
}

#[test]
fn schema_steps() {
    let old = vec!["id".to_string(), "theme".to_string()];
    let steps = migrate(&old);
    assert!(
        steps
            == vec![
                Migration::CreateBase,
                Migration::AddSessionColumn,
                Migration::IndexSessions,
                Migration::CreateMementos
            ]
    );
    let new = vec!["id".to_string(), "session_id".to_string()];
    assert!(
        migrate(&new)
            == vec![Migration::CreateBase, Migration::IndexSessions, Migration::CreateMementos]
    );
    assert_eq!(migrate(&Vec::new()).len(), 4);
}
