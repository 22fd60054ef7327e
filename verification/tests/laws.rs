//! What holds of the commands taken together, on concrete values.

use contextor::calendar::{days_to_ymd, format_iso8601, format_unix_secs};
use contextor::codec::{decode_vector, encode_vector};
use contextor::startup::{migrate, Migration};
use contextor::store::Store;
use contextor::tables::Entry;
use serde_json::Value;

fn bits(v: &[f32]) -> Vec<u32> {
    v.iter().map(|x| x.to_bits()).collect()
}

fn temp_store() -> Store {
    Store::open(Vec::new(), Vec::new(), Vec::new(), "/tmp/test".to_string())
}

/// A store with two themes and a session, `s`.
fn filled() -> Store {
    let mut s = temp_store();
    for (theme, content, session) in [
        ("a", "one", None),
        ("b", "two", Some("s")),
        ("a", "three", Some("s")),
        ("a", "four", None),
        ("b", "five", None),
    ] {
        assert!(s.cmd_store(theme, content, bits(&[1.0, 0.5]), None, session).is_ok());
    }
    s
}

fn recalled(s: &Store, theme: &str, session: Option<&str>) -> Vec<String> {
    s.cmd_recall(theme, 99, session).entries.into_iter().map(|e| e.content).collect()
}

fn themes(s: &Store) -> Vec<(String, usize)> {
    s.cmd_list(None).themes.into_iter().map(|t| (t.theme, t.entries)).collect()
}

fn found(s: &Store, top_k: usize, offset: usize, session: Option<&str>) -> Vec<String> {
    let scores: Vec<u32> = (0..s.index.len()).map(|i| (i as f32).to_bits()).collect();
    s.cmd_search(&scores, top_k, offset, 0.0_f32.to_bits(), None, session)
        .unwrap()
        .results
        .into_iter()
        .map(|f| f.content)
        .collect()
}

#[test]
fn stored_is_recalled_last_with_all_it_holds() {
    let mut s = filled();
    let metadata = Some(Value::String("m".to_string()));
    assert!(s.cmd_store("a", "six", bits(&[2.0, 2.0]), metadata.clone(), Some("s")).is_ok());
    let r = s.cmd_recall("a", 1, Some("s"));
    assert_eq!(r.entries[0].content, "six");
    assert_eq!(r.entries[0].theme, "a");
    assert_eq!(r.entries[0].session_id, Some("s".to_string()));
    assert_eq!(r.entries[0].metadata, metadata);
    assert!(f64::from_bits(r.entries[0].stored_at) > 0.0);
}

#[test]
fn storing_elsewhere_changes_nothing_here() {
    let mut s = filled();
    let before = (recalled(&s, "b", None), recalled(&s, "a", Some("s")));
    assert!(s.cmd_store("a", "six", bits(&[2.0, 2.0]), None, None).is_ok());
    assert_eq!((recalled(&s, "b", None), recalled(&s, "a", Some("s"))), before);
}

#[test]
fn deleting_a_theme_spares_the_others() {
    let mut s = filled();
    let before = recalled(&s, "b", None);
    s.cmd_delete("a");
    assert!(recalled(&s, "a", None).is_empty());
    assert!(recalled(&s, "a", Some("s")).is_empty());
    assert_eq!(recalled(&s, "b", None), before);
    assert_eq!(s.index.len(), 2);
}

#[test]
fn index_holds_what_entries_hold() {
    let mut s = filled();
    s.cmd_delete_session("s");
    assert_eq!(found(&s, 9, 0, None).len(), s.entries.len());
    assert!(s.cmd_store("a", "theirs", bits(&[1.0, 0.5]), None, Some("r")).is_ok());
    assert!(s.cmd_replace_active("a", "new", bits(&[1.0, 1.0]), None, None).is_ok());
    assert_eq!(s.index.len(), s.entries.len());
    s.cmd_delete_session("r");
    let mut contents = found(&s, 9, 0, None);
    contents.sort();
    assert_eq!(contents, vec!["five", "new"]);
    assert_eq!(s.cmd_reindex().indexed, s.entries.len());
    assert_eq!(s.cmd_prune(0.0_f64.to_bits(), 0).pruned, 2);
    assert_eq!(s.index.len(), 0);
}

#[test]
fn identifiers_stay_unique() {
    let mut s = filled();
    assert!(s.cmd_replace_active("a", "new", bits(&[1.0, 1.0]), None, None).is_ok());
    let mut ids: Vec<&str> = s.entries.iter().map(|e| e.id.as_str()).collect();
    ids.extend(s.mementos.iter().map(|m| m.id.as_str()));
    let count = ids.len();
    ids.sort();
    ids.dedup();
    assert_eq!(ids.len(), count);
}

#[test]
fn vectors_keep_one_dimension() {
    let mut s = filled();
    assert!(s.cmd_store("a", "x", bits(&[1.0]), None, None).is_err());
    assert!(s.cmd_store("a", "x", bits(&[1.0, 2.0, 3.0]), None, None).is_err());
    s.cmd_delete_session("s");
    s.cmd_reindex();
    let histogram = s.cmd_status().dimension_histogram;
    assert_eq!(histogram.len(), 1);
    assert_eq!((histogram[0].dimension, histogram[0].count), (2, s.entries.len()));
}

#[test]
fn search_pages_join() {
    let s = filled();
    let all = found(&s, 99, 0, None);
    assert_eq!(all, vec!["five", "four", "three", "two", "one"]);
    let mut pages = found(&s, 2, 0, None);
    pages.extend(found(&s, 2, 2, None));
    pages.extend(found(&s, 2, 4, None));
    assert_eq!(pages, all);
}

#[test]
fn search_in_a_session_sees_global_entries() {
    let mut s = filled();
    assert!(s.cmd_store("a", "theirs", bits(&[2.0, 2.0]), None, Some("r")).is_ok());
    assert_eq!(found(&s, 99, 0, Some("s")), vec!["five", "four", "three", "two", "one"]);
    assert_eq!(found(&s, 99, 0, Some("r")), vec!["theirs", "five", "four", "one"]);
}

#[test]
fn pruning_twice_is_pruning_once() {
    let mut s = filled();
    assert_eq!(s.cmd_prune(0.0_f64.to_bits(), 1).pruned, 1);
    assert_eq!(recalled(&s, "a", None), vec!["three", "four"]);
    assert_eq!(s.cmd_prune(0.0_f64.to_bits(), 1).pruned, 0);
    assert_eq!(s.cmd_prune(f64::INFINITY.to_bits(), 1).pruned, 2);
    assert_eq!(recalled(&s, "a", None), vec!["three"]);
}

#[test]
fn pruning_keeps_what_a_session_recalls() {
    let mut s = filled();
    for content in ["six", "seven", "eight"] {
        assert!(s.cmd_store("a", content, bits(&[1.0, 0.5]), None, Some("s")).is_ok());
    }
    let latest = |s: &Store| -> Vec<String> {
        s.cmd_recall("a", 2, Some("s")).entries.into_iter().map(|e| e.content).collect()
    };
    let before = latest(&s);
    assert_eq!(before, vec!["seven", "eight"]);
    assert_eq!(s.cmd_prune(f64::INFINITY.to_bits(), 2).pruned, 5);
    assert_eq!(latest(&s), before);
}

#[test]
fn deleted_theme_is_not_found() {
    let mut s = filled();
    s.cmd_delete("a");
    let scores = bits(&[1.0, 1.0]);
    let r = s.cmd_search(&scores, 9, 0, 0.0_f32.to_bits(), Some("a"), None).unwrap();
    assert!(r.results.is_empty());
}

#[test]
fn replacing_spares_other_sessions() {
    let mut s = filled();
    assert!(s.cmd_replace_active("a", "new", bits(&[1.0, 1.0]), None, None).is_ok());
    assert_eq!(recalled(&s, "a", Some("s")), vec!["three"]);
    assert_eq!(recalled(&s, "b", None), vec!["two", "five"]);
    let peeked: Vec<String> =
        s.cmd_peek_memento("a", 9, None).mementos.into_iter().map(|m| m.content).collect();
    assert_eq!(peeked, vec!["four", "one"]);
    assert!(s.cmd_peek_memento("a", 9, Some("s")).mementos.is_empty());
}

#[test]
fn replacing_leaves_other_sessions_to_be_found() {
    let mut s = temp_store();
    assert!(s.cmd_store("t", "mine", bits(&[1.0]), None, Some("a")).is_ok());
    assert!(s.cmd_store("t", "other", bits(&[1.0]), None, Some("b")).is_ok());
    assert!(s.cmd_store("t", "global", bits(&[1.0]), None, None).is_ok());
    assert!(s.cmd_replace_active("t", "new", bits(&[1.0]), None, Some("a")).is_ok());
    let sorted = |session: Option<&str>| -> Vec<String> {
        let mut contents = found(&s, 10, 0, session);
        contents.sort();
        contents
    };
    assert_eq!(sorted(None), vec!["global", "new", "other"]);
    assert_eq!(sorted(Some("a")), vec!["global", "new"]);
    assert_eq!(sorted(Some("b")), vec!["global", "other"]);
}

#[test]
fn replaced_is_all_that_a_session_recalls() {
    let mut s = filled();
    assert!(s.cmd_replace_active("a", "new", bits(&[1.0, 1.0]), None, Some("s")).is_ok());
    assert_eq!(recalled(&s, "a", Some("s")), vec!["new"]);
    assert!(s.cmd_replace_active("a", "", Vec::new(), None, Some("s")).is_ok());
    assert!(recalled(&s, "a", Some("s")).is_empty());
}

#[test]
fn session_pages_join_up() {
    let mut s = temp_store();
    for i in 0..5 {
        assert!(s.cmd_create_session(&format!("n{i}")).is_ok());
    }
    let ids = |limit: usize, offset: usize| -> Vec<String> {
        s.cmd_list_sessions(limit, offset).sessions.into_iter().map(|s| s.id).collect()
    };
    let mut pages = ids(2, 0);
    pages.extend(ids(2, 2));
    pages.extend(ids(2, 4));
    assert_eq!(pages, ids(99, 0));
}

#[test]
fn sessions_do_not_touch_one_another() {
    let mut s = temp_store();
    let a = s.cmd_create_session("a").unwrap().session_id;
    let b = s.cmd_create_session("b").unwrap().session_id;
    s.cmd_update_session(&a, Some("renamed".to_string()), None);
    assert!(s.cmd_store("t", "c", bits(&[1.0]), None, Some(&a)).is_ok());
    assert_eq!(s.cmd_get_session(&a).unwrap().message_count, 1);
    assert_eq!(s.cmd_get_session(&b).unwrap().message_count, 0);
    assert_eq!(s.cmd_get_session(&b).unwrap().title, "b");
    s.cmd_delete_session(&a);
    assert!(s.cmd_get_session(&a).is_err());
    assert_eq!(s.cmd_get_session(&b).unwrap().title, "b");
}

#[test]
fn themes_cover_the_entries() {
    let s = filled();
    assert_eq!(themes(&s), vec![("a".to_string(), 3), ("b".to_string(), 2)]);
    let status = s.cmd_status();
    assert_eq!(status.themes, 2);
    assert_eq!(status.total_entries, 5);
    let counted: usize = status.dimension_histogram.iter().map(|c| c.count).sum();
    assert_eq!(counted, s.index.len());
}

#[test]
fn dates_run_through_the_calendar() {
    let mut days = 0;
    for year in 1970..2110_u32 {
        for month in 1..=12_u32 {
            let length = match month {
                2 if year % 4 == 0 && year != 2100 => 29,
                2 => 28,
                4 | 6 | 9 | 11 => 30,
                _ => 31,
            };
            for day in 1..=length {
                assert_eq!(days_to_ymd(days), (year, month, day));
                days += 1;
            }
        }
    }
}

#[test]
fn written_times_have_their_shape() {
    for secs in [0, 86_399, 951_782_400, 253_402_300_799] {
        let text = format_iso8601(secs);
        assert_eq!(text.len(), 20);
        assert_eq!(&text[10..11], "T");
        assert_eq!(&text[19..], "Z");
        assert_eq!(format_unix_secs(secs).len(), 19);
        assert_eq!(format_unix_secs(secs)[..10], text[..10]);
    }
}

#[test]
fn bytes_and_vectors_match() {
    let bytes: Vec<u8> = (0..12).map(|i| 17 * i).collect();
    assert_eq!(encode_vector(&decode_vector(&bytes)), bytes);
}

#[test]
fn the_column_is_added_once() {
    let mut columns = vec!["id".to_string()];
    assert!(migrate(&columns)[1] == Migration::AddSessionColumn);
    columns.push("session_id".to_string());
    assert!(!migrate(&columns).contains(&Migration::AddSessionColumn));
}

#[test]
fn opened_store_has_its_index() {
    let entry = |id: &str, at: f64| Entry {
        id: id.to_string(),
        theme: "t".to_string(),
        content: id.to_string(),
        vector: encode_vector(&bits(&[1.0])),
        stored_at: at.to_bits(),
        metadata: None,
        session_id: None,
    };
    let s = Store::open(
        vec![entry("late", 2.0), entry("early", 1.0)],
        Vec::new(),
        Vec::new(),
        String::new(),
    );
    assert_eq!(found(&s, 9, 0, None), vec!["late", "early"]);
}
