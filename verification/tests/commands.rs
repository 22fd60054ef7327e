//! The commands on a store in memory.

use contextor::calendar::{format_unix_secs, now_iso8601};
use contextor::store::Store;
use contextor::tables::Entry;
use std::time::{SystemTime, UNIX_EPOCH};

fn temp_store() -> Store {
    Store::open(Vec::new(), Vec::new(), Vec::new(), "/tmp/test".to_string())
}

fn bits(v: &[f32]) -> Vec<u32> {
    v.iter().map(|x| x.to_bits()).collect()
}

fn cosine(a: &[f32], b: &[f32]) -> f32 {
    let dot: f32 = a.iter().zip(b).map(|(x, y)| x * y).sum();
    let norm = |v: &[f32]| v.iter().map(|x| x * x).sum::<f32>().sqrt();
    let both = norm(a) * norm(b);
    if a.len() != b.len() || both == 0.0 {
        0.0
    } else {
        dot / both
    }
}

fn scores(s: &Store, query: &[f32]) -> Vec<u32> {
    (0..s.index.len())
        .map(|i| {
            let v: Vec<f32> = s.index.vector(i).iter().map(|b| f32::from_bits(*b)).collect();
            cosine(query, &v).to_bits()
        })
        .collect()
}

fn days_ago(days: u64) -> u64 {
    let now = SystemTime::now().duration_since(UNIX_EPOCH).unwrap().as_secs_f64();
    (now - days as f64 * 86_400.0).to_bits()
}

fn old_entry(id: &str, content: &str, session_id: Option<String>) -> Entry {
    Entry {
        id: id.to_string(),
        theme: "theme".to_string(),
        content: content.to_string(),
        vector: vec![0x00, 0x00, 0x80, 0x3f],
        stored_at: 0.0_f64.to_bits(),
        metadata: None,
        session_id,
    }
}

#[test]
fn store_and_recall() {
    let mut s = temp_store();
    let v = bits(&[1.0_f32, 0.0, 0.0]);
    assert!(s.cmd_store("test", "hello world", v.clone(), None, None).is_ok());
    let r = s.cmd_recall("test", 10, None);
    assert_eq!(r.found, true);
    assert_eq!(r.entries[0].content, "hello world");
}

#[test]
fn recall_empty_theme_returns_not_found() {
    let s = temp_store();
    let r = s.cmd_recall("nonexistent", 10, None);
    assert_eq!(r.theme, "nonexistent");
    assert_eq!(r.found, false);
}

#[test]
fn search_finds_similar() {
    let mut s = temp_store();
    assert!(s.cmd_store("a", "item a", bits(&[1.0_f32, 0.0, 0.0]), None, None).is_ok());
    assert!(s.cmd_store("b", "item b", bits(&[0.0_f32, 1.0, 0.0]), None, None).is_ok());
    let scores = scores(&s, &[1.0, 0.0, 0.0]);
    let r = s.cmd_search(&scores, 5, 0, 0.5_f32.to_bits(), None, None).unwrap();
    assert_eq!(r.available, true);
    assert_eq!(r.results[0].content, "item a");
    assert_eq!(r.results.len(), 1);
}

#[test]
fn search_empty_index_returns_available() {
    let s = temp_store();
    let scores = scores(&s, &[1.0, 0.0]);
    let r = s.cmd_search(&scores, 5, 0, 0.0_f32.to_bits(), None, None).unwrap();
    assert_eq!(r.available, true);
    assert_eq!(r.results.len(), 0);
}

#[test]
fn delete_removes_entries() {
    let mut s = temp_store();
    assert!(s.cmd_store("del_me", "gone", bits(&[1.0_f32, 0.0]), None, None).is_ok());
    let r = s.cmd_delete("del_me");
    assert_eq!(r.deleted, true);
    let r2 = s.cmd_recall("del_me", 10, None);
    assert_eq!(r2.found, false);
}

#[test]
fn prune_age_based() {
    let mut s = temp_store();
    s.entries.push(old_entry("old-id", "old", None));
    s.index.push("old-id".into(), "theme".into(), bits(&[1.0_f32]), None);
    let r = s.cmd_prune(days_ago(30), 1000);
    assert!(r.pruned >= 1);
    assert_eq!(s.entries.len(), 0);
    assert_eq!(s.index.len(), 0);
}

#[test]
fn format_unix_secs_epoch() {
    assert_eq!(format_unix_secs(0), "1970-01-01 00:00:00");
}

#[test]
fn format_unix_secs_known_date() {
    assert_eq!(format_unix_secs(1_736_936_200), "2025-01-15 10:16:40");
}

#[test]
fn create_and_get_session() {
    let mut s = temp_store();
    let r = s.cmd_create_session("Test session");
    assert!(r.is_ok());
    let sid = r.unwrap().session_id;
    assert_eq!(sid.len(), 8);

    let r2 = s.cmd_get_session(&sid);
    assert!(r2.is_ok());
    let session = r2.unwrap();
    assert_eq!(session.title, "Test session");
    assert_eq!(session.message_count, 0);
}

#[test]
fn create_session_default_title() {
    let mut s = temp_store();
    let r = s.cmd_create_session("");
    assert!(r.is_ok());
    let sid = r.unwrap().session_id;
    let session = s.cmd_get_session(&sid).unwrap();
    assert_eq!(session.title, "New chat");
}

#[test]
fn get_session_not_found() {
    let s = temp_store();
    let r = s.cmd_get_session("deadbeef");
    assert!(r.is_err());
    let error = r.err().unwrap();
    assert!(error.contains("not found"));
    assert_eq!(error, "session not found: deadbeef");
}

#[test]
fn list_sessions_ordered_by_updated_at() {
    let mut s = temp_store();
    assert!(s.cmd_create_session("Session A").is_ok());
    assert!(s.cmd_create_session("Session B").is_ok());
    let r = s.cmd_list_sessions(50, 0);
    assert_eq!(r.sessions.len(), 2);
    assert!(r.sessions[0].updated_at >= r.sessions[1].updated_at);
}

#[test]
fn list_sessions_pagination() {
    let mut s = temp_store();
    for i in 0..5 {
        assert!(s.cmd_create_session(&format!("Session {i}")).is_ok());
    }
    let r = s.cmd_list_sessions(3, 0);
    assert_eq!(r.sessions.len(), 3);
    let r2 = s.cmd_list_sessions(3, 3);
    assert_eq!(r2.sessions.len(), 2);
}

#[test]
fn update_session_title() {
    let mut s = temp_store();
    let sid = s.cmd_create_session("Original").unwrap().session_id;
    s.cmd_update_session(&sid, Some("Renamed".to_string()), None);
    let session = s.cmd_get_session(&sid).unwrap();
    assert_eq!(session.title, "Renamed");
}

#[test]
fn update_session_rolling_summary() {
    let mut s = temp_store();
    let sid = s.cmd_create_session("chat").unwrap().session_id;
    s.cmd_update_session(&sid, None, Some("User asked about Rust.".to_string()));
    let session = s.cmd_get_session(&sid).unwrap();
    assert_eq!(session.rolling_summary, "User asked about Rust.");
}

#[test]
fn store_increments_session_message_count() {
    let mut s = temp_store();
    let sid = s.cmd_create_session("counting").unwrap().session_id;
    assert!(s.cmd_store("log", "msg 1", bits(&[1.0_f32]), None, Some(&sid)).is_ok());
    assert!(s.cmd_store("log", "msg 2", bits(&[1.0_f32]), None, Some(&sid)).is_ok());
    let session = s.cmd_get_session(&sid).unwrap();
    assert_eq!(session.message_count, 2);
}

#[test]
fn delete_session_removes_entries_and_keeps_global() {
    let mut s = temp_store();
    let sid = s.cmd_create_session("to delete").unwrap().session_id;
    let v = bits(&[1.0_f32, 0.0]);
    assert!(s.cmd_store("log", "session entry", v.clone(), None, Some(&sid)).is_ok());
    assert!(s.cmd_store("log", "global entry", v.clone(), None, None).is_ok());

    let dr = s.cmd_delete_session(&sid);
    assert_eq!(dr.deleted_entries, 1);

    // Session record gone
    assert!(s.cmd_get_session(&sid).is_err());

    // Global entry survives
    let rr = s.cmd_recall("log", 10, None);
    assert_eq!(rr.entries.len(), 1);
    assert_eq!(rr.entries[0].content, "global entry");
}

#[test]
fn search_session_scoped_includes_global_excludes_other_sessions() {
    let mut s = temp_store();
    let sid = s.cmd_create_session("scoped").unwrap().session_id;
    let v = bits(&[1.0_f32, 0.0]);
    assert!(s.cmd_store("t", "global item", v.clone(), None, None).is_ok());
    assert!(s.cmd_store("t", "my session item", v.clone(), None, Some(&sid)).is_ok());
    assert!(s.cmd_store("t", "other session item", v.clone(), None, Some("other000")).is_ok());

    let scores = scores(&s, &[1.0, 0.0]);
    let r = s.cmd_search(&scores, 10, 0, 0.0_f32.to_bits(), None, Some(&sid)).unwrap();
    let contents: Vec<&str> = r.results.iter().map(|f| f.content.as_str()).collect();
    assert!(contents.contains(&"global item"));
    assert!(contents.contains(&"my session item"));
    assert!(!contents.contains(&"other session item"));
}

#[test]
fn search_results_include_session_id_field() {
    let mut s = temp_store();
    assert!(s.cmd_store("t", "global", bits(&[1.0_f32, 0.0]), None, None).is_ok());
    let scores = scores(&s, &[1.0, 0.0]);
    let r = s.cmd_search(&scores, 5, 0, 0.0_f32.to_bits(), None, None).unwrap();
    let result = &r.results[0];
    assert!(result.session_id.is_none());
}

#[test]
fn recall_session_scoped() {
    let mut s = temp_store();
    let sid = s.cmd_create_session("recall test").unwrap().session_id;
    assert!(s.cmd_store("log", "mine", bits(&[1.0_f32]), None, Some(&sid)).is_ok());
    assert!(s.cmd_store("log", "theirs", bits(&[1.0_f32]), None, Some("other000")).is_ok());

    let rr = s.cmd_recall("log", 10, Some(&sid));
    assert_eq!(rr.entries.len(), 1);
    assert_eq!(rr.entries[0].content, "mine");
}

#[test]
fn prune_session_entries_not_age_pruned() {
    let mut s = temp_store();
    let sid = s.cmd_create_session("active").unwrap().session_id;

    // Old session entry: must not be pruned
    s.entries.push(old_entry("sess-old", "session old", Some(sid.clone())));
    s.index.push("sess-old".into(), "theme".into(), bits(&[1.0_f32]), Some(sid.clone()));

    // Old global entry: must be pruned
    s.entries.push(old_entry("glob-old", "global old", None));
    s.index.push("glob-old".into(), "theme".into(), bits(&[1.0_f32]), None);

    let r = s.cmd_prune(days_ago(30), 1000);
    assert_eq!(r.pruned, 1); // only the global entry

    // Session entry still present
    let rr = s.cmd_recall("theme", 10, Some(&sid));
    assert_eq!(rr.entries.len(), 1);
}

#[test]
fn now_iso8601_format() {
    let s = now_iso8601();
    // YYYY-MM-DDTHH:MM:SSZ
    assert_eq!(s.len(), 20);
    assert_eq!(&s[10..11], "T");
    assert_eq!(&s[19..], "Z");
}
