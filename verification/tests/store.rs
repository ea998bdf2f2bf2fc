use mirror_log::chunk_records;
use mirror_log::event_record;
use mirror_log::like_pattern;
use mirror_log::Event;

#[test]
fn event_record_carries_fields() {
    let ev = event_record("cli", "some note", Some("tag=a"), 1234);
    assert_eq!(ev.id.len(), 36);
    assert_eq!(ev.timestamp, 1234);
    assert_eq!(ev.source, "cli");
    assert_eq!(ev.content, "some note");
    assert_eq!(ev.meta.as_deref(), Some("tag=a"));
    let other = event_record("cli", "some note", None, 1234);
    assert!(other.meta.is_none());
    assert_ne!(ev.id, other.id);
}

#[test]
fn like_pattern_wraps_term() {
    assert_eq!(like_pattern("abc"), "%abc%");
    assert_eq!(like_pattern(""), "%%");
}

#[test]
fn like_pattern_keeps_wildcards_unescaped() {
    assert_eq!(like_pattern("50%"), "%50%%");
    assert_eq!(like_pattern("a_b"), "%a_b%");
}

#[test]
fn format_time_epoch() {
    let ev = Event {
        id: "e".to_string(),
        timestamp: 0,
        source: "test".to_string(),
        content: String::new(),
        meta: None,
    };
    assert_eq!(ev.format_time(), "1970-01-01 00:00:00 UTC");
}

#[test]
fn format_time_known_date() {
    let ev = Event {
        id: "e".to_string(),
        timestamp: 1431648000,
        source: "test".to_string(),
        content: String::new(),
        meta: None,
    };
    assert_eq!(ev.format_time(), "2015-05-15 00:00:00 UTC");
}

#[test]
fn chunk_records_number_and_tag_rows() {
    let content = "para one.\n\npara two.\n\npara three.";
    let rows = chunk_records("ev-1", content, 25);
    assert_eq!(rows.len(), 2);
    assert_eq!(rows[0].chunk_index, 0);
    assert_eq!(rows[1].chunk_index, 1);
    assert_eq!(rows[0].event_id, "ev-1");
    assert_eq!(rows[1].event_id, "ev-1");
    assert_eq!(rows[0].content, "para one.\n\npara two.");
    assert_eq!(rows[1].content, "para three.");
    assert_eq!(rows[0].start_offset, 0);
    assert_eq!(rows[0].end_offset, 22);
    assert_eq!(rows[1].start_offset, 22);
    assert_eq!(rows[1].end_offset, 35);
    assert_eq!(rows[0].id.len(), 36);
    assert_eq!(rows[1].id.len(), 36);
    assert_ne!(rows[0].id, rows[1].id);
}

#[test]
fn wildcard_in_search_term_matches_unintended_rows() {
    // The search pattern does not escape `%`, so a term containing it
    // matches rows that lack the literal text.
    let conn = rusqlite::Connection::open_in_memory().unwrap();
    conn.execute(
        "CREATE TABLE events (id TEXT PRIMARY KEY, content TEXT NOT NULL)",
        [],
    )
    .unwrap();
    conn.execute(
        "INSERT INTO events (id, content) VALUES (?1, ?2)",
        ("a", "sale: 50% off everything"),
    )
    .unwrap();
    conn.execute(
        "INSERT INTO events (id, content) VALUES (?1, ?2)",
        ("b", "driving at 50 km/h"),
    )
    .unwrap();
    let pattern = like_pattern("50%");
    assert_eq!(pattern, "%50%%");
    let count: i64 = conn
        .query_row(
            "SELECT COUNT(*) FROM events WHERE content LIKE ?1",
            [&pattern],
            |row| row.get(0),
        )
        .unwrap();
    assert_eq!(count, 2);
}
