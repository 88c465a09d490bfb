use locale_sync::record::RawRow;
use locale_sync::status::pair_status;
use locale_sync::status::stale_keys;
use locale_sync::store::apply_db_migrations;
use locale_sync::sync::ConsistencyMode;
use locale_sync::sync::sync_snapshot;
use locale_sync::value::RawValue;

fn row(entries: Vec<(&str, RawValue)>) -> RawRow {
    entries
        .into_iter()
        .map(|(k, v)| (k.to_string(), v))
        .collect()
}

fn text(s: &str) -> RawValue {
    RawValue::Text(s.to_string())
}

#[test]
fn pairing_drops_incomplete_status_entries() {
    let ids = vec![
        Some("a".to_string()),
        None,
        Some("c".to_string()),
        Some("d".to_string()),
    ];
    let hashes = vec![Some(1), Some(2), None, Some(4)];
    assert_eq!(
        pair_status(&ids, &hashes),
        vec![("a".to_string(), 1), ("d".to_string(), 4)]
    );
}

#[test]
fn pairing_stops_at_the_shorter_column() {
    let ids = vec![Some("a".to_string()), Some("b".to_string())];
    let hashes = vec![Some(10)];
    assert_eq!(pair_status(&ids, &hashes), vec![("a".to_string(), 10)]);
}

#[test]
fn stale_keys_reports_changed_and_unknown_records() {
    let mut store = apply_db_migrations();
    let rows = vec![
        row(vec![("id", text("same")), ("hash", RawValue::Int(7))]),
        row(vec![("id", text("changed")), ("hash", RawValue::Int(1))]),
    ];
    sync_snapshot(&mut store, &rows, ConsistencyMode::Transactional).unwrap();

    let status = vec![
        ("same".to_string(), 7),
        ("changed".to_string(), 2),
        ("unknown".to_string(), 5),
    ];
    assert_eq!(
        stale_keys(&status, &store.de),
        vec!["changed".to_string(), "unknown".to_string()]
    );
}
