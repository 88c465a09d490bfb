use locale_sync::record::DecodeFault;
use locale_sync::record::RawRow;
use locale_sync::record::SyncError;
use locale_sync::record::decode_record;
use locale_sync::store::Store;
use locale_sync::store::apply_db_migrations;
use locale_sync::sync::ConsistencyMode;
use locale_sync::sync::sync_snapshot;
use locale_sync::value::RawValue;

fn text(s: &str) -> RawValue {
    RawValue::Text(s.to_string())
}

fn dict(entries: Vec<(&str, RawValue)>) -> RawValue {
    RawValue::Dict(entries.into_iter().map(|(k, v)| (k.to_string(), v)).collect())
}

fn row(entries: Vec<(&str, RawValue)>) -> RawRow {
    entries.into_iter().map(|(k, v)| (k.to_string(), v)).collect()
}

fn lecture_hall_row() -> RawRow {
    row(vec![
        ("id", text("mw123")),
        ("hash", RawValue::Int(7)),
        (
            "name",
            dict(vec![("de", text("Hörsaal 1")), ("en", text("Lecture Hall 1"))]),
        ),
        ("lat", RawValue::Num("48.1".to_string())),
        ("lon", RawValue::Num("11.5".to_string())),
    ])
}

fn stores_equal_at(a: &Store, b: &Store, keys: &[&str]) -> bool {
    if a.de.len() != b.de.len() || a.en.len() != b.en.len() {
        return false;
    }
    for k in keys {
        match (a.de.get(k), b.de.get(k), a.en.get(k), b.en.get(k)) {
            (Some(x1), Some(x2), Some(y1), Some(y2)) => {
                if x1 != x2 || y1 != y2 {
                    return false;
                }
            }
            (None, None, None, None) => {}
            _ => return false,
        }
    }
    true
}

#[test]
fn lecture_hall_snapshot_writes_both_language_rows() {
    let mut store = apply_db_migrations();
    let rows = vec![lecture_hall_row()];
    let report = sync_snapshot(&mut store, &rows, ConsistencyMode::Transactional).unwrap();
    assert_eq!(report.records_processed, 1);
    assert_eq!(report.records_failed, 0);

    let de = store.de.get("mw123").expect("de row present");
    assert_eq!(de.scalars.name, Some("Hörsaal 1".to_string()));
    assert_eq!(de.hash, Some(7));
    assert_eq!(de.scalars.lat, Some(RawValue::Num("48.1".to_string())));
    assert_eq!(de.scalars.lon, Some(RawValue::Num("11.5".to_string())));

    let en = store.en.get("mw123").expect("en row present");
    assert_eq!(en.scalars.name, Some("Lecture Hall 1".to_string()));
    assert_eq!(en.hash, None);

    // The payloads keep every field, with locale objects collapsed.
    assert_eq!(
        de.payload,
        dict(vec![
            ("id", text("mw123")),
            ("hash", RawValue::Int(7)),
            ("name", text("Hörsaal 1")),
            ("lat", RawValue::Num("48.1".to_string())),
            ("lon", RawValue::Num("11.5".to_string())),
        ])
    );
}

#[test]
fn record_missing_id_fails_with_decode_error_and_store_unchanged() {
    let mut store = apply_db_migrations();
    let rows = vec![
        lecture_hall_row(),
        row(vec![("hash", RawValue::Int(3)), ("name", text("no id"))]),
    ];
    let err = sync_snapshot(&mut store, &rows, ConsistencyMode::Transactional).unwrap_err();
    match err {
        SyncError::Decode { fault, .. } => assert_eq!(fault, DecodeFault::MissingId),
        other => panic!("expected a decode error, got {other:?}"),
    }
    assert_eq!(store.de.len(), 0);
    assert_eq!(store.en.len(), 0);
}

#[test]
fn decode_faults_name_each_malformed_row() {
    let id_not_text = decode_record(&row(vec![("id", RawValue::Int(9))])).unwrap_err();
    assert!(matches!(
        id_not_text,
        SyncError::Decode { fault: DecodeFault::IdNotText, .. }
    ));

    let empty_id = decode_record(&row(vec![("id", text(""))])).unwrap_err();
    assert!(matches!(
        empty_id,
        SyncError::Decode { fault: DecodeFault::EmptyId, .. }
    ));

    let missing_hash = decode_record(&row(vec![("id", text("k1"))])).unwrap_err();
    match missing_hash {
        SyncError::Decode { fault, key } => {
            assert_eq!(fault, DecodeFault::MissingHash);
            assert_eq!(key, "k1");
        }
        other => panic!("expected a decode error, got {other:?}"),
    }

    let hash_not_int =
        decode_record(&row(vec![("id", text("k1")), ("hash", text("seven"))])).unwrap_err();
    assert!(matches!(
        hash_not_int,
        SyncError::Decode { fault: DecodeFault::HashNotInt, .. }
    ));
}

#[test]
fn malformed_scalar_field_is_a_storage_error_naming_the_field() {
    let mut store = apply_db_migrations();
    let rows = vec![row(vec![
        ("id", text("bad1")),
        ("hash", RawValue::Int(1)),
        ("lat", text("very north")),
    ])];
    let err = sync_snapshot(&mut store, &rows, ConsistencyMode::Transactional).unwrap_err();
    match err {
        SyncError::Storage { key, field } => {
            assert_eq!(key, "bad1");
            assert_eq!(field, "lat");
        }
        other => panic!("expected a storage error, got {other:?}"),
    }
}

#[test]
fn transactional_failure_leaves_no_partial_commit() {
    // Record two of three is malformed: the store after the run equals
    // the store before the run.
    let mut store = apply_db_migrations();
    let rows = vec![
        row(vec![("id", text("a")), ("hash", RawValue::Int(1))]),
        row(vec![
            ("id", text("b")),
            ("hash", RawValue::Int(2)),
            ("name", RawValue::Int(5)),
        ]),
        row(vec![("id", text("c")), ("hash", RawValue::Int(3))]),
    ];
    let err = sync_snapshot(&mut store, &rows, ConsistencyMode::Transactional).unwrap_err();
    assert!(matches!(err, SyncError::Storage { .. }));
    assert_eq!(store.de.len(), 0);
    assert_eq!(store.en.len(), 0);
    assert!(store.de.get("a").is_none());
}

#[test]
fn per_record_failure_keeps_prior_records_only() {
    // Record two of three is malformed: record one is committed, records
    // two and three are absent.
    let mut store = apply_db_migrations();
    let rows = vec![
        row(vec![("id", text("a")), ("hash", RawValue::Int(1))]),
        row(vec![
            ("id", text("b")),
            ("hash", RawValue::Int(2)),
            ("name", RawValue::Int(5)),
        ]),
        row(vec![("id", text("c")), ("hash", RawValue::Int(3))]),
    ];
    let err = sync_snapshot(&mut store, &rows, ConsistencyMode::PerRecord).unwrap_err();
    match err {
        SyncError::Storage { key, field } => {
            assert_eq!(key, "b");
            assert_eq!(field, "name");
        }
        other => panic!("expected a storage error, got {other:?}"),
    }
    assert_eq!(store.de.len(), 1);
    assert_eq!(store.en.len(), 1);
    assert!(store.de.get("a").is_some());
    assert!(store.en.get("a").is_some());
    assert!(store.de.get("b").is_none());
    assert!(store.de.get("c").is_none());
}

#[test]
fn rerunning_an_unchanged_snapshot_is_idempotent() {
    let rows = vec![
        lecture_hall_row(),
        row(vec![("id", text("z9")), ("hash", RawValue::Int(-4))]),
    ];

    let mut once = apply_db_migrations();
    sync_snapshot(&mut once, &rows, ConsistencyMode::Transactional).unwrap();

    let mut twice = apply_db_migrations();
    sync_snapshot(&mut twice, &rows, ConsistencyMode::Transactional).unwrap();
    sync_snapshot(&mut twice, &rows, ConsistencyMode::Transactional).unwrap();

    assert!(stores_equal_at(&once, &twice, &["mw123", "z9"]));
}

#[test]
fn key_sets_match_after_a_successful_run() {
    let mut store = apply_db_migrations();
    let rows = vec![
        lecture_hall_row(),
        row(vec![("id", text("z9")), ("hash", RawValue::Int(0))]),
    ];
    sync_snapshot(&mut store, &rows, ConsistencyMode::PerRecord).unwrap();
    assert_eq!(store.de.len(), 2);
    assert_eq!(store.en.len(), 2);
    for key in ["mw123", "z9"] {
        assert!(store.de.contains_key(key));
        assert!(store.en.contains_key(key));
    }
}

#[test]
fn upsert_overwrites_all_non_key_columns() {
    let mut store = apply_db_migrations();
    let old_rows = vec![row(vec![
        ("id", text("r1")),
        ("hash", RawValue::Int(1)),
        ("name", dict(vec![("de", text("Alt")), ("en", text("Old"))])),
    ])];
    sync_snapshot(&mut store, &old_rows, ConsistencyMode::Transactional).unwrap();

    let new_rows = vec![row(vec![
        ("id", text("r1")),
        ("hash", RawValue::Int(2)),
        ("name", dict(vec![("de", text("Neu")), ("en", text("New"))])),
    ])];
    sync_snapshot(&mut store, &new_rows, ConsistencyMode::Transactional).unwrap();

    assert_eq!(store.de.len(), 1);
    let de = store.de.get("r1").unwrap();
    assert_eq!(de.hash, Some(2));
    assert_eq!(de.scalars.name, Some("Neu".to_string()));
    let en = store.en.get("r1").unwrap();
    assert_eq!(en.scalars.name, Some("New".to_string()));
}

#[test]
fn records_compare_content_by_hash() {
    let a = decode_record(&row(vec![("id", text("x")), ("hash", RawValue::Int(7))])).unwrap();
    let b = decode_record(&row(vec![("id", text("y")), ("hash", RawValue::Int(7))])).unwrap();
    let c = decode_record(&row(vec![("id", text("x")), ("hash", RawValue::Int(8))])).unwrap();
    assert!(a.same_content(&b));
    assert!(!a.same_content(&c));
}
