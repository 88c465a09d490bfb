use locale_sync::store::Collection;
use locale_sync::store::Extracted;
use locale_sync::store::StoredRow;
use locale_sync::value::RawValue;

fn plain_row(payload: RawValue, hash: Option<i64>) -> StoredRow {
    StoredRow {
        payload,
        scalars: Extracted {
            name: None,
            tumonline_room_nr: None,
            type_: None,
            type_common_name: None,
            lat: None,
            lon: None,
        },
        hash,
    }
}

#[test]
fn a_new_collection_is_empty() {
    let c = Collection::new();
    assert_eq!(c.len(), 0);
    assert!(c.get("anything").is_none());
    assert!(!c.contains_key("anything"));
    assert!(c.keys().is_empty());
}

#[test]
fn upsert_inserts_then_overwrites_in_place() {
    let mut c = Collection::new();
    c.upsert("k1".to_string(), plain_row(RawValue::Int(1), Some(1)));
    c.upsert("k2".to_string(), plain_row(RawValue::Int(2), None));
    assert_eq!(c.len(), 2);
    assert_eq!(c.get("k1").unwrap().payload, RawValue::Int(1));

    c.upsert("k1".to_string(), plain_row(RawValue::Int(9), Some(9)));
    assert_eq!(c.len(), 2);
    assert_eq!(c.get("k1").unwrap().payload, RawValue::Int(9));
    assert_eq!(c.get("k1").unwrap().hash, Some(9));
    assert_eq!(c.get("k2").unwrap().payload, RawValue::Int(2));
}

#[test]
fn keys_lists_each_key_once_in_insertion_order() {
    let mut c = Collection::new();
    c.upsert("b".to_string(), plain_row(RawValue::Null, None));
    c.upsert("a".to_string(), plain_row(RawValue::Null, None));
    c.upsert("b".to_string(), plain_row(RawValue::Bool(true), None));
    assert_eq!(c.keys(), vec!["b".to_string(), "a".to_string()]);
}

#[test]
fn duplicate_copies_a_value_deeply() {
    let v = RawValue::Dict(vec![
        (
            "xs".to_string(),
            RawValue::List(vec![RawValue::Int(1), RawValue::Text("zwei".to_string())]),
        ),
        ("n".to_string(), RawValue::Num("3.5".to_string())),
    ]);
    assert_eq!(v.duplicate(), v);
}
