use locale_sync::decompose::Lang;
use locale_sync::value::RawValue;

fn text(s: &str) -> RawValue {
    RawValue::Text(s.to_string())
}

fn dict(entries: Vec<(&str, RawValue)>) -> RawValue {
    RawValue::Dict(entries.into_iter().map(|(k, v)| (k.to_string(), v)).collect())
}

#[test]
fn scalars_pass_through_unchanged() {
    assert_eq!(RawValue::Null.decompose(Lang::De), RawValue::Null);
    assert_eq!(RawValue::Bool(true).decompose(Lang::En), RawValue::Bool(true));
    assert_eq!(RawValue::Int(-3).decompose(Lang::De), RawValue::Int(-3));
    assert_eq!(
        RawValue::Num("48.1".to_string()).decompose(Lang::De),
        RawValue::Num("48.1".to_string())
    );
    assert_eq!(text("plain").decompose(Lang::En), text("plain"));
}

#[test]
fn locale_object_collapses_to_requested_language() {
    let v = dict(vec![("de", text("Hörsaal")), ("en", text("Lecture Hall"))]);
    assert_eq!(v.decompose(Lang::De), text("Hörsaal"));
    assert_eq!(v.decompose(Lang::En), text("Lecture Hall"));
}

#[test]
fn locale_isolation_no_cross_language_leakage() {
    // A field whose raw value is a locale object with distinct halves:
    // the "de" projection never contains the "en" value, and vice versa.
    let v = dict(vec![(
        "name",
        dict(vec![("de", text("Hörsaal 1")), ("en", text("Lecture Hall 1"))]),
    )]);
    let de = v.decompose(Lang::De);
    let en = v.decompose(Lang::En);
    assert_eq!(de, dict(vec![("name", text("Hörsaal 1"))]));
    assert_eq!(en, dict(vec![("name", text("Lecture Hall 1"))]));
}

#[test]
fn missing_language_key_becomes_empty_string() {
    let v = dict(vec![("de", text("nur deutsch"))]);
    assert_eq!(v.decompose(Lang::En), text(""));
    assert_eq!(v.decompose(Lang::De), text("nur deutsch"));
}

#[test]
fn sequences_are_preserved_in_order() {
    let v = RawValue::List(vec![
        dict(vec![("de", text("eins")), ("en", text("one"))]),
        RawValue::Int(2),
        dict(vec![("en", text("three"))]),
    ]);
    assert_eq!(
        v.decompose(Lang::En),
        RawValue::List(vec![text("one"), RawValue::Int(2), text("three")])
    );
    assert_eq!(
        v.decompose(Lang::De),
        RawValue::List(vec![text("eins"), RawValue::Int(2), text("")])
    );
}

#[test]
fn plain_mappings_keep_keys_and_recurse() {
    let v = dict(vec![
        ("a", dict(vec![("de", text("tief")), ("en", text("deep"))])),
        ("b", RawValue::Bool(false)),
    ]);
    assert_eq!(
        v.decompose(Lang::De),
        dict(vec![("a", text("tief")), ("b", RawValue::Bool(false))])
    );
}

#[test]
fn locale_object_may_hold_structured_values() {
    let v = dict(vec![(
        "rooms",
        dict(vec![
            ("de", RawValue::List(vec![text("Raum"), text("Saal")])),
            ("en", RawValue::List(vec![text("Room"), text("Hall")])),
        ]),
    )]);
    assert_eq!(
        v.decompose(Lang::De),
        dict(vec![("rooms", RawValue::List(vec![text("Raum"), text("Saal")]))])
    );
}

#[test]
fn nested_locale_objects_collapse_at_every_depth() {
    let v = dict(vec![(
        "outer",
        dict(vec![(
            "inner",
            dict(vec![("de", text("innen")), ("en", text("inner"))]),
        )]),
    )]);
    assert_eq!(
        v.decompose(Lang::En),
        dict(vec![("outer", dict(vec![("inner", text("inner"))]))])
    );
}

#[test]
fn first_binding_of_the_language_wins() {
    let v = RawValue::Dict(vec![
        ("de".to_string(), text("erste")),
        ("de".to_string(), text("zweite")),
    ]);
    assert_eq!(v.decompose(Lang::De), text("erste"));
}
