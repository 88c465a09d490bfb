use locale_sync::calendar::EventKindInfo;
use locale_sync::calendar::EventType;

fn info(
    single_id: &str,
    single_name: &str,
    event_id: &str,
    event_name: Option<&str>,
    course: Option<&str>,
) -> EventKindInfo {
    EventKindInfo {
        single_event_type_id: single_id.to_string(),
        single_event_type_name: single_name.to_string(),
        event_type_id: event_id.to_string(),
        event_type_name: event_name.map(|s| s.to_string()),
        course_type_name: course.map(|s| s.to_string()),
    }
}

#[test]
fn barred_and_exam_codes_decide_first() {
    let (t, d) = EventType::from(&info("SPERRE", "Sperre", "LV", None, Some("VO")));
    assert_eq!(t, EventType::Barred);
    assert_eq!(d, "");

    let (t, d) = EventType::from(&info("PT", "Prüfung", "LV", None, Some("VO")));
    assert_eq!(t, EventType::Exam);
    assert_eq!(d, "");
}

#[test]
fn planned_exam_code_stands_in_for_a_lecture() {
    let (t, d) = EventType::from(&info("P", "Prüfung", "XX", None, Some("Vorlesung")));
    assert_eq!(t, EventType::Lecture);
    assert_eq!(d, "Vorlesung");
}

#[test]
fn event_codes_decide_second() {
    let (t, d) = EventType::from(&info("VT", "Termin", "LV", None, None));
    assert_eq!(t, EventType::Lecture);
    assert_eq!(d, "Course type is unknown");

    let (t, d) = EventType::from(&info("VT", "Termin", "PT", None, None));
    assert_eq!(t, EventType::Exam);
    assert_eq!(d, "");

    let (t, d) = EventType::from(&info("VT", "Termin", "EX", None, None));
    assert_eq!(t, EventType::Exercise);
    assert_eq!(d, "");
}

#[test]
fn unknown_codes_fall_back_to_a_descriptive_label() {
    let (t, d) = EventType::from(&info("VT", "Termin", "ZZ", Some("Sondertermin"), None));
    assert_eq!(t, EventType::Other);
    assert_eq!(d, "Termin: Sondertermin");

    let (t, d) = EventType::from(&info("VT", "Termin", "ZZ", None, None));
    assert_eq!(t, EventType::Other);
    assert_eq!(d, "Termin");
}
