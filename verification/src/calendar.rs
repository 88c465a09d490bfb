//! Classification of scraped calendar events.
//!
//! A scraped event carries two type codes and a few human-readable names;
//! the single-event code is decisive, the event code second, and anything
//! else is reported as "other" with a descriptive label.

use vstd::prelude::*;
use vstd::string::StringExecFns;

verus! {

/// The rendered kind of one calendar entry.
#[derive(Clone, Copy, PartialEq, Eq, Structural, Debug)]
pub enum EventType {
    Lecture,
    Exercise,
    Exam,
    Barred,
    Other,
}

/// The fields of one scraped calendar event that decide its type.
pub struct EventKindInfo {
    pub single_event_type_id: String,
    pub single_event_type_name: String,
    pub event_type_id: String,
    pub event_type_name: Option<String>,
    pub course_type_name: Option<String>,
}

/// The detailed label accompanying a lecture: the course type name, with
/// a fixed fallback when none is known.
pub open spec fn spec_course_label(e: EventKindInfo) -> Seq<char> {
    match e.course_type_name {
        Some(c) => c@,
        None => "Course type is unknown"@,
    }
}

/// The event type and its detailed label: the single-event code decides
/// first (barred, exam, or an exam code standing in for a lecture), the
/// event code second (lecture, exam, exercise), and everything else is
/// "other", labelled from the human-readable names.
pub open spec fn spec_classify(e: EventKindInfo) -> (EventType, Seq<char>) {
    if e.single_event_type_id@ == "SPERRE"@ {
        (EventType::Barred, Seq::empty())
    } else if e.single_event_type_id@ == "PT"@ {
        (EventType::Exam, Seq::empty())
    } else if e.single_event_type_id@ == "P"@ {
        (EventType::Lecture, spec_course_label(e))
    } else if e.event_type_id@ == "LV"@ {
        (EventType::Lecture, spec_course_label(e))
    } else if e.event_type_id@ == "PT"@ {
        (EventType::Exam, Seq::empty())
    } else if e.event_type_id@ == "EX"@ {
        (EventType::Exercise, Seq::empty())
    } else {
        match e.event_type_name {
            Some(n) => (EventType::Other, e.single_event_type_name@ + ": "@ + n@),
            None => (EventType::Other, e.single_event_type_name@),
        }
    }
}

/// Whether a string equals a literal code.
fn str_is(a: &String, b: &str) -> (r: bool)
    ensures
        r == (a@ == b@),
{
    *a == b.to_owned()
}

impl EventType {
    /// Classify one scraped event into its type and detailed label.
    pub fn from(e: &EventKindInfo) -> (r: (EventType, String))
        ensures
            r.0 == spec_classify(*e).0,
            r.1@ == spec_classify(*e).1,
    {
        if str_is(&e.single_event_type_id, "SPERRE") {
            return (EventType::Barred, String::new());
        }
        if str_is(&e.single_event_type_id, "PT") {
            return (EventType::Exam, String::new());
        }
        let course: String = match &e.course_type_name {
            Some(c) => c.clone(),
            None => "Course type is unknown".to_owned(),
        };
        if str_is(&e.single_event_type_id, "P") {
            return (EventType::Lecture, course);
        }
        if str_is(&e.event_type_id, "LV") {
            return (EventType::Lecture, course);
        }
        if str_is(&e.event_type_id, "PT") {
            return (EventType::Exam, String::new());
        }
        if str_is(&e.event_type_id, "EX") {
            return (EventType::Exercise, String::new());
        }
        match &e.event_type_name {
            Some(n) => {
                let label = e.single_event_type_name.clone().concat(": ").concat(n.as_str());
                (EventType::Other, label)
            },
            None => (EventType::Other, e.single_event_type_name.clone()),
        }
    }
}

} // verus!
