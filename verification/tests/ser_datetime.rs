use soml::ser::datetime::{DatetimeKind, DatetimeWrapper};
use soml::ser::error::ErrorKind;
use soml::ser::tree::Value;

fn refused_with(r: Result<DatetimeKind, soml::ser::error::Error>) -> String {
    match r {
        Ok(_) => panic!("the field was accepted"),
        Err(e) => match e.kind() {
            ErrorKind::UnsupportedValue(m) => m.to_string(),
            _ => panic!("another error"),
        },
    }
}

#[test]
fn a_wrapper_of_any_kind_takes_the_kind_of_its_field() {
    let mut w = DatetimeWrapper::Any;
    let kind = w.field(Some(DatetimeKind::LocalDate), "date").unwrap();
    assert_eq!(kind, DatetimeKind::LocalDate);
    w.fill(kind, "1979-05-27".to_string());
    assert_eq!(refused_with(w.field(Some(DatetimeKind::LocalDate), "date")), "date-time wrapper with more than one member");
    assert!(matches!(w.end(), Ok(Value::Inline(s)) if s == "1979-05-27"));
}

#[test]
fn a_wrapper_of_a_kind_takes_only_its_own_field() {
    let w = DatetimeWrapper::Kind(DatetimeKind::OffsetDatetime, None);
    assert_eq!(w.field(Some(DatetimeKind::OffsetDatetime), "odt").unwrap(), DatetimeKind::OffsetDatetime);
    assert_eq!(refused_with(w.field(Some(DatetimeKind::LocalTime), "time")), "time");
    assert_eq!(refused_with(w.field(None, "other")), "other");
    assert_eq!(refused_with(DatetimeWrapper::Any.field(None, "other")), "other");
}

#[test]
fn an_empty_wrapper_is_refused() {
    for w in [DatetimeWrapper::Any, DatetimeWrapper::Kind(DatetimeKind::LocalTime, None)] {
        match w.end() {
            Err(e) => assert!(matches!(e.kind(), ErrorKind::UnsupportedValue("empty date-time wrapper"))),
            Ok(_) => panic!("an empty wrapper was accepted"),
        }
    }
}
