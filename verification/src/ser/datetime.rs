//! The decisions of the serializer for a date-time wrapper struct: a struct that holds one
//! date-time, written as its text.

use vstd::prelude::*;

use super::error::{Error, ErrorKind};
use super::tree::Value;

verus! {

/// The kind of date-time that a wrapper struct (or one of its fields) stands for.
#[derive(Debug, Clone, Copy, PartialEq, Eq, Structural)]
pub enum DatetimeKind {
    OffsetDatetime,
    LocalDatetime,
    LocalDate,
    LocalTime,
}

/// A date-time wrapper struct that is being written: one that may hold a date-time of any kind,
/// or one of a given kind, with the text of its date-time once its field has been written.
#[derive(Debug)]
pub enum DatetimeWrapper {
    Any,
    Kind(DatetimeKind, Option<String>),
}

/// What writing a field does: fill the wrapper with a date-time of a kind, or fail.
pub enum FieldStep {
    /// Write the field's value as the text of a date-time of this kind
    Fill(DatetimeKind),
    /// Fail with this error
    Refuse(ErrorKind),
}

impl DatetimeWrapper {
    /// What writing the field `key` does, where `field` is the kind of date-time that `key`
    /// names (`None` if it names none): a second field is refused; a field of the wrapper's
    /// kind (of any kind, for a wrapper of any kind) is written; any other field is refused with
    /// its key.
    pub open spec fn spec_field(&self, field: Option<DatetimeKind>, key: &'static str) -> FieldStep {
        match self {
            DatetimeWrapper::Kind(_, Some(_)) => FieldStep::Refuse(
                ErrorKind::UnsupportedValue("date-time wrapper with more than one member"),
            ),
            DatetimeWrapper::Any => match field {
                Some(k) => FieldStep::Fill(k),
                None => FieldStep::Refuse(ErrorKind::UnsupportedValue(key)),
            },
            DatetimeWrapper::Kind(k, None) => if field == Some(*k) {
                FieldStep::Fill(*k)
            } else {
                FieldStep::Refuse(ErrorKind::UnsupportedValue(key))
            },
        }
    }

    /// Decides what writing the field `key` does (see [`Self::spec_field`]).
    pub fn field(&self, field: Option<DatetimeKind>, key: &'static str) -> (r: Result<DatetimeKind, Error>)
        ensures
            match self.spec_field(field, key) {
                FieldStep::Fill(k) => r == Ok::<DatetimeKind, Error>(k),
                FieldStep::Refuse(e) => r matches Err(err) && err.spec_kind() == e,
            },
    {
        match self {
            DatetimeWrapper::Kind(_, Some(_)) => Err(
                Error::from_kind(ErrorKind::UnsupportedValue("date-time wrapper with more than one member")),
            ),
            DatetimeWrapper::Any => match field {
                Some(k) => Ok(k),
                None => Err(Error::from_kind(ErrorKind::UnsupportedValue(key))),
            },
            DatetimeWrapper::Kind(k, None) => {
                let same = match field {
                    Some(f) => f == *k,
                    None => false,
                };
                if same {
                    Ok(*k)
                } else {
                    Err(Error::from_kind(ErrorKind::UnsupportedValue(key)))
                }
            },
        }
    }

    /// Fills the wrapper with the text of a date-time of the given kind.
    pub fn fill(&mut self, kind: DatetimeKind, text: String)
        ensures
            *final(self) == DatetimeWrapper::Kind(kind, Some(text)),
    {
        *self = DatetimeWrapper::Kind(kind, Some(text));
    }

    /// Ends the wrapper: the text of its date-time, written inline, or an error if no field gave
    /// it one.
    pub fn end(self) -> (r: Result<Value, Error>)
        ensures
            match self {
                DatetimeWrapper::Kind(_, Some(t)) => r matches Ok(Value::Inline(s)) && s@ == t@,
                _ => r matches Err(err) && err.spec_kind() == ErrorKind::UnsupportedValue("empty date-time wrapper"),
            },
    {
        match self {
            DatetimeWrapper::Kind(_, Some(t)) => Ok(Value::Inline(t)),
            _ => Err(Error::from_kind(ErrorKind::UnsupportedValue("empty date-time wrapper"))),
        }
    }
}

} // verus!
