//! A lightweight TOML parser and serializer, with its behaviour stated and proved.

mod text;

pub mod de;
pub mod ser;
pub mod roundtrip;
pub mod multiline;
pub mod inline;
pub mod document;
pub mod sections;
pub mod nesting;
pub mod readback;
pub mod line_ends;
pub mod values;
