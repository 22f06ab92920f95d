//! Conversion of XML documents into a generic tree of mappings, lists and
//! text, following the convention in which an element becomes a key of its
//! parent, attributes become keys that start with `@`, and character data is
//! kept under `#text`.

pub mod canonical;
pub mod convert;
pub mod error;
pub mod event;
pub mod forward;
pub mod laws;
pub mod name;
pub mod token;
pub mod value;

pub use crate::convert::{_parse, convert, parse, Converter};
pub use crate::error::{ErrorKind, ParseError};
pub use crate::event::{Attribute, Event};
pub use crate::name::qn;
pub use crate::value::{update_mapping, Entry, Mapping, Value};
