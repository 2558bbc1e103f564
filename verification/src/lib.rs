//! A verified JSON parser.
//!
//! The library parses a JSON document into a tree of [`Value`]s by
//! recursive descent and offers typed accessors for reading that tree.
//! The grammar itself is written down once, as a family of spec
//! functions in [`grammar`]; the executable parser in [`parsers`] is
//! proved to return exactly what those functions describe.

pub mod grammar;
pub mod json;
pub mod parsers;

pub use grammar::ErrorKind;
pub use json::{parse_json, Mapping, Number, ParseError, Value};
