//! A recursive-descent parser that turns JSON text into a tree value.
//!
//! Every production is a function from a text and a starting offset to either
//! the parsed value with the offset that follows it, or a failure. A failure is
//! recoverable while alternatives may still be tried, and fatal once the
//! opening delimiter of a string, an array or an object has been consumed.
//!
//! The module `grammar` defines what each production yields, the modules
//! `scalar`, `strings` and `parser` hold the productions, each proved to
//! yield just that, and the module `laws` states what follows for every text.

pub mod document;
pub mod error;
pub mod grammar;
pub mod laws;
pub mod parser;
pub mod scalar;
pub mod std_specs;
pub mod strings;
pub mod value;

pub use crate::document::{characters, parse_document};
pub use crate::error::{Context, ErrorKind, Failure, ParseError};
pub use crate::parser::{array, json, json_value, key_value, object};
pub use crate::scalar::{boolean, null, number, ws};
pub use crate::strings::{character, string, u16_hex, unicode_escape};
pub use crate::value::{insert_member, JsonValue};
