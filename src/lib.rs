//! Parser for files of named SQL statements.
//!
//! Each statement is introduced by a `-- name: <name>` tag, may carry further
//! `-- key: value` tags, and may span several lines up to the next `name` tag
//! or an explicit `-- end` marker. The result is a table from names to the
//! assembled statement text and its tags.
pub mod text;
pub mod error;
pub mod laws;
pub mod line;
pub mod parser;
pub mod query;

pub use error::ParseError;
pub use line::{parse_line, LineType, ParsedLine};
pub use parser::parse;
pub use query::{Queries, Query};
