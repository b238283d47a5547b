//! Errors of a parse, with the text that locates each one.
use vstd::prelude::*;
use vstd::string::StringExecFns;
use crate::text::{decimal, push_decimal};

verus! {

/// Why a parse failed. Each variant carries a message that names the line,
/// statement or tag concerned.
#[derive(Debug)]
pub enum ParseError {
    /// The input could not be read.
    IOError(String),
    /// A statement name used twice, or a tag key repeated within a statement.
    DuplicateTag(String),
    /// Statement text with no block open.
    MissingNameTag(String),
    /// A statement with no text.
    EmptyQuery(String),
    /// A tag other than `name` with no block open.
    InvalidTagOrder(String),
    /// Placeholders not numbered `$1`, `$2`, ... in order of appearance.
    UnmatchedPlaceholders(String),
    /// Statement text that is not valid SQL.
    MalformedSQL(String),
}

/// Mathematical form of a [`ParseError`].
pub enum ErrorModel {
    IOError(Seq<char>),
    DuplicateTag(Seq<char>),
    MissingNameTag(Seq<char>),
    EmptyQuery(Seq<char>),
    InvalidTagOrder(Seq<char>),
    UnmatchedPlaceholders(Seq<char>),
    MalformedSQL(Seq<char>),
}

impl View for ParseError {
    type V = ErrorModel;

    open spec fn view(&self) -> ErrorModel {
        match self {
            ParseError::IOError(m) => ErrorModel::IOError(m@),
            ParseError::DuplicateTag(m) => ErrorModel::DuplicateTag(m@),
            ParseError::MissingNameTag(m) => ErrorModel::MissingNameTag(m@),
            ParseError::EmptyQuery(m) => ErrorModel::EmptyQuery(m@),
            ParseError::InvalidTagOrder(m) => ErrorModel::InvalidTagOrder(m@),
            ParseError::UnmatchedPlaceholders(m) => ErrorModel::UnmatchedPlaceholders(m@),
            ParseError::MalformedSQL(m) => ErrorModel::MalformedSQL(m@),
        }
    }
}

/// Text of the error raised when a statement name is used a second time.
pub open spec fn duplicate_name_text(name: Seq<char>) -> Seq<char> {
    "Duplicate query name found: '"@ + name + "'"@
}

/// Text of the error raised when a tag key repeats within statement `name`.
pub open spec fn duplicate_key_text(key: Seq<char>, name: Seq<char>) -> Seq<char> {
    "Duplicate tag '"@ + key + "' for query '"@ + name + "'"@
}

/// Text of the error raised for statement text on line `line` with no block open.
pub open spec fn missing_name_text(line: nat, text: Seq<char>) -> Seq<char> {
    "Query without 'name' tag found at line "@ + decimal(line) + ": '"@ + text + "'"@
}

/// Text of the error raised for tag `key` on line `line` with no block open.
pub open spec fn tag_order_text(key: Seq<char>, line: nat) -> Seq<char> {
    "'name' should be the first tag, found '"@ + key + "' at line "@ + decimal(line)
}

/// Text of the error raised for statement `name` without text.
pub open spec fn empty_query_text(name: Seq<char>) -> Seq<char> {
    "Query '"@ + name + "' is empty"@
}

/// Text of the error raised when the placeholder at position `expected`
/// (counting from 1) of statement `name` carries the digits `found`.
pub open spec fn placeholder_text(name: Seq<char>, expected: nat, found: Seq<char>) -> Seq<char> {
    "Query '"@ + name + "' has incorrect placeholder order: expected "@ + decimal(expected)
        + ", found "@ + found
}

/// What [`ParseError::message`] returns: a heading for the kind, then the detail.
pub open spec fn error_text(e: ErrorModel) -> Seq<char> {
    match e {
        ErrorModel::IOError(m) => "IO error: "@ + m,
        ErrorModel::DuplicateTag(m) => "Duplicate tag: "@ + m,
        ErrorModel::MissingNameTag(m) => "Missing name tag: "@ + m,
        ErrorModel::EmptyQuery(m) => "Query without content: "@ + m,
        ErrorModel::InvalidTagOrder(m) => "Invalid tag order: "@ + m,
        ErrorModel::UnmatchedPlaceholders(m) => "Unmatched placeholders: "@ + m,
        ErrorModel::MalformedSQL(m) => "Malformed SQL syntax: "@ + m,
    }
}

fn joined(head: &str, m: &String) -> (r: String)
    ensures
        r@ == head@ + m@,
{
    let mut r = String::from_str(head);
    r.append(m.as_str());
    r
}

impl ParseError {
    /// A readable description of the error.
    pub fn message(&self) -> (r: String)
        ensures
            r@ == error_text(self@),
    {
        match self {
            ParseError::IOError(m) => joined("IO error: ", m),
            ParseError::DuplicateTag(m) => joined("Duplicate tag: ", m),
            ParseError::MissingNameTag(m) => joined("Missing name tag: ", m),
            ParseError::EmptyQuery(m) => joined("Query without content: ", m),
            ParseError::InvalidTagOrder(m) => joined("Invalid tag order: ", m),
            ParseError::UnmatchedPlaceholders(m) => joined("Unmatched placeholders: ", m),
            ParseError::MalformedSQL(m) => joined("Malformed SQL syntax: ", m),
        }
    }
}

/// The error for a statement name used a second time.
pub fn duplicate_name_error(name: &String) -> (r: ParseError)
    ensures
        r@ == ErrorModel::DuplicateTag(duplicate_name_text(name@)),
{
    let mut m = String::from_str("Duplicate query name found: '");
    m.append(name.as_str());
    m.append("'");
    ParseError::DuplicateTag(m)
}

/// The error for tag `key` repeated within statement `name`.
pub fn duplicate_key_error(key: &String, name: &String) -> (r: ParseError)
    ensures
        r@ == ErrorModel::DuplicateTag(duplicate_key_text(key@, name@)),
{
    let mut m = String::from_str("Duplicate tag '");
    m.append(key.as_str());
    m.append("' for query '");
    m.append(name.as_str());
    m.append("'");
    ParseError::DuplicateTag(m)
}

/// The error for statement text on line `line` with no block open.
pub fn missing_name_error(line: usize, text: &String) -> (r: ParseError)
    ensures
        r@ == ErrorModel::MissingNameTag(missing_name_text(line as nat, text@)),
{
    let mut m = String::from_str("Query without 'name' tag found at line ");
    push_decimal(&mut m, line);
    m.append(": '");
    m.append(text.as_str());
    m.append("'");
    ParseError::MissingNameTag(m)
}

/// The error for tag `key` on line `line` with no block open.
pub fn tag_order_error(key: &String, line: usize) -> (r: ParseError)
    ensures
        r@ == ErrorModel::InvalidTagOrder(tag_order_text(key@, line as nat)),
{
    let mut m = String::from_str("'name' should be the first tag, found '");
    m.append(key.as_str());
    m.append("' at line ");
    push_decimal(&mut m, line);
    ParseError::InvalidTagOrder(m)
}

/// The error for statement `name` without text.
pub fn empty_query_error(name: &String) -> (r: ParseError)
    ensures
        r@ == ErrorModel::EmptyQuery(empty_query_text(name@)),
{
    let mut m = String::from_str("Query '");
    m.append(name.as_str());
    m.append("' is empty");
    ParseError::EmptyQuery(m)
}

/// The error for a misnumbered placeholder of statement `name`.
pub fn placeholder_error(name: &String, expected: usize, found: &String) -> (r: ParseError)
    ensures
        r@ == ErrorModel::UnmatchedPlaceholders(placeholder_text(name@, expected as nat, found@)),
{
    let mut m = String::from_str("Query '");
    m.append(name.as_str());
    m.append("' has incorrect placeholder order: expected ");
    push_decimal(&mut m, expected);
    m.append(", found ");
    m.append(found.as_str());
    ParseError::UnmatchedPlaceholders(m)
}

} // verus!
