//! The line classifier: one raw line in, one classified line out.
use vstd::prelude::*;
use vstd::string::*;
use crate::text::{
    chars_of, find_line_feed, find_non_space, find_non_space_back, find_non_word, line_stop,
    skip_space, skip_word, slice_chars, string_of, trim,
};

verus! {

/// The kind of a classified line.
#[derive(Debug, Clone, Copy, PartialEq, Eq, Structural)]
pub enum LineType {
    /// Nothing but whitespace.
    Blank,
    /// A piece of statement text.
    Query,
    /// A `--` comment that is not a tag.
    Comment,
    /// A `-- key: value` tag.
    Tag,
    /// A `-- end` marker closing a block.
    EndTag,
}

/// One classified line: its kind, the tag key (for a tag, or `end` for an end
/// marker) and its value (the tag value, comment text or statement text).
#[derive(Debug)]
pub struct ParsedLine {
    pub line_type: LineType,
    pub tag: String,
    pub value: String,
}

/// Mathematical form of a classified line.
pub struct LineModel {
    pub line_type: LineType,
    pub tag: Seq<char>,
    pub value: Seq<char>,
}

impl View for ParsedLine {
    type V = LineModel;

    open spec fn view(&self) -> LineModel {
        LineModel { line_type: self.line_type, tag: self.tag@, value: self.value@ }
    }
}

pub open spec fn starts_with(s: Seq<char>, p: Seq<char>) -> bool {
    p.len() <= s.len() && s.subrange(0, p.len() as int) == p
}

/// The comment marker.
pub open spec fn comment_marker() -> Seq<char> {
    seq!['-', '-']
}

/// The block terminator; anything may follow it on the line.
pub open spec fn end_marker() -> Seq<char> {
    seq!['-', '-', ' ', 'e', 'n', 'd']
}

/// The key reported for an end marker.
pub open spec fn end_key() -> Seq<char> {
    seq!['e', 'n', 'd']
}

/// Key and value of a trimmed line of the shape
/// `--`, whitespace, a key of word characters, whitespace, `:`, whitespace and
/// a non-empty value, which runs up to the first line feed.
pub open spec fn tag_parts(t: Seq<char>) -> Option<(Seq<char>, Seq<char>)> {
    let k0 = skip_space(t, 2);
    let k1 = skip_word(t, k0);
    let c = skip_space(t, k1);
    let v0 = skip_space(t, c + 1);
    if starts_with(t, comment_marker()) && k0 < k1 && c < t.len() && t[c] == ':' && v0 < t.len() {
        Some((t.subrange(k0, k1), t.subrange(v0, line_stop(t, v0))))
    } else {
        None
    }
}

/// The text of a trimmed comment line: what follows `--` and whitespace, up
/// to the first line feed.
pub open spec fn comment_text(t: Seq<char>) -> Seq<char> {
    let a = skip_space(t, 2);
    t.subrange(a, line_stop(t, a))
}

/// How a raw line is classified; the checks are made in this order.
pub open spec fn classify(line: Seq<char>) -> LineModel {
    let t = trim(line);
    if t.len() == 0 {
        LineModel { line_type: LineType::Blank, tag: seq![], value: seq![] }
    } else if starts_with(t, end_marker()) {
        LineModel { line_type: LineType::EndTag, tag: end_key(), value: seq![] }
    } else if starts_with(t, comment_marker()) {
        match tag_parts(t) {
            Some(kv) => LineModel { line_type: LineType::Tag, tag: kv.0, value: kv.1 },
            None => LineModel { line_type: LineType::Comment, tag: seq![], value: comment_text(t) },
        }
    } else {
        LineModel { line_type: LineType::Query, tag: seq![], value: t }
    }
}

fn has_end_marker(t: &Vec<char>) -> (r: bool)
    ensures
        r == starts_with(t@, end_marker()),
{
    if t.len() >= 6 && t[0] == '-' && t[1] == '-' && t[2] == ' ' && t[3] == 'e' && t[4] == 'n'
        && t[5] == 'd' {
        assert(t@.subrange(0, 6) =~= end_marker());
        true
    } else {
        assert(t.len() >= 6 ==> t@.subrange(0, 6)[0] == t@[0] && t@.subrange(0, 6)[1] == t@[1]
            && t@.subrange(0, 6)[2] == t@[2] && t@.subrange(0, 6)[3] == t@[3] && t@.subrange(0, 6)[4]
            == t@[4] && t@.subrange(0, 6)[5] == t@[5]);
        false
    }
}

fn has_comment_marker(t: &Vec<char>) -> (r: bool)
    ensures
        r == starts_with(t@, comment_marker()),
{
    if t.len() >= 2 && t[0] == '-' && t[1] == '-' {
        assert(t@.subrange(0, 2) =~= comment_marker());
        true
    } else {
        assert(t.len() >= 2 ==> t@.subrange(0, 2)[0] == t@[0] && t@.subrange(0, 2)[1] == t@[1]);
        false
    }
}

/// Classifies a line given as characters.
pub fn classify_chars(line: &Vec<char>) -> (r: ParsedLine)
    ensures
        r@ == classify(line@),
{
    let a = find_non_space(line, 0);
    let b = find_non_space_back(line, a, line.len());
    let t = slice_chars(line, a, b);
    assert(t@ == trim(line@));
    if t.len() == 0 {
        return ParsedLine { line_type: LineType::Blank, tag: String::new(), value: String::new() };
    }
    if has_end_marker(&t) {
        proof {
            reveal_strlit("end");
        }
        let tag = String::from_str("end");
        assert(tag@ =~= end_key());
        return ParsedLine { line_type: LineType::EndTag, tag, value: String::new() };
    }
    if !has_comment_marker(&t) {
        let value = string_of(&t, 0, t.len());
        assert(value@ =~= t@);
        return ParsedLine { line_type: LineType::Query, tag: String::new(), value };
    }
    let k0 = find_non_space(&t, 2);
    let k1 = find_non_word(&t, k0);
    let c = find_non_space(&t, k1);
    if k0 < k1 && c < t.len() && t[c] == ':' {
        let v0 = find_non_space(&t, c + 1);
        if v0 < t.len() {
            let v1 = find_line_feed(&t, v0);
            let tag = string_of(&t, k0, k1);
            let value = string_of(&t, v0, v1);
            return ParsedLine { line_type: LineType::Tag, tag, value };
        }
    }
    let m0 = find_non_space(&t, 2);
    let m1 = find_line_feed(&t, m0);
    let value = string_of(&t, m0, m1);
    ParsedLine { line_type: LineType::Comment, tag: String::new(), value }
}

/// Classifies one raw line.
pub fn parse_line(line: &str) -> (r: ParsedLine)
    ensures
        r@ == classify(line@),
{
    let l = chars_of(line);
    classify_chars(&l)
}

} // verus!
