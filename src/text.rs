//! Character classes and small text helpers shared by the line classifier and
//! the block parser.
use vstd::prelude::*;

verus! {

/// The Unicode `White_Space` property, as used by `str::trim` and by `\s`.
pub open spec fn is_space(c: char) -> bool {
    (c as u32 >= 0x9 && c as u32 <= 0xd) || c == ' ' || c as u32 == 0x85 || c as u32 == 0xa0
        || c as u32 == 0x1680 || (c as u32 >= 0x2000 && c as u32 <= 0x200a) || c as u32 == 0x2028
        || c as u32 == 0x2029 || c as u32 == 0x202f || c as u32 == 0x205f || c as u32 == 0x3000
}

/// Executable counterpart of [`is_space`].
pub fn char_is_space(c: char) -> (r: bool)
    ensures
        r == is_space(c),
{
    let u = c as u32;
    (u >= 0x9 && u <= 0xd) || u == 0x20 || u == 0x85 || u == 0xa0 || u == 0x1680 || (u >= 0x2000
        && u <= 0x200a) || u == 0x2028 || u == 0x2029 || u == 0x202f || u == 0x205f || u == 0x3000
}

/// What `char::is_alphanumeric` returns for `c`.
pub uninterp spec fn alphanumeric(c: char) -> bool;

/// Relies on `char::is_alphanumeric`: its answer depends on the character alone.
#[verifier::external_body]
fn char_is_alphanumeric(c: char) -> (r: bool)
    ensures
        r == alphanumeric(c),
{
    c.is_alphanumeric()
}

/// A character that may appear in a tag key: a letter, a digit or `_`.
pub open spec fn is_word(c: char) -> bool {
    alphanumeric(c) || c == '_'
}

/// Executable counterpart of [`is_word`].
pub fn char_is_word(c: char) -> (r: bool)
    ensures
        r == is_word(c),
{
    c == '_' || char_is_alphanumeric(c)
}

/// Relies on `String::push`: appends one character at the end.
#[verifier::external_body]
pub(crate) fn push_char(s: &mut String, c: char)
    ensures
        final(s)@ == old(s)@.push(c),
{
    s.push(c)
}

/// The characters of `s`, in order.
pub fn chars_of(s: &str) -> (r: Vec<char>)
    ensures
        r@ == s@,
{
    let mut r: Vec<char> = Vec::new();
    for c in it: s.chars()
        invariant
            r@ == it.seq().take(it.index() as int),
    {
        r.push(c);
    }
    r
}

/// First index at or after `i` that does not hold whitespace (or `s.len()`).
pub open spec fn skip_space(s: Seq<char>, i: int) -> int
    decreases s.len() - i,
{
    if 0 <= i < s.len() && is_space(s[i]) {
        skip_space(s, i + 1)
    } else {
        i
    }
}

/// Moves `j` down past whitespace, but not below `lo`.
pub open spec fn skip_space_back(s: Seq<char>, lo: int, j: int) -> int
    decreases j - lo,
{
    if lo < j && j <= s.len() && is_space(s[j - 1]) {
        skip_space_back(s, lo, j - 1)
    } else {
        j
    }
}

/// First index at or after `i` that does not hold a word character.
pub open spec fn skip_word(s: Seq<char>, i: int) -> int
    decreases s.len() - i,
{
    if 0 <= i < s.len() && is_word(s[i]) {
        skip_word(s, i + 1)
    } else {
        i
    }
}

/// First index at or after `i` that holds a line feed (or `s.len()`).
pub open spec fn line_stop(s: Seq<char>, i: int) -> int
    decreases s.len() - i,
{
    if 0 <= i < s.len() && s[i] != '\n' {
        line_stop(s, i + 1)
    } else {
        i
    }
}

/// `s` without leading and trailing whitespace.
pub open spec fn trim(s: Seq<char>) -> Seq<char> {
    let a = skip_space(s, 0);
    s.subrange(a, skip_space_back(s, a, s.len() as int))
}

pub proof fn lemma_line_stop_bounds(s: Seq<char>, i: int)
    requires
        0 <= i <= s.len(),
    ensures
        i <= line_stop(s, i) <= s.len(),
    decreases s.len() - i,
{
    if i < s.len() && s[i] != '\n' {
        lemma_line_stop_bounds(s, i + 1);
    }
}

/// Executable [`skip_space`].
pub fn find_non_space(s: &Vec<char>, i: usize) -> (r: usize)
    requires
        i <= s.len(),
    ensures
        r == skip_space(s@, i as int),
        i <= r <= s.len(),
{
    let mut j = i;
    while j < s.len() && char_is_space(s[j])
        invariant
            i <= j <= s.len(),
            skip_space(s@, j as int) == skip_space(s@, i as int),
        decreases s.len() - j,
    {
        j = j + 1;
    }
    j
}

/// Executable [`skip_space_back`].
pub fn find_non_space_back(s: &Vec<char>, lo: usize, hi: usize) -> (r: usize)
    requires
        lo <= hi <= s.len(),
    ensures
        r == skip_space_back(s@, lo as int, hi as int),
        lo <= r <= hi,
{
    let mut j = hi;
    while j > lo && char_is_space(s[j - 1])
        invariant
            lo <= j <= hi <= s.len(),
            skip_space_back(s@, lo as int, j as int) == skip_space_back(s@, lo as int, hi as int),
        decreases j,
    {
        j = j - 1;
    }
    j
}

/// Executable [`skip_word`].
pub fn find_non_word(s: &Vec<char>, i: usize) -> (r: usize)
    requires
        i <= s.len(),
    ensures
        r == skip_word(s@, i as int),
        i <= r <= s.len(),
{
    let mut j = i;
    while j < s.len() && char_is_word(s[j])
        invariant
            i <= j <= s.len(),
            skip_word(s@, j as int) == skip_word(s@, i as int),
        decreases s.len() - j,
    {
        j = j + 1;
    }
    j
}

/// Executable [`line_stop`].
pub fn find_line_feed(s: &Vec<char>, i: usize) -> (r: usize)
    requires
        i <= s.len(),
    ensures
        r == line_stop(s@, i as int),
        i <= r <= s.len(),
{
    let mut j = i;
    while j < s.len() && s[j] != '\n'
        invariant
            i <= j <= s.len(),
            line_stop(s@, j as int) == line_stop(s@, i as int),
        decreases s.len() - j,
    {
        j = j + 1;
    }
    j
}

/// The characters `s[lo..hi]` as a new vector.
pub fn slice_chars(s: &Vec<char>, lo: usize, hi: usize) -> (r: Vec<char>)
    requires
        lo <= hi <= s.len(),
    ensures
        r@ == s@.subrange(lo as int, hi as int),
{
    let mut r: Vec<char> = Vec::new();
    let mut j = lo;
    while j < hi
        invariant
            lo <= j <= hi <= s.len(),
            r@ == s@.subrange(lo as int, j as int),
        decreases hi - j,
    {
        r.push(s[j]);
        j = j + 1;
        assert(r@ =~= s@.subrange(lo as int, j as int));
    }
    r
}

/// The characters `s[lo..hi]` as a new string.
pub fn string_of(s: &Vec<char>, lo: usize, hi: usize) -> (r: String)
    requires
        lo <= hi <= s.len(),
    ensures
        r@ == s@.subrange(lo as int, hi as int),
{
    let mut r = String::new();
    let mut j = lo;
    while j < hi
        invariant
            lo <= j <= hi <= s.len(),
            r@ == s@.subrange(lo as int, j as int),
        decreases hi - j,
    {
        push_char(&mut r, s[j]);
        j = j + 1;
        assert(r@ =~= s@.subrange(lo as int, j as int));
    }
    r
}

/// The decimal digit for `d`.
pub open spec fn digit_char(d: nat) -> char {
    ((d + '0' as u32) as u32) as char
}

/// Decimal notation of `n`, without leading zeros.
pub open spec fn decimal(n: nat) -> Seq<char>
    decreases n,
{
    if n < 10 {
        seq![digit_char(n)]
    } else {
        decimal(n / 10).push(digit_char(n % 10))
    }
}

/// Appends the decimal notation of `n` to `s`.
pub fn push_decimal(s: &mut String, n: usize)
    ensures
        final(s)@ == old(s)@ + decimal(n as nat),
    decreases n,
{
    if n >= 10 {
        push_decimal(s, n / 10);
    }
    let d = (n % 10) as u32;
    let c = char_from_digit(d);
    push_char(s, c);
    assert(final(s)@ =~= old(s)@ + decimal(n as nat));
}

fn char_from_digit(d: u32) -> (c: char)
    requires
        d < 10,
    ensures
        c == digit_char(d as nat),
{
    match d {
        0 => '0',
        1 => '1',
        2 => '2',
        3 => '3',
        4 => '4',
        5 => '5',
        6 => '6',
        7 => '7',
        8 => '8',
        _ => '9',
    }
}

} // verus!
