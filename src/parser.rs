//! The block aggregator and the validator: from text to a table of statements.
use vstd::prelude::*;
use vstd::string::StringExecFns;
use vstd::pervasive::VecAdditionalExecFns;
use crate::error::{
    duplicate_key_error, duplicate_key_text, duplicate_name_error, duplicate_name_text,
    empty_query_error, empty_query_text, missing_name_error, missing_name_text, placeholder_error,
    placeholder_text, tag_order_error, tag_order_text, ErrorModel, ParseError,
};
use crate::line::{classify, classify_chars, LineModel, LineType, ParsedLine};
use crate::laws::lemma_run_wf;
use crate::query::{
    empty_query, entry_view, has_key, keys_unique, pair_view, Query, QueryModel, Queries,
};
use crate::text::{
    chars_of, find_line_feed, lemma_line_stop_bounds, line_stop, slice_chars, string_of,
};

verus! {

/// The tag key that opens a block.
pub open spec fn name_key() -> Seq<char> {
    seq!['n', 'a', 'm', 'e']
}

/// The lines of `s` from index `i` on: the text between line feeds, without
/// an empty last line after a final line feed.
pub open spec fn lines_from(s: Seq<char>, i: int) -> Seq<Seq<char>>
    decreases s.len() + 1 - i,
    via lines_from_decreases
{
    if i < 0 || i >= s.len() {
        seq![]
    } else {
        let e = line_stop(s, i);
        seq![s.subrange(i, e)] + lines_from(s, e + 1)
    }
}

#[via_fn]
proof fn lines_from_decreases(s: Seq<char>, i: int) {
    if 0 <= i < s.len() {
        lemma_line_stop_bounds(s, i);
    }
}

/// The lines of `s`.
pub open spec fn lines_of(s: Seq<char>) -> Seq<Seq<char>> {
    lines_from(s, 0)
}

/// State of the aggregator: the block receiving lines, if any, as an index
/// into the table built so far.
pub struct ParseState {
    pub active: Option<int>,
    pub table: Seq<(Seq<char>, QueryModel)>,
}

pub open spec fn initial_state() -> ParseState {
    ParseState { active: None, table: seq![] }
}

/// `text` with `piece` appended, separated by one space unless `text` is empty.
pub open spec fn append_text(text: Seq<char>, piece: Seq<char>) -> Seq<char> {
    if text.len() == 0 {
        piece
    } else {
        text + seq![' '] + piece
    }
}

/// One step of the aggregator on a classified line, `n` being its line number.
pub open spec fn step(st: ParseState, l: LineModel, n: nat) -> Result<ParseState, ErrorModel> {
    match l.line_type {
        LineType::Blank | LineType::Comment => Ok(st),
        LineType::EndTag => Ok(ParseState { active: None, table: st.table }),
        LineType::Tag => {
            if l.tag == name_key() {
                if has_key(st.table, l.value) {
                    Err(ErrorModel::DuplicateTag(duplicate_name_text(l.value)))
                } else {
                    Ok(
                        ParseState {
                            active: Some(st.table.len() as int),
                            table: st.table.push((l.value, empty_query())),
                        },
                    )
                }
            } else {
                match st.active {
                    None => Err(ErrorModel::InvalidTagOrder(tag_order_text(l.tag, n))),
                    Some(i) => {
                        let e = st.table[i];
                        if has_key(e.1.tags, l.tag) {
                            Err(ErrorModel::DuplicateTag(duplicate_key_text(l.tag, e.0)))
                        } else {
                            Ok(
                                ParseState {
                                    active: st.active,
                                    table: st.table.update(
                                        i,
                                        (
                                            e.0,
                                            QueryModel {
                                                text: e.1.text,
                                                tags: e.1.tags.push((l.tag, l.value)),
                                            },
                                        ),
                                    ),
                                },
                            )
                        }
                    },
                }
            }
        },
        LineType::Query => match st.active {
            None => Err(ErrorModel::MissingNameTag(missing_name_text(n, l.value))),
            Some(i) => {
                let e = st.table[i];
                Ok(
                    ParseState {
                        active: st.active,
                        table: st.table.update(
                            i,
                            (e.0, QueryModel { text: append_text(e.1.text, l.value), tags: e.1.tags }),
                        ),
                    },
                )
            },
        },
    }
}

/// The aggregator run over `lines`; the first error ends it.
pub open spec fn run(lines: Seq<Seq<char>>) -> Result<ParseState, ErrorModel>
    decreases lines.len(),
{
    if lines.len() == 0 {
        Ok(initial_state())
    } else {
        match run(lines.drop_last()) {
            Ok(st) => step(st, classify(lines.last()), lines.len()),
            Err(e) => Err(e),
        }
    }
}

/// An ASCII decimal digit.
pub open spec fn is_digit(c: char) -> bool {
    '0' <= c <= '9'
}

/// Number of digits in the run that starts at `i`.
pub open spec fn digit_run(s: Seq<char>, i: int) -> nat
    decreases s.len() - i,
{
    if 0 <= i < s.len() && is_digit(s[i]) {
        1 + digit_run(s, i + 1)
    } else {
        0
    }
}

/// The digits of the placeholders `$<digits>` in `s` from index `i` on, left
/// to right, each `$` followed by the longest run of digits.
pub open spec fn placeholders_from(s: Seq<char>, i: int) -> Seq<Seq<char>>
    decreases s.len() - i,
    via placeholders_from_decreases
{
    if i < 0 || i >= s.len() {
        seq![]
    } else if s[i] == '$' && digit_run(s, i + 1) > 0 {
        let e = i + 1 + digit_run(s, i + 1);
        seq![s.subrange(i + 1, e)] + placeholders_from(s, e)
    } else {
        placeholders_from(s, i + 1)
    }
}

#[via_fn]
proof fn placeholders_from_decreases(s: Seq<char>, i: int) {
    if 0 <= i < s.len() {
        lemma_digit_run_bound(s, i + 1);
    }
}

pub proof fn lemma_digit_run_bound(s: Seq<char>, i: int)
    requires
        0 <= i <= s.len(),
    ensures
        i + digit_run(s, i) <= s.len(),
        forall|j: int| i <= j < i + digit_run(s, i) ==> is_digit(#[trigger] s[j]),
        i + digit_run(s, i) < s.len() ==> !is_digit(s[i + digit_run(s, i)]),
    decreases s.len() - i,
{
    if i < s.len() && is_digit(s[i]) {
        lemma_digit_run_bound(s, i + 1);
    }
}

/// The digits of the placeholders in `s`, in order of appearance.
pub open spec fn placeholders(s: Seq<char>) -> Seq<Seq<char>> {
    placeholders_from(s, 0)
}

/// The number that a run of decimal digits denotes.
pub open spec fn digits_value(d: Seq<char>) -> nat
    decreases d.len(),
{
    if d.len() == 0 {
        0
    } else {
        digits_value(d.drop_last()) * 10 + (d.last() as nat - '0' as nat) as nat
    }
}

/// The first placeholder of `ps` that breaks the numbering `k + 1`, `k + 2`,
/// ...: its expected number and its digits.
pub open spec fn misplaced(ps: Seq<Seq<char>>, k: nat) -> Option<(nat, Seq<char>)>
    decreases ps.len(),
{
    if ps.len() == 0 {
        None
    } else if digits_value(ps[0]) == k + 1 {
        misplaced(ps.drop_first(), k + 1)
    } else {
        Some((k + 1, ps[0]))
    }
}

/// What the validator finds wrong with the statement `name`, if anything.
pub open spec fn check_query(name: Seq<char>, q: QueryModel) -> Option<ErrorModel> {
    if q.text.len() == 0 {
        Some(ErrorModel::EmptyQuery(empty_query_text(name)))
    } else {
        match misplaced(placeholders(q.text), 0) {
            Some(m) => Some(ErrorModel::UnmatchedPlaceholders(placeholder_text(name, m.0, m.1))),
            None => None,
        }
    }
}

/// The first fault of the table, in table order.
pub open spec fn first_fault(table: Seq<(Seq<char>, QueryModel)>) -> Option<ErrorModel>
    decreases table.len(),
{
    if table.len() == 0 {
        None
    } else {
        match first_fault(table.drop_last()) {
            Some(e) => Some(e),
            None => check_query(table.last().0, table.last().1),
        }
    }
}

/// The outcome of parsing `lines`.
pub open spec fn parse_lines(lines: Seq<Seq<char>>) -> Result<Seq<(Seq<char>, QueryModel)>, ErrorModel> {
    match run(lines) {
        Err(e) => Err(e),
        Ok(st) => match first_fault(st.table) {
            Some(e) => Err(e),
            None => Ok(st.table),
        },
    }
}

/// The outcome of parsing the text `s`.
pub open spec fn parse_text(s: Seq<char>) -> Result<Seq<(Seq<char>, QueryModel)>, ErrorModel> {
    parse_lines(lines_of(s))
}

/// The table as its model.
pub open spec fn table_view(entries: Seq<(String, Query)>) -> Seq<(Seq<char>, QueryModel)> {
    entries.map_values(|e: (String, Query)| entry_view(e))
}

/// The aggregator state that `entries` and `active` hold.
pub open spec fn state_view(entries: Seq<(String, Query)>, active: Option<usize>) -> ParseState {
    ParseState {
        active: match active {
            Some(i) => Some(i as int),
            None => None,
        },
        table: table_view(entries),
    }
}

/// The active block, if any, is an entry of the table.
pub open spec fn active_in_table(len: nat, active: Option<usize>) -> bool {
    active matches Some(i) ==> i < len
}

/// Index of the entry named `name`.
fn find_entry(entries: &Vec<(String, Query)>, name: &String) -> (r: Option<usize>)
    ensures
        r is None <==> !has_key(table_view(entries@), name@),
        r matches Some(i) ==> i < entries.len() && table_view(entries@)[i as int].0 == name@,
{
    let mut i: usize = 0;
    while i < entries.len()
        invariant
            i <= entries.len(),
            forall|j: int| 0 <= j < i ==> table_view(entries@)[j].0 != name@,
        decreases entries.len() - i,
    {
        assert(table_view(entries@)[i as int] == entry_view(entries@[i as int]));
        if entries[i].0 == *name {
            assert(table_view(entries@)[i as int].0 == name@);
            return Some(i);
        }
        i = i + 1;
    }
    None
}

/// Whether `tags` has a pair with key `key`.
fn has_tag(tags: &Vec<(String, String)>, key: &String) -> (r: bool)
    ensures
        r == has_key(tags@.map_values(|p: (String, String)| pair_view(p)), key@),
{
    let ghost v = tags@.map_values(|p: (String, String)| pair_view(p));
    let mut i: usize = 0;
    while i < tags.len()
        invariant
            i <= tags.len(),
            v == tags@.map_values(|p: (String, String)| pair_view(p)),
            forall|j: int| 0 <= j < i ==> v[j].0 != key@,
        decreases tags.len() - i,
    {
        assert(v[i as int] == pair_view(tags@[i as int]));
        if tags[i].0 == *key {
            assert(v[i as int].0 == key@);
            return true;
        }
        i = i + 1;
    }
    false
}

/// Applies one classified line, numbered `n`, to the aggregator state.
fn apply_line(
    entries: &mut Vec<(String, Query)>,
    active: &mut Option<usize>,
    l: ParsedLine,
    n: usize,
) -> (r: Result<(), ParseError>)
    requires
        active_in_table(old(entries).len() as nat, *old(active)),
    ensures
        match step(state_view(old(entries)@, *old(active)), l@, n as nat) {
            Ok(st) => r is Ok && state_view(final(entries)@, *final(active)) == st && active_in_table(
                final(entries).len() as nat,
                *final(active),
            ),
            Err(e) => r matches Err(x) && x@ == e,
        },
{
    let ghost st = state_view(entries@, *active);
    match l.line_type {
        LineType::Blank | LineType::Comment => Ok(()),
        LineType::EndTag => {
            *active = None;
            Ok(())
        },
        LineType::Tag => {
            proof {
                reveal_strlit("name");
            }
            let name_tag = String::from_str("name");
            assert(name_tag@ =~= name_key());
            if l.tag == name_tag {
                if find_entry(entries, &l.value).is_some() {
                    return Err(duplicate_name_error(&l.value));
                }
                let q = Query::new();
                entries.push((l.value, q));
                *active = Some(entries.len() - 1);
                assert(table_view(entries@) =~= st.table.push((l@.value, empty_query())));
                Ok(())
            } else {
                match *active {
                    None => Err(tag_order_error(&l.tag, n)),
                    Some(i) => {
                        assert(st.table[i as int] == entry_view(entries@[i as int]));
                        if has_tag(&entries[i].1.tags, &l.tag) {
                            return Err(duplicate_key_error(&l.tag, &entries[i].0));
                        }
                        let mut e = (String::new(), Query::new());
                        entries.set_and_swap(i, &mut e);
                        let ghost old_tags = e.1.tags@;
                        e.1.tags.push((l.tag, l.value));
                        assert(e.1@.tags =~= old_tags.map_values(|p: (String, String)| pair_view(p)).push((l@.tag, l@.value)));
                        entries.set_and_swap(i, &mut e);
                        assert(table_view(entries@) =~= st.table.update(
                            i as int,
                            (
                                st.table[i as int].0,
                                QueryModel {
                                    text: st.table[i as int].1.text,
                                    tags: st.table[i as int].1.tags.push((l@.tag, l@.value)),
                                },
                            ),
                        ));
                        Ok(())
                    },
                }
            }
        },
        LineType::Query => {
            match *active {
                None => Err(missing_name_error(n, &l.value)),
                Some(i) => {
                    assert(st.table[i as int] == entry_view(entries@[i as int]));
                    let mut e = (String::new(), Query::new());
                    entries.set_and_swap(i, &mut e);
                    let ghost old_text = e.1.query@;
                    proof {
                        reveal_strlit(" ");
                    }
                    if !e.1.query.as_str().is_empty() {
                        e.1.query.append(" ");
                    }
                    e.1.query.append(l.value.as_str());
                    assert(e.1.query@ =~= append_text(old_text, l@.value));
                    entries.set_and_swap(i, &mut e);
                    assert(table_view(entries@) =~= st.table.update(
                        i as int,
                        (
                            st.table[i as int].0,
                            QueryModel {
                                text: append_text(st.table[i as int].1.text, l@.value),
                                tags: st.table[i as int].1.tags,
                            },
                        ),
                    ));
                    Ok(())
                },
            }
        },
    }
}

fn char_is_digit(c: char) -> (r: bool)
    ensures
        r == is_digit(c),
{
    '0' <= c && c <= '9'
}

/// End of the run of digits that starts at `i`.
fn find_non_digit(s: &Vec<char>, i: usize) -> (r: usize)
    requires
        i <= s.len(),
    ensures
        r == i + digit_run(s@, i as int),
        r <= s.len(),
{
    let mut j = i;
    while j < s.len() && char_is_digit(s[j])
        invariant
            i <= j <= s.len(),
            j + digit_run(s@, j as int) == i + digit_run(s@, i as int),
        decreases s.len() - j,
    {
        j = j + 1;
    }
    j
}

proof fn lemma_digits_grow(s: Seq<char>, lo: int, j: int, hi: int)
    requires
        0 <= lo <= j <= hi <= s.len(),
        forall|m: int| lo <= m < hi ==> is_digit(#[trigger] s[m]),
    ensures
        digits_value(s.subrange(lo, j)) <= digits_value(s.subrange(lo, hi)),
    decreases hi - j,
{
    if j < hi {
        lemma_digits_grow(s, lo, j + 1, hi);
        assert(s.subrange(lo, j + 1).drop_last() =~= s.subrange(lo, j));
        let v = digits_value(s.subrange(lo, j));
        assert(v <= v * 10) by (nonlinear_arith);
    }
}

/// Whether the digits `s[lo..hi]` denote `want`.
fn digits_equal(s: &Vec<char>, lo: usize, hi: usize, want: usize) -> (r: bool)
    requires
        lo <= hi <= s.len(),
        forall|m: int| lo <= m < hi ==> is_digit(#[trigger] s@[m]),
    ensures
        r == (digits_value(s@.subrange(lo as int, hi as int)) == want),
{
    let mut v: u128 = 0;
    let mut j = lo;
    assert(s@.subrange(lo as int, lo as int).len() == 0);
    while j < hi
        invariant
            lo <= j <= hi <= s.len(),
            forall|m: int| lo <= m < hi ==> is_digit(#[trigger] s@[m]),
            v == digits_value(s@.subrange(lo as int, j as int)),
            v <= want,
        decreases hi - j,
    {
        let d = (s[j] as u32 - '0' as u32) as u128;
        assert(s@.subrange(lo as int, j + 1).drop_last() =~= s@.subrange(lo as int, j as int));
        let nv = v * 10 + d;
        if nv > want as u128 {
            proof {
                lemma_digits_grow(s@, lo as int, j + 1, hi as int);
            }
            return false;
        }
        v = nv;
        j = j + 1;
    }
    v == want as u128
}

/// Checks one statement: it has text, and its placeholders are numbered
/// `$1`, `$2`, ... in order of appearance.
fn check_entry(name: &String, q: &Query) -> (r: Result<(), ParseError>)
    ensures
        match check_query(name@, q@) {
            None => r is Ok,
            Some(e) => r matches Err(x) && x@ == e,
        },
{
    if q.query.as_str().is_empty() {
        return Err(empty_query_error(name));
    }
    let s = chars_of(q.query.as_str());
    let mut i: usize = 0;
    let mut k: usize = 0;
    while i < s.len()
        invariant
            i <= s.len(),
            k <= i,
            s@ == q@.text,
            misplaced(placeholders(s@), 0) == misplaced(placeholders_from(s@, i as int), k as nat),
        decreases s.len() - i,
    {
        if s[i] == '$' && i + 1 < s.len() && char_is_digit(s[i + 1]) {
            let e = find_non_digit(&s, i + 1);
            proof {
                lemma_digit_run_bound(s@, i + 1);
            }
            let ghost tok = s@.subrange(i + 1, e as int);
            let ghost rest = placeholders_from(s@, e as int);
            assert(placeholders_from(s@, i as int) == seq![tok] + rest);
            assert((seq![tok] + rest)[0] == tok);
            assert((seq![tok] + rest).drop_first() =~= rest);
            if !digits_equal(&s, i + 1, e, k + 1) {
                let found = string_of(&s, i + 1, e);
                return Err(placeholder_error(name, k + 1, &found));
            }
            k = k + 1;
            i = e;
        } else {
            i = i + 1;
        }
    }
    Ok(())
}

pub proof fn lemma_first_fault_prefix(t: Seq<(Seq<char>, QueryModel)>, m: int)
    requires
        0 <= m <= t.len(),
        first_fault(t.take(m)) is Some,
    ensures
        first_fault(t) == first_fault(t.take(m)),
    decreases t.len(),
{
    if m < t.len() {
        assert(t.drop_last().take(m) =~= t.take(m));
        lemma_first_fault_prefix(t.drop_last(), m);
    } else {
        assert(t.take(m) =~= t);
    }
}

/// Checks every statement, in table order, and reports the first fault.
fn validate(entries: &Vec<(String, Query)>) -> (r: Result<(), ParseError>)
    ensures
        match first_fault(table_view(entries@)) {
            None => r is Ok,
            Some(e) => r matches Err(x) && x@ == e,
        },
{
    let ghost t = table_view(entries@);
    let mut i: usize = 0;
    assert(t.take(0) =~= seq![]);
    while i < entries.len()
        invariant
            i <= entries.len(),
            t == table_view(entries@),
            first_fault(t.take(i as int)) is None,
        decreases entries.len() - i,
    {
        assert(t[i as int] == entry_view(entries@[i as int]));
        assert(t.take(i + 1).drop_last() =~= t.take(i as int));
        assert(t.take(i + 1).last() == t[i as int]);
        let res = check_entry(&entries[i].0, &entries[i].1);
        if let Err(x) = res {
            proof {
                lemma_first_fault_prefix(t, i + 1);
            }
            return Err(x);
        }
        i = i + 1;
    }
    assert(t.take(i as int) =~= t);
    Ok(())
}

proof fn lemma_run_prefix_error(lines: Seq<Seq<char>>, m: int)
    requires
        0 <= m <= lines.len(),
        run(lines.take(m)) is Err,
    ensures
        run(lines) == run(lines.take(m)),
    decreases lines.len(),
{
    if m < lines.len() {
        assert(lines.drop_last().take(m) =~= lines.take(m));
        lemma_run_prefix_error(lines.drop_last(), m);
    } else {
        assert(lines.take(m) =~= lines);
    }
}

/// Parses a text of named statements into a table.
///
/// Lines are classified one by one and fed to the aggregator, which stops at
/// the first structural error; the finished table is then validated entry by
/// entry, in the order in which the names appeared.
pub fn parse(text: &str) -> (r: Result<Queries, ParseError>)
    ensures
        match parse_text(text@) {
            Ok(t) => r matches Ok(q) && q@ == t,
            Err(e) => r matches Err(x) && x@ == e,
        },
        r matches Ok(q) ==> keys_unique(q@) && forall|i: int|
            0 <= i < q@.len() ==> keys_unique(#[trigger] q@[i].1.tags),
{
    let s = chars_of(text);
    let ghost lines = lines_of(s@);
    let mut entries: Vec<(String, Query)> = Vec::new();
    let mut active: Option<usize> = None;
    let mut pos: usize = 0;
    let mut n: usize = 0;
    let ghost mut done: Seq<Seq<char>> = seq![];
    assert(table_view(entries@) =~= seq![]);
    while pos < s.len()
        invariant
            pos <= s.len(),
            n == done.len(),
            n <= pos,
            s@ == text@,
            lines == lines_of(s@),
            lines == done + lines_from(s@, pos as int),
            run(done) == Ok::<ParseState, ErrorModel>(state_view(entries@, active)),
            active_in_table(entries.len() as nat, active),
        decreases s.len() - pos,
    {
        let e = find_line_feed(&s, pos);
        let line = slice_chars(&s, pos, e);
        let parsed = classify_chars(&line);
        n = n + 1;
        let ghost next = done.push(line@);
        proof {
            assert(lines_from(s@, pos as int) == seq![line@] + lines_from(s@, e + 1));
            assert(next.drop_last() =~= done);
            assert(next.last() == line@);
            assert(lines =~= next + lines_from(s@, e + 1));
            assert(lines.take(n as int) =~= next);
        }
        let res = apply_line(&mut entries, &mut active, parsed, n);
        if let Err(x) = res {
            proof {
                lemma_run_prefix_error(lines, n as int);
            }
            return Err(x);
        }
        proof {
            done = next;
        }
        if e < s.len() {
            pos = e + 1;
        } else {
            pos = e;
            assert(lines_from(s@, e + 1) =~= seq![]);
        }
    }
    assert(lines_from(s@, pos as int) =~= seq![]);
    assert(lines =~= done);
    proof {
        lemma_run_wf(done);
    }
    let v = validate(&entries);
    match v {
        Err(x) => Err(x),
        Ok(()) => Ok(Queries::from_entries(entries)),
    }
}

} // verus!
