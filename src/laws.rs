//! Properties of the parser, proved over its specification.
use vstd::prelude::*;
use crate::error::{duplicate_name_text, empty_query_text, tag_order_text, ErrorModel};
use crate::line::{classify, LineType};
use crate::parser::{
    append_text, check_query, digits_value, first_fault, lemma_first_fault_prefix, lines_of,
    misplaced, name_key, parse_text, placeholders, run, step, ParseState,
};
use crate::query::{empty_query, has_key, keys_unique, QueryModel};

verus! {

/// `fs` joined by single spaces.
pub open spec fn join_all(fs: Seq<Seq<char>>) -> Seq<char>
    decreases fs.len(),
{
    if fs.len() == 0 {
        seq![]
    } else if fs.len() == 1 {
        fs[0]
    } else {
        join_all(fs.drop_last()) + seq![' '] + fs.last()
    }
}

/// The statement lines of `lines` that arrived while block `i` was receiving,
/// in order.
pub open spec fn block_fragments(lines: Seq<Seq<char>>, i: int) -> Seq<Seq<char>>
    decreases lines.len(),
{
    if lines.len() == 0 {
        seq![]
    } else {
        let prev = block_fragments(lines.drop_last(), i);
        let l = classify(lines.last());
        match run(lines.drop_last()) {
            Ok(st) => if l.line_type == LineType::Query && st.active == Some(i) {
                prev.push(l.value)
            } else {
                prev
            },
            Err(_) => prev,
        }
    }
}

/// Whether line `l` is a `name` tag.
pub open spec fn is_name_tag(l: Seq<char>) -> bool {
    classify(l).line_type == LineType::Tag && classify(l).tag == name_key()
}

/// The well-formedness that the aggregator keeps: the active block is in the
/// table, names are unique, and tag keys are unique within each statement.
pub open spec fn state_wf(st: ParseState) -> bool {
    &&& (st.active matches Some(a) ==> 0 <= a < st.table.len())
    &&& keys_unique(st.table)
    &&& forall|i: int| 0 <= i < st.table.len() ==> keys_unique(#[trigger] st.table[i].1.tags)
}

proof fn lemma_run_unfold(lines: Seq<Seq<char>>)
    requires
        lines.len() > 0,
        run(lines) is Ok,
    ensures
        run(lines.drop_last()) is Ok,
        run(lines) == step(run(lines.drop_last())->Ok_0, classify(lines.last()), lines.len()),
{
}

/// A step that succeeds keeps the names already in the table, in place.
proof fn lemma_step_keeps_names(st: ParseState, l: crate::line::LineModel, n: nat)
    requires
        state_wf(st),
        step(st, l, n) is Ok,
    ensures
        state_wf(step(st, l, n)->Ok_0),
        step(st, l, n)->Ok_0.table.len() >= st.table.len(),
        forall|k: int| 0 <= k < st.table.len() ==> #[trigger] step(st, l, n)->Ok_0.table[k].0 == st.table[k].0,
{
    let st2 = step(st, l, n)->Ok_0;
    if l.line_type == LineType::Tag && l.tag == name_key() {
        assert forall|i: int, j: int| 0 <= i < j < st2.table.len() implies #[trigger] st2.table[i].0
            != #[trigger] st2.table[j].0 by {
            if j == st.table.len() {
                assert(!has_key(st.table, l.value));
                assert(st.table[i].0 == st2.table[i].0);
            }
        }
        assert forall|i: int| 0 <= i < st2.table.len() implies keys_unique(
            #[trigger] st2.table[i].1.tags,
        ) by {
            if i < st.table.len() {
                assert(st2.table[i] == st.table[i]);
            } else {
                assert(st2.table[i].1.tags =~= seq![]);
            }
        }
    } else if l.line_type == LineType::Tag {
        let a = st.active->Some_0;
        let tags = st.table[a].1.tags;
        assert(!has_key(tags, l.tag));
        assert(keys_unique(tags.push((l.tag, l.value)))) by {
            assert forall|i: int, j: int| 0 <= i < j < tags.len() + 1 implies #[trigger] tags.push(
                (l.tag, l.value),
            )[i].0 != #[trigger] tags.push((l.tag, l.value))[j].0 by {
                if j == tags.len() {
                    assert(tags.push((l.tag, l.value))[i] == tags[i]);
                }
            }
        }
        assert forall|i: int| 0 <= i < st2.table.len() implies keys_unique(
            #[trigger] st2.table[i].1.tags,
        ) by {
            if i != a {
                assert(st2.table[i] == st.table[i]);
            }
        }
    } else if l.line_type == LineType::Query {
        assert forall|i: int| 0 <= i < st2.table.len() implies keys_unique(
            #[trigger] st2.table[i].1.tags,
        ) by {
            if i != st.active->Some_0 {
                assert(st2.table[i] == st.table[i]);
            }
        }
    }
}

/// Every state that the aggregator reaches is well formed.
pub proof fn lemma_run_wf(lines: Seq<Seq<char>>)
    requires
        run(lines) is Ok,
    ensures
        state_wf(run(lines)->Ok_0),
    decreases lines.len(),
{
    if lines.len() > 0 {
        lemma_run_unfold(lines);
        lemma_run_wf(lines.drop_last());
        lemma_step_keeps_names(
            run(lines.drop_last())->Ok_0,
            classify(lines.last()),
            lines.len(),
        );
    }
}

proof fn lemma_run_take_ok(lines: Seq<Seq<char>>, m: int, j: int)
    requires
        0 <= m <= j <= lines.len(),
        run(lines.take(j)) is Ok,
    ensures
        run(lines.take(m)) is Ok,
    decreases j - m,
{
    if m < j {
        lemma_run_take_ok(lines, m + 1, j);
        assert(lines.take(m + 1).drop_last() =~= lines.take(m));
    }
}

proof fn lemma_name_recorded(lines: Seq<Seq<char>>, i: int, m: int)
    requires
        0 <= i < m <= lines.len(),
        is_name_tag(lines[i]),
        run(lines.take(m)) is Ok,
    ensures
        has_key(run(lines.take(m))->Ok_0.table, classify(lines[i]).value),
    decreases m - i,
{
    let v = classify(lines[i]).value;
    let pre = lines.take(m);
    assert(pre.drop_last() =~= lines.take(m - 1));
    assert(pre.last() == lines[m - 1]);
    lemma_run_unfold(pre);
    let st = run(lines.take(m - 1))->Ok_0;
    lemma_run_wf(lines.take(m - 1));
    if m == i + 1 {
        let st2 = run(pre)->Ok_0;
        assert(st2.table[st.table.len() as int].0 == v);
    } else {
        lemma_name_recorded(lines, i, m - 1);
        lemma_step_keeps_names(st, classify(lines[m - 1]), (m - 1 + 1) as nat);
        let k = choose|k: int| 0 <= k < st.table.len() && #[trigger] st.table[k].0 == v;
        assert(run(pre)->Ok_0.table[k].0 == v);
    }
}

proof fn lemma_run_error_final(lines: Seq<Seq<char>>, m: int)
    requires
        0 <= m <= lines.len(),
        run(lines.take(m)) is Err,
    ensures
        run(lines) == run(lines.take(m)),
    decreases lines.len(),
{
    if m < lines.len() {
        assert(lines.drop_last().take(m) =~= lines.take(m));
        lemma_run_error_final(lines.drop_last(), m);
    } else {
        assert(lines.take(m) =~= lines);
    }
}

/// Two `name` tags with the same value make the parse fail with
/// `DuplicateTag`, provided nothing before the second one failed already.
pub proof fn law_duplicate_name(text: Seq<char>, i: int, j: int)
    requires
        0 <= i < j < lines_of(text).len(),
        is_name_tag(lines_of(text)[i]),
        is_name_tag(lines_of(text)[j]),
        classify(lines_of(text)[i]).value == classify(lines_of(text)[j]).value,
        run(lines_of(text).take(j)) is Ok,
    ensures
        parse_text(text) == Err::<Seq<(Seq<char>, QueryModel)>, ErrorModel>(
            ErrorModel::DuplicateTag(duplicate_name_text(classify(lines_of(text)[j]).value)),
        ),
{
    let lines = lines_of(text);
    lemma_name_recorded(lines, i, j);
    let pre = lines.take(j + 1);
    assert(pre.drop_last() =~= lines.take(j));
    assert(pre.last() == lines[j]);
    lemma_run_error_final(lines, j + 1);
}

proof fn lemma_idle_after(lines: Seq<Seq<char>>, b: int, m: int)
    requires
        0 <= b <= m <= lines.len(),
        b == 0 || classify(lines[b - 1]).line_type == LineType::EndTag,
        forall|k: int| b <= k < m ==> !is_name_tag(#[trigger] lines[k]),
        run(lines.take(m)) is Ok,
    ensures
        run(lines.take(m))->Ok_0.active is None,
    decreases m - b,
{
    if m > 0 {
        let pre = lines.take(m);
        assert(pre.drop_last() =~= lines.take(m - 1));
        assert(pre.last() == lines[m - 1]);
        lemma_run_unfold(pre);
        if m > b {
            lemma_idle_after(lines, b, m - 1);
            assert(!is_name_tag(lines[m - 1]));
        }
    } else {
        assert(lines.take(0) =~= seq![]);
    }
}

/// A tag other than `name` that comes before any `name` tag of its block
/// (counted from the start, or from an end marker) makes the parse fail with
/// `InvalidTagOrder`, provided nothing before it failed already.
pub proof fn law_tag_order(text: Seq<char>, b: int, j: int)
    requires
        0 <= b <= j < lines_of(text).len(),
        b == 0 || classify(lines_of(text)[b - 1]).line_type == LineType::EndTag,
        forall|k: int| b <= k < j ==> !is_name_tag(#[trigger] lines_of(text)[k]),
        classify(lines_of(text)[j]).line_type == LineType::Tag,
        classify(lines_of(text)[j]).tag != name_key(),
        run(lines_of(text).take(j)) is Ok,
    ensures
        parse_text(text) == Err::<Seq<(Seq<char>, QueryModel)>, ErrorModel>(
            ErrorModel::InvalidTagOrder(tag_order_text(classify(lines_of(text)[j]).tag, (j + 1) as nat)),
        ),
{
    let lines = lines_of(text);
    lemma_idle_after(lines, b, j);
    let pre = lines.take(j + 1);
    assert(pre.drop_last() =~= lines.take(j));
    assert(pre.last() == lines[j]);
    lemma_run_error_final(lines, j + 1);
}

proof fn lemma_join_push(fs: Seq<Seq<char>>, v: Seq<char>)
    requires
        forall|k: int| 0 <= k < fs.len() ==> (#[trigger] fs[k]).len() > 0,
        v.len() > 0,
    ensures
        join_all(fs.push(v)) == append_text(join_all(fs), v),
        join_all(fs).len() == 0 <==> fs.len() == 0,
{
    assert(fs.push(v).drop_last() =~= fs);
    if fs.len() == 1 {
        assert(fs[0].len() > 0);
    }
}

/// While the aggregator succeeds, each statement's text is its fragments
/// joined by spaces, and blocks not yet opened have no fragments.
proof fn lemma_join_run(lines: Seq<Seq<char>>)
    requires
        run(lines) is Ok,
    ensures
        forall|i: int| 0 <= i < run(lines)->Ok_0.table.len() ==> #[trigger] run(lines)->Ok_0.table[i].1.text
            == join_all(block_fragments(lines, i)),
        forall|i: int| i >= run(lines)->Ok_0.table.len() ==> #[trigger] block_fragments(lines, i).len() == 0,
        forall|i: int, k: int| 0 <= k < block_fragments(lines, i).len() ==> (#[trigger] block_fragments(lines, i)[k]).len() > 0,
    decreases lines.len(),
{
    if lines.len() > 0 {
        let prev = lines.drop_last();
        lemma_run_unfold(lines);
        lemma_join_run(prev);
        lemma_run_wf(prev);
        let st = run(prev)->Ok_0;
        let st2 = run(lines)->Ok_0;
        let l = classify(lines.last());
        assert forall|i: int, k: int| 0 <= k < block_fragments(lines, i).len() implies (
        #[trigger] block_fragments(lines, i)[k]).len() > 0 by {
            if l.line_type == LineType::Query && st.active == Some(i) {
                assert(block_fragments(lines, i) == block_fragments(prev, i).push(l.value));
                if k < block_fragments(prev, i).len() {
                    assert(block_fragments(prev, i)[k].len() > 0);
                } else {
                    assert(l.value.len() > 0);
                }
            } else {
                assert(block_fragments(lines, i) == block_fragments(prev, i));
                assert(block_fragments(prev, i)[k].len() > 0);
            }
        }
        assert forall|i: int| 0 <= i < st2.table.len() implies #[trigger] st2.table[i].1.text
            == join_all(block_fragments(lines, i)) by {
            if l.line_type == LineType::Query && st.active == Some(i) {
                lemma_join_push(block_fragments(prev, i), l.value);
            } else if i >= st.table.len() {
                assert(block_fragments(prev, i).len() == 0);
                assert(block_fragments(prev, i) =~= seq![]);
            } else {
                assert(st2.table[i].1.text == st.table[i].1.text);
            }
        }
        assert forall|i: int| i >= st2.table.len() implies #[trigger] block_fragments(lines, i).len() == 0 by {
            assert(block_fragments(prev, i).len() == 0);
        }
    }
}

/// For input that parses, each statement's text is the statement lines of
/// its block, in order, joined by single spaces.
pub proof fn law_join(text: Seq<char>)
    requires
        parse_text(text) is Ok,
    ensures
        forall|i: int| 0 <= i < parse_text(text)->Ok_0.len() ==> #[trigger] parse_text(text)->Ok_0[i].1.text
            == join_all(block_fragments(lines_of(text), i)),
{
    lemma_join_run(lines_of(text));
}

proof fn lemma_step_frozen(st: ParseState, l: crate::line::LineModel, n: nat, idx: int)
    requires
        state_wf(st),
        0 <= idx < st.table.len(),
        st.active != Some(idx),
        step(st, l, n) is Ok,
    ensures
        idx < step(st, l, n)->Ok_0.table.len(),
        step(st, l, n)->Ok_0.table[idx] == st.table[idx],
        step(st, l, n)->Ok_0.active != Some(idx),
{
}

proof fn lemma_block_frozen(lines: Seq<Seq<char>>, j: int, idx: int, m: int)
    requires
        0 <= j,
        j + 2 <= m <= lines.len(),
        run(lines.take(m)) is Ok,
        run(lines.take(j)) is Ok,
        idx == run(lines.take(j))->Ok_0.table.len(),
        is_name_tag(lines[j]),
        classify(lines[j + 1]).line_type == LineType::EndTag,
    ensures
        idx < run(lines.take(m))->Ok_0.table.len(),
        run(lines.take(m))->Ok_0.table[idx] == (classify(lines[j]).value, empty_query()),
        run(lines.take(m))->Ok_0.active != Some(idx),
    decreases m - j,
{
    let pre = lines.take(m);
    assert(pre.drop_last() =~= lines.take(m - 1));
    assert(pre.last() == lines[m - 1]);
    lemma_run_unfold(pre);
    if m == j + 2 {
        let pre1 = lines.take(j + 1);
        assert(pre1.drop_last() =~= lines.take(j));
        assert(pre1.last() == lines[j]);
        lemma_run_unfold(pre1);
        let st1 = run(pre1)->Ok_0;
        assert(st1.table[idx] == (classify(lines[j]).value, empty_query()));
    } else {
        lemma_block_frozen(lines, j, idx, m - 1);
        lemma_run_wf(lines.take(m - 1));
        lemma_step_frozen(run(lines.take(m - 1))->Ok_0, classify(lines[m - 1]), m as nat, idx);
    }
}

proof fn lemma_first_fault_none(t: Seq<(Seq<char>, QueryModel)>, m: int)
    requires
        0 <= m <= t.len(),
        forall|k: int| 0 <= k < m ==> check_query(#[trigger] t[k].0, t[k].1) is None,
    ensures
        first_fault(t.take(m)) is None,
    decreases m,
{
    if m > 0 {
        assert(t.take(m).drop_last() =~= t.take(m - 1));
        assert(t.take(m).last() == t[m - 1]);
        lemma_first_fault_none(t, m - 1);
    } else {
        assert(t.take(0) =~= seq![]);
    }
}

/// A `name` tag followed directly by an end marker makes the parse fail; the
/// error is `EmptyQuery` for that name when every other statement is valid.
pub proof fn law_empty_block(text: Seq<char>, j: int)
    requires
        0 <= j,
        j + 1 < lines_of(text).len(),
        is_name_tag(lines_of(text)[j]),
        classify(lines_of(text)[j + 1]).line_type == LineType::EndTag,
        run(lines_of(text)) is Ok,
    ensures
        parse_text(text) is Err,
        (forall|k: int|
            0 <= k < run(lines_of(text))->Ok_0.table.len() && run(lines_of(text))->Ok_0.table[k].0
                != classify(lines_of(text)[j]).value ==> check_query(
                #[trigger] run(lines_of(text))->Ok_0.table[k].0,
                run(lines_of(text))->Ok_0.table[k].1,
            ) is None) ==> parse_text(text) == Err::<Seq<(Seq<char>, QueryModel)>, ErrorModel>(
            ErrorModel::EmptyQuery(empty_query_text(classify(lines_of(text)[j]).value)),
        ),
{
    let lines = lines_of(text);
    let v = classify(lines[j]).value;
    assert(lines.take(lines.len() as int) =~= lines);
    lemma_run_take_ok(lines, j, lines.len() as int);
    let idx = run(lines.take(j))->Ok_0.table.len() as int;
    lemma_block_frozen(lines, j, idx, lines.len() as int);
    let t = run(lines)->Ok_0.table;
    assert(t[idx] == (v, empty_query()));
    assert(check_query(v, empty_query()) == Some(ErrorModel::EmptyQuery(empty_query_text(v))));
    assert(t.take(idx + 1).drop_last() =~= t.take(idx));
    assert(t.take(idx + 1).last() == t[idx]);
    assert(first_fault(t.take(idx + 1)) is Some);
    lemma_first_fault_prefix(t, idx + 1);
    if forall|k: int| 0 <= k < t.len() && t[k].0 != v ==> check_query(#[trigger] t[k].0, t[k].1) is None {
        lemma_run_wf(lines);
        assert forall|k: int| 0 <= k < idx implies check_query(#[trigger] t[k].0, t[k].1) is None by {
            assert(t[k].0 != t[idx].0);
        }
        lemma_first_fault_none(t, idx);
    }
}

proof fn lemma_misplaced(ps: Seq<Seq<char>>, k: nat)
    ensures
        misplaced(ps, k) is None <==> forall|i: int| 0 <= i < ps.len() ==> digits_value(#[trigger] ps[i]) == k + i + 1,
    decreases ps.len(),
{
    if ps.len() > 0 {
        lemma_misplaced(ps.drop_first(), k + 1);
        if digits_value(ps[0]) == k + 1 {
            assert forall|i: int| 0 <= i < ps.len() && (forall|i2: int| 0 <= i2 < ps.drop_first().len() ==> digits_value(#[trigger] ps.drop_first()[i2]) == (k + 1) + i2 + 1) implies digits_value(#[trigger] ps[i]) == k + i + 1 by {
                if i > 0 {
                    assert(ps[i] == ps.drop_first()[i - 1]);
                }
            }
            if forall|i: int| 0 <= i < ps.len() ==> digits_value(#[trigger] ps[i]) == k + i + 1 {
                assert forall|i2: int| 0 <= i2 < ps.drop_first().len() implies digits_value(#[trigger] ps.drop_first()[i2]) == (k + 1) + i2 + 1 by {
                    assert(ps.drop_first()[i2] == ps[i2 + 1]);
                }
            }
        }
    }
}

/// A statement's text passes validation exactly when it is not empty and its
/// placeholders, in order of appearance, are numbered 1, 2, ..., k for some
/// k >= 0; any other numbering (a gap, a repeat, a swap) fails with
/// `UnmatchedPlaceholders`.
pub proof fn law_placeholders(name: Seq<char>, q: QueryModel)
    ensures
        check_query(name, q) is None <==> q.text.len() > 0 && forall|i: int|
            0 <= i < placeholders(q.text).len() ==> digits_value(#[trigger] placeholders(q.text)[i]) == i + 1,
        q.text.len() > 0 && !(forall|i: int|
            0 <= i < placeholders(q.text).len() ==> digits_value(#[trigger] placeholders(q.text)[i]) == i + 1)
            ==> check_query(name, q) matches Some(ErrorModel::UnmatchedPlaceholders(_)),
{
    lemma_misplaced(placeholders(q.text), 0);
}

/// Parsing the same text twice gives the same outcome: the same names, texts
/// and tags, or the same error.
pub proof fn law_deterministic(a: Seq<char>, b: Seq<char>)
    requires
        a == b,
    ensures
        parse_text(a) == parse_text(b),
{
}

} // verus!
