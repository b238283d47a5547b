use yesqlr::{parse, parse_line, LineType, ParseError};

fn message_of(r: Result<yesqlr::Queries, ParseError>) -> String {
    match r {
        Ok(_) => panic!("expected an error"),
        Err(e) => e.message(),
    }
}

#[test]
fn single_statement_with_tag() {
    let q = parse("-- name: get_user\n-- raw: true\nSELECT * FROM users WHERE id = $1;").unwrap();
    assert_eq!(q.len(), 1);
    let u = q.get("get_user").unwrap();
    assert_eq!(u.query, "SELECT * FROM users WHERE id = $1;");
    assert_eq!(u.tags.len(), 1);
    assert_eq!(u.tag("raw"), Some(&String::from("true")));
    assert_eq!(u.tag("other"), None);
}

#[test]
fn block_with_end_marker() {
    let q = parse("-- name: t\nBEGIN;\nINSERT INTO users (name, email) VALUES ($1, $2);\nCOMMIT;\n-- end;").unwrap();
    assert_eq!(
        q.get("t").unwrap().query,
        "BEGIN; INSERT INTO users (name, email) VALUES ($1, $2); COMMIT;"
    );
}

#[test]
fn duplicate_name_scenario() {
    let r = parse("-- name: a\n-- name: a\nSELECT 1;");
    assert!(matches!(r, Err(ParseError::DuplicateTag(_))));
    assert_eq!(message_of(r), "Duplicate tag: Duplicate query name found: 'a'");
}

#[test]
fn missing_name_scenario() {
    let r = parse("SELECT 1;");
    assert!(matches!(r, Err(ParseError::MissingNameTag(_))));
    assert_eq!(
        message_of(r),
        "Missing name tag: Query without 'name' tag found at line 1: 'SELECT 1;'"
    );
}

#[test]
fn gap_in_placeholders_scenario() {
    let r = parse("-- name: a\nSELECT 1 WHERE id=$1 AND x=$3;");
    match r {
        Err(ParseError::UnmatchedPlaceholders(m)) => {
            assert_eq!(m, "Query 'a' has incorrect placeholder order: expected 2, found 3")
        }
        _ => panic!("expected UnmatchedPlaceholders"),
    }
}

#[test]
fn tag_before_name_scenario() {
    let r = parse("-- raw: true\n-- name: a\nSELECT 1;");
    match r {
        Err(ParseError::InvalidTagOrder(m)) => {
            assert_eq!(m, "'name' should be the first tag, found 'raw' at line 1")
        }
        _ => panic!("expected InvalidTagOrder"),
    }
}

#[test]
fn fragments_join_with_single_spaces() {
    let q = parse("-- name: j\n  a  \n\n-- note\n b\n\tc\r\n").unwrap();
    assert_eq!(q.get("j").unwrap().query, "a b c");
}

#[test]
fn duplicate_name_after_other_blocks() {
    let r = parse("-- name: x\nSELECT 1;\n-- name: y\nSELECT 2;\n-- end\n-- name: x\nSELECT 3;");
    assert_eq!(message_of(r), "Duplicate tag: Duplicate query name found: 'x'");
}

#[test]
fn duplicate_key_in_block() {
    let r = parse("-- name: q\n-- raw: 1\n-- raw: 2\nSELECT 1;");
    match r {
        Err(ParseError::DuplicateTag(m)) => assert_eq!(m, "Duplicate tag 'raw' for query 'q'"),
        _ => panic!("expected DuplicateTag"),
    }
}

#[test]
fn tag_after_end_marker() {
    let r = parse("-- name: q\nSELECT 1;\n-- end\n-- raw: 1\n-- name: r\nSELECT 2;");
    match r {
        Err(ParseError::InvalidTagOrder(m)) => {
            assert_eq!(m, "'name' should be the first tag, found 'raw' at line 4")
        }
        _ => panic!("expected InvalidTagOrder"),
    }
}

#[test]
fn text_after_end_marker() {
    let r = parse("-- name: q\nSELECT 1;\n-- end\nSELECT 2;");
    assert_eq!(
        message_of(r),
        "Missing name tag: Query without 'name' tag found at line 4: 'SELECT 2;'"
    );
}

#[test]
fn empty_block() {
    let r = parse("-- name: e\n-- end");
    match r {
        Err(ParseError::EmptyQuery(m)) => assert_eq!(m, "Query 'e' is empty"),
        _ => panic!("expected EmptyQuery"),
    }
}

#[test]
fn name_at_end_of_input_is_empty() {
    let r = parse("-- name: a\nSELECT 1;\n-- name: b");
    assert!(matches!(r, Err(ParseError::EmptyQuery(_))));
}

#[test]
fn placeholder_orders() {
    assert!(parse("-- name: a\nSELECT 1;").is_ok());
    assert!(parse("-- name: a\nSELECT $1, $2, $3;").is_ok());
    assert!(parse("-- name: a\nSELECT $01;").is_ok());
    let swapped = parse("-- name: a\nSELECT $2, $1;");
    match swapped {
        Err(ParseError::UnmatchedPlaceholders(m)) => {
            assert_eq!(m, "Query 'a' has incorrect placeholder order: expected 1, found 2")
        }
        _ => panic!("expected UnmatchedPlaceholders"),
    }
    let repeated = parse("-- name: a\nSELECT $1, $2, $1;");
    match repeated {
        Err(ParseError::UnmatchedPlaceholders(m)) => {
            assert_eq!(m, "Query 'a' has incorrect placeholder order: expected 3, found 1")
        }
        _ => panic!("expected UnmatchedPlaceholders"),
    }
    let huge = parse("-- name: a\nSELECT $99999999999999999999999;");
    assert!(matches!(huge, Err(ParseError::UnmatchedPlaceholders(_))));
    assert!(parse("-- name: a\nSELECT '$', $ 1, $x;").is_ok());
}

#[test]
fn placeholders_spread_over_lines() {
    assert!(parse("-- name: a\nSELECT $1\n, $2\n-- end").is_ok());
}

#[test]
fn parsing_twice_gives_same_table() {
    let text = "-- name: a\n-- k: v\nSELECT $1;\n-- name: b\nSELECT 2;";
    let p = parse(text).unwrap();
    let q = parse(text).unwrap();
    assert_eq!(p.len(), q.len());
    for name in ["a", "b"] {
        let x = p.get(name).unwrap();
        let y = q.get(name).unwrap();
        assert_eq!(x.query, y.query);
        assert_eq!(x.tags, y.tags);
    }
}

#[test]
fn empty_input_gives_empty_table() {
    let q = parse("").unwrap();
    assert_eq!(q.len(), 0);
    assert!(q.get("a").is_none());
    let q = parse("\n  \n-- just a comment\n").unwrap();
    assert_eq!(q.len(), 0);
}

#[test]
fn line_kinds() {
    let l = parse_line("-- endless");
    assert_eq!(l.line_type, LineType::EndTag);
    let l = parse_line("--end");
    assert_eq!(l.line_type, LineType::Comment);
    assert_eq!(l.value, "end");
    let l = parse_line("-- key_1 : some value ");
    assert_eq!(l.line_type, LineType::Tag);
    assert_eq!(l.tag, "key_1");
    assert_eq!(l.value, "some value");
    let l = parse_line("-- two words: x");
    assert_eq!(l.line_type, LineType::Comment);
    assert_eq!(l.value, "two words: x");
    let l = parse_line("-- key:");
    assert_eq!(l.line_type, LineType::Comment);
    let l = parse_line("-- clé: v");
    assert_eq!(l.line_type, LineType::Tag);
    assert_eq!(l.tag, "clé");
    let l = parse_line("\u{3000}SELECT 1\u{a0}");
    assert_eq!(l.line_type, LineType::Query);
    assert_eq!(l.value, "SELECT 1");
    let l = parse_line("SELECT 1 -- trailing");
    assert_eq!(l.line_type, LineType::Query);
    assert_eq!(l.value, "SELECT 1 -- trailing");
}

#[test]
fn error_messages_by_kind() {
    assert_eq!(ParseError::IOError(String::from("x")).message(), "IO error: x");
    assert_eq!(ParseError::EmptyQuery(String::from("y")).message(), "Query without content: y");
    assert_eq!(ParseError::MalformedSQL(String::from("z")).message(), "Malformed SQL syntax: z");
    assert_eq!(
        ParseError::UnmatchedPlaceholders(String::from("w")).message(),
        "Unmatched placeholders: w"
    );
}

#[test]
fn long_line_numbers_in_messages() {
    let mut text = String::from("-- name: a\nSELECT 1;\n-- end\n");
    for _ in 0..120 {
        text.push('\n');
    }
    text.push_str("stray");
    let r = parse(&text);
    assert_eq!(
        message_of(r),
        "Missing name tag: Query without 'name' tag found at line 124: 'stray'"
    );
}

#[test]
fn remove_takes_entry_out() {
    let mut q = parse("-- name: a\nSELECT 1;\n-- name: b\nSELECT 2;").unwrap();
    let a = q.remove("a").unwrap();
    assert_eq!(a.query, "SELECT 1;");
    assert_eq!(q.len(), 1);
    assert!(q.get("a").is_none());
    assert!(q.remove("missing").is_none());
    assert_eq!(q.len(), 1);
    assert_eq!(q.get("b").unwrap().query, "SELECT 2;");
}
