use yesqlr::{parse, parse_line, LineType, ParseError};

fn check_line(input: &str, line_type: LineType, tag: &str, value: &str) {
    let parsed = parse_line(input);
    assert_eq!(parsed.line_type, line_type);
    assert_eq!(parsed.tag, tag);
    assert_eq!(parsed.value, value);
}

#[test]
fn lib_test_parse_line() {
    check_line(" ", LineType::Blank, "", "");
    check_line(" SELECT * ", LineType::Query, "", "SELECT *");
    check_line(" -- name: tag ", LineType::Tag, "name", "tag");
    check_line(" -- end ", LineType::EndTag, "end", "");
    check_line(" -- some: param ", LineType::Tag, "some", "param");
    check_line(" -- comment ", LineType::Comment, "", "comment");
    check_line(" --", LineType::Comment, "", "");
}

#[test]
fn lib_test_scanner_err_tags() {
    let double = "
-- name: first
-- name: clone
SELECT * FROM foo;
";
    let missing = "
SELECT * FROM missing;
";
    for (key, content) in [("double", double), ("missing", missing)] {
        let result = parse(content);
        assert!(result.is_err(), "expected error for {}, but got Ok", key);
    }
}

#[test]
fn lib_test_scanner_valid() {
    let valid_sql = "
-- name: simple
-- raw: 1
SELECT * FROM simple;
-- name: multiline
SELECT *
FROM multiline
WHERE line = 42;
-- name: comments
-- yoyo
SELECT *
-- inline
FROM comments;
";
    let queries = parse(valid_sql).unwrap();
    let expected = [
        ("simple", "SELECT * FROM simple;"),
        ("multiline", "SELECT * FROM multiline WHERE line = 42;"),
        ("comments", "SELECT * FROM comments;"),
    ];
    assert_eq!(queries.len(), expected.len());
    assert_eq!(queries.get("simple").unwrap().tag("raw"), Some(&String::from("1")));
    for (key, expected_query) in expected {
        assert_eq!(queries.get(key).unwrap().query.trim(), expected_query);
    }
}

#[test]
fn lib_test_parse_invalid_bytes() {
    let result = parse("this will fail");
    assert!(!result.is_ok());
}

#[test]
fn test_parse_bytes_no_panic() {
    let result = parse("-- name: byte-me\nSELECT * FROM bytes;");
    assert!(result.is_ok());
}

#[test]
fn lib_test_parse_bytes() {
    let result = parse("--name: simple\nSELECT * FROM simple;\n--name: simple2\nSELECT * FROM simple2;");
    assert!(result.is_ok());
}

#[test]
fn test_placeholder_validation() {
    let sql = "
        -- name: valid_query
        SELECT * FROM users WHERE id = $1;
        ";
    let queries = parse(sql);
    assert!(queries.is_ok(), "Placeholder check failed for valid query.");

    let invalid_sql = "
        -- name: invalid_query
        SELECT * FROM users WHERE id = $1 AND email = $2 AND age = $1;
        ";
    let queries = parse(invalid_sql);
    assert!(queries.is_err(), "Expected error for inconsistent placeholders.");
}

#[test]
fn test_multi_statement_query() {
    let multi_stmt_sql = "
        -- name: transaction_block
        BEGIN;
        INSERT INTO users (name, email) VALUES ($1, $2);
        COMMIT;
        -- end;
        ";
    let queries = parse(multi_stmt_sql).expect("Failed to parse multi-statement query.");
    let query = &queries.get("transaction_block").unwrap().query;
    assert_eq!(query, "BEGIN; INSERT INTO users (name, email) VALUES ($1, $2); COMMIT;");
}

#[test]
fn test_parse_error_conditions() {
    let duplicate_tag_sql = "
    -- name: duplicate_query
    SELECT * FROM users;
    -- name: duplicate_query
    SELECT * FROM users;
    ";
    let result = parse(duplicate_tag_sql);
    assert!(matches!(result, Err(ParseError::DuplicateTag(_))), "Expected DuplicateTag error");

    let missing_name_tag_sql = "
    SELECT * FROM users;
    ";
    let result = parse(missing_name_tag_sql);
    assert!(matches!(result, Err(ParseError::MissingNameTag(_))), "Expected MissingNameTag error");

    let invalid_tag_order_sql = "
    -- raw: true
    SELECT * FROM users;
    -- name: invalid_order_query
    ";
    let result = parse(invalid_tag_order_sql);
    assert!(matches!(result, Err(ParseError::InvalidTagOrder(_))), "Expected InvalidTagOrder error");

    let empty_query_sql = "
    -- name: empty_query
    -- end;
    ";
    let result = parse(empty_query_sql);
    assert!(matches!(result, Err(ParseError::EmptyQuery(_))), "Expected EmptyQuery error");
}

#[test]
fn test_placeholder_sequence_validation() {
    let valid_placeholder_sql = "
    -- name: valid_sequence_query
    SELECT * FROM users WHERE id = $1 AND email = $2;
    ";
    let result = parse(valid_placeholder_sql);
    assert!(result.is_ok(), "Expected valid sequence of placeholders");

    let invalid_placeholder_sequence_sql = "
    -- name: invalid_sequence_query
    SELECT * FROM users WHERE id = $1 AND email = $3;
    ";
    let result = parse(invalid_placeholder_sequence_sql);
    assert!(
        matches!(result, Err(ParseError::UnmatchedPlaceholders(_))),
        "Expected UnmatchedPlaceholders error for sequence"
    );

    let duplicate_placeholder_sql = "
    -- name: duplicate_placeholder_query
    SELECT * FROM users WHERE id = $1 AND email = $1;
    ";
    let result = parse(duplicate_placeholder_sql);
    assert!(
        matches!(result, Err(ParseError::UnmatchedPlaceholders(_))),
        "Expected UnmatchedPlaceholders error for duplicates"
    );
}

#[test]
fn test_multi_statement_query_parsing() {
    let multi_stmt_sql = "
    -- name: transaction_block
    BEGIN;
    INSERT INTO users (name, email) VALUES ($1, $2);
    COMMIT;
    -- end;
    ";
    let queries = parse(multi_stmt_sql).expect("Failed to parse multi-statement query");
    let query = &queries.get("transaction_block").unwrap().query;
    assert_eq!(query, "BEGIN; INSERT INTO users (name, email) VALUES ($1, $2); COMMIT;");
}

#[test]
fn test_tag_validation() {
    let proper_tag_order_sql = "
    -- name: proper_order_query
    -- raw: true
    SELECT * FROM users;
    ";
    let result = parse(proper_tag_order_sql);
    assert!(result.is_ok(), "Expected proper tag order to parse successfully");

    let duplicate_tag_sql = "
    -- name: duplicate_tag_query
    -- raw: true
    -- raw: true
    SELECT * FROM users;
    ";
    let result = parse(duplicate_tag_sql);
    assert!(matches!(result, Err(ParseError::DuplicateTag(_))), "Expected DuplicateTag error");
}
