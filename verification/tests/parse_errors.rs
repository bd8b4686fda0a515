//! Each parse failure, with its message and byte offset.

use graphql_documents::{parse, ParseError};

fn err(source: &str) -> ParseError {
    match parse(source) {
        Ok(_) => panic!("expected a parse failure for {source:?}"),
        Err(e) => e,
    }
}

fn check(source: &str, message: &str, position: usize) {
    let e = err(source);
    assert_eq!(e.message, message, "message for {source:?}");
    assert_eq!(e.position, position, "position for {source:?}");
}

#[test]
fn empty_document() {
    check("", "a document must define at least one definition", 0);
    check("  # c\n ,", "a document must define at least one definition", 8);
}

#[test]
fn unknown_definition() {
    check("type Foo { a: Int }", "expected a definition", 0);
    check("  queryX { a }", "expected a definition", 2);
}

#[test]
fn missing_name_and_punctuators() {
    check("query A { a(: 1) }", "expected a name", 12);
    check("query A { a(x 1) }", "expected ':'", 14);
    check("query A($x Int) { a }", "expected ':'", 11);
    check("query A(x: Int) { a }", "expected '$'", 8);
    check("query A($x: [Int) { a }", "expected ']'", 16);
    check("query A", "expected '{'", 7);
}

#[test]
fn fragment_errors() {
    check("fragment on on Q { a }", "a fragment cannot be named 'on'", 11);
    check("fragment F Q { a }", "expected 'on' in fragment definition", 11);
}

#[test]
fn unterminated_lists() {
    check("query A($x: Int", "unterminated variable definitions", 15);
    check("query A { a(x: 1", "unterminated arguments", 16);
    check("query A { a", "unterminated selection set", 11);
    check("query A { a(x: [1", "unterminated list value", 17);
    check("query A { a(x: {b: 1", "unterminated object value", 20);
}

#[test]
fn value_errors() {
    check("query A { a(x: ) }", "expected a value", 15);
    check("query A($x: Int = $y) { a }", "a constant value cannot be a variable", 18);
    check("query A { a(x: -) }", "invalid number", 16);
    check("query A { a(x: 1.) }", "invalid float", 17);
    check("query A { a(x: 1e) }", "invalid exponent", 17);
    check("query A { a(x: 1e+) }", "invalid exponent", 18);
}

#[test]
fn string_errors() {
    check("query A { a(x: \"abc", "unterminated string", 19);
    check("query A { a(x: \"ab\ncd\") }", "unterminated string", 18);
    check("query A { a(x: \"\\q\") }", "invalid escape sequence", 17);
    check("query A { a(x: \"\\u12\") }", "invalid unicode escape", 18);
    check("query A { a(x: \"\\u{}\") }", "invalid unicode escape", 19);
    check("query A { a(x: \"\\u{110000}\") }", "invalid unicode code point", 26);
    check("query A { a(x: \"\\u{1234567890}\") }", "invalid unicode escape", 30);
    check("query A { a(x: \"\\uDC00\") }", "invalid unicode code point", 22);
    check("query A { a(x: \"\\uD800\\u0041\") }", "invalid low surrogate", 28);
    check("query A { a(x: \"\"\"abc) }", "unterminated block string", 24);
}

#[test]
fn positions_count_bytes() {
    // The two-byte `é` and the four-byte `😀` before the failure move it by
    // their UTF-8 widths.
    check("# é\nquery A { a(x: ) }", "expected a value", 20);
    check("query A { a(x: \"😀\\q\") }", "invalid escape sequence", 21);
}

#[test]
fn error_text() {
    let e = err("query A { a");
    assert_eq!(e.to_string(), "unterminated selection set at position 11");
}
