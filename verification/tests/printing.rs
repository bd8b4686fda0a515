//! Exact output of the pretty-printer and the canonical form of values.

use graphql_documents::printer::{print, print_selection};
use graphql_documents::{canonicalize, parse, print_pretty, Definition, OperationType};

fn canonical(input: &str) -> String {
    canonicalize(&parse(input).unwrap())
}

#[test]
fn pretty_operation_layout() {
    let doc = parse(
        "query A($b: Int = 1 @d, $a: [String!]!) @x(y: 2) { a: f(n: 1) @i { g } ... on T @j { h } ...F @k }",
    )
    .unwrap();
    assert_eq!(
        print_pretty(&doc),
        "query A($b: Int = 1 @d, $a: [String!]!) @x(y: 2) {\n  a: f(n: 1) @i {\n    g\n  }\n  ... on T @j {\n    h\n  }\n  ...F @k\n}"
    );
    assert_eq!(print(&doc), print_pretty(&doc));
}

#[test]
fn pretty_definitions_are_separated_by_a_blank_line() {
    let doc = parse("fragment F($a: Int) on T @d { x } { y }").unwrap();
    assert_eq!(
        print_pretty(&doc),
        "fragment F($a: Int) on T @d {\n  x\n}\n\n{\n  y\n}"
    );
}

#[test]
fn pretty_selection() {
    let doc = parse("{ a(x: 1) { b } }").unwrap();
    match &doc.definitions[0] {
        Definition::Operation(op) => {
            assert_eq!(op.operation.keyword(), "query");
            assert_eq!(print_selection(&op.selection_set.selections[0]), "a(x: 1) {\n  b\n}");
        }
        _ => panic!("expected an operation"),
    }
    assert_eq!(OperationType::Mutation.keyword(), "mutation");
    assert_eq!(OperationType::Subscription.keyword(), "subscription");
}

#[test]
fn long_arguments_wrap() {
    let input = "query A { f(aaaaaaaaaa: 1111111111, bbbbbbbbbb: 2222222222, cccccccccc: 3333333333, dddddddddd: 4444444444) }";
    assert_eq!(
        print_pretty(&parse(input).unwrap()),
        "query A {\n  f(\n    aaaaaaaaaa: 1111111111\n    bbbbbbbbbb: 2222222222\n    cccccccccc: 3333333333\n    dddddddddd: 4444444444\n  )\n}"
    );
    assert_eq!(
        canonical(input),
        "query A { f( aaaaaaaaaa: 1111111111 bbbbbbbbbb: 2222222222 cccccccccc: 3333333333 dddddddddd: 4444444444 ) }"
    );
}

#[test]
fn long_list_wraps() {
    let items: Vec<String> = (10..40).map(|n| n.to_string()).collect();
    let input = format!("query A {{ f(x: [{}]) }}", items.join(", "));
    let expected = format!("query A {{ f( x: [ {} ] ) }}", items.join(" "));
    assert_eq!(canonical(&input), expected);
}

#[test]
fn every_value_form_prints_canonically() {
    assert_eq!(
        canonical("query A { f(a: -1.5e3, b: 0, c: true, d: null, e: ENUM, f: $v, g: [], h: {}, i: {a: 1, b: \"x\"}) }"),
        "query A { f( a: -1.5e3 b: 0 c: true d: null e: ENUM f: $v g: [] h: { } i: { a: 1, b: \"x\" } ) }"
    );
}

#[test]
fn string_escapes() {
    assert_eq!(
        canonical("query A { f(x: \"\\t\\n\\\\\\\"\\/é\\u0041\") }"),
        "query A { f(x: \"\\t\\n\\\\\\\"/éA\") }"
    );
    assert_eq!(
        canonical("query A { f(x: \"\\uD83D\\uDE00 \\u{1F600} \\b\\f\\r\") }"),
        "query A { f(x: \"😀 😀 \\b\\f\\r\") }"
    );
    assert_eq!(
        canonical("query A { f(x: \"\\u+041\") }"),
        "query A { f(x: \"A\") }"
    );
}

#[test]
fn block_strings() {
    let input = "query A { f(x: \"\"\"  hello\n    world\n  \"\"\") }";
    assert_eq!(
        print_pretty(&parse(input).unwrap()),
        "query A {\n  f(x: \"\"\"\n    hello\n  world\n  \"\"\")\n}"
    );
    assert_eq!(canonical(input), "query A { f(x: \"\"\" hello world \"\"\") }");
    assert_eq!(
        canonical("query A { f(x: \"\"\"abc\"\"\") }"),
        "query A { f(x: \"\"\"abc\"\"\") }"
    );
    assert_eq!(
        canonical("query A { f(x: \"\"\"a\\\"\"\"b\"\"\") }"),
        "query A { f(x: \"\"\"a\\\"\"\"b\"\"\") }"
    );
}
