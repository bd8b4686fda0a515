//! The library's properties, each checked on concrete documents.

use graphql_documents::printer::print;
use graphql_documents::{
    canonicalize, normalize_whitespace, parse, print_pretty, sort_executable_document,
    Definition, Selection,
};

fn canonical(input: &str) -> String {
    canonicalize(&parse(input).unwrap())
}

#[test]
fn normalized_text_is_one_spaced_line() {
    let out = normalize_whitespace("\u{feff}  a \t\n b\u{a0}\u{2028}c  ");
    assert_eq!(out, "a b c");
    assert!(!out.contains("  "));
    assert!(!out.starts_with(' ') && !out.ends_with(' '));
}

#[test]
fn normalizing_twice_is_normalizing_once() {
    for s in ["", "   ", " x\ny ", "a  \r\n\t b", "\u{3000}q\u{3000}"] {
        let once = normalize_whitespace(s);
        assert_eq!(normalize_whitespace(&once), once);
    }
}

#[test]
fn selection_order_does_not_change_the_canonical_string() {
    assert_eq!(
        canonical("query A { c b { y x } a ...F ... on T { q } }"),
        canonical("query A { ... on T { q } ...F a b { y x } c }")
    );
}

#[test]
fn definition_order_does_not_change_the_canonical_string() {
    let a = "query B { x } fragment F on T { y } mutation M { z } { w }";
    let b = "{ w } mutation M { z } fragment F on T { y } query B { x }";
    assert_eq!(canonical(a), canonical(b));
    assert_eq!(
        canonical(a),
        "fragment F on T { y } query B { x } mutation M { z } { w }"
    );
}

#[test]
fn whitespace_and_commas_do_not_change_the_canonical_string() {
    assert_eq!(
        canonical("query A($v: Int) { a(x: 1, y: 2) { b } }"),
        canonical("query   A( $v :Int ){a( x:1 y:2 ){b}}")
    );
}

#[test]
fn sorted_selection_sets_put_fields_then_spreads_then_inline_fragments() {
    let doc = sort_executable_document(&parse("{ ... on T { a } ...G z ...F y }").unwrap());
    match &doc.definitions[0] {
        Definition::Operation(op) => {
            let kinds: Vec<&str> = op
                .selection_set
                .selections
                .iter()
                .map(|s| match s {
                    Selection::Field(f) => f.name.as_str(),
                    Selection::FragmentSpread(f) => f.name.as_str(),
                    _ => "inline",
                })
                .collect();
            assert_eq!(kinds, vec!["y", "z", "F", "G", "inline"]);
        }
        _ => panic!("expected an operation"),
    }
}

#[test]
fn mutation_top_level_selections_keep_their_positions() {
    let doc = sort_executable_document(&parse("mutation M { c ...Z b ... on T { y x } a }").unwrap());
    assert_eq!(
        normalize_whitespace(&print(&doc)),
        "mutation M { c ...Z b ... on T { y x } a }"
    );
}

#[test]
fn fragments_come_before_operations_and_none_is_lost() {
    let doc = parse("query A { a } fragment G on T { g } { b } fragment F on T { f }").unwrap();
    let sorted = sort_executable_document(&doc);
    assert_eq!(sorted.definitions.len(), doc.definitions.len());
    let firsts: Vec<bool> = sorted
        .definitions
        .iter()
        .map(|d| matches!(d, Definition::Fragment(_)))
        .collect();
    assert_eq!(firsts, vec![true, true, false, false]);
}

#[test]
fn sources_without_definitions_are_rejected_at_their_end() {
    for s in ["", " , ", "# c", "\u{feff}\t# a\r\n# b"] {
        let e = parse(s).unwrap_err();
        assert_eq!(e.message, "a document must define at least one definition");
        assert_eq!(e.position, s.len());
    }
}

#[test]
fn directive_and_variable_lists_come_out_in_name_order() {
    assert_eq!(
        canonical("query A($c: Int, $a: Int, $b: Int) @z(q: 1, p: 2) @y { ...F } fragment F on T @z(q: 1, p: 2) @y { f }"),
        "fragment F on T @y @z(p: 2, q: 1) { f } query A($a: Int, $b: Int, $c: Int) @z(p: 2, q: 1) @y { ...F }"
    );
}

#[test]
fn a_clone_equals_and_prints_like_its_source() {
    let doc = parse("query A($x: [Int!] = [1]) @d { a(b: {c: \"s\"}) { ...F ... on T { e } } }")
        .unwrap();
    let copy = doc.clone();
    assert_eq!(copy, doc);
    assert_eq!(print_pretty(&copy), print_pretty(&doc));
}

#[test]
fn unicode_escapes_decode_to_their_characters() {
    assert_eq!(canonical("{ f(x: \"\\u0041\\u00e9\") }"), "{ f(x: \"Aé\") }");
    let e = parse("{ f(x: \"\\uD800\") }").unwrap_err();
    assert!(!e.message.is_empty());
}

#[test]
fn ignored_text_in_front_of_a_source_is_skipped() {
    let body = "query A { a }";
    let front = " ,\t# note\r\n\u{feff}\n";
    assert_eq!(parse(&format!("{front}{body}")).unwrap(), parse(body).unwrap());
    let bad = "query A { a";
    let e1 = parse(bad).unwrap_err();
    let e2 = parse(&format!("  , {bad}")).unwrap_err();
    assert_eq!(e2.message, e1.message);
    assert_eq!(e2.position, e1.position + 4);
}

#[test]
fn sources_with_the_same_tokens_parse_to_the_same_document() {
    let tight = "query A($v:Int=1){a(x:1.5e2,y:\"s  t\")@d{...F ... on T{b}}}fragment F on T{c}";
    let loose = "  query A ( $v : Int = 1 ) {\n  a ( x : 1.5e2 , y : \"s  t\" ) @ d # note\n { ... F ...on T { b } } }\r\n fragment F on T { c } ,";
    assert_eq!(parse(tight).unwrap(), parse(loose).unwrap());
    assert_eq!(canonical(tight), canonical(loose));
    assert!(parse("query A { a(x: 1) }").is_ok());
    assert!(parse("query A { a(x: 1 }").is_err());
    assert!(parse("query A { a(x:1}").is_err());
}

#[test]
fn reordering_selections_at_any_depth_gives_the_same_canonical_string() {
    assert_eq!(
        canonical("query A { d { f e } a { c { z y } b } ...F }"),
        canonical("query A { ...F a { b c { y z } } d { e f } }")
    );
    assert_eq!(
        canonical("{ a { c { z y } b } }"),
        "{ a { b c { y z } } }"
    );
}

#[test]
fn reordering_definitions_and_their_selections_gives_the_same_canonical_string() {
    let a = "query B { b { y x } a } fragment F on T { y { q p } x } mutation M { c { e d } ...F }";
    let b = "mutation M { c { d e } ...F } fragment F on T { x y { p q } } query B { a b { x y } }";
    assert_eq!(canonical(a), canonical(b));
    assert_eq!(
        canonical(a),
        "fragment F on T { x y { p q } } query B { a b { x y } } mutation M { c { d e } ...F }"
    );
    assert_ne!(canonical("mutation M { b a }"), canonical("mutation M { a b }"));
}

#[test]
fn definitions_come_in_name_order_with_anonymous_operations_last() {
    assert_eq!(
        canonical("query B { a } { x } fragment Z on T { a } query A { b } fragment Y on T { c }"),
        "fragment Y on T { c } fragment Z on T { a } query A { b } query B { a } { x }"
    );
}

#[test]
fn whitespace_inside_string_values_collapses_too() {
    assert_eq!(canonical("{ f(x: \"a   b\") }"), canonical("{ f(x: \"a b\") }"));
    assert_eq!(canonical("{ f(x: \"a   b\") }"), "{ f(x: \"a b\") }");
}

#[test]
fn lists_that_keep_their_source_order() {
    assert_eq!(canonical("{ f(b: 1, a: 2) @z(q: 1, p: 2) @y }"), "{ f(b: 1, a: 2) @z(p: 2, q: 1) @y }");
    assert_eq!(
        canonical("query A($a: Int @z @y) @d @c { f }"),
        "query A($a: Int @z @y) @d @c { f }"
    );
    assert_eq!(
        canonical("mutation M { ... on T @b @a { ... on U { b a } c { z y } } }"),
        "mutation M { ... on T @b @a { ... on U { b a } c { y z } } }"
    );
    assert_eq!(
        canonical("mutation M { ...F } fragment F($b: Int, $a: Int) on T @y @x { b a }"),
        "fragment F($b: Int, $a: Int) on T @y @x { a b } mutation M { ...F }"
    );
    assert_eq!(
        canonical("query Q { ...F } fragment F($b: Int, $a: Int) on T @y @x { b a }"),
        "fragment F($a: Int, $b: Int) on T @x @y { a b } query Q { ...F }"
    );
}

#[test]
fn canonical_output_parses_back_to_itself() {
    for input in [
        "query B($b: Int, $a: [String!]! = [\"x\"]) @d(z: 1, y: 2) { z y { b a } ...F }",
        "fragment F on T @b @a { c b a } { x }",
        "mutation M { c b a { z y } }",
        "subscription S { e(x: {b: 1, a: 2}) d }",
    ] {
        let once = canonical(input);
        assert_eq!(canonical(&once), once, "not a fixed point for {input:?}");
        assert!(!once.contains("  ") && !once.contains('\n') && !once.contains('\t'));
        assert_eq!(once.trim(), once);
    }
}

#[test]
fn normalizing_joins_the_words_with_single_spaces() {
    let s = "\t alpha  beta\n\u{3000}gamma \u{feff}";
    let words: Vec<&str> = vec!["alpha", "beta", "gamma"];
    assert_eq!(normalize_whitespace(s), words.join(" "));
}

#[test]
fn printed_block_strings_read_back_as_the_same_value() {
    for src in [
        "{ f(x: \"\"\"\n    a\n      b\n  \"\"\") }",
        "{ f(x: \"\"\"  indented first line\"\"\") }",
        "{ f(x: \"\"\"ends with quote\" \"\"\") }",
        "{ f(x: \"\"\"has \\\"\"\" inside\"\"\") }",
        "{ f(x: \"\"\"\"\"\") }",
        "{ f(x: \"\"\"ends with backslash\\\n\"\"\") }",
    ] {
        let doc = parse(src).unwrap();
        let again = parse(&print_pretty(&doc)).unwrap();
        assert_eq!(again, doc, "for {src:?}");
    }
}

#[test]
fn printed_quoted_strings_read_back_as_the_same_value() {
    let src = "{ f(x: \"q\\\" b\\\\ \\u0001 \\u007f \\u0085 \\n\\t é 😀\") }";
    let doc = parse(src).unwrap();
    assert_eq!(parse(&print_pretty(&doc)).unwrap(), doc);
}

#[test]
fn pretty_printed_documents_parse_back_to_themselves() {
    let long = (0..30).map(|n| n.to_string()).collect::<Vec<_>>().join(", ");
    let sources = [
        "query Q($a: [Int!]! = [1, 2] @v(x: $a), $b: String) @d(x: 1) { a: f(x: 1, y: \"s\") @i { g h(z: {k: [true, null, E]}) } ...F @s ... on T @t { u } ... @w { v } }".to_string(),
        "fragment F($c: Float = 1.5e3) on T @d { x { y { z } } }".to_string(),
        "mutation { b a }".to_string(),
        "subscription S { e }".to_string(),
        format!("{{ f(list: [{long}], obj: {{ aaaaaaaaaa: 1111111111, bbbbbbbbbb: 2222222222, cccccccccc: 3333333333, dddddddd: 4 }}) }}"),
        "{ f(x: \"\"\"\n  block\n    string\n\"\"\") { g(y: \"\"\"  single\"\"\") } }".to_string(),
    ];
    for src in sources.iter() {
        let doc = parse(src).unwrap();
        let printed = print_pretty(&doc);
        assert_eq!(parse(&printed).unwrap(), doc, "for {src:?}");
    }
}
