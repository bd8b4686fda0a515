//! The canonical order of definitions, selections, arguments and directives.

use graphql_documents::{canonicalize, parse, sort_executable_document, Definition};

fn canonical(input: &str) -> String {
    canonicalize(&parse(input).unwrap())
}

#[test]
fn directive_arguments_sort_but_field_arguments_do_not() {
    assert_eq!(
        canonical("query A @d(b: 1, a: 2) @c { f(z: 1, y: 2) @e(z: 1, y: 2) @b }"),
        "query A @d(a: 2, b: 1) @c { f(z: 1, y: 2) @e(y: 2, z: 1) @b }"
    );
}

#[test]
fn directives_sort_on_spreads_inline_fragments_and_fragments() {
    assert_eq!(
        canonical("query A { ...F @b @a ... on T @b @a { x } } fragment F on T @b @a { x }"),
        "fragment F on T @a @b { x } query A { ...F @a @b ... on T @a @b { x } }"
    );
}

#[test]
fn mutation_top_level_keeps_order() {
    assert_eq!(
        canonical(
            "mutation M { c b ...Z @b @a ... on T { y x } } fragment Z($b: Int, $a: Int) on T @y @x { d c } fragment Y($b: Int, $a: Int) on T @y @x { d c }"
        ),
        "fragment Y($a: Int, $b: Int) on T @x @y { c d } fragment Z($b: Int, $a: Int) on T @y @x { c d } mutation M { c b ...Z @a @b ... on T { y x } }"
    );
}

#[test]
fn mutation_field_children_sort() {
    assert_eq!(
        canonical("mutation M { b { z y } a }"),
        "mutation M { b { y z } a }"
    );
}

#[test]
fn named_operations_before_anonymous() {
    assert_eq!(canonical("query { a } query B { a }"), "query B { a } { a }");
}

#[test]
fn selection_kinds_order() {
    assert_eq!(
        canonical("query A { ... on B { x } ... on A { y } ...F f ... @d { z } }"),
        "query A { f ...F ... on A { y } ... on B { x } ... @d { z } }"
    );
}

#[test]
fn fields_sort_by_name_not_alias() {
    assert_eq!(canonical("query A { z: a y: b }"), "query A { z: a y: b }");
}

#[test]
fn equal_names_keep_source_order() {
    assert_eq!(
        canonical("query A { a(x: 2) a(x: 1) }"),
        "query A { a(x: 2) a(x: 1) }"
    );
}

#[test]
fn inline_fragment_key_uses_one_level() {
    // The inner key reorders the immediate selections but prints their
    // children as written, so `a { c b }` keys after `a { b c }`.
    assert_eq!(
        canonical("query A { ... on Q { a { c b } } ... on Q { a { b c } } }"),
        "query A { ... on Q { a { b c } } ... on Q { a { b c } } }"
    );
}

#[test]
fn sorted_document_is_a_new_value() {
    let doc = parse("query B { b a } fragment F on T { y x }").unwrap();
    let sorted = sort_executable_document(&doc);
    assert_eq!(sorted.definitions.len(), 2);
    assert!(matches!(sorted.definitions[0], Definition::Fragment(_)));
    assert!(matches!(doc.definitions[0], Definition::Operation(_)));
    let copy = doc.clone();
    assert_eq!(copy, doc);
}
