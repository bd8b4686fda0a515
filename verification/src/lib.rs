//! Canonical, deterministic sorting and printing of GraphQL executable
//! documents.
//!
//! Two semantically equivalent operations written with different field order
//! or whitespace map to the same string. This crate provides that canonical
//! string, useful as a stable key for persisted operations and allow-lists.
//!
//! The parser, the sorter, the printer and the whitespace normalizer each
//! carry a contract stating exactly what they return, in terms of the
//! mathematical model of the AST in [`model`] and the specifications in
//! [`parse_spec`], [`sort_spec`], [`print_spec`] and [`normalize`].
//!
//! The properties of the library as a whole are proved in [`laws`] (the
//! shape of canonical order, whitespace normalization),
//! [`order_laws`] (source order of definitions and selections does not
//! matter), [`token_laws`] (sources with the same tokens parse alike),
//! [`parse_laws`] (ignored text in front of a source is skipped) and
//! [`string_laws`] (printed string values read back as themselves) and
//! [`readback_laws`] (literals read as what they name; printed scalar values,
//! values that fit on one line, types, directives and variable definitions
//! read back as themselves; printed operations keep their head).

pub mod ast;
pub mod model;
pub mod text;
pub mod normalize;
pub mod parse_spec;
pub mod parser;
pub mod print_spec;
pub mod printer;
pub mod sort_spec;
pub mod sort;
pub mod laws;
pub mod parse_laws;
pub mod token_laws;
pub mod order_laws;
pub mod string_laws;
pub mod readback_laws;

pub use ast::{
    Argument, Definition, Directive, Document, Field, FragmentDefinition, FragmentSpread,
    InlineFragment, ObjectField, OperationDefinition, OperationType, Selection, SelectionSet, Type,
    Value, VariableDefinition,
};
pub use normalize::normalize_whitespace;
pub use parser::{parse, ParseError};
pub use sort::sort_executable_document;

use vstd::prelude::*;

verus! {

/// Reduce an executable document to its canonical single-line string.
///
/// The document is sorted into canonical order, printed, then every run of
/// whitespace is collapsed to a single space and the ends are trimmed.
pub fn canonicalize(document: &Document) -> (out: String)
    ensures
        out@ == normalize::spec_normalize_whitespace(
            print_spec::print_document(sort_spec::sort_document(document@)),
        ),
{
    let sorted = sort_executable_document(document);
    let printed = printer::print_chars(&sorted);
    text::string_from_chars(&normalize::normalize_chars(&printed))
}

/// Render a document as multi-line GraphQL with two-space indent.
///
/// This is the raw pretty-printer. It does not sort and does not collapse
/// whitespace, so the output keeps source order and spans many lines.
pub fn print_pretty(document: &Document) -> (out: String)
    ensures
        out@ == print_spec::print_document(document@),
{
    printer::print(document)
}

} // verus!
