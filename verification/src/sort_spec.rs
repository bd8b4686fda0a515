//! The meaning of canonical sorting.
//!
//! Lists are put in order by a stable sort on keys compared by UTF-16 code
//! units, as JavaScript compares strings. Elements with equal keys keep their
//! source order.
use vstd::prelude::*;
use crate::ast::OperationType;
use crate::model::{
    SpecArgument, SpecDefinition, SpecDirective, SpecDocument, SpecFragment, SpecOperation,
    SpecSelection, SpecVariableDefinition,
};
use crate::normalize::spec_normalize_whitespace;
use crate::print_spec::print_selection;
use crate::text::join;

verus! {

// --- keys and their order ---

/// The UTF-16 code units of one character.
pub open spec fn utf16_units(c: char) -> Seq<u16> {
    let v = c as u32;
    if v < 0x10000 {
        seq![v as u16]
    } else {
        let w = (v - 0x10000) as nat;
        seq![(0xD800 + w / 1024) as u16, (0xDC00 + w % 1024) as u16]
    }
}

/// The UTF-16 encoding of `s`.
pub open spec fn utf16_encode(s: Seq<char>) -> Seq<u16>
    decreases s.len(),
{
    if s.len() == 0 {
        Seq::empty()
    } else {
        utf16_encode(s.drop_last()) + utf16_units(s.last())
    }
}

/// `a` comes strictly before `b` in lexicographic order.
pub open spec fn seq_lt(a: Seq<u16>, b: Seq<u16>) -> bool
    decreases a.len(),
{
    if a.len() == 0 {
        b.len() > 0
    } else if b.len() == 0 {
        false
    } else if a[0] != b[0] {
        a[0] < b[0]
    } else {
        seq_lt(a.drop_first(), b.drop_first())
    }
}

/// `t` with index `x` placed after every element whose key is not greater
/// than `keys[x]`, scanning from the end.
pub open spec fn insert_in_order(x: int, t: Seq<int>, keys: Seq<Seq<u16>>) -> Seq<int>
    decreases t.len(),
{
    if t.len() == 0 {
        seq![x]
    } else if seq_lt(keys[x], keys[t.last()]) {
        insert_in_order(x, t.drop_last(), keys).push(t.last())
    } else {
        t.push(x)
    }
}

/// The indices `0..n` in the stable order of their keys: by key, and by
/// index among equal keys.
pub open spec fn stable_order(keys: Seq<Seq<u16>>, n: int) -> Seq<int>
    decreases n,
{
    if n <= 0 {
        Seq::empty()
    } else {
        insert_in_order(n - 1, stable_order(keys, n - 1), keys)
    }
}

/// The stable order of all of `keys`.
pub open spec fn sorted_indices(keys: Seq<Seq<u16>>) -> Seq<int> {
    stable_order(keys, keys.len() as int)
}

/// The elements of `s` taken in the order `order`.
pub open spec fn permute<A>(s: Seq<A>, order: Seq<int>) -> Seq<A> {
    order.map_values(|i: int| s[i])
}

/// The UTF-16 keys of a list of names.
pub open spec fn name_keys(names: Seq<Seq<char>>) -> Seq<Seq<u16>> {
    names.map_values(|n: Seq<char>| utf16_encode(n))
}

// --- arguments, directives, variable definitions ---

/// Arguments sorted by name.
pub open spec fn sort_arguments(args: Seq<SpecArgument>) -> Seq<SpecArgument> {
    permute(args, sorted_indices(name_keys(args.map_values(|a: SpecArgument| a.name))))
}

/// A directive with its arguments sorted.
pub open spec fn sort_directive_arguments_of(d: SpecDirective) -> SpecDirective {
    SpecDirective { name: d.name, arguments: sort_arguments(d.arguments) }
}

/// Each directive with its arguments sorted; the list keeps source order.
pub open spec fn sort_directive_arguments(ds: Seq<SpecDirective>) -> Seq<SpecDirective> {
    ds.map_values(|d: SpecDirective| sort_directive_arguments_of(d))
}

/// Directives sorted by name, each with its arguments sorted.
pub open spec fn sort_directives(ds: Seq<SpecDirective>) -> Seq<SpecDirective> {
    permute(
        sort_directive_arguments(ds),
        sorted_indices(name_keys(ds.map_values(|d: SpecDirective| d.name))),
    )
}

/// A variable definition with its directives' arguments sorted.
pub open spec fn sort_variable_definition_of(d: SpecVariableDefinition) -> SpecVariableDefinition {
    SpecVariableDefinition {
        variable: d.variable,
        ty: d.ty,
        default_value: d.default_value,
        directives: sort_directive_arguments(d.directives),
    }
}

/// Each variable definition transformed; the list keeps source order.
pub open spec fn sort_ignored_variable_definitions(defs: Seq<SpecVariableDefinition>) -> Seq<
    SpecVariableDefinition,
> {
    defs.map_values(|d: SpecVariableDefinition| sort_variable_definition_of(d))
}

/// Variable definitions sorted by variable name, each transformed.
pub open spec fn sort_variable_definitions(defs: Seq<SpecVariableDefinition>) -> Seq<
    SpecVariableDefinition,
> {
    permute(
        sort_ignored_variable_definitions(defs),
        sorted_indices(name_keys(defs.map_values(|d: SpecVariableDefinition| d.variable))),
    )
}

// --- selection keys ---

/// The sort key of a selection: `0` and the name for a field, `1` and the
/// name for a spread, `2`, the type condition and the inner key for an
/// inline fragment. So fields come first, then spreads, then inline
/// fragments.
pub open spec fn selection_key(sel: SpecSelection) -> Seq<char>
    decreases sel, 2int,
{
    match sel {
        SpecSelection::Field { name, .. } => seq!['0'] + name,
        SpecSelection::FragmentSpread { name, .. } => seq!['1'] + name,
        SpecSelection::InlineFragment { type_condition, selection_set, .. } => {
            let tc = match type_condition {
                Some(t) => t,
                None => Seq::empty(),
            };
            seq!['2'] + tc + inline_fragment_key(selection_set)
        },
    }
}

/// The UTF-16 keys of the selections of a list.
pub open spec fn selection_keys(sels: Seq<SpecSelection>) -> Seq<Seq<u16>>
    decreases sels, 0int,
{
    if sels.len() == 0 {
        Seq::empty()
    } else {
        seq![utf16_encode(selection_key(sels[0]))] + selection_keys(sels.drop_first())
    }
}

/// The inner part of an inline fragment's key: its immediate selections in
/// key order, each printed as written, joined by spaces and normalized.
/// Only this one level is reordered; nested children print in source order.
pub open spec fn inline_fragment_key(set: Seq<SpecSelection>) -> Seq<char>
    decreases set, 1int,
{
    let order = sorted_indices(selection_keys(set));
    let printed = order.map_values(|i: int| print_selection(set[i]));
    spec_normalize_whitespace(join(printed, seq![' ']))
}

// --- sorting selections ---

/// Sort or preserve a selection set. When `preserved`, the order is left
/// as written and preservation carries into directly nested inline
/// fragments; otherwise the selections are put in key order.
pub open spec fn sort_selection_set(set: Seq<SpecSelection>, preserved: bool) -> Seq<SpecSelection>
    decreases set, 2int,
{
    if preserved {
        sort_each_preserved(set)
    } else {
        permute(sort_each(set), sorted_indices(selection_keys(set)))
    }
}

/// Each selection transformed as in a sorted set.
pub open spec fn sort_each(sels: Seq<SpecSelection>) -> Seq<SpecSelection>
    decreases sels, 1int,
{
    if sels.len() == 0 {
        Seq::empty()
    } else {
        seq![sort_selection(sels[0])] + sort_each(sels.drop_first())
    }
}

/// Each selection transformed as in a preserved set.
pub open spec fn sort_each_preserved(sels: Seq<SpecSelection>) -> Seq<SpecSelection>
    decreases sels, 1int,
{
    if sels.len() == 0 {
        Seq::empty()
    } else {
        seq![sort_preserved_selection(sels[0])] + sort_each_preserved(sels.drop_first())
    }
}

/// A field: arguments and the directive list keep source order, directive
/// arguments sort, and the nested set sorts.
pub open spec fn sort_field(
    alias: Option<Seq<char>>,
    name: Seq<char>,
    arguments: Seq<SpecArgument>,
    directives: Seq<SpecDirective>,
    selection_set: Option<Seq<SpecSelection>>,
) -> SpecSelection
    decreases selection_set, 0int,
{
    SpecSelection::Field {
        alias,
        name,
        arguments,
        directives: sort_directive_arguments(directives),
        selection_set: match selection_set {
            Some(set) => Some(sort_selection_set(set, false)),
            None => None,
        },
    }
}

/// A selection inside a sorted set.
pub open spec fn sort_selection(sel: SpecSelection) -> SpecSelection
    decreases sel, 3int,
{
    match sel {
        SpecSelection::Field { alias, name, arguments, directives, selection_set } => sort_field(
            alias,
            name,
            arguments,
            directives,
            selection_set,
        ),
        SpecSelection::FragmentSpread { name, directives } => SpecSelection::FragmentSpread {
            name,
            directives: sort_directives(directives),
        },
        SpecSelection::InlineFragment { type_condition, directives, selection_set } =>
            SpecSelection::InlineFragment {
            type_condition,
            directives: sort_directives(directives),
            selection_set: sort_selection_set(selection_set, false),
        },
    }
}

/// A selection inside a preserved set: it keeps its place; an inline
/// fragment keeps its directive order and preserves its body.
pub open spec fn sort_preserved_selection(sel: SpecSelection) -> SpecSelection
    decreases sel, 3int,
{
    match sel {
        SpecSelection::Field { alias, name, arguments, directives, selection_set } => sort_field(
            alias,
            name,
            arguments,
            directives,
            selection_set,
        ),
        SpecSelection::FragmentSpread { name, directives } => SpecSelection::FragmentSpread {
            name,
            directives: sort_directives(directives),
        },
        SpecSelection::InlineFragment { type_condition, directives, selection_set } =>
            SpecSelection::InlineFragment {
            type_condition,
            directives: sort_directive_arguments(directives),
            selection_set: sort_selection_set(selection_set, true),
        },
    }
}

// --- fragments spread at a mutation's preserved top level ---

/// Names of fragments spread directly in a preserved selection list, looking
/// through directly nested inline fragments but not into fields.
pub open spec fn ignored_in_set(sels: Seq<SpecSelection>) -> Seq<Seq<char>>
    decreases sels, 0int,
{
    if sels.len() == 0 {
        Seq::empty()
    } else {
        ignored_in_set(sels.drop_last()) + ignored_in_selection(sels.last())
    }
}

pub open spec fn ignored_in_selection(sel: SpecSelection) -> Seq<Seq<char>>
    decreases sel, 1int,
{
    match sel {
        SpecSelection::FragmentSpread { name, .. } => seq![name],
        SpecSelection::InlineFragment { selection_set, .. } => ignored_in_set(selection_set),
        SpecSelection::Field { .. } => Seq::empty(),
    }
}

/// Fragment names spread at the preserved top level of each mutation.
pub open spec fn collect_ignored(defs: Seq<SpecDefinition>) -> Seq<Seq<char>>
    decreases defs.len(),
{
    if defs.len() == 0 {
        Seq::empty()
    } else {
        let rest = collect_ignored(defs.drop_last());
        match defs.last() {
            SpecDefinition::Operation(op) => if op.operation == OperationType::Mutation {
                rest + ignored_in_set(op.selection_set)
            } else {
                rest
            },
            SpecDefinition::Fragment(_) => rest,
        }
    }
}

// --- definitions ---

/// An operation: variable definitions sorted, operation directives in source
/// order with their arguments sorted, and the selection set sorted unless the
/// operation is a mutation.
pub open spec fn sort_operation(op: SpecOperation) -> SpecOperation {
    SpecOperation {
        operation: op.operation,
        name: op.name,
        variable_definitions: sort_variable_definitions(op.variable_definitions),
        directives: sort_directive_arguments(op.directives),
        selection_set: sort_selection_set(
            op.selection_set,
            op.operation == OperationType::Mutation,
        ),
    }
}

/// A fragment definition. When a mutation spreads it at its preserved top
/// level, its variable definitions and directives keep source order.
pub open spec fn sort_fragment_definition(f: SpecFragment, ignored: Seq<Seq<char>>) -> SpecFragment {
    if ignored.contains(f.name) {
        SpecFragment {
            name: f.name,
            variable_definitions: sort_ignored_variable_definitions(f.variable_definitions),
            type_condition: f.type_condition,
            directives: sort_directive_arguments(f.directives),
            selection_set: sort_selection_set(f.selection_set, false),
        }
    } else {
        SpecFragment {
            name: f.name,
            variable_definitions: sort_variable_definitions(f.variable_definitions),
            type_condition: f.type_condition,
            directives: sort_directives(f.directives),
            selection_set: sort_selection_set(f.selection_set, false),
        }
    }
}

pub open spec fn sort_definition(d: SpecDefinition, ignored: Seq<Seq<char>>) -> SpecDefinition {
    match d {
        SpecDefinition::Operation(op) => SpecDefinition::Operation(sort_operation(op)),
        SpecDefinition::Fragment(f) => SpecDefinition::Fragment(sort_fragment_definition(f, ignored)),
    }
}

/// The sort key of a definition: fragments (rank 0) before operations
/// (rank 1); then a present name, compared by UTF-16 code units, before a
/// missing one.
pub open spec fn definition_key(d: SpecDefinition) -> Seq<u16> {
    let (rank, name): (u16, Option<Seq<char>>) = match d {
        SpecDefinition::Fragment(f) => (0u16, Some(f.name)),
        SpecDefinition::Operation(op) => (1u16, op.name),
    };
    match name {
        Some(n) => seq![rank, 0u16] + utf16_encode(n),
        None => seq![rank, 1u16],
    }
}

/// The document with every node in canonical order.
pub open spec fn sort_document(doc: SpecDocument) -> SpecDocument {
    let ignored = collect_ignored(doc.definitions);
    let sorted = doc.definitions.map_values(|d: SpecDefinition| sort_definition(d, ignored));
    SpecDocument {
        definitions: permute(
            sorted,
            sorted_indices(doc.definitions.map_values(|d: SpecDefinition| definition_key(d))),
        ),
    }
}

// --- elementwise facts about the recursive list functions ---

pub proof fn lemma_selection_keys(sels: Seq<SpecSelection>)
    ensures
        selection_keys(sels).len() == sels.len(),
        forall|i: int| 0 <= i < sels.len() ==> #[trigger] selection_keys(sels)[i] == utf16_encode(
            selection_key(sels[i]),
        ),
    decreases sels.len(),
{
    if sels.len() > 0 {
        lemma_selection_keys(sels.drop_first());
        assert forall|i: int| 0 <= i < sels.len() implies #[trigger] selection_keys(sels)[i]
            == utf16_encode(selection_key(sels[i])) by {
            if i > 0 {
                assert(sels.drop_first()[i - 1] == sels[i]);
            }
        }
    }
}

pub proof fn lemma_sort_each(sels: Seq<SpecSelection>)
    ensures
        sort_each(sels).len() == sels.len(),
        forall|i: int| 0 <= i < sels.len() ==> #[trigger] sort_each(sels)[i] == sort_selection(
            sels[i],
        ),
    decreases sels.len(),
{
    if sels.len() > 0 {
        lemma_sort_each(sels.drop_first());
        assert forall|i: int| 0 <= i < sels.len() implies #[trigger] sort_each(sels)[i]
            == sort_selection(sels[i]) by {
            if i > 0 {
                assert(sels.drop_first()[i - 1] == sels[i]);
            }
        }
    }
}

pub proof fn lemma_sort_each_preserved(sels: Seq<SpecSelection>)
    ensures
        sort_each_preserved(sels).len() == sels.len(),
        forall|i: int| 0 <= i < sels.len() ==> #[trigger] sort_each_preserved(sels)[i]
            == sort_preserved_selection(sels[i]),
    decreases sels.len(),
{
    if sels.len() > 0 {
        lemma_sort_each_preserved(sels.drop_first());
        assert forall|i: int| 0 <= i < sels.len() implies #[trigger] sort_each_preserved(sels)[i]
            == sort_preserved_selection(sels[i]) by {
            if i > 0 {
                assert(sels.drop_first()[i - 1] == sels[i]);
            }
        }
    }
}

} // verus!
