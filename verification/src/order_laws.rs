//! The canonical form does not depend on the order in which definitions,
//! and the selections that sorting orders, are written, at any depth.
use vstd::prelude::*;
use crate::ast::OperationType;
use crate::model::{SpecDefinition, SpecDocument, SpecSelection};
use crate::laws::{
    keys_determine, law_sort_by_key_order_independent, lemma_collect_ignored_contains,
    lemma_sort_definition_ignored, lemma_sort_document_is_sort_by_key,
    lemma_sorted_set_is_sort_by_key, lemma_utf16_encode_injective, mutation_spreads,
    selection_sort_key, sort_by_key,
};
use crate::normalize::spec_normalize_whitespace;
use crate::print_spec::print_document;
use crate::sort_spec::{
    collect_ignored, definition_key, ignored_in_selection, ignored_in_set, inline_fragment_key,
    lemma_sort_each_preserved, permute, selection_key, sort_definition, sort_document,
    sort_preserved_selection, sort_selection, sort_selection_set, sorted_indices,
};

verus! {

/// `f` lists each of `0..n` exactly once.
pub open spec fn is_permutation(f: Seq<int>, n: int) -> bool {
    &&& f.len() == n
    &&& forall|i: int| 0 <= i < n ==> 0 <= #[trigger] f[i] < n
    &&& forall|i: int, j: int|
        0 <= i < n && 0 <= j < n && #[trigger] f[i] == #[trigger] f[j] ==> i == j
    &&& forall|k: int| 0 <= k < n ==> #[trigger] takes_value(f, k)
}

/// Some position of `f` holds `k`.
pub open spec fn takes_value(f: Seq<int>, k: int) -> bool {
    exists|i: int| 0 <= i < f.len() && f[i] == k
}

/// `ys` holds the selections of `xs` in some order, each reordered within.
pub open spec fn reordered_list(xs: Seq<SpecSelection>, ys: Seq<SpecSelection>) -> bool
    decreases xs, 0int,
{
    &&& xs.len() == ys.len()
    &&& exists|f: Seq<int>|
        is_permutation(f, xs.len() as int) && forall|i: int|
            0 <= i < xs.len() ==> reordered(#[trigger] xs[i], ys[f[i]])
}

/// `y` is `x` with the selections of its lists, at any depth, written in
/// some other order that leaves the sort key of every inline fragment as it
/// was.
pub open spec fn reordered(x: SpecSelection, y: SpecSelection) -> bool
    decreases x, 1int,
{
    match x {
        SpecSelection::Field { alias, name, arguments, directives, selection_set } => match y {
            SpecSelection::Field {
                alias: alias2,
                name: name2,
                arguments: arguments2,
                directives: directives2,
                selection_set: selection_set2,
            } => {
                &&& alias == alias2
                &&& name == name2
                &&& arguments == arguments2
                &&& directives == directives2
                &&& match selection_set {
                    Some(u) => match selection_set2 {
                        Some(v) => reordered_list(u, v),
                        None => false,
                    },
                    None => selection_set2 is None,
                }
            },
            _ => false,
        },
        SpecSelection::FragmentSpread { .. } => x == y,
        SpecSelection::InlineFragment { type_condition, directives, selection_set } => match y {
            SpecSelection::InlineFragment {
                type_condition: type_condition2,
                directives: directives2,
                selection_set: selection_set2,
            } => {
                &&& type_condition == type_condition2
                &&& directives == directives2
                &&& inline_fragment_key(selection_set) == inline_fragment_key(selection_set2)
                &&& reordered_list(selection_set, selection_set2)
            },
            _ => false,
        },
    }
}

/// In each selection list of `x`, at any depth, two selections with the
/// same sort key are reorderings of each other.
pub open spec fn well_keyed(x: SpecSelection) -> bool
    decreases x, 1int,
{
    match x {
        SpecSelection::Field { selection_set, .. } => match selection_set {
            Some(u) => well_keyed_list(u),
            None => true,
        },
        SpecSelection::FragmentSpread { .. } => true,
        SpecSelection::InlineFragment { selection_set, .. } => well_keyed_list(selection_set),
    }
}

/// In `xs` and every selection list below it, two selections with the same
/// sort key are reorderings of each other.
pub open spec fn well_keyed_list(xs: Seq<SpecSelection>) -> bool
    decreases xs, 0int,
{
    &&& forall|i: int, j: int|
        0 <= i < xs.len() && 0 <= j < xs.len() && selection_key(#[trigger] xs[i]) == selection_key(
            #[trigger] xs[j],
        ) ==> reordered(xs[i], xs[j])
    &&& forall|i: int| 0 <= i < xs.len() ==> well_keyed(#[trigger] xs[i])
}

proof fn lemma_permute_multiset<A>(d: Seq<A>, f: Seq<int>)
    requires
        is_permutation(f, d.len() as int),
    ensures
        permute(d, f).to_multiset() == d.to_multiset(),
    decreases d.len(),
{
    broadcast use vstd::multiset::group_multiset_axioms;
    broadcast use vstd::seq_lib::group_to_multiset_ensures;

    let n = d.len() as int;
    let p = permute(d, f);
    if n == 0 {
        assert(p =~= Seq::<A>::empty());
        assert(d =~= Seq::<A>::empty());
    } else {
        assert(takes_value(f, n - 1));
        let j = choose|i: int| 0 <= i < n && f[i] == n - 1;
        let g = f.remove(j);
        let d1 = d.drop_last();
        assert forall|i: int| 0 <= i < n - 1 implies 0 <= #[trigger] g[i] < n - 1 by {
            if i < j {
                assert(g[i] == f[i]);
            } else {
                assert(g[i] == f[i + 1]);
            }
        }
        assert forall|k: int| 0 <= k < n - 1 implies #[trigger] takes_value(g, k) by {
            assert(takes_value(f, k));
            let i = choose|i: int| 0 <= i < n && f[i] == k;
            if i < j {
                assert(g[i] == k);
            } else {
                assert(g[i - 1] == k);
            }
        }
        assert forall|a: int, b: int|
            0 <= a < n - 1 && 0 <= b < n - 1 && #[trigger] g[a] == #[trigger] g[b] implies a == b by {
            let a1 = if a < j { a } else { a + 1 };
            let b1 = if b < j { b } else { b + 1 };
            assert(g[a] == f[a1] && g[b] == f[b1]);
        }
        lemma_permute_multiset(d1, g);
        assert(p.remove(j) =~= permute(d1, g));
        assert(d.remove(n - 1) =~= d1);
        assert(p[j] == d[n - 1]);
        assert(p.to_multiset().remove(d[n - 1]) =~= d.to_multiset().remove(d[n - 1]));
        let x = d[n - 1];
        let pm = p.to_multiset();
        let dm = d.to_multiset();
        assert(pm.count(x) > 0);
        assert(dm.count(x) > 0);
        assert forall|y: A| #[trigger] pm.count(y) == dm.count(y) by {
            assert(pm.remove(x).count(y) == dm.remove(x).count(y));
        }
        assert(pm =~= dm);
    }
}

/// A selection's sort key paired with its sorted form.
pub open spec fn keyed_form() -> spec_fn(SpecSelection) -> (Seq<u16>, SpecSelection) {
    |x: SpecSelection| (selection_sort_key()(x), sort_selection(x))
}

/// The sort key of a keyed form.
pub open spec fn first_key() -> spec_fn((Seq<u16>, SpecSelection)) -> Seq<u16> {
    |p: (Seq<u16>, SpecSelection)| p.0
}

proof fn lemma_sorted_set_by_pairs(xs: Seq<SpecSelection>)
    ensures
        sort_selection_set(xs, false) == sort_by_key(xs.map_values(keyed_form()), first_key())
            .map_values(|p: (Seq<u16>, SpecSelection)| p.1),
{
    lemma_sorted_set_is_sort_by_key(xs);
    let c = xs.map_values(keyed_form());
    assert(c.map_values(first_key()) =~= xs.map_values(selection_sort_key()));
    let o = sorted_indices(xs.map_values(selection_sort_key()));
    crate::laws::law_stable_order(xs.map_values(selection_sort_key()), xs.len() as int);
    assert(sort_by_key(c, first_key()).map_values(|p: (Seq<u16>, SpecSelection)| p.1)
        =~= sort_by_key(xs, selection_sort_key()).map_values(|e: SpecSelection| sort_selection(e)));
}

/// Reordering keeps the sort key, and sorting gives the same result.
proof fn lemma_reordered_sorts_alike(x: SpecSelection, y: SpecSelection)
    requires
        reordered(x, y),
        well_keyed(x),
    ensures
        selection_key(x) == selection_key(y),
        sort_selection(x) == sort_selection(y),
    decreases x, 1int,
{
    match x {
        SpecSelection::Field { selection_set, .. } => {
            if let Some(u) = selection_set {
                let v = y->Field_selection_set->0;
                lemma_reordered_lists_sort_alike(u, v);
            }
        },
        SpecSelection::FragmentSpread { .. } => {},
        SpecSelection::InlineFragment { selection_set, .. } => {
            lemma_reordered_lists_sort_alike(selection_set, y->InlineFragment_selection_set);
        },
    }
}

proof fn lemma_reordered_lists_sort_alike(xs: Seq<SpecSelection>, ys: Seq<SpecSelection>)
    requires
        reordered_list(xs, ys),
        well_keyed_list(xs),
    ensures
        sort_selection_set(xs, false) == sort_selection_set(ys, false),
    decreases xs, 0int,
{
    let n = xs.len() as int;
    let f = choose|f: Seq<int>|
        is_permutation(f, n) && forall|i: int| 0 <= i < n ==> reordered(#[trigger] xs[i], ys[f[i]]);
    let kf = keyed_form();
    let c = xs.map_values(kf);
    let d = ys.map_values(kf);
    assert forall|i: int| 0 <= i < n implies #[trigger] c[i] == d[f[i]] by {
        lemma_reordered_sorts_alike(xs[i], ys[f[i]]);
    }
    assert(c =~= permute(d, f));
    lemma_permute_multiset(d, f);
    assert forall|i: int, j: int|
        0 <= i < n && 0 <= j < n && first_key()(#[trigger] c[i]) == first_key()(#[trigger] c[j])
        implies c[i] == c[j] by {
        lemma_utf16_encode_injective(selection_key(xs[i]), selection_key(xs[j]));
        lemma_reordered_sorts_alike(xs[i], xs[j]);
    }
    assert(keys_determine(c, first_key()));
    law_sort_by_key_order_independent(c, d, first_key());
    lemma_sorted_set_by_pairs(xs);
    lemma_sorted_set_by_pairs(ys);
}

/// Sorting a selection set does not depend on the order in which its
/// selections are written, at any depth: reordering the selections of any
/// list in the tree, in a way that leaves the sort key of every inline
/// fragment as it was, gives the same sorted set, provided that within each
/// list selections with the same sort key are reorderings of each other.
pub proof fn law_reordering_at_any_depth_is_irrelevant(
    xs: Seq<SpecSelection>,
    ys: Seq<SpecSelection>,
)
    requires
        reordered_list(xs, ys),
        well_keyed_list(xs),
    ensures
        sort_selection_set(xs, false) == sort_selection_set(ys, false),
{
    lemma_reordered_lists_sort_alike(xs, ys);
}

// --- a mutation's top level keeps its order ---

/// `ys` holds the selections of `xs` in the same order, as a mutation's top
/// level keeps them: a field may have its nested lists reordered, an inline
/// fragment keeps its own list in place in the same way.
pub open spec fn reordered_in_place(xs: Seq<SpecSelection>, ys: Seq<SpecSelection>) -> bool
    decreases xs, 0int,
{
    &&& xs.len() == ys.len()
    &&& forall|i: int| 0 <= i < xs.len() ==> reordered_in_place_one(#[trigger] xs[i], ys[i])
}

pub open spec fn reordered_in_place_one(x: SpecSelection, y: SpecSelection) -> bool
    decreases x, 1int,
{
    match x {
        SpecSelection::Field { .. } => reordered(x, y),
        SpecSelection::FragmentSpread { .. } => x == y,
        SpecSelection::InlineFragment { type_condition, directives, selection_set } => match y {
            SpecSelection::InlineFragment {
                type_condition: type_condition2,
                directives: directives2,
                selection_set: selection_set2,
            } => {
                &&& type_condition == type_condition2
                &&& directives == directives2
                &&& reordered_in_place(selection_set, selection_set2)
            },
            _ => false,
        },
    }
}

/// The fields of a list kept in place, and of the inline fragments directly
/// in it, are well keyed.
pub open spec fn well_keyed_in_place(xs: Seq<SpecSelection>) -> bool
    decreases xs, 0int,
{
    forall|i: int| 0 <= i < xs.len() ==> well_keyed_in_place_one(#[trigger] xs[i])
}

pub open spec fn well_keyed_in_place_one(x: SpecSelection) -> bool
    decreases x, 1int,
{
    match x {
        SpecSelection::Field { .. } => well_keyed(x),
        SpecSelection::FragmentSpread { .. } => true,
        SpecSelection::InlineFragment { selection_set, .. } => well_keyed_in_place(selection_set),
    }
}

proof fn lemma_ignored_in_set_pointwise(xs: Seq<SpecSelection>, ys: Seq<SpecSelection>)
    requires
        xs.len() == ys.len(),
        forall|i: int| 0 <= i < xs.len() ==> ignored_in_selection(#[trigger] xs[i])
            == ignored_in_selection(ys[i]),
    ensures
        ignored_in_set(xs) == ignored_in_set(ys),
    decreases xs.len(),
{
    if xs.len() > 0 {
        let u = xs.drop_last();
        let v = ys.drop_last();
        assert forall|i: int| 0 <= i < u.len() implies ignored_in_selection(#[trigger] u[i])
            == ignored_in_selection(v[i]) by {
            assert(u[i] == xs[i] && v[i] == ys[i]);
        }
        lemma_ignored_in_set_pointwise(u, v);
        assert(ignored_in_selection(xs.last()) == ignored_in_selection(ys.last()));
    }
}

proof fn lemma_in_place_sorts_alike(xs: Seq<SpecSelection>, ys: Seq<SpecSelection>)
    requires
        reordered_in_place(xs, ys),
        well_keyed_in_place(xs),
    ensures
        sort_selection_set(xs, true) == sort_selection_set(ys, true),
        ignored_in_set(xs) == ignored_in_set(ys),
    decreases xs, 0int,
{
    lemma_sort_each_preserved(xs);
    lemma_sort_each_preserved(ys);
    assert forall|i: int| 0 <= i < xs.len() implies sort_preserved_selection(#[trigger] xs[i])
        == sort_preserved_selection(ys[i]) && ignored_in_selection(xs[i]) == ignored_in_selection(
        ys[i],
    ) by {
        lemma_in_place_one_sorts_alike(xs[i], ys[i]);
    }
    lemma_ignored_in_set_pointwise(xs, ys);
    assert(sort_selection_set(xs, true) =~= sort_selection_set(ys, true));
}

proof fn lemma_in_place_one_sorts_alike(x: SpecSelection, y: SpecSelection)
    requires
        reordered_in_place_one(x, y),
        well_keyed_in_place_one(x),
    ensures
        sort_preserved_selection(x) == sort_preserved_selection(y),
        ignored_in_selection(x) == ignored_in_selection(y),
    decreases x, 1int,
{
    match x {
        SpecSelection::Field { .. } => {
            lemma_reordered_sorts_alike(x, y);
        },
        SpecSelection::FragmentSpread { .. } => {},
        SpecSelection::InlineFragment { selection_set, .. } => {
            lemma_in_place_sorts_alike(selection_set, y->InlineFragment_selection_set);
        },
    }
}

// --- documents ---

/// `b` is the definition `a` with its selections reordered where sorting
/// puts them in order: at any depth of a fragment or of a query or
/// subscription, and below the top level of a mutation, which keeps its
/// order.
pub open spec fn reordered_definition(a: SpecDefinition, b: SpecDefinition) -> bool {
    match a {
        SpecDefinition::Operation(x) => match b {
            SpecDefinition::Operation(y) => {
                &&& x.operation == y.operation
                &&& x.name == y.name
                &&& x.variable_definitions == y.variable_definitions
                &&& x.directives == y.directives
                &&& if x.operation == OperationType::Mutation {
                    reordered_in_place(x.selection_set, y.selection_set)
                } else {
                    reordered_list(x.selection_set, y.selection_set)
                }
            },
            SpecDefinition::Fragment(_) => false,
        },
        SpecDefinition::Fragment(x) => match b {
            SpecDefinition::Fragment(y) => {
                &&& x.name == y.name
                &&& x.variable_definitions == y.variable_definitions
                &&& x.type_condition == y.type_condition
                &&& x.directives == y.directives
                &&& reordered_list(x.selection_set, y.selection_set)
            },
            SpecDefinition::Operation(_) => false,
        },
    }
}

/// The selection lists of `a` that sorting orders are well keyed.
pub open spec fn well_keyed_definition(a: SpecDefinition) -> bool {
    match a {
        SpecDefinition::Operation(x) => if x.operation == OperationType::Mutation {
            well_keyed_in_place(x.selection_set)
        } else {
            well_keyed_list(x.selection_set)
        },
        SpecDefinition::Fragment(x) => well_keyed_list(x.selection_set),
    }
}

/// `d2` holds the definitions of `d1` in some order, each with its
/// selections reordered where sorting puts them in order.
pub open spec fn reordered_document(d1: SpecDocument, d2: SpecDocument) -> bool {
    let a = d1.definitions;
    let b = d2.definitions;
    &&& a.len() == b.len()
    &&& exists|f: Seq<int>|
        is_permutation(f, a.len() as int) && forall|i: int|
            0 <= i < a.len() ==> reordered_definition(#[trigger] a[i], b[f[i]])
}

/// Each definition of `d` is well keyed, and two definitions of the same
/// kind with the same name are reorderings of each other.
pub open spec fn well_keyed_document(d: SpecDocument) -> bool {
    let a = d.definitions;
    &&& forall|i: int| 0 <= i < a.len() ==> well_keyed_definition(#[trigger] a[i])
    &&& forall|i: int, j: int|
        0 <= i < a.len() && 0 <= j < a.len() && definition_key(#[trigger] a[i]) == definition_key(
            #[trigger] a[j],
        ) ==> reordered_definition(a[i], a[j])
}

proof fn lemma_definition_sorts_alike(a: SpecDefinition, b: SpecDefinition, ig: Seq<Seq<char>>)
    requires
        reordered_definition(a, b),
        well_keyed_definition(a),
    ensures
        definition_key(a) == definition_key(b),
        sort_definition(a, ig) == sort_definition(b, ig),
        forall|n: Seq<char>| mutation_spreads(a, n) == mutation_spreads(b, n),
{
    match a {
        SpecDefinition::Operation(x) => {
            let y = b->Operation_0;
            if x.operation == OperationType::Mutation {
                lemma_in_place_sorts_alike(x.selection_set, y.selection_set);
            } else {
                lemma_reordered_lists_sort_alike(x.selection_set, y.selection_set);
            }
        },
        SpecDefinition::Fragment(x) => {
            lemma_reordered_lists_sort_alike(x.selection_set, b->Fragment_0.selection_set);
        },
    }
}

/// The key of a definition paired with its sorted form.
pub open spec fn keyed_definition(ig: Seq<Seq<char>>) -> spec_fn(SpecDefinition) -> (
    Seq<u16>,
    SpecDefinition,
) {
    |d: SpecDefinition| (definition_key(d), sort_definition(d, ig))
}

pub open spec fn definition_first_key() -> spec_fn((Seq<u16>, SpecDefinition)) -> Seq<u16> {
    |p: (Seq<u16>, SpecDefinition)| p.0
}

proof fn lemma_sorted_document_by_pairs(d: SpecDocument)
    ensures
        sort_document(d).definitions == sort_by_key(
            d.definitions.map_values(keyed_definition(collect_ignored(d.definitions))),
            definition_first_key(),
        ).map_values(|p: (Seq<u16>, SpecDefinition)| p.1),
{
    let a = d.definitions;
    let ig = collect_ignored(a);
    lemma_sort_document_is_sort_by_key(d);
    let c = a.map_values(keyed_definition(ig));
    let k = |x: SpecDefinition| definition_key(x);
    assert(c.map_values(definition_first_key()) =~= a.map_values(k));
    crate::laws::law_stable_order(a.map_values(k), a.len() as int);
    assert(sort_by_key(c, definition_first_key()).map_values(|p: (Seq<u16>, SpecDefinition)| p.1)
        =~= sort_by_key(a, k).map_values(|x: SpecDefinition| sort_definition(x, ig)));
}

/// The canonical form of a document does not depend on the order in which
/// its definitions are written, nor on the order of the selections that
/// sorting puts in order, at any depth: a query's or subscription's
/// selections, a fragment's, and those below the top level of a mutation.
/// The canonical strings are then the same too. This holds provided that
/// reordering leaves the sort key of every inline fragment as it was, and
/// that in each list (of definitions, or of selections) two entries with
/// the same sort key are reorderings of each other.
pub proof fn law_canonical_form_ignores_order(d1: SpecDocument, d2: SpecDocument)
    requires
        reordered_document(d1, d2),
        well_keyed_document(d1),
    ensures
        sort_document(d1) == sort_document(d2),
        spec_normalize_whitespace(print_document(sort_document(d1))) == spec_normalize_whitespace(
            print_document(sort_document(d2)),
        ),
{
    let a = d1.definitions;
    let b = d2.definitions;
    let n = a.len() as int;
    let f = choose|f: Seq<int>|
        is_permutation(f, n) && forall|i: int| 0 <= i < n ==> reordered_definition(
            #[trigger] a[i],
            b[f[i]],
        );
    let ia = collect_ignored(a);
    let ib = collect_ignored(b);
    assert forall|nm: Seq<char>| ia.contains(nm) <==> ib.contains(nm) by {
        lemma_collect_ignored_contains(a, nm);
        lemma_collect_ignored_contains(b, nm);
        if exists|i: int| 0 <= i < n && mutation_spreads(#[trigger] a[i], nm) {
            let i = choose|i: int| 0 <= i < n && mutation_spreads(#[trigger] a[i], nm);
            lemma_definition_sorts_alike(a[i], b[f[i]], ia);
            assert(mutation_spreads(b[f[i]], nm));
        }
        if exists|j: int| 0 <= j < n && mutation_spreads(#[trigger] b[j], nm) {
            let j = choose|j: int| 0 <= j < n && mutation_spreads(#[trigger] b[j], nm);
            assert(takes_value(f, j));
            let i = choose|i: int| 0 <= i < n && f[i] == j;
            lemma_definition_sorts_alike(a[i], b[f[i]], ia);
            assert(mutation_spreads(a[i], nm));
        }
    }
    let c = a.map_values(keyed_definition(ia));
    let e = b.map_values(keyed_definition(ib));
    assert forall|i: int| 0 <= i < n implies #[trigger] c[i] == e[f[i]] by {
        lemma_definition_sorts_alike(a[i], b[f[i]], ia);
        lemma_sort_definition_ignored(b[f[i]], ia, ib);
    }
    assert(c =~= permute(e, f));
    lemma_permute_multiset(e, f);
    assert forall|i: int, j: int|
        0 <= i < n && 0 <= j < n && definition_first_key()(#[trigger] c[i])
            == definition_first_key()(#[trigger] c[j]) implies c[i] == c[j] by {
        lemma_definition_sorts_alike(a[i], a[j], ia);
    }
    assert(keys_determine(c, definition_first_key()));
    law_sort_by_key_order_independent(c, e, definition_first_key());
    lemma_sorted_document_by_pairs(d1);
    lemma_sorted_document_by_pairs(d2);
    assert(sort_document(d1).definitions =~= sort_document(d2).definitions);
}

} // verus!
