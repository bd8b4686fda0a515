//! Canonical sorting of an executable document.
//!
//! Every function here returns exactly what the matching function of
//! `sort_spec` describes.
use vstd::prelude::*;
use crate::ast::{
    Argument, Definition, Directive, Document, Field, FragmentDefinition, FragmentSpread,
    InlineFragment, OperationDefinition, OperationType, Selection, SelectionSet,
    VariableDefinition,
};
use crate::model::{
    arguments_view, directives_view, lemma_selections_view, lemma_selections_view_push,
    selections_view, variable_definitions_view, definitions_view, SpecSelection, SpecArgument,
    SpecDirective, SpecVariableDefinition, SpecDefinition,
};
use crate::sort_spec::{
    self, lemma_selection_keys, lemma_sort_each, lemma_sort_each_preserved, insert_in_order,
    permute, seq_lt, sorted_indices, stable_order, utf16_encode, utf16_units,
};
use crate::text::{lines_view, push_all, join_exec};
use crate::ast::{clone_argument, clone_arguments, clone_opt_string, clone_type, clone_opt_value};
use crate::printer::{print_selection_chars, text};
use crate::normalize::normalize_chars;

verus! {

/// The sequences held by a vector of key vectors.
pub open spec fn keys_view(keys: Seq<Vec<u16>>) -> Seq<Seq<u16>> {
    keys.map_values(|k: Vec<u16>| k@)
}

/// Positions as integers.
pub open spec fn order_view(order: Seq<usize>) -> Seq<int> {
    order.map_values(|i: usize| i as int)
}

/// The UTF-16 code units of `s`.
pub fn utf16_encode_exec(s: &Vec<char>) -> (out: Vec<u16>)
    ensures
        out@ == utf16_encode(s@),
{
    let mut out: Vec<u16> = Vec::new();
    let mut i: usize = 0;
    while i < s.len()
        invariant
            i <= s.len(),
            out@ == utf16_encode(s@.take(i as int)),
        decreases s.len() - i,
    {
        assert(s@.take(i + 1).drop_last() =~= s@.take(i as int));
        let v = s[i] as u32;
        let ghost before = out@;
        if v < 0x10000 {
            out.push(v as u16);
        } else {
            proof {
                vstd::utf8::char_is_scalar(s@[i as int]);
            }
            let w = v - 0x10000;
            out.push((0xD800 + w / 1024) as u16);
            out.push((0xDC00 + w % 1024) as u16);
        }
        assert(out@ =~= before + utf16_units(s@[i as int]));
        i += 1;
    }
    assert(s@.take(s.len() as int) =~= s@);
    out
}

/// Whether `a` comes strictly before `b` in lexicographic order.
pub fn seq_lt_exec(a: &Vec<u16>, b: &Vec<u16>) -> (r: bool)
    ensures
        r == seq_lt(a@, b@),
{
    let mut i: usize = 0;
    assert(a@.skip(0) =~= a@);
    assert(b@.skip(0) =~= b@);
    while i < a.len() && i < b.len() && a[i] == b[i]
        invariant
            i <= a.len(),
            i <= b.len(),
            seq_lt(a@, b@) == seq_lt(a@.skip(i as int), b@.skip(i as int)),
        decreases a.len() - i,
    {
        assert(a@.skip(i as int).drop_first() =~= a@.skip(i + 1));
        assert(b@.skip(i as int).drop_first() =~= b@.skip(i + 1));
        i += 1;
    }
    if i == a.len() {
        i < b.len()
    } else if i == b.len() {
        false
    } else {
        a[i] < b[i]
    }
}

proof fn lemma_insert_split(x: int, t: Seq<int>, keys: Seq<Seq<u16>>, j: int)
    requires
        0 <= j <= t.len(),
        forall|k: int| j <= k < t.len() ==> seq_lt(keys[x], keys[#[trigger] t[k]]),
        j == 0 || !seq_lt(keys[x], keys[t[j - 1]]),
    ensures
        insert_in_order(x, t, keys) == t.take(j).push(x) + t.skip(j),
    decreases t.len(),
{
    if j == t.len() {
        assert(t.skip(j) =~= Seq::<int>::empty());
        assert(t.take(j) =~= t);
        if t.len() == 0 {
            assert(seq![x] =~= t.take(j).push(x) + t.skip(j));
        } else {
            assert(t.push(x) =~= t.take(j).push(x) + t.skip(j));
        }
    } else {
        assert(seq_lt(keys[x], keys[t[t.len() - 1]]));
        let u = t.drop_last();
        assert forall|k: int| j <= k < u.len() implies seq_lt(keys[x], keys[#[trigger] u[k]]) by {
            assert(u[k] == t[k]);
            assert(seq_lt(keys[x], keys[t[k]]));
        }
        if j > 0 {
            assert(u[j - 1] == t[j - 1]);
        }
        lemma_insert_split(x, u, keys, j);
        assert(u.take(j) =~= t.take(j));
        assert((u.take(j).push(x) + u.skip(j)).push(t.last()) =~= t.take(j).push(x) + t.skip(j));
    }
}

/// The indices `0..keys.len()` in the stable order of their keys.
pub fn stable_order_exec(keys: &Vec<Vec<u16>>) -> (order: Vec<usize>)
    ensures
        order_view(order@) == sorted_indices(keys_view(keys@)),
        order@.len() == keys.len(),
        forall|i: int| 0 <= i < order@.len() ==> #[trigger] order@[i] < keys.len(),
{
    let ghost kv = keys_view(keys@);
    let n = keys.len();
    let mut t: Vec<usize> = Vec::new();
    let mut x: usize = 0;
    while x < n
        invariant
            x <= n == keys.len(),
            kv == keys_view(keys@),
            kv.len() == n,
            order_view(t@) == stable_order(kv, x as int),
            t@.len() == x,
            forall|i: int| 0 <= i < t@.len() ==> #[trigger] t@[i] < x,
        decreases n - x,
    {
        let ghost tv = order_view(t@);
        let mut j = t.len();
        while j > 0 && seq_lt_exec(&keys[x], &keys[t[j - 1]])
            invariant
                j <= t.len(),
                x < n == keys.len(),
                kv == keys_view(keys@),
                tv == order_view(t@),
                forall|i: int| 0 <= i < t@.len() ==> #[trigger] t@[i] < x,
                forall|k: int| j <= k < tv.len() ==> seq_lt(kv[x as int], kv[#[trigger] tv[k]]),
            decreases j,
        {
            assert(kv[t@[j - 1] as int] == keys@[t@[j - 1] as int]@);
            assert(tv[j - 1] == t@[j - 1] as int);
            j -= 1;
        }
        proof {
            if j > 0 {
                assert(kv[t@[j - 1] as int] == keys@[t@[j - 1] as int]@);
                assert(tv[j - 1] == t@[j - 1] as int);
            }
            assert(kv[x as int] == keys@[x as int]@);
            lemma_insert_split(x as int, tv, kv, j as int);
        }
        let ghost before = t@;
        t.insert(j, x);
        assert(order_view(t@) =~= tv.take(j as int).push(x as int) + tv.skip(j as int));
        assert forall|i: int| 0 <= i < t@.len() implies #[trigger] t@[i] < x + 1 by {
            if i < j {
                assert(t@[i] == before[i]);
            } else if i > j {
                assert(t@[i] == before[i - 1]);
            }
        }
        x += 1;
    }
    t
}

/// A prefix one longer is the shorter prefix and the next element.
proof fn lemma_push_take<A>(s: Seq<A>, i: int)
    requires
        0 <= i < s.len(),
    ensures
        s.take(i + 1) == s.take(i).push(s[i]),
{
    assert(s.take(i + 1) =~= s.take(i).push(s[i]));
}

/// The UTF-16 key of a string field.
fn key_of(s: &String) -> (k: Vec<u16>)
    ensures
        k@ == utf16_encode(s@),
{
    utf16_encode_exec(&text(s))
}

/// Arguments sorted by name.
fn sort_arguments(args: &Vec<Argument>) -> (r: Vec<Argument>)
    ensures
        arguments_view(r@) == sort_spec::sort_arguments(arguments_view(args@)),
{
    let ghost av = arguments_view(args@);
    let ghost names = av.map_values(|a: SpecArgument| a.name);
    let mut keys: Vec<Vec<u16>> = Vec::new();
    let mut i: usize = 0;
    while i < args.len()
        invariant
            i <= args.len(),
            av == arguments_view(args@),
            names == av.map_values(|a: SpecArgument| a.name),
            keys_view(keys@) == sort_spec::name_keys(names).take(i as int),
        decreases args.len() - i,
    {
        let k = key_of(&args[i].name);
        let ghost before = keys_view(keys@);
        keys.push(k);
        proof {
            assert(av[i as int] == args@[i as int]@);
            assert(names[i as int] == args@[i as int].name@);
            lemma_push_take(sort_spec::name_keys(names), i as int);
        }
        assert(keys_view(keys@) =~= before.push(k@));
        i += 1;
    }
    assert(sort_spec::name_keys(names).take(args.len() as int) =~= sort_spec::name_keys(names));
    let order = stable_order_exec(&keys);
    let ghost ov = order_view(order@);
    let mut out: Vec<Argument> = Vec::new();
    let mut k: usize = 0;
    while k < order.len()
        invariant
            k <= order.len(),
            order@.len() == args.len(),
            forall|i: int| 0 <= i < order@.len() ==> #[trigger] order@[i] < args.len(),
            ov == order_view(order@),
            av == arguments_view(args@),
            arguments_view(out@) == permute(av, ov).take(k as int),
        decreases order.len() - k,
    {
        let a = clone_argument(&args[order[k]]);
        let ghost before = arguments_view(out@);
        out.push(a);
        proof {
            assert(ov[k as int] == order@[k as int] as int);
            assert(av[order@[k as int] as int] == args@[order@[k as int] as int]@);
            lemma_push_take(permute(av, ov), k as int);
        }
        assert(arguments_view(out@) =~= before.push(a@));
        k += 1;
    }
    assert(permute(av, ov).take(order.len() as int) =~= permute(av, ov));
    out
}

/// Each directive with its arguments sorted; the list keeps source order.
fn sort_directive_arguments(ds: &Vec<Directive>) -> (r: Vec<Directive>)
    ensures
        directives_view(r@) == sort_spec::sort_directive_arguments(directives_view(ds@)),
{
    let mut out: Vec<Directive> = Vec::new();
    let mut i: usize = 0;
    while i < ds.len()
        invariant
            i <= ds.len(),
            directives_view(out@) == sort_spec::sort_directive_arguments(
                directives_view(ds@),
            ).take(i as int),
        decreases ds.len() - i,
    {
        let d = Directive { name: ds[i].name.clone(), arguments: sort_arguments(&ds[i].arguments) };
        let ghost before = directives_view(out@);
        out.push(d);
        proof {
            assert(directives_view(ds@)[i as int] == ds@[i as int]@);
            lemma_push_take(sort_spec::sort_directive_arguments(directives_view(ds@)), i as int);
        }
        assert(directives_view(out@) =~= before.push(d@));
        i += 1;
    }
    assert(sort_spec::sort_directive_arguments(directives_view(ds@)).take(ds.len() as int)
        =~= sort_spec::sort_directive_arguments(directives_view(ds@)));
    out
}

/// Directives sorted by name, each with its arguments sorted.
fn sort_directives(ds: &Vec<Directive>) -> (r: Vec<Directive>)
    ensures
        directives_view(r@) == sort_spec::sort_directives(directives_view(ds@)),
{
    let ghost dv = directives_view(ds@);
    let ghost names = dv.map_values(|d: SpecDirective| d.name);
    let mut keys: Vec<Vec<u16>> = Vec::new();
    let mut i: usize = 0;
    while i < ds.len()
        invariant
            i <= ds.len(),
            dv == directives_view(ds@),
            names == dv.map_values(|d: SpecDirective| d.name),
            keys_view(keys@) == sort_spec::name_keys(names).take(i as int),
        decreases ds.len() - i,
    {
        let k = key_of(&ds[i].name);
        let ghost before = keys_view(keys@);
        keys.push(k);
        proof {
            assert(dv[i as int] == ds@[i as int]@);
            assert(names[i as int] == ds@[i as int].name@);
            lemma_push_take(sort_spec::name_keys(names), i as int);
        }
        assert(keys_view(keys@) =~= before.push(k@));
        i += 1;
    }
    assert(sort_spec::name_keys(names).take(ds.len() as int) =~= sort_spec::name_keys(names));
    let transformed = sort_directive_arguments(ds);
    assert(directives_view(transformed@).len() == transformed@.len());
    let ghost tv = directives_view(transformed@);
    let order = stable_order_exec(&keys);
    let ghost ov = order_view(order@);
    let mut out: Vec<Directive> = Vec::new();
    let mut k: usize = 0;
    while k < order.len()
        invariant
            k <= order.len(),
            order@.len() == ds.len(),
            transformed@.len() == ds.len(),
            forall|i: int| 0 <= i < order@.len() ==> #[trigger] order@[i] < ds.len(),
            ov == order_view(order@),
            tv == directives_view(transformed@),
            directives_view(out@) == permute(tv, ov).take(k as int),
        decreases order.len() - k,
    {
        let t = &transformed[order[k]];
        let d = Directive { name: t.name.clone(), arguments: clone_arguments(&t.arguments) };
        let ghost before = directives_view(out@);
        out.push(d);
        proof {
            assert(ov[k as int] == order@[k as int] as int);
            assert(tv[order@[k as int] as int] == transformed@[order@[k as int] as int]@);
            lemma_push_take(permute(tv, ov), k as int);
        }
        assert(directives_view(out@) =~= before.push(d@));
        k += 1;
    }
    assert(permute(tv, ov).take(order.len() as int) =~= permute(tv, ov));
    out
}

/// A variable definition with its directives' arguments sorted.
fn sort_variable_definition(d: &VariableDefinition) -> (r: VariableDefinition)
    ensures
        r@ == sort_spec::sort_variable_definition_of(d@),
{
    VariableDefinition {
        variable: d.variable.clone(),
        ty: clone_type(&d.ty),
        default_value: clone_opt_value(&d.default_value),
        directives: sort_directive_arguments(&d.directives),
    }
}

/// Each variable definition transformed; the list keeps source order.
fn sort_ignored_variable_definitions(defs: &Vec<VariableDefinition>) -> (r: Vec<
    VariableDefinition,
>)
    ensures
        variable_definitions_view(r@) == sort_spec::sort_ignored_variable_definitions(
            variable_definitions_view(defs@),
        ),
{
    let ghost target = sort_spec::sort_ignored_variable_definitions(
        variable_definitions_view(defs@),
    );
    let mut out: Vec<VariableDefinition> = Vec::new();
    let mut i: usize = 0;
    while i < defs.len()
        invariant
            i <= defs.len(),
            target == sort_spec::sort_ignored_variable_definitions(
                variable_definitions_view(defs@),
            ),
            variable_definitions_view(out@) == target.take(i as int),
        decreases defs.len() - i,
    {
        let d = sort_variable_definition(&defs[i]);
        let ghost before = variable_definitions_view(out@);
        out.push(d);
        proof {
            assert(variable_definitions_view(defs@)[i as int] == defs@[i as int]@);
            lemma_push_take(target, i as int);
        }
        assert(variable_definitions_view(out@) =~= before.push(d@));
        i += 1;
    }
    assert(target.take(defs.len() as int) =~= target);
    out
}

/// Variable definitions sorted by variable name, each transformed.
fn sort_variable_definitions(defs: &Vec<VariableDefinition>) -> (r: Vec<VariableDefinition>)
    ensures
        variable_definitions_view(r@) == sort_spec::sort_variable_definitions(
            variable_definitions_view(defs@),
        ),
{
    let ghost dv = variable_definitions_view(defs@);
    let ghost names = dv.map_values(|d: SpecVariableDefinition| d.variable);
    let mut keys: Vec<Vec<u16>> = Vec::new();
    let mut i: usize = 0;
    while i < defs.len()
        invariant
            i <= defs.len(),
            dv == variable_definitions_view(defs@),
            names == dv.map_values(|d: SpecVariableDefinition| d.variable),
            keys_view(keys@) == sort_spec::name_keys(names).take(i as int),
        decreases defs.len() - i,
    {
        let k = key_of(&defs[i].variable);
        let ghost before = keys_view(keys@);
        keys.push(k);
        proof {
            assert(dv[i as int] == defs@[i as int]@);
            assert(names[i as int] == defs@[i as int].variable@);
            lemma_push_take(sort_spec::name_keys(names), i as int);
        }
        assert(keys_view(keys@) =~= before.push(k@));
        i += 1;
    }
    assert(sort_spec::name_keys(names).take(defs.len() as int) =~= sort_spec::name_keys(names));
    let order = stable_order_exec(&keys);
    let ghost ov = order_view(order@);
    let ghost tv = sort_spec::sort_ignored_variable_definitions(dv);
    let mut out: Vec<VariableDefinition> = Vec::new();
    let mut k: usize = 0;
    while k < order.len()
        invariant
            k <= order.len(),
            order@.len() == defs.len(),
            forall|i: int| 0 <= i < order@.len() ==> #[trigger] order@[i] < defs.len(),
            ov == order_view(order@),
            dv == variable_definitions_view(defs@),
            tv == sort_spec::sort_ignored_variable_definitions(dv),
            variable_definitions_view(out@) == permute(tv, ov).take(k as int),
        decreases order.len() - k,
    {
        let d = sort_variable_definition(&defs[order[k]]);
        let ghost before = variable_definitions_view(out@);
        out.push(d);
        proof {
            assert(ov[k as int] == order@[k as int] as int);
            assert(dv[order@[k as int] as int] == defs@[order@[k as int] as int]@);
            lemma_push_take(permute(tv, ov), k as int);
        }
        assert(variable_definitions_view(out@) =~= before.push(d@));
        k += 1;
    }
    assert(permute(tv, ov).take(order.len() as int) =~= permute(tv, ov));
    out
}

/// Build the string sort key for a selection.
fn selection_key(sel: &Selection) -> (k: Vec<char>)
    ensures
        k@ == sort_spec::selection_key(sel@),
    decreases sel, 2int,
{
    match sel {
        Selection::Field(field) => {
            let mut k = vec!['0'];
            push_all(&mut k, &text(&field.name));
            k
        },
        Selection::FragmentSpread(spread) => {
            let mut k = vec!['1'];
            push_all(&mut k, &text(&spread.name));
            k
        },
        Selection::InlineFragment(inline) => {
            let mut k = vec!['2'];
            match &inline.type_condition {
                Some(tc) => push_all(&mut k, &text(tc)),
                None => {},
            }
            push_all(&mut k, &build_inline_fragment_key(&inline.selection_set.selections));
            k
        },
    }
}

/// The UTF-16 keys of the selections of a list.
fn selection_keys(sels: &Vec<Selection>) -> (keys: Vec<Vec<u16>>)
    ensures
        keys_view(keys@) == sort_spec::selection_keys(selections_view(sels@)),
    decreases sels, 0int,
{
    let ghost ss = selections_view(sels@);
    proof {
        lemma_selections_view(sels@);
        lemma_selection_keys(ss);
    }
    let ghost target = sort_spec::selection_keys(ss);
    let mut keys: Vec<Vec<u16>> = Vec::new();
    let mut i: usize = 0;
    while i < sels.len()
        invariant
            i <= sels.len(),
            ss == selections_view(sels@),
            ss.len() == sels.len(),
            target == sort_spec::selection_keys(ss),
            target.len() == ss.len(),
            forall|j: int| 0 <= j < ss.len() ==> #[trigger] ss[j] == sels@[j]@,
            forall|j: int| 0 <= j < ss.len() ==> #[trigger] target[j] == utf16_encode(
                sort_spec::selection_key(ss[j]),
            ),
            keys_view(keys@) == target.take(i as int),
        decreases sels.len() - i,
    {
        let k = utf16_encode_exec(&selection_key(&sels[i]));
        let ghost before = keys_view(keys@);
        keys.push(k);
        proof {
            lemma_push_take(target, i as int);
        }
        assert(keys_view(keys@) =~= before.push(k@));
        i += 1;
    }
    assert(target.take(sels.len() as int) =~= target);
    keys
}

/// Build the inner-selection-set component of an inline-fragment sort key.
fn build_inline_fragment_key(sels: &Vec<Selection>) -> (k: Vec<char>)
    ensures
        k@ == sort_spec::inline_fragment_key(selections_view(sels@)),
    decreases sels, 1int,
{
    let ghost ss = selections_view(sels@);
    proof {
        lemma_selections_view(sels@);
    }
    let keys = selection_keys(sels);
    proof {
        lemma_selection_keys(ss);
    }
    assert(keys_view(keys@).len() == keys@.len());
    assert(keys.len() == sels.len());
    let order = stable_order_exec(&keys);
    let ghost ov = order_view(order@);
    let ghost printed = ov.map_values(|i: int| crate::print_spec::print_selection(ss[i]));
    let mut parts: Vec<Vec<char>> = Vec::new();
    let mut k: usize = 0;
    while k < order.len()
        invariant
            k <= order.len(),
            order@.len() == sels.len(),
            forall|i: int| 0 <= i < order@.len() ==> #[trigger] order@[i] < sels.len(),
            ss == selections_view(sels@),
            ss.len() == sels.len(),
            forall|j: int| 0 <= j < ss.len() ==> #[trigger] ss[j] == sels@[j]@,
            ov == order_view(order@),
            printed == ov.map_values(|i: int| crate::print_spec::print_selection(ss[i])),
            lines_view(parts@) == printed.take(k as int),
        decreases order.len() - k,
    {
        let p = print_selection_chars(&sels[order[k]]);
        let ghost before = lines_view(parts@);
        parts.push(p);
        proof {
            assert(ov[k as int] == order@[k as int] as int);
            lemma_push_take(printed, k as int);
        }
        assert(lines_view(parts@) =~= before.push(p@));
        k += 1;
    }
    assert(printed.take(order.len() as int) =~= printed);
    let space = vec![' '];
    assert(space@ =~= seq![' ']);
    let joined = join_exec(&parts, &space);
    normalize_chars(&joined)
}

/// Sort or preserve a selection set. When `preserved` the selection order
/// is left untouched and preservation carries into inline-fragment children.
fn sort_selection_set(set: &SelectionSet, preserved: bool) -> (r: SelectionSet)
    ensures
        r@ == sort_spec::sort_selection_set(set@, preserved),
    decreases set, 2int,
{
    SelectionSet { selections: sort_selection_list(&set.selections, preserved) }
}

/// The selections of a set, sorted or preserved.
fn sort_selection_list(sels: &Vec<Selection>, preserved: bool) -> (r: Vec<Selection>)
    ensures
        selections_view(r@) == sort_spec::sort_selection_set(selections_view(sels@), preserved),
    decreases sels, 1int,
{
    let ghost ss = selections_view(sels@);
    proof {
        lemma_selections_view(sels@);
        lemma_sort_each(ss);
        lemma_sort_each_preserved(ss);
        lemma_selection_keys(ss);
    }
    if preserved {
        let ghost target = sort_spec::sort_each_preserved(ss);
        let mut out: Vec<Selection> = Vec::new();
        let mut i: usize = 0;
        while i < sels.len()
            invariant
                i <= sels.len(),
                ss == selections_view(sels@),
                ss.len() == sels.len(),
                target == sort_spec::sort_each_preserved(ss),
                target.len() == ss.len(),
                forall|j: int| 0 <= j < ss.len() ==> #[trigger] ss[j] == sels@[j]@,
                forall|j: int| 0 <= j < ss.len() ==> #[trigger] target[j]
                    == sort_spec::sort_preserved_selection(ss[j]),
                selections_view(out@) == target.take(i as int),
            decreases sels.len() - i,
        {
            let x = sort_preserved_selection(&sels[i]);
            proof {
                lemma_push_take(target, i as int);
                lemma_selections_view_push(out@, x);
            }
            out.push(x);
            i += 1;
        }
        assert(target.take(sels.len() as int) =~= target);
        out
    } else {
        let keys = selection_keys(sels);
        assert(keys_view(keys@).len() == keys@.len());
        let order = stable_order_exec(&keys);
        let ghost ov = order_view(order@);
        let ghost target = permute(sort_spec::sort_each(ss), ov);
        let mut out: Vec<Selection> = Vec::new();
        let mut k: usize = 0;
        while k < order.len()
            invariant
                k <= order.len(),
                order@.len() == sels.len(),
                forall|i: int| 0 <= i < order@.len() ==> #[trigger] order@[i] < sels.len(),
                ss == selections_view(sels@),
                ss.len() == sels.len(),
                forall|j: int| 0 <= j < ss.len() ==> #[trigger] ss[j] == sels@[j]@,
                sort_spec::sort_each(ss).len() == ss.len(),
                forall|j: int| 0 <= j < ss.len() ==> #[trigger] sort_spec::sort_each(ss)[j]
                    == sort_spec::sort_selection(ss[j]),
                ov == order_view(order@),
                target == permute(sort_spec::sort_each(ss), ov),
                selections_view(out@) == target.take(k as int),
            decreases order.len() - k,
        {
            let x = sort_selection(&sels[order[k]]);
            proof {
                assert(ov[k as int] == order@[k as int] as int);
                lemma_push_take(target, k as int);
                lemma_selections_view_push(out@, x);
            }
            out.push(x);
            k += 1;
        }
        assert(target.take(order.len() as int) =~= target);
        out
    }
}

/// A field: arguments and the directive list keep source order, directive
/// arguments sort, and the nested set sorts.
fn sort_field(field: &Field) -> (r: Selection)
    ensures
        r@ == (match Selection::Field(*field)@ {
            SpecSelection::Field { alias, name, arguments, directives, selection_set } =>
                sort_spec::sort_field(alias, name, arguments, directives, selection_set),
            _ => r@,
        }),
    decreases field, 0int,
{
    let selection_set = match &field.selection_set {
        Some(set) => Some(sort_selection_set(set, false)),
        None => None,
    };
    Selection::Field(
        Field {
            alias: clone_opt_string(&field.alias),
            name: field.name.clone(),
            arguments: clone_arguments(&field.arguments),
            directives: sort_directive_arguments(&field.directives),
            selection_set,
        },
    )
}

/// Transform a selection inside a normally sorted selection set.
fn sort_selection(sel: &Selection) -> (r: Selection)
    ensures
        r@ == sort_spec::sort_selection(sel@),
    decreases sel, 3int,
{
    match sel {
        Selection::Field(field) => sort_field(field),
        Selection::FragmentSpread(spread) => Selection::FragmentSpread(
            FragmentSpread {
                name: spread.name.clone(),
                directives: sort_directives(&spread.directives),
            },
        ),
        Selection::InlineFragment(inline) => Selection::InlineFragment(
            InlineFragment {
                type_condition: clone_opt_string(&inline.type_condition),
                directives: sort_directives(&inline.directives),
                selection_set: sort_selection_set(&inline.selection_set, false),
            },
        ),
    }
}

/// Transform a selection inside a preserved (mutation) selection set.
fn sort_preserved_selection(sel: &Selection) -> (r: Selection)
    ensures
        r@ == sort_spec::sort_preserved_selection(sel@),
    decreases sel, 3int,
{
    match sel {
        Selection::Field(field) => sort_field(field),
        Selection::FragmentSpread(spread) => Selection::FragmentSpread(
            FragmentSpread {
                name: spread.name.clone(),
                directives: sort_directives(&spread.directives),
            },
        ),
        Selection::InlineFragment(inline) => Selection::InlineFragment(
            InlineFragment {
                type_condition: clone_opt_string(&inline.type_condition),
                directives: sort_directive_arguments(&inline.directives),
                selection_set: sort_selection_set(&inline.selection_set, true),
            },
        ),
    }
}

/// The texts held by a vector of strings.
pub open spec fn strings_view(v: Seq<String>) -> Seq<Seq<char>> {
    v.map_values(|t: String| t@)
}

/// Record fragment spreads directly in a preserved selection list and
/// recurse into inline-fragment children, which stay preserved.
fn collect_ignored_in_set(sels: &Vec<Selection>, ignored: &mut Vec<String>)
    ensures
        strings_view(final(ignored)@) == strings_view(old(ignored)@) + sort_spec::ignored_in_set(
            selections_view(sels@),
        ),
    decreases sels,
{
    let ghost ss = selections_view(sels@);
    let ghost start = strings_view(ignored@);
    proof {
        lemma_selections_view(sels@);
    }
    let mut i: usize = 0;
    assert(ss.take(0) =~= Seq::<SpecSelection>::empty());
    assert(start + Seq::<Seq<char>>::empty() =~= start);
    while i < sels.len()
        invariant
            i <= sels.len(),
            ss == selections_view(sels@),
            ss.len() == sels.len(),
            forall|j: int| 0 <= j < ss.len() ==> #[trigger] ss[j] == sels@[j]@,
            strings_view(ignored@) == start + sort_spec::ignored_in_set(ss.take(i as int)),
        decreases sels.len() - i,
    {
        assert(ss.take(i + 1).drop_last() =~= ss.take(i as int));
        assert(ss.take(i + 1).last() == ss[i as int]);
        let ghost before = strings_view(ignored@);
        match &sels[i] {
            Selection::FragmentSpread(spread) => {
                let name = spread.name.clone();
                ignored.push(name);
                assert(strings_view(ignored@) =~= before.push(name@));
                assert(sort_spec::ignored_in_selection(ss[i as int]) == seq![name@]);
                assert(sort_spec::ignored_in_set(ss.take(i + 1)) == sort_spec::ignored_in_set(
                    ss.take(i as int),
                ) + seq![name@]);
                assert(strings_view(ignored@) =~= start + sort_spec::ignored_in_set(
                    ss.take(i + 1),
                ));
            },
            Selection::InlineFragment(inline) => {
                collect_ignored_in_set(&inline.selection_set.selections, ignored);
                let ghost inner = sort_spec::ignored_in_set(
                    selections_view(inline.selection_set.selections@),
                );
                assert(sort_spec::ignored_in_selection(ss[i as int]) == inner);
                assert(sort_spec::ignored_in_set(ss.take(i + 1)) == sort_spec::ignored_in_set(
                    ss.take(i as int),
                ) + inner);
                assert(strings_view(ignored@) =~= start + sort_spec::ignored_in_set(
                    ss.take(i + 1),
                ));
            },
            Selection::Field(_) => {
                assert(sort_spec::ignored_in_selection(ss[i as int]) == Seq::<Seq<char>>::empty());
                assert(sort_spec::ignored_in_set(ss.take(i + 1)) == sort_spec::ignored_in_set(
                    ss.take(i as int),
                ) + Seq::<Seq<char>>::empty());
                assert(strings_view(ignored@) =~= start + sort_spec::ignored_in_set(
                    ss.take(i + 1),
                ));
            },
        }
        i += 1;
    }
    assert(ss.take(sels.len() as int) =~= ss);
}

/// Collect names of fragments spread at a mutation's preserved top level.
fn collect_ignored_fragments(document: &Document) -> (ignored: Vec<String>)
    ensures
        strings_view(ignored@) == sort_spec::collect_ignored(
            definitions_view(document.definitions@),
        ),
{
    let ghost dv = definitions_view(document.definitions@);
    let mut ignored: Vec<String> = Vec::new();
    let mut i: usize = 0;
    assert(strings_view(ignored@) =~= Seq::<Seq<char>>::empty());
    while i < document.definitions.len()
        invariant
            i <= document.definitions.len(),
            dv == definitions_view(document.definitions@),
            strings_view(ignored@) == sort_spec::collect_ignored(dv.take(i as int)),
        decreases document.definitions.len() - i,
    {
        assert(dv.take(i + 1).drop_last() =~= dv.take(i as int));
        assert(dv.take(i + 1).last() == document.definitions@[i as int]@);
        match &document.definitions[i] {
            Definition::Operation(op) => {
                if op.operation == OperationType::Mutation {
                    collect_ignored_in_set(&op.selection_set.selections, &mut ignored);
                }
            },
            Definition::Fragment(_) => {},
        }
        i += 1;
    }
    assert(dv.take(document.definitions.len() as int) =~= dv);
    ignored
}

/// Whether `name` is among `ignored`.
fn is_ignored(ignored: &Vec<String>, name: &String) -> (b: bool)
    ensures
        b == strings_view(ignored@).contains(name@),
{
    let mut i: usize = 0;
    while i < ignored.len()
        invariant
            i <= ignored.len(),
            forall|j: int| 0 <= j < i ==> #[trigger] strings_view(ignored@)[j] != name@,
        decreases ignored.len() - i,
    {
        if ignored[i] == *name {
            assert(strings_view(ignored@)[i as int] == name@);
            return true;
        }
        i += 1;
    }
    false
}

fn sort_operation(op: &OperationDefinition) -> (r: OperationDefinition)
    ensures
        r@ == sort_spec::sort_operation(op@),
{
    OperationDefinition {
        operation: op.operation,
        name: clone_opt_string(&op.name),
        variable_definitions: sort_variable_definitions(&op.variable_definitions),
        directives: sort_directive_arguments(&op.directives),
        selection_set: sort_selection_set(
            &op.selection_set,
            op.operation == OperationType::Mutation,
        ),
    }
}

fn sort_fragment_definition(frag: &FragmentDefinition, ignored: &Vec<String>) -> (r:
    FragmentDefinition)
    ensures
        r@ == sort_spec::sort_fragment_definition(frag@, strings_view(ignored@)),
{
    if is_ignored(ignored, &frag.name) {
        FragmentDefinition {
            name: frag.name.clone(),
            variable_definitions: sort_ignored_variable_definitions(&frag.variable_definitions),
            type_condition: frag.type_condition.clone(),
            directives: sort_directive_arguments(&frag.directives),
            selection_set: sort_selection_set(&frag.selection_set, false),
        }
    } else {
        FragmentDefinition {
            name: frag.name.clone(),
            variable_definitions: sort_variable_definitions(&frag.variable_definitions),
            type_condition: frag.type_condition.clone(),
            directives: sort_directives(&frag.directives),
            selection_set: sort_selection_set(&frag.selection_set, false),
        }
    }
}

fn sort_definition(def: &Definition, ignored: &Vec<String>) -> (r: Definition)
    ensures
        r@ == sort_spec::sort_definition(def@, strings_view(ignored@)),
{
    match def {
        Definition::Operation(op) => Definition::Operation(sort_operation(op)),
        Definition::Fragment(frag) => Definition::Fragment(sort_fragment_definition(frag, ignored)),
    }
}

/// The sort key of a definition: kind rank, then a present name before a
/// missing one.
fn definition_key(def: &Definition) -> (k: Vec<u16>)
    ensures
        k@ == sort_spec::definition_key(def@),
{
    let (rank, name): (u16, Option<&String>) = match def {
        Definition::Fragment(f) => (0, Some(&f.name)),
        Definition::Operation(op) => (
            1,
            match &op.name {
                Some(n) => Some(n),
                None => None,
            },
        ),
    };
    let mut k: Vec<u16> = Vec::new();
    k.push(rank);
    match name {
        Some(n) => {
            k.push(0);
            let units = key_of(n);
            let mut i: usize = 0;
            let ghost start = k@;
            while i < units.len()
                invariant
                    i <= units.len(),
                    k@ == start + units@.take(i as int),
                decreases units.len() - i,
            {
                k.push(units[i]);
                proof {
                    lemma_push_take(units@, i as int);
                }
                i += 1;
            }
            assert(units@.take(units.len() as int) =~= units@);
        },
        None => {
            k.push(1);
        },
    }
    assert(k@ =~= sort_spec::definition_key(def@));
    k
}

/// Return a new document with all nodes reordered into canonical order.
///
/// Fragment definitions come before operations, each group by name;
/// variable definitions, directive arguments, and the directives of
/// fragment spreads, inline fragments and fragment definitions sort by
/// name; selection sets put fields, then spreads, then inline fragments in
/// key order, except at a mutation's top level.
pub fn sort_executable_document(document: &Document) -> (r: Document)
    ensures
        r@ == sort_spec::sort_document(document@),
{
    let ignored = collect_ignored_fragments(document);
    let defs = &document.definitions;
    let ghost dv = definitions_view(defs@);
    let ghost iv = strings_view(ignored@);
    let ghost key_seq = dv.map_values(|d: SpecDefinition| sort_spec::definition_key(d));
    let mut keys: Vec<Vec<u16>> = Vec::new();
    let mut i: usize = 0;
    while i < defs.len()
        invariant
            i <= defs.len(),
            dv == definitions_view(defs@),
            key_seq == dv.map_values(|d: SpecDefinition| sort_spec::definition_key(d)),
            keys_view(keys@) == key_seq.take(i as int),
        decreases defs.len() - i,
    {
        let k = definition_key(&defs[i]);
        let ghost before = keys_view(keys@);
        keys.push(k);
        proof {
            lemma_push_take(key_seq, i as int);
        }
        assert(keys_view(keys@) =~= before.push(k@));
        i += 1;
    }
    assert(key_seq.take(defs.len() as int) =~= key_seq);
    let order = stable_order_exec(&keys);
    let ghost ov = order_view(order@);
    let ghost sorted = dv.map_values(|d: SpecDefinition| sort_spec::sort_definition(d, iv));
    let ghost target = permute(sorted, ov);
    let mut out: Vec<Definition> = Vec::new();
    let mut k: usize = 0;
    while k < order.len()
        invariant
            k <= order.len(),
            order@.len() == defs.len(),
            forall|i: int| 0 <= i < order@.len() ==> #[trigger] order@[i] < defs.len(),
            dv == definitions_view(defs@),
            iv == strings_view(ignored@),
            ov == order_view(order@),
            sorted == dv.map_values(|d: SpecDefinition| sort_spec::sort_definition(d, iv)),
            target == permute(sorted, ov),
            definitions_view(out@) == target.take(k as int),
        decreases order.len() - k,
    {
        let d = sort_definition(&defs[order[k]], &ignored);
        let ghost before = definitions_view(out@);
        out.push(d);
        proof {
            assert(ov[k as int] == order@[k as int] as int);
            lemma_push_take(target, k as int);
        }
        assert(definitions_view(out@) =~= before.push(d@));
        k += 1;
    }
    assert(target.take(order.len() as int) =~= target);
    Document { definitions: out }
}

} // verus!
