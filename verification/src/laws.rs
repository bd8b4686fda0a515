//! Properties that hold of the library as a whole.
use vstd::prelude::*;
use crate::normalize::{collapse_state, spec_is_js_whitespace, spec_normalize_whitespace};
use crate::sort_spec::{
    insert_in_order, seq_lt, stable_order, sorted_indices, permute, utf16_encode, utf16_units,
    selection_key, selection_keys, sort_selection_set, sort_selection, lemma_selection_keys,
    lemma_sort_each,
};
use crate::model::{SpecSelection, SpecDefinition, SpecDocument};
use crate::ast::OperationType;
use crate::sort_spec::{
    collect_ignored, definition_key, ignored_in_set, sort_definition, sort_document,
};
use crate::print_spec::print_document;
use crate::sort_spec::{sort_operation, sort_preserved_selection, lemma_sort_each_preserved};
use crate::model::{SpecOperation, SpecArgument, SpecVariableDefinition, SpecDirective};
use crate::parse_spec::{parse_document, skip_ignored, PErr};
use crate::sort_spec::{sort_arguments, sort_variable_definitions, sort_directives};
use crate::sort_spec::{
    sort_directive_arguments, sort_fragment_definition, sort_ignored_variable_definitions,
    sort_variable_definition_of,
};
use crate::model::SpecFragment;
use crate::sort_spec::inline_fragment_key;

verus! {

/// `t` has no whitespace but single spaces, and does not start with a space.
pub open spec fn spaced_from_start(t: Seq<char>) -> bool {
    &&& forall|i: int| 0 <= i < t.len() && spec_is_js_whitespace(#[trigger] t[i]) ==> t[i] == ' '
    &&& forall|i: int| 0 <= i < t.len() - 1 && #[trigger] t[i] == ' ' ==> t[i + 1] != ' '
    &&& t.len() > 0 ==> t[0] != ' '
}

/// `t` is a single line with every whitespace run collapsed to one space
/// and no space at either end.
pub open spec fn is_normalized(t: Seq<char>) -> bool {
    &&& spaced_from_start(t)
    &&& t.len() > 0 ==> t.last() != ' '
}

proof fn lemma_collapse_state_normalized(s: Seq<char>)
    ensures
        is_normalized(collapse_state(s).0),
    decreases s.len(),
{
    if s.len() > 0 {
        lemma_collapse_state_normalized(s.drop_last());
        let (out, in_run) = collapse_state(s.drop_last());
        let c = s.last();
        if !spec_is_js_whitespace(c) {
            let t = collapse_state(s).0;
            if in_run && out.len() > 0 {
                assert(t == out.push(' ').push(c));
                assert forall|i: int| 0 <= i < t.len() - 1 && #[trigger] t[i] == ' ' implies t[i
                    + 1] != ' ' by {
                    if i < out.len() - 1 {
                        assert(t[i] == out[i] && t[i + 1] == out[i + 1]);
                    } else if i == out.len() - 1 {
                        assert(t[i] == out.last());
                    }
                }
                assert forall|i: int| 0 <= i < t.len() && spec_is_js_whitespace(
                    #[trigger] t[i],
                ) implies t[i] == ' ' by {
                    if i < out.len() {
                        assert(t[i] == out[i]);
                    }
                }
            } else {
                assert(t == out.push(c));
                assert forall|i: int| 0 <= i < t.len() - 1 && #[trigger] t[i] == ' ' implies t[i
                    + 1] != ' ' by {
                    assert(t[i] == out[i]);
                    if i < out.len() - 1 {
                        assert(t[i + 1] == out[i + 1]);
                    }
                }
                assert forall|i: int| 0 <= i < t.len() && spec_is_js_whitespace(
                    #[trigger] t[i],
                ) implies t[i] == ' ' by {
                    if i < out.len() {
                        assert(t[i] == out[i]);
                    }
                }
            }
        }
    }
}

/// Normalizing text already in the collapsed form gives the text back,
/// without the trailing space if there is one, and reports whether there was.
proof fn lemma_collapse_state_fixed(t: Seq<char>)
    requires
        spaced_from_start(t),
    ensures
        collapse_state(t) == (if t.len() > 0 && t.last() == ' ' {
            (t.drop_last(), true)
        } else {
            (t, false)
        }),
    decreases t.len(),
{
    if t.len() > 0 {
        let u = t.drop_last();
        assert(spaced_from_start(u)) by {
            assert forall|i: int| 0 <= i < u.len() && spec_is_js_whitespace(
                #[trigger] u[i],
            ) implies u[i] == ' ' by {
                assert(u[i] == t[i]);
            }
            assert forall|i: int| 0 <= i < u.len() - 1 && #[trigger] u[i] == ' ' implies u[i + 1]
                != ' ' by {
                assert(u[i] == t[i] && u[i + 1] == t[i + 1]);
            }
            if u.len() > 0 {
                assert(u[0] == t[0]);
            }
        }
        lemma_collapse_state_fixed(u);
        let c = t.last();
        if c == ' ' {
            assert(t[t.len() - 1] == ' ');
            if u.len() > 0 {
                assert(u.last() == t[t.len() - 2]);
                assert(u.last() != ' ');
            }
        } else {
            assert(!spec_is_js_whitespace(c));
            if u.len() > 0 && u.last() == ' ' {
                assert(u.len() >= 2) by {
                    if u.len() == 1 {
                        assert(u[0] == t[0]);
                    }
                }
                assert(u.drop_last().push(' ').push(c) =~= t);
            } else {
                assert(u.push(c) =~= t);
            }
        }
    }
}

/// The result of whitespace normalization is a single line: every
/// whitespace character in it is a space, no two spaces are adjacent, and
/// it neither starts nor ends with a space.
pub proof fn law_normalized_output_has_no_whitespace_runs(s: Seq<char>)
    ensures
        is_normalized(spec_normalize_whitespace(s)),
        !spec_normalize_whitespace(s).contains('\n'),
        !spec_normalize_whitespace(s).contains('\t'),
{
    lemma_collapse_state_normalized(s);
    let t = spec_normalize_whitespace(s);
    assert(spec_is_js_whitespace('\n') && spec_is_js_whitespace('\t'));
}

/// Normalizing twice is normalizing once.
pub proof fn law_normalize_idempotent(s: Seq<char>)
    ensures
        spec_normalize_whitespace(spec_normalize_whitespace(s)) == spec_normalize_whitespace(s),
{
    lemma_collapse_state_normalized(s);
    lemma_collapse_state_fixed(spec_normalize_whitespace(s));
}

/// The number of characters at the start of `s` before its first
/// whitespace character.
pub open spec fn run_len(s: Seq<char>) -> nat
    decreases s.len(),
{
    if s.len() > 0 && !spec_is_js_whitespace(s[0]) {
        1 + run_len(s.drop_first())
    } else {
        0
    }
}

/// The words of `s`: its maximal runs of non-whitespace characters, in
/// order.
pub open spec fn words(s: Seq<char>) -> Seq<Seq<char>>
    decreases s.len(),
{
    if s.len() == 0 {
        Seq::empty()
    } else if spec_is_js_whitespace(s[0]) {
        words(s.drop_first())
    } else {
        proof {
            lemma_run_len_bound(s);
        }
        seq![s.take(run_len(s) as int)] + words(s.skip(run_len(s) as int))
    }
}

/// A leading run is no longer than the text, and not empty when the text
/// starts with a non-whitespace character.
pub proof fn lemma_run_len_bound(s: Seq<char>)
    ensures
        run_len(s) <= s.len(),
        s.len() > 0 && !spec_is_js_whitespace(s[0]) ==> run_len(s) >= 1,
        forall|i: int| 0 <= i < run_len(s) ==> !spec_is_js_whitespace(#[trigger] s[i]),
    decreases s.len(),
{
    if s.len() > 0 {
        lemma_run_len_bound(s.drop_first());
        assert forall|i: int| 0 <= i < run_len(s) implies !spec_is_js_whitespace(#[trigger] s[i]) by {
            if i > 0 {
                assert(s[i] == s.drop_first()[i - 1]);
            }
        }
    }
}

proof fn lemma_run_len_push(s: Seq<char>, c: char)
    ensures
        run_len(s) <= s.len(),
        run_len(s) < s.len() ==> run_len(s.push(c)) == run_len(s),
        run_len(s) == s.len() && spec_is_js_whitespace(c) ==> run_len(s.push(c)) == s.len(),
        run_len(s) == s.len() && !spec_is_js_whitespace(c) ==> run_len(s.push(c)) == s.len() + 1,
    decreases s.len(),
{
    let t = s.push(c);
    lemma_run_len_bound(s);
    if s.len() > 0 {
        let s1 = s.drop_first();
        assert(t.drop_first() =~= s1.push(c));
        assert(t[0] == s[0]);
        lemma_run_len_push(s1, c);
        if !spec_is_js_whitespace(s[0]) {
            assert(run_len(s) == 1 + run_len(s1));
            assert(run_len(t) == 1 + run_len(s1.push(c)));
        } else {
            assert(run_len(t) == 0);
        }
    } else {
        assert(t.drop_first() =~= Seq::<char>::empty());
        assert(t[0] == c);
        if !spec_is_js_whitespace(c) {
            assert(run_len(t) == 1 + run_len(t.drop_first()));
        }
    }
}

/// How the words change when one character is added at the end.
proof fn lemma_words_push(s: Seq<char>, c: char)
    ensures
        spec_is_js_whitespace(c) ==> words(s.push(c)) == words(s),
        !spec_is_js_whitespace(c) && (s.len() == 0 || spec_is_js_whitespace(s.last())) ==> words(
            s.push(c),
        ) == words(s).push(seq![c]),
        !spec_is_js_whitespace(c) && s.len() > 0 && !spec_is_js_whitespace(s.last()) ==> {
            &&& words(s).len() > 0
            &&& words(s.push(c)) == words(s).drop_last().push(words(s).last().push(c))
        },
        forall|i: int| 0 <= i < words(s).len() ==> #[trigger] words(s)[i].len() > 0,
    decreases s.len(),
{
    let t = s.push(c);
    let e = Seq::<char>::empty();
    let ws = spec_is_js_whitespace(c);
    lemma_run_len_push(s, c);
    lemma_run_len_bound(s);
    lemma_run_len_bound(t);
    if s.len() == 0 {
        assert(t[0] == c);
        assert(t.drop_first() =~= e);
        if ws {
            assert(words(t) == words(t.drop_first()));
        } else {
            assert(run_len(t) == 1);
            assert(t.take(1) =~= seq![c]);
            assert(t.skip(1) =~= e);
            assert(words(t) == seq![t.take(1)] + words(t.skip(1)));
            assert(words(t) =~= words(s).push(seq![c]));
        }
    } else if spec_is_js_whitespace(s[0]) {
        let s1 = s.drop_first();
        assert(t[0] == s[0]);
        assert(t.drop_first() =~= s1.push(c));
        lemma_words_push(s1, c);
        assert(words(s) == words(s1));
        assert(words(t) == words(s1.push(c)));
        if s1.len() > 0 {
            assert(s1.last() == s.last());
        }
    } else {
        let n = run_len(s) as int;
        assert(t[0] == s[0]);
        assert(s.take(n).len() > 0);
        let r = s.skip(n);
        let w = words(r);
        assert(words(s) == seq![s.take(n)] + w);
        lemma_words_push(r, c);
        if n < s.len() {
            assert(run_len(t) == n);
            assert(t.take(n) =~= s.take(n));
            assert(t.skip(n) =~= r.push(c));
            assert(words(t) == seq![s.take(n)] + words(r.push(c)));
            assert(r.last() == s.last());
            if ws {
            } else if spec_is_js_whitespace(s.last()) {
                assert(seq![s.take(n)] + w.push(seq![c]) =~= (seq![s.take(n)] + w).push(seq![c]));
            } else {
                assert(seq![s.take(n)] + w.drop_last().push(w.last().push(c)) =~= (seq![
                    s.take(n),
                ] + w).drop_last().push((seq![s.take(n)] + w).last().push(c)));
            }
        } else {
            assert(r =~= e);
            assert(w == Seq::<Seq<char>>::empty());
            assert(s.take(n) =~= s);
            assert(s.last() == s[n - 1]);
            if ws {
                assert(t.take(n) =~= s);
                assert(t.skip(n) =~= seq![c]);
                assert(seq![c].drop_first() =~= e);
                assert(seq![c][0] == c);
                assert(words(seq![c]) == words(e));
                assert(words(t) == seq![t.take(n)] + words(t.skip(n)));
                assert(words(t) =~= words(s));
            } else {
                assert(t.take(n + 1) =~= t);
                assert(t.skip(n + 1) =~= e);
                assert(words(t) == seq![t.take(n + 1)] + words(t.skip(n + 1)));
                assert(words(t) =~= words(s).drop_last().push(words(s).last().push(c)));
            }
        }
        assert forall|i: int| 0 <= i < words(s).len() implies #[trigger] words(s)[i].len() > 0 by {
            if i > 0 {
                assert(words(s)[i] == w[i - 1]);
            }
        }
    }
}

pub(crate) proof fn lemma_join_push(w: Seq<Seq<char>>, x: Seq<char>, sep: Seq<char>)
    ensures
        w.len() > 0 ==> crate::text::join(w.push(x), sep) == crate::text::join(w, sep) + sep + x,
        w.len() == 0 ==> crate::text::join(w.push(x), sep) == x,
{
    assert(w.push(x).drop_last() =~= w);
}

pub(crate) proof fn lemma_join_empty(w: Seq<Seq<char>>, sep: Seq<char>)
    requires
        forall|i: int| 0 <= i < w.len() ==> #[trigger] w[i].len() > 0,
    ensures
        crate::text::join(w, sep).len() == 0 <==> w.len() == 0,
    decreases w.len(),
{
    if w.len() > 1 {
        assert(w.last() == w[w.len() - 1]);
    } else if w.len() == 1 {
        assert(w[0].len() > 0);
    }
}

proof fn lemma_collapse_words(s: Seq<char>)
    ensures
        collapse_state(s).0 == crate::text::join(words(s), seq![' ']),
        collapse_state(s).1 == (s.len() > 0 && spec_is_js_whitespace(s.last())),
    decreases s.len(),
{
    if s.len() > 0 {
        let s1 = s.drop_last();
        let c = s.last();
        assert(s =~= s1.push(c));
        lemma_collapse_words(s1);
        lemma_words_push(s1, c);
        let w = words(s1);
        lemma_join_empty(w, seq![' ']);
        if !spec_is_js_whitespace(c) {
            if s1.len() > 0 && !spec_is_js_whitespace(s1.last()) {
                let u = w.drop_last();
                assert(w =~= u.push(w.last()));
                lemma_join_push(u, w.last(), seq![' ']);
                lemma_join_push(u, w.last().push(c), seq![' ']);
                if u.len() > 0 {
                    assert(crate::text::join(u, seq![' ']) + seq![' '] + w.last().push(c)
                        =~= (crate::text::join(u, seq![' ']) + seq![' '] + w.last()).push(c));
                }
            } else {
                lemma_join_push(w, seq![c], seq![' ']);
                let o = collapse_state(s1).0;
                if w.len() > 0 {
                    assert(o + seq![' '] + seq![c] =~= o.push(' ').push(c));
                } else {
                    assert(o =~= Seq::<char>::empty());
                    assert(o.push(c) =~= seq![c]);
                }
            }
        }
    }
}

/// Normalizing whitespace gives the words of the text, its maximal runs of
/// non-whitespace characters, joined by single spaces.
pub proof fn law_normalize_joins_words(s: Seq<char>)
    ensures
        spec_normalize_whitespace(s) == crate::text::join(words(s), seq![' ']),
{
    lemma_collapse_words(s);
}

// --- the order on keys ---

/// No key comes before itself.
pub proof fn lemma_seq_lt_irreflexive(a: Seq<u16>)
    ensures
        !seq_lt(a, a),
    decreases a.len(),
{
    if a.len() > 0 {
        lemma_seq_lt_irreflexive(a.drop_first());
    }
}

/// Two keys are never each before the other.
pub proof fn lemma_seq_lt_asymmetric(a: Seq<u16>, b: Seq<u16>)
    ensures
        seq_lt(a, b) ==> !seq_lt(b, a),
    decreases a.len(),
{
    if a.len() > 0 && b.len() > 0 && a[0] == b[0] {
        lemma_seq_lt_asymmetric(a.drop_first(), b.drop_first());
    }
}

/// The order on keys is transitive.
pub proof fn lemma_seq_lt_transitive(a: Seq<u16>, b: Seq<u16>, c: Seq<u16>)
    ensures
        seq_lt(a, b) && seq_lt(b, c) ==> seq_lt(a, c),
    decreases a.len(),
{
    if a.len() > 0 && b.len() > 0 && c.len() > 0 && a[0] == b[0] && b[0] == c[0] {
        lemma_seq_lt_transitive(a.drop_first(), b.drop_first(), c.drop_first());
    }
}

/// Any two different keys are ordered one way or the other.
pub proof fn lemma_seq_lt_total(a: Seq<u16>, b: Seq<u16>)
    ensures
        a != b ==> seq_lt(a, b) || seq_lt(b, a),
    decreases a.len(),
{
    if a.len() > 0 && b.len() > 0 && a[0] == b[0] {
        lemma_seq_lt_total(a.drop_first(), b.drop_first());
        if a.drop_first() == b.drop_first() {
            assert(a =~= seq![a[0]] + a.drop_first());
            assert(b =~= seq![b[0]] + b.drop_first());
        }
    } else if a.len() == 0 && b.len() == 0 {
        assert(a =~= b);
    }
}

/// "Not after" is transitive.
pub proof fn lemma_seq_le_transitive(a: Seq<u16>, b: Seq<u16>, c: Seq<u16>)
    requires
        !seq_lt(b, a),
        !seq_lt(c, b),
    ensures
        !seq_lt(c, a),
{
    lemma_seq_lt_total(a, b);
    lemma_seq_lt_transitive(c, a, b);
}

// --- the stable order ---

/// The positions `order` list keys in non-decreasing order.
pub open spec fn ordered_by(order: Seq<int>, keys: Seq<Seq<u16>>) -> bool {
    forall|i: int, j: int|
        0 <= i < j < order.len() ==> !seq_lt(#[trigger] keys[order[j]], #[trigger] keys[order[i]])
}

/// Among equal keys, `order` keeps the smaller position first.
pub open spec fn stable_by(order: Seq<int>, keys: Seq<Seq<u16>>) -> bool {
    forall|i: int, j: int|
        0 <= i < j < order.len() && #[trigger] keys[order[i]] == #[trigger] keys[order[j]]
            ==> order[i] < order[j]
}

/// `order` lists every position `0..n` exactly once.
pub open spec fn is_permutation_of_range(order: Seq<int>, n: int) -> bool {
    &&& order.len() == n
    &&& forall|i: int| 0 <= i < order.len() ==> 0 <= #[trigger] order[i] < n
    &&& forall|i: int, j: int| 0 <= i < j < order.len() ==> #[trigger] order[i] != #[trigger] order[j]
}

proof fn lemma_insert_in_order(x: int, t: Seq<int>, keys: Seq<Seq<u16>>)
    requires
        0 <= x,
        ordered_by(t, keys),
        stable_by(t, keys),
        forall|i: int| 0 <= i < t.len() ==> 0 <= #[trigger] t[i] < x,
        forall|i: int, j: int| 0 <= i < j < t.len() ==> #[trigger] t[i] != #[trigger] t[j],
    ensures
        insert_in_order(x, t, keys).len() == t.len() + 1,
        ordered_by(insert_in_order(x, t, keys), keys),
        stable_by(insert_in_order(x, t, keys), keys),
        forall|i: int|
            0 <= i < t.len() + 1 ==> (#[trigger] insert_in_order(x, t, keys)[i] == x
                || t.contains(insert_in_order(x, t, keys)[i])),
        forall|i: int, j: int|
            0 <= i < j < t.len() + 1 ==> #[trigger] insert_in_order(x, t, keys)[i]
                != #[trigger] insert_in_order(x, t, keys)[j],
    decreases t.len(),
{
    let r = insert_in_order(x, t, keys);
    if t.len() == 0 {
    } else if seq_lt(keys[x], keys[t.last()]) {
        let u = t.drop_last();
        let last = t.last();
        assert forall|i: int| 0 <= i < u.len() implies 0 <= #[trigger] u[i] < x by {
            assert(u[i] == t[i]);
        }
        assert forall|i: int, j: int| 0 <= i < j < u.len() implies #[trigger] u[i]
            != #[trigger] u[j] by {
            assert(u[i] == t[i] && u[j] == t[j]);
        }
        assert(ordered_by(u, keys)) by {
            assert forall|i: int, j: int| 0 <= i < j < u.len() implies !seq_lt(
                #[trigger] keys[u[j]],
                #[trigger] keys[u[i]],
            ) by {
                assert(u[i] == t[i] && u[j] == t[j]);
            }
        }
        assert(stable_by(u, keys)) by {
            assert forall|i: int, j: int|
                0 <= i < j < u.len() && #[trigger] keys[u[i]] == #[trigger] keys[u[j]] implies u[i]
                < u[j] by {
                assert(u[i] == t[i] && u[j] == t[j]);
            }
        }
        lemma_insert_in_order(x, u, keys);
        let w = insert_in_order(x, u, keys);
        assert(r == w.push(last));
        // Every element of w is x or an earlier element of t.
        assert forall|i: int| 0 <= i < w.len() implies !seq_lt(keys[last], #[trigger] keys[w[i]])
            && (keys[w[i]] == keys[last] ==> w[i] < last) && w[i] != last by {
            if w[i] == x {
                lemma_seq_lt_asymmetric(keys[x], keys[last]);
                lemma_seq_lt_irreflexive(keys[last]);
            } else {
                assert(u.contains(w[i]));
                let k = choose|k: int| 0 <= k < u.len() && u[k] == w[i];
                assert(t[k] == w[i]);
                assert(t[t.len() - 1] == last);
                assert(!seq_lt(keys[t[t.len() - 1]], keys[t[k]]));
            }
        }
        assert(ordered_by(r, keys)) by {
            assert forall|i: int, j: int| 0 <= i < j < r.len() implies !seq_lt(
                #[trigger] keys[r[j]],
                #[trigger] keys[r[i]],
            ) by {
                if j < w.len() {
                    assert(r[i] == w[i] && r[j] == w[j]);
                } else {
                    assert(r[i] == w[i] && r[j] == last);
                    lemma_seq_lt_total(keys[w[i]], keys[last]);
                    lemma_seq_lt_asymmetric(keys[w[i]], keys[last]);
                    lemma_seq_lt_irreflexive(keys[last]);
                }
            }
        }
        assert(stable_by(r, keys)) by {
            assert forall|i: int, j: int|
                0 <= i < j < r.len() && #[trigger] keys[r[i]] == #[trigger] keys[r[j]] implies r[i]
                < r[j] by {
                if j < w.len() {
                    assert(r[i] == w[i] && r[j] == w[j]);
                } else {
                    assert(r[i] == w[i] && r[j] == last);
                }
            }
        }
        assert forall|i: int| 0 <= i < t.len() + 1 implies (#[trigger] r[i] == x || t.contains(
            r[i],
        )) by {
            if i < w.len() {
                assert(r[i] == w[i]);
                if w[i] != x {
                    let k = choose|k: int| 0 <= k < u.len() && u[k] == w[i];
                    assert(t[k] == w[i]);
                }
            } else {
                assert(t[t.len() - 1] == last);
            }
        }
        assert forall|i: int, j: int| 0 <= i < j < t.len() + 1 implies #[trigger] r[i]
            != #[trigger] r[j] by {
            if j < w.len() {
                assert(r[i] == w[i] && r[j] == w[j]);
            } else {
                assert(r[i] == w[i] && r[j] == last);
            }
        }
    } else {
        let last = t.last();
        assert(r == t.push(x));
        assert forall|i: int| 0 <= i < t.len() implies !seq_lt(keys[x], #[trigger] keys[t[i]]) by {
            if i < t.len() - 1 {
                assert(!seq_lt(keys[t[t.len() - 1]], keys[t[i]]));
                lemma_seq_le_transitive(keys[t[i]], keys[last], keys[x]);
            }
        }
        assert(ordered_by(r, keys)) by {
            assert forall|i: int, j: int| 0 <= i < j < r.len() implies !seq_lt(
                #[trigger] keys[r[j]],
                #[trigger] keys[r[i]],
            ) by {
                assert(r[i] == t[i]);
                if j < t.len() {
                    assert(r[j] == t[j]);
                }
            }
        }
        assert(stable_by(r, keys)) by {
            assert forall|i: int, j: int|
                0 <= i < j < r.len() && #[trigger] keys[r[i]] == #[trigger] keys[r[j]] implies r[i]
                < r[j] by {
                assert(r[i] == t[i]);
                if j < t.len() {
                    assert(r[j] == t[j]);
                }
            }
        }
        assert forall|i: int| 0 <= i < t.len() + 1 implies (#[trigger] r[i] == x || t.contains(
            r[i],
        )) by {
            if i < t.len() {
                assert(r[i] == t[i]);
            }
        }
        assert forall|i: int, j: int| 0 <= i < j < t.len() + 1 implies #[trigger] r[i]
            != #[trigger] r[j] by {
            assert(r[i] == t[i]);
            if j < t.len() {
                assert(r[j] == t[j]);
            }
        }
    }
}

/// The stable order of `n` keys lists each position once, in non-decreasing
/// key order, with equal keys in the order of their positions.
pub proof fn law_stable_order(keys: Seq<Seq<u16>>, n: int)
    requires
        0 <= n,
    ensures
        is_permutation_of_range(stable_order(keys, n), n),
        ordered_by(stable_order(keys, n), keys),
        stable_by(stable_order(keys, n), keys),
    decreases n,
{
    if n > 0 {
        law_stable_order(keys, n - 1);
        let t = stable_order(keys, n - 1);
        lemma_insert_in_order(n - 1, t, keys);
        let r = stable_order(keys, n);
        assert forall|i: int| 0 <= i < r.len() implies 0 <= #[trigger] r[i] < n by {
            if r[i] != n - 1 {
                let k = choose|k: int| 0 <= k < t.len() && t[k] == r[i];
            }
        }
    }
}

// --- a stable sort's result depends only on what is sorted ---

/// `a` in the stable order of the keys `k` gives its elements.
pub open spec fn sort_by_key<A>(a: Seq<A>, k: spec_fn(A) -> Seq<u16>) -> Seq<A> {
    permute(a, sorted_indices(a.map_values(k)))
}

/// The keys of `x` do not decrease.
pub open spec fn keys_nondecreasing<A>(x: Seq<A>, k: spec_fn(A) -> Seq<u16>) -> bool {
    forall|i: int, j: int| 0 <= i < j < x.len() ==> !seq_lt(k(#[trigger] x[j]), k(#[trigger] x[i]))
}

/// Elements of `x` with equal keys are equal.
pub open spec fn keys_determine<A>(x: Seq<A>, k: spec_fn(A) -> Seq<u16>) -> bool {
    forall|i: int, j: int|
        0 <= i < x.len() && 0 <= j < x.len() && k(#[trigger] x[i]) == k(#[trigger] x[j]) ==> x[i]
            == x[j]
}

proof fn lemma_permute_insert_multiset<A>(a: Seq<A>, x: int, t: Seq<int>, keys: Seq<Seq<u16>>)
    requires
        0 <= x < a.len(),
        forall|i: int| 0 <= i < t.len() ==> 0 <= #[trigger] t[i] < a.len(),
    ensures
        permute(a, insert_in_order(x, t, keys)).to_multiset() == permute(a, t).to_multiset().insert(
            a[x],
        ),
    decreases t.len(),
{
    broadcast use vstd::seq_lib::group_to_multiset_ensures;

    if t.len() == 0 {
        assert(permute(a, seq![x]) =~= Seq::<A>::empty().push(a[x]));
        assert(permute(a, t) =~= Seq::<A>::empty());
    } else if seq_lt(keys[x], keys[t.last()]) {
        let u = t.drop_last();
        assert forall|i: int| 0 <= i < u.len() implies 0 <= #[trigger] u[i] < a.len() by {
            assert(u[i] == t[i]);
        }
        lemma_permute_insert_multiset(a, x, u, keys);
        assert(permute(a, insert_in_order(x, u, keys).push(t.last())) =~= permute(
            a,
            insert_in_order(x, u, keys),
        ).push(a[t.last()]));
        assert(permute(a, t) =~= permute(a, u).push(a[t.last()]));
        assert(permute(a, u).to_multiset().insert(a[x]).insert(a[t.last()]) =~= permute(
            a,
            u,
        ).to_multiset().insert(a[t.last()]).insert(a[x]));
    } else {
        assert(permute(a, t.push(x)) =~= permute(a, t).push(a[x]));
    }
}

proof fn lemma_stable_order_bounds(keys: Seq<Seq<u16>>, n: int)
    requires
        0 <= n,
    ensures
        forall|i: int|
            0 <= i < stable_order(keys, n).len() ==> 0 <= #[trigger] stable_order(keys, n)[i] < n,
{
    law_stable_order(keys, n);
}

proof fn lemma_sort_by_key_multiset_prefix<A>(a: Seq<A>, keys: Seq<Seq<u16>>, n: int)
    requires
        0 <= n <= a.len(),
    ensures
        permute(a, stable_order(keys, n)).to_multiset() == a.take(n).to_multiset(),
    decreases n,
{
    broadcast use vstd::seq_lib::group_to_multiset_ensures;

    if n == 0 {
        assert(permute(a, stable_order(keys, 0)) =~= Seq::<A>::empty());
        assert(a.take(0) =~= Seq::<A>::empty());
    } else {
        lemma_sort_by_key_multiset_prefix(a, keys, n - 1);
        lemma_stable_order_bounds(keys, n - 1);
        lemma_permute_insert_multiset(a, n - 1, stable_order(keys, n - 1), keys);
        assert(a.take(n) =~= a.take(n - 1).push(a[n - 1]));
    }
}

/// Sorting keeps exactly the elements that were sorted, and puts them in
/// non-decreasing key order.
pub proof fn law_sort_by_key_is_sorted_permutation<A>(a: Seq<A>, k: spec_fn(A) -> Seq<u16>)
    ensures
        sort_by_key(a, k).to_multiset() == a.to_multiset(),
        keys_nondecreasing(sort_by_key(a, k), k),
{
    let keys = a.map_values(k);
    lemma_sort_by_key_multiset_prefix(a, keys, a.len() as int);
    assert(a.take(a.len() as int) =~= a);
    law_stable_order(keys, a.len() as int);
    let o = sorted_indices(keys);
    let x = sort_by_key(a, k);
    assert forall|i: int, j: int| 0 <= i < j < x.len() implies !seq_lt(
        k(#[trigger] x[j]),
        k(#[trigger] x[i]),
    ) by {
        assert(x[i] == a[o[i]] && x[j] == a[o[j]]);
        assert(keys[o[i]] == k(a[o[i]]) && keys[o[j]] == k(a[o[j]]));
        assert(!seq_lt(keys[o[j]], keys[o[i]]));
    }
}

/// Two sequences in non-decreasing key order with the same elements are
/// equal, when equal keys mean equal elements.
proof fn lemma_sorted_by_key_unique<A>(x: Seq<A>, y: Seq<A>, k: spec_fn(A) -> Seq<u16>)
    requires
        keys_nondecreasing(x, k),
        keys_nondecreasing(y, k),
        keys_determine(x, k),
        x.to_multiset() == y.to_multiset(),
    ensures
        x == y,
    decreases x.len(), y.len(),
{
    broadcast use vstd::multiset::group_multiset_axioms;
    broadcast use vstd::seq_lib::group_to_multiset_ensures;

    vstd::seq_lib::to_multiset_len(x);
    vstd::seq_lib::to_multiset_len(y);
    if x.len() == 0 || y.len() == 0 {
        assert(x.len() == y.len());
        assert(x =~= y);
    } else {
        assert(x.to_multiset().contains(x[0]));
        assert(y.to_multiset().contains(y[0]));
        assert(x.to_multiset().contains(y[0]));
        assert(y.to_multiset().contains(x[0]));
        let i = choose|i: int| #![trigger x[i]] 0 <= i < x.len() && x[i] == y[0];
        let j = choose|j: int| #![trigger y[j]] 0 <= j < y.len() && y[j] == x[0];
        assert(!seq_lt(k(x[i]), k(x[0]))) by {
            if i > 0 {
            } else {
                lemma_seq_lt_irreflexive(k(x[0]));
            }
        }
        assert(!seq_lt(k(y[j]), k(y[0]))) by {
            if j > 0 {
            } else {
                lemma_seq_lt_irreflexive(k(y[0]));
            }
        }
        lemma_seq_lt_total(k(x[0]), k(y[0]));
        assert(k(x[0]) == k(x[i]));
        assert(x[0] == x[i]);
        assert(x[0] == y[0]);
        vstd::seq_lib::to_multiset_remove(x, 0);
        vstd::seq_lib::to_multiset_remove(y, 0);
        assert(x.remove(0) =~= x.drop_first());
        assert(y.remove(0) =~= y.drop_first());
        let x1 = x.drop_first();
        let y1 = y.drop_first();
        assert forall|p: int, q: int| 0 <= p < q < x1.len() implies !seq_lt(
            k(#[trigger] x1[q]),
            k(#[trigger] x1[p]),
        ) by {
            assert(x1[p] == x[p + 1] && x1[q] == x[q + 1]);
        }
        assert forall|p: int, q: int| 0 <= p < q < y1.len() implies !seq_lt(
            k(#[trigger] y1[q]),
            k(#[trigger] y1[p]),
        ) by {
            assert(y1[p] == y[p + 1] && y1[q] == y[q + 1]);
        }
        assert forall|p: int, q: int|
            0 <= p < x1.len() && 0 <= q < x1.len() && k(#[trigger] x1[p]) == k(
                #[trigger] x1[q],
            ) implies x1[p] == x1[q] by {
            assert(x1[p] == x[p + 1] && x1[q] == x[q + 1]);
        }
        lemma_sorted_by_key_unique(x1, y1, k);
        assert(x =~= seq![x[0]] + x1);
        assert(y =~= seq![y[0]] + y1);
    }
}

/// Sorting by key does not depend on the order of its input: two sequences
/// with the same elements sort to the same result, when elements with equal
/// keys are equal.
pub proof fn law_sort_by_key_order_independent<A>(
    a: Seq<A>,
    b: Seq<A>,
    k: spec_fn(A) -> Seq<u16>,
)
    requires
        a.to_multiset() == b.to_multiset(),
        keys_determine(a, k),
    ensures
        sort_by_key(a, k) == sort_by_key(b, k),
{
    broadcast use vstd::multiset::group_multiset_axioms;
    broadcast use vstd::seq_lib::group_to_multiset_ensures;

    law_sort_by_key_is_sorted_permutation(a, k);
    law_sort_by_key_is_sorted_permutation(b, k);
    let x = sort_by_key(a, k);
    assert forall|i: int, j: int|
        0 <= i < x.len() && 0 <= j < x.len() && k(#[trigger] x[i]) == k(#[trigger] x[j]) implies x[i]
        == x[j] by {
        assert(x.to_multiset().contains(x[i]));
        assert(x.to_multiset().contains(x[j]));
        assert(a.to_multiset().contains(x[i]));
        assert(a.to_multiset().contains(x[j]));
        let p = choose|p: int| #![trigger a[p]] 0 <= p < a.len() && a[p] == x[i];
        let q = choose|q: int| #![trigger a[q]] 0 <= q < a.len() && a[q] == x[j];
    }
    lemma_sorted_by_key_unique(x, sort_by_key(b, k), k);
}

// --- UTF-16 keys ---

proof fn lemma_utf16_units_shape(c: char)
    ensures
        (c as u32) < 0x10000 ==> utf16_units(c).len() == 1 && utf16_units(c)[0] as u32 == c as u32
            && !(0xDC00 <= utf16_units(c)[0] && utf16_units(c)[0] <= 0xDFFF),
        (c as u32) >= 0x10000 ==> utf16_units(c).len() == 2 && 0xDC00 <= utf16_units(c)[1]
            <= 0xDFFF && 0xD800 <= utf16_units(c)[0] <= 0xDBFF,
{
    vstd::utf8::char_is_scalar(c);
    let v = c as u32;
    if v >= 0x10000 {
        let w = (v - 0x10000) as nat;
        assert(w <= 0xFFFFF);
        assert(w / 1024 <= 0x3FF) by (nonlinear_arith)
            requires
                w <= 0xFFFFF,
        ;
        assert(w % 1024 < 1024) by (nonlinear_arith);
    }
}

proof fn lemma_utf16_units_injective(c: char, d: char)
    requires
        utf16_units(c) == utf16_units(d),
    ensures
        c == d,
{
    lemma_utf16_units_shape(c);
    lemma_utf16_units_shape(d);
    let v = c as u32;
    let u = d as u32;
    if v >= 0x10000 {
        let w = (v - 0x10000) as nat;
        let z = (u - 0x10000) as nat;
        assert(w / 1024 == z / 1024 && w % 1024 == z % 1024) by {
            assert(utf16_units(c)[0] == utf16_units(d)[0]);
            assert(utf16_units(c)[1] == utf16_units(d)[1]);
            assert(w / 1024 <= 0x3FF && z / 1024 <= 0x3FF) by (nonlinear_arith)
                requires
                    w <= 0xFFFFF,
                    z <= 0xFFFFF,
            ;
            assert(w % 1024 < 1024 && z % 1024 < 1024) by (nonlinear_arith);
        }
        assert(w == z) by (nonlinear_arith)
            requires
                w / 1024 == z / 1024,
                w % 1024 == z % 1024,
        ;
    } else {
        if u >= 0x10000 {
            assert(utf16_units(c).len() == utf16_units(d).len());
        }
        assert(utf16_units(c)[0] == utf16_units(d)[0]);
    }
    vstd::utf8::char_u32_cast(c, v);
    vstd::utf8::char_u32_cast(d, u);
}

/// Different texts have different UTF-16 keys.
pub proof fn lemma_utf16_encode_injective(a: Seq<char>, b: Seq<char>)
    requires
        utf16_encode(a) == utf16_encode(b),
    ensures
        a == b,
    decreases a.len() + b.len(),
{
    if a.len() == 0 || b.len() == 0 {
        if a.len() > 0 {
            lemma_utf16_units_shape(a.last());
            assert(utf16_encode(a) == utf16_encode(a.drop_last()) + utf16_units(a.last()));
            assert(utf16_encode(a).len() > 0);
        }
        if b.len() > 0 {
            lemma_utf16_units_shape(b.last());
            assert(utf16_encode(b) == utf16_encode(b.drop_last()) + utf16_units(b.last()));
            assert(utf16_encode(b).len() > 0);
        }
        assert(a =~= b);
    } else {
        let e = utf16_encode(a);
        let ca = a.last();
        let cb = b.last();
        lemma_utf16_units_shape(ca);
        lemma_utf16_units_shape(cb);
        let na = utf16_units(ca).len();
        let nb = utf16_units(cb).len();
        assert(e.last() == utf16_units(ca).last());
        assert(e.last() == utf16_units(cb).last());
        assert(na == nb);
        assert(utf16_units(ca) =~= e.skip(e.len() - na));
        assert(utf16_units(cb) =~= e.skip(e.len() - nb));
        lemma_utf16_units_injective(ca, cb);
        assert(utf16_encode(a.drop_last()) =~= e.take(e.len() - na));
        assert(utf16_encode(b.drop_last()) =~= e.take(e.len() - nb));
        lemma_utf16_encode_injective(a.drop_last(), b.drop_last());
        assert(a =~= a.drop_last().push(ca));
        assert(b =~= b.drop_last().push(cb));
    }
}

// --- canonical order does not depend on source order ---

/// The UTF-16 sort key of a selection.
pub open spec fn selection_sort_key() -> spec_fn(SpecSelection) -> Seq<u16> {
    |s: SpecSelection| utf16_encode(selection_key(s))
}

pub(crate) proof fn lemma_sorted_set_is_sort_by_key(s: Seq<SpecSelection>)
    ensures
        sort_selection_set(s, false) == sort_by_key(s, selection_sort_key()).map_values(
            |e: SpecSelection| sort_selection(e),
        ),
{
    lemma_selection_keys(s);
    lemma_sort_each(s);
    let k = selection_sort_key();
    assert(s.map_values(k) =~= selection_keys(s));
    let o = sorted_indices(selection_keys(s));
    law_stable_order(selection_keys(s), s.len() as int);
    assert(sort_selection_set(s, false) =~= sort_by_key(s, k).map_values(
        |e: SpecSelection| sort_selection(e),
    ));
}

/// In a selection set that is sorted, the order in which the selections
/// were written does not matter: two sets with the same selections, in any
/// order, sort to the same result, provided that selections with the same
/// sort key (the same field name, the same spread, or inline fragments with
/// the same type condition and inner key) are identical.
pub proof fn law_selection_order_irrelevant(s1: Seq<SpecSelection>, s2: Seq<SpecSelection>)
    requires
        s1.to_multiset() == s2.to_multiset(),
        forall|i: int, j: int|
            0 <= i < s1.len() && 0 <= j < s1.len() && selection_key(#[trigger] s1[i])
                == selection_key(#[trigger] s1[j]) ==> s1[i] == s1[j],
    ensures
        sort_selection_set(s1, false) == sort_selection_set(s2, false),
{
    let k = selection_sort_key();
    assert forall|i: int, j: int|
        0 <= i < s1.len() && 0 <= j < s1.len() && k(#[trigger] s1[i]) == k(
            #[trigger] s1[j],
        ) implies s1[i] == s1[j] by {
        lemma_utf16_encode_injective(selection_key(s1[i]), selection_key(s1[j]));
    }
    law_sort_by_key_order_independent(s1, s2, k);
    lemma_sorted_set_is_sort_by_key(s1);
    lemma_sorted_set_is_sort_by_key(s2);
}

/// The inner key of an inline fragment is its immediate selections taken in
/// key order, each printed, joined and normalized.
proof fn lemma_inline_key_is_sorted_print(set: Seq<SpecSelection>)
    ensures
        inline_fragment_key(set) == spec_normalize_whitespace(
            crate::text::join(
                sort_by_key(set, selection_sort_key()).map_values(
                    |x: SpecSelection| crate::print_spec::print_selection(x),
                ),
                seq![' '],
            ),
        ),
{
    lemma_selection_keys(set);
    let k = selection_sort_key();
    assert(set.map_values(k) =~= selection_keys(set));
    let o = sorted_indices(selection_keys(set));
    assert(o.map_values(|i: int| crate::print_spec::print_selection(set[i])) =~= sort_by_key(
        set,
        k,
    ).map_values(|x: SpecSelection| crate::print_spec::print_selection(x)));
}

/// The sort key of an inline fragment does not depend on the order in which
/// its immediate selections are written: two inline fragments with the same
/// type condition and the same selections, in any order, have the same key,
/// provided that selections with the same sort key are identical. So their
/// place among their siblings does not depend on that order either.
pub proof fn law_inline_fragment_key_ignores_order(
    tc: Option<Seq<char>>,
    ds1: Seq<SpecDirective>,
    ds2: Seq<SpecDirective>,
    s1: Seq<SpecSelection>,
    s2: Seq<SpecSelection>,
)
    requires
        s1.to_multiset() == s2.to_multiset(),
        forall|i: int, j: int|
            0 <= i < s1.len() && 0 <= j < s1.len() && selection_key(#[trigger] s1[i])
                == selection_key(#[trigger] s1[j]) ==> s1[i] == s1[j],
    ensures
        inline_fragment_key(s1) == inline_fragment_key(s2),
        selection_key(
            SpecSelection::InlineFragment { type_condition: tc, directives: ds1, selection_set: s1 },
        ) == selection_key(
            SpecSelection::InlineFragment { type_condition: tc, directives: ds2, selection_set: s2 },
        ),
{
    let k = selection_sort_key();
    assert forall|i: int, j: int|
        0 <= i < s1.len() && 0 <= j < s1.len() && k(#[trigger] s1[i]) == k(
            #[trigger] s1[j],
        ) implies s1[i] == s1[j] by {
        lemma_utf16_encode_injective(selection_key(s1[i]), selection_key(s1[j]));
    }
    law_sort_by_key_order_independent(s1, s2, k);
    lemma_inline_key_is_sorted_print(s1);
    lemma_inline_key_is_sorted_print(s2);
}

/// The sort key of an inline fragment lists its immediate selections in
/// ascending key order: when they are already written in that order, the
/// key is their printed forms in the order written, joined by spaces and
/// normalized (provided that selections with the same sort key are
/// identical).
pub proof fn law_inline_fragment_key_of_ordered_selections(set: Seq<SpecSelection>)
    requires
        keys_nondecreasing(set, selection_sort_key()),
        forall|i: int, j: int|
            0 <= i < set.len() && 0 <= j < set.len() && selection_key(#[trigger] set[i])
                == selection_key(#[trigger] set[j]) ==> set[i] == set[j],
    ensures
        inline_fragment_key(set) == spec_normalize_whitespace(
            crate::text::join(
                set.map_values(|x: SpecSelection| crate::print_spec::print_selection(x)),
                seq![' '],
            ),
        ),
{
    broadcast use vstd::multiset::group_multiset_axioms;
    broadcast use vstd::seq_lib::group_to_multiset_ensures;

    let k = selection_sort_key();
    assert forall|i: int, j: int|
        0 <= i < set.len() && 0 <= j < set.len() && k(#[trigger] set[i]) == k(
            #[trigger] set[j],
        ) implies set[i] == set[j] by {
        lemma_utf16_encode_injective(selection_key(set[i]), selection_key(set[j]));
    }
    law_sort_by_key_is_sorted_permutation(set, k);
    let x = sort_by_key(set, k);
    assert forall|i: int, j: int|
        0 <= i < x.len() && 0 <= j < x.len() && k(#[trigger] x[i]) == k(#[trigger] x[j]) implies x[i]
        == x[j] by {
        assert(x.to_multiset().contains(x[i]));
        assert(x.to_multiset().contains(x[j]));
        assert(set.to_multiset().contains(x[i]));
        assert(set.to_multiset().contains(x[j]));
        let p = choose|p: int| #![trigger set[p]] 0 <= p < set.len() && set[p] == x[i];
        let q = choose|q: int| #![trigger set[q]] 0 <= q < set.len() && set[q] == x[j];
    }
    lemma_sorted_by_key_unique(x, set, k);
    lemma_inline_key_is_sorted_print(set);
}

/// `d` is a mutation that spreads fragment `n` at its preserved top level.
pub open spec fn mutation_spreads(d: SpecDefinition, n: Seq<char>) -> bool {
    match d {
        SpecDefinition::Operation(op) => op.operation == OperationType::Mutation
            && ignored_in_set(op.selection_set).contains(n),
        SpecDefinition::Fragment(_) => false,
    }
}

pub(crate) proof fn lemma_collect_ignored_contains(defs: Seq<SpecDefinition>, n: Seq<char>)
    ensures
        collect_ignored(defs).contains(n) <==> exists|i: int|
            0 <= i < defs.len() && mutation_spreads(#[trigger] defs[i], n),
    decreases defs.len(),
{
    broadcast use vstd::seq_lib::lemma_seq_concat_contains_all_elements;

    if defs.len() > 0 {
        let u = defs.drop_last();
        lemma_collect_ignored_contains(u, n);
        if exists|i: int| 0 <= i < u.len() && mutation_spreads(#[trigger] u[i], n) {
            let i = choose|i: int| 0 <= i < u.len() && mutation_spreads(#[trigger] u[i], n);
            assert(defs[i] == u[i]);
        }
        if exists|i: int| 0 <= i < defs.len() && mutation_spreads(#[trigger] defs[i], n) {
            let i = choose|i: int| 0 <= i < defs.len() && mutation_spreads(#[trigger] defs[i], n);
            if i < u.len() {
                assert(u[i] == defs[i]);
            }
        }
    }
}

/// A definition's canonical form depends on the list of fragments spread by
/// mutations only through which names it holds.
pub(crate) proof fn lemma_sort_definition_ignored(d: SpecDefinition, a: Seq<Seq<char>>, b: Seq<Seq<char>>)
    requires
        forall|n: Seq<char>| a.contains(n) <==> b.contains(n),
    ensures
        sort_definition(d, a) == sort_definition(d, b),
{
    match d {
        SpecDefinition::Fragment(f) => {
            assert(a.contains(f.name) == b.contains(f.name));
        },
        SpecDefinition::Operation(_) => {},
    }
}

/// The definitions in canonical order, each in canonical form.
pub(crate) proof fn lemma_sort_document_is_sort_by_key(doc: SpecDocument)
    ensures
        sort_document(doc).definitions == sort_by_key(
            doc.definitions,
            |d: SpecDefinition| definition_key(d),
        ).map_values(|d: SpecDefinition| sort_definition(d, collect_ignored(doc.definitions))),
{
    let defs = doc.definitions;
    law_stable_order(defs.map_values(|d: SpecDefinition| definition_key(d)), defs.len() as int);
    assert(sort_document(doc).definitions =~= sort_by_key(
        defs,
        |d: SpecDefinition| definition_key(d),
    ).map_values(|d: SpecDefinition| sort_definition(d, collect_ignored(defs))));
}

/// The order in which the definitions of a document were written does not
/// matter: two documents with the same definitions, in any order, have the
/// same canonical form and the same canonical string, provided that
/// definitions of the same kind with the same name are identical.
pub proof fn law_definition_order_irrelevant(d1: SpecDocument, d2: SpecDocument)
    requires
        d1.definitions.to_multiset() == d2.definitions.to_multiset(),
        forall|i: int, j: int|
            0 <= i < d1.definitions.len() && 0 <= j < d1.definitions.len() && definition_key(
                #[trigger] d1.definitions[i],
            ) == definition_key(#[trigger] d1.definitions[j]) ==> d1.definitions[i]
                == d1.definitions[j],
    ensures
        sort_document(d1) == sort_document(d2),
        spec_normalize_whitespace(print_document(sort_document(d1))) == spec_normalize_whitespace(
            print_document(sort_document(d2)),
        ),
{
    broadcast use vstd::multiset::group_multiset_axioms;
    broadcast use vstd::seq_lib::group_to_multiset_ensures;

    let a = d1.definitions;
    let b = d2.definitions;
    let k = |d: SpecDefinition| definition_key(d);
    law_sort_by_key_order_independent(a, b, k);
    lemma_sort_document_is_sort_by_key(d1);
    lemma_sort_document_is_sort_by_key(d2);
    let ia = collect_ignored(a);
    let ib = collect_ignored(b);
    assert forall|n: Seq<char>| ia.contains(n) <==> ib.contains(n) by {
        lemma_collect_ignored_contains(a, n);
        lemma_collect_ignored_contains(b, n);
        if exists|i: int| 0 <= i < a.len() && mutation_spreads(#[trigger] a[i], n) {
            let i = choose|i: int| 0 <= i < a.len() && mutation_spreads(#[trigger] a[i], n);
            assert(a.to_multiset().contains(a[i]));
            assert(b.to_multiset().contains(a[i]));
            let j = choose|j: int| #![trigger b[j]] 0 <= j < b.len() && b[j] == a[i];
            assert(mutation_spreads(b[j], n));
        }
        if exists|i: int| 0 <= i < b.len() && mutation_spreads(#[trigger] b[i], n) {
            let i = choose|i: int| 0 <= i < b.len() && mutation_spreads(#[trigger] b[i], n);
            assert(b.to_multiset().contains(b[i]));
            assert(a.to_multiset().contains(b[i]));
            let j = choose|j: int| #![trigger a[j]] 0 <= j < a.len() && a[j] == b[i];
            assert(mutation_spreads(a[j], n));
        }
    }
    let sorted = sort_by_key(a, k);
    assert forall|i: int| 0 <= i < sorted.len() implies sort_definition(#[trigger] sorted[i], ia)
        == sort_definition(sorted[i], ib) by {
        lemma_sort_definition_ignored(sorted[i], ia, ib);
    }
    assert(sort_document(d1).definitions =~= sort_document(d2).definitions);
}

// --- the shape of canonical order ---

/// 0 for a field, 1 for a fragment spread, 2 for an inline fragment.
pub open spec fn selection_rank(s: SpecSelection) -> nat {
    match s {
        SpecSelection::Field { .. } => 0,
        SpecSelection::FragmentSpread { .. } => 1,
        SpecSelection::InlineFragment { .. } => 2,
    }
}

/// The name of a field or a fragment spread; empty for an inline fragment.
pub open spec fn selection_name(s: SpecSelection) -> Seq<char> {
    match s {
        SpecSelection::Field { name, .. } => name,
        SpecSelection::FragmentSpread { name, .. } => name,
        SpecSelection::InlineFragment { .. } => Seq::empty(),
    }
}

proof fn lemma_utf16_encode_prepend(c: char, t: Seq<char>)
    requires
        (c as u32) < 0x80,
    ensures
        utf16_encode(seq![c] + t) == seq![c as u16] + utf16_encode(t),
    decreases t.len(),
{
    if t.len() == 0 {
        assert(seq![c] + t =~= seq![c]);
        assert(seq![c].drop_last() =~= Seq::<char>::empty());
        assert(seq![c].last() == c);
        assert(utf16_units(c) =~= seq![c as u16]);
        assert(utf16_encode(Seq::<char>::empty()) =~= Seq::<u16>::empty());
        assert(utf16_encode(seq![c]) == utf16_encode(seq![c].drop_last()) + utf16_units(c));
        assert(utf16_encode(seq![c]) =~= Seq::<u16>::empty() + utf16_units(c));
        assert(seq![c as u16] + utf16_encode(t) =~= seq![c as u16]);
    } else {
        lemma_utf16_encode_prepend(c, t.drop_last());
        assert((seq![c] + t).drop_last() =~= seq![c] + t.drop_last());
        assert((seq![c] + t).last() == t.last());
        assert(seq![c as u16] + utf16_encode(t) =~= (seq![c as u16] + utf16_encode(t.drop_last()))
            + utf16_units(t.last()));
    }
}

proof fn lemma_selection_key_head(s: SpecSelection)
    ensures
        utf16_encode(selection_key(s)).len() > 0,
        utf16_encode(selection_key(s))[0] == 48 + selection_rank(s),
        selection_rank(s) < 2 ==> utf16_encode(selection_key(s)).drop_first() == utf16_encode(
            selection_name(s),
        ),
{
    let key = selection_key(s);
    let c: char = if selection_rank(s) == 0 {
        '0'
    } else if selection_rank(s) == 1 {
        '1'
    } else {
        '2'
    };
    assert(key =~= seq![c] + key.drop_first());
    if selection_rank(s) < 2 {
        assert(key.drop_first() =~= selection_name(s));
    }
    lemma_utf16_encode_prepend(c, key.drop_first());
    assert(utf16_encode(key).drop_first() =~= utf16_encode(key.drop_first()));
}

/// Sorting keeps each selection's kind and name.
proof fn lemma_sort_selection_keeps_kind(s: SpecSelection)
    ensures
        selection_rank(sort_selection(s)) == selection_rank(s),
        selection_name(sort_selection(s)) == selection_name(s),
        selection_rank(sort_preserved_selection(s)) == selection_rank(s),
        selection_name(sort_preserved_selection(s)) == selection_name(s),
{
}

/// In a sorted selection set, fields come first, then fragment spreads,
/// then inline fragments; fields are in order of their names, and so are
/// spreads (names compared by UTF-16 code units).
pub proof fn law_sorted_selection_set_shape(s: Seq<SpecSelection>)
    ensures
        sort_selection_set(s, false).len() == s.len(),
        forall|i: int, j: int|
            0 <= i < j < s.len() ==> selection_rank(#[trigger] sort_selection_set(s, false)[i])
                <= selection_rank(#[trigger] sort_selection_set(s, false)[j]),
        forall|i: int, j: int|
            0 <= i < j < s.len() && selection_rank(#[trigger] sort_selection_set(s, false)[i])
                == selection_rank(#[trigger] sort_selection_set(s, false)[j]) && selection_rank(
                sort_selection_set(s, false)[i],
            ) < 2 ==> !seq_lt(
                utf16_encode(selection_name(sort_selection_set(s, false)[j])),
                utf16_encode(selection_name(sort_selection_set(s, false)[i])),
            ),
{
    let k = selection_sort_key();
    lemma_sorted_set_is_sort_by_key(s);
    law_sort_by_key_is_sorted_permutation(s, k);
    let x = sort_by_key(s, k);
    vstd::seq_lib::to_multiset_len(x);
    vstd::seq_lib::to_multiset_len(s);
    let r = sort_selection_set(s, false);
    assert forall|i: int, j: int| 0 <= i < j < s.len() implies selection_rank(#[trigger] r[i])
        <= selection_rank(#[trigger] r[j]) && (selection_rank(r[i]) == selection_rank(r[j])
        && selection_rank(r[i]) < 2 ==> !seq_lt(
        utf16_encode(selection_name(r[j])),
        utf16_encode(selection_name(r[i])),
    )) by {
        assert(r[i] == sort_selection(x[i]) && r[j] == sort_selection(x[j]));
        lemma_sort_selection_keeps_kind(x[i]);
        lemma_sort_selection_keeps_kind(x[j]);
        assert(!seq_lt(k(x[j]), k(x[i])));
        lemma_selection_key_head(x[i]);
        lemma_selection_key_head(x[j]);
        let ki = k(x[i]);
        let kj = k(x[j]);
        if selection_rank(x[j]) == selection_rank(x[i]) && selection_rank(x[i]) < 2 {
            assert(ki[0] == kj[0]);
        }
    }
}

/// A mutation's top-level selections keep their source order: each keeps
/// its position, kind and name.
pub proof fn law_mutation_keeps_selection_order(op: SpecOperation)
    requires
        op.operation == OperationType::Mutation,
    ensures
        sort_operation(op).selection_set.len() == op.selection_set.len(),
        forall|i: int|
            0 <= i < op.selection_set.len() ==> selection_rank(
                #[trigger] sort_operation(op).selection_set[i],
            ) == selection_rank(op.selection_set[i]) && selection_name(
                sort_operation(op).selection_set[i],
            ) == selection_name(op.selection_set[i]),
{
    lemma_sort_each_preserved(op.selection_set);
    assert forall|i: int| 0 <= i < op.selection_set.len() implies selection_rank(
        #[trigger] sort_operation(op).selection_set[i],
    ) == selection_rank(op.selection_set[i]) && selection_name(sort_operation(op).selection_set[i])
        == selection_name(op.selection_set[i]) by {
        lemma_sort_selection_keeps_kind(op.selection_set[i]);
    }
}

/// Sorting a document keeps its number of definitions, and puts every
/// fragment definition before every operation.
pub proof fn law_fragments_before_operations(doc: SpecDocument)
    ensures
        sort_document(doc).definitions.len() == doc.definitions.len(),
        forall|i: int, j: int|
            0 <= i < j < doc.definitions.len() && (#[trigger] sort_document(doc).definitions[i]) is Operation
                ==> (#[trigger] sort_document(doc).definitions[j]) is Operation,
{
    let k = |d: SpecDefinition| definition_key(d);
    lemma_sort_document_is_sort_by_key(doc);
    law_sort_by_key_is_sorted_permutation(doc.definitions, k);
    let x = sort_by_key(doc.definitions, k);
    vstd::seq_lib::to_multiset_len(x);
    vstd::seq_lib::to_multiset_len(doc.definitions);
    let ig = collect_ignored(doc.definitions);
    let r = sort_document(doc).definitions;
    assert forall|i: int, j: int|
        0 <= i < j < doc.definitions.len() && (#[trigger] r[i]) is Operation implies (#[trigger] r[j]) is Operation by {
        assert(r[i] == sort_definition(x[i], ig) && r[j] == sort_definition(x[j], ig));
        assert(!seq_lt(k(x[j]), k(x[i])));
        assert(k(x[i])[0] == 1u16);
        if x[j] is Fragment {
            assert(k(x[j])[0] == 0u16);
        }
    }
}

// --- parsing ---

/// A source that holds only whitespace, commas, byte-order marks and
/// comments is not a document: parsing it fails at its end with the message
/// that a document must define at least one definition.
pub proof fn law_parse_rejects_empty_source(s: Seq<char>)
    requires
        skip_ignored(s, 0) == s.len(),
    ensures
        parse_document(s) == Err::<SpecDocument, PErr>(
            PErr { msg: "a document must define at least one definition"@, at: s.len() as int },
        ),
{
}

// --- names in order ---

/// Sorted arguments are the same arguments, in order of their names.
pub proof fn law_sorted_arguments(args: Seq<SpecArgument>)
    ensures
        sort_arguments(args).to_multiset() == args.to_multiset(),
        forall|i: int, j: int|
            0 <= i < j < args.len() ==> !seq_lt(
                utf16_encode((#[trigger] sort_arguments(args)[j]).name),
                utf16_encode((#[trigger] sort_arguments(args)[i]).name),
            ),
{
    let k = |a: SpecArgument| utf16_encode(a.name);
    assert(args.map_values(k) =~= crate::sort_spec::name_keys(
        args.map_values(|a: SpecArgument| a.name),
    ));
    assert(sort_arguments(args) == sort_by_key(args, k));
    law_sort_by_key_is_sorted_permutation(args, k);
    vstd::seq_lib::to_multiset_len(args);
    vstd::seq_lib::to_multiset_len(sort_arguments(args));
}

/// Sorted variable definitions are in order of their variable names.
pub proof fn law_sorted_variable_definitions(defs: Seq<SpecVariableDefinition>)
    ensures
        sort_variable_definitions(defs).len() == defs.len(),
        forall|i: int, j: int|
            0 <= i < j < defs.len() ==> !seq_lt(
                utf16_encode((#[trigger] sort_variable_definitions(defs)[j]).variable),
                utf16_encode((#[trigger] sort_variable_definitions(defs)[i]).variable),
            ),
{
    let names = crate::sort_spec::name_keys(
        defs.map_values(|d: SpecVariableDefinition| d.variable),
    );
    law_stable_order(names, defs.len() as int);
    let o = sorted_indices(names);
    let r = sort_variable_definitions(defs);
    assert forall|i: int, j: int| 0 <= i < j < defs.len() implies !seq_lt(
        utf16_encode((#[trigger] r[j]).variable),
        utf16_encode((#[trigger] r[i]).variable),
    ) by {
        assert(!seq_lt(names[o[j]], names[o[i]]));
    }
}

/// Sorted directives are in order of their names.
pub proof fn law_sorted_directives(ds: Seq<SpecDirective>)
    ensures
        sort_directives(ds).len() == ds.len(),
        forall|i: int, j: int|
            0 <= i < j < ds.len() ==> !seq_lt(
                utf16_encode((#[trigger] sort_directives(ds)[j]).name),
                utf16_encode((#[trigger] sort_directives(ds)[i]).name),
            ),
{
    let names = crate::sort_spec::name_keys(ds.map_values(|d: SpecDirective| d.name));
    law_stable_order(names, ds.len() as int);
    let o = sorted_indices(names);
    let r = sort_directives(ds);
    assert forall|i: int, j: int| 0 <= i < j < ds.len() implies !seq_lt(
        utf16_encode((#[trigger] r[j]).name),
        utf16_encode((#[trigger] r[i]).name),
    ) by {
        assert(!seq_lt(names[o[j]], names[o[i]]));
    }
}

/// `seq_lt` after a common prefix compares what follows it.
proof fn lemma_seq_lt_common_prefix(p: Seq<u16>, a: Seq<u16>, b: Seq<u16>)
    ensures
        seq_lt(p + a, p + b) == seq_lt(a, b),
    decreases p.len(),
{
    if p.len() > 0 {
        assert((p + a).drop_first() =~= p.drop_first() + a);
        assert((p + b).drop_first() =~= p.drop_first() + b);
        lemma_seq_lt_common_prefix(p.drop_first(), a, b);
    }
}

/// The name of a definition, if it has one.
pub open spec fn definition_name(d: SpecDefinition) -> Option<Seq<char>> {
    match d {
        SpecDefinition::Fragment(f) => Some(f.name),
        SpecDefinition::Operation(op) => op.name,
    }
}

/// In a sorted document, fragment definitions come in order of their names
/// (compared by UTF-16 code units), and so do named operations; an
/// anonymous operation comes after every named one.
pub proof fn law_definitions_in_name_order(doc: SpecDocument)
    ensures
        forall|i: int, j: int|
            0 <= i < j < doc.definitions.len() && (#[trigger] sort_document(doc).definitions[i]) is Operation
                == (#[trigger] sort_document(doc).definitions[j]) is Operation ==> {
                let a = definition_name(sort_document(doc).definitions[i]);
                let b = definition_name(sort_document(doc).definitions[j]);
                &&& a is None ==> b is None
                &&& (a is Some && b is Some) ==> !seq_lt(utf16_encode(b->0), utf16_encode(a->0))
            },
{
    let k = |d: SpecDefinition| definition_key(d);
    lemma_sort_document_is_sort_by_key(doc);
    law_sort_by_key_is_sorted_permutation(doc.definitions, k);
    let x = sort_by_key(doc.definitions, k);
    vstd::seq_lib::to_multiset_len(x);
    vstd::seq_lib::to_multiset_len(doc.definitions);
    let ig = collect_ignored(doc.definitions);
    let r = sort_document(doc).definitions;
    assert forall|i: int, j: int|
        0 <= i < j < doc.definitions.len() && (#[trigger] r[i]) is Operation == (
        #[trigger] r[j]) is Operation implies {
        let a = definition_name(r[i]);
        let b = definition_name(r[j]);
        &&& a is None ==> b is None
        &&& (a is Some && b is Some) ==> !seq_lt(utf16_encode(b->0), utf16_encode(a->0))
    } by {
        assert(r[i] == sort_definition(x[i], ig) && r[j] == sort_definition(x[j], ig));
        assert(definition_name(r[i]) == definition_name(x[i]));
        assert(definition_name(r[j]) == definition_name(x[j]));
        assert(!seq_lt(k(x[j]), k(x[i])));
        let rank: u16 = if x[i] is Operation { 1 } else { 0 };
        let a = definition_name(x[i]);
        let b = definition_name(x[j]);
        if a is Some && b is Some {
            let pre = seq![rank, 0u16];
            assert(k(x[i]) == pre + utf16_encode(a->0));
            assert(k(x[j]) == pre + utf16_encode(b->0));
            lemma_seq_lt_common_prefix(pre, utf16_encode(b->0), utf16_encode(a->0));
        }
        if a is None && b is Some {
            assert(k(x[i]) == seq![rank, 1u16]);
            assert(k(x[j]) == seq![rank, 0u16] + utf16_encode(b->0));
            let kj = k(x[j]);
            let ki = k(x[i]);
            assert(kj[0] == ki[0]);
            assert(kj.drop_first() =~= seq![0u16] + utf16_encode(b->0));
            assert(ki.drop_first() =~= seq![1u16]);
            assert(seq_lt(kj.drop_first(), ki.drop_first()));
            assert(seq_lt(kj, ki));
        }
    }
}

// --- what keeps its source order ---

/// The names of a list of directives, in order.
pub open spec fn directive_names(ds: Seq<SpecDirective>) -> Seq<Seq<char>> {
    ds.map_values(|d: SpecDirective| d.name)
}

/// The variable names of a list of variable definitions, in order.
pub open spec fn variable_names(defs: Seq<SpecVariableDefinition>) -> Seq<Seq<char>> {
    defs.map_values(|d: SpecVariableDefinition| d.variable)
}

proof fn lemma_directive_arguments_keep_names(ds: Seq<SpecDirective>)
    ensures
        directive_names(sort_directive_arguments(ds)) == directive_names(ds),
{
    assert(directive_names(sort_directive_arguments(ds)) =~= directive_names(ds));
}

/// A field keeps its alias, its name and its arguments as written, and its
/// directives in source order, whether or not its list is sorted.
pub proof fn law_fields_keep_arguments_and_directive_order(x: SpecSelection)
    requires
        x is Field,
    ensures
        sort_selection(x) is Field,
        sort_selection(x)->Field_alias == x->Field_alias,
        sort_selection(x)->Field_name == x->Field_name,
        sort_selection(x)->Field_arguments == x->Field_arguments,
        directive_names(sort_selection(x)->Field_directives) == directive_names(
            x->Field_directives,
        ),
        sort_preserved_selection(x) == sort_selection(x),
{
    lemma_directive_arguments_keep_names(x->Field_directives);
}

/// An operation keeps its directives in source order, and so does each of
/// its variable definitions.
pub proof fn law_operation_directives_keep_order(op: SpecOperation)
    ensures
        directive_names(sort_operation(op).directives) == directive_names(op.directives),
        forall|i: int|
            0 <= i < op.variable_definitions.len() ==> directive_names(
                #[trigger] sort_variable_definition_of(op.variable_definitions[i]).directives,
            ) == directive_names(op.variable_definitions[i].directives),
{
    lemma_directive_arguments_keep_names(op.directives);
    assert forall|i: int| 0 <= i < op.variable_definitions.len() implies directive_names(
        #[trigger] sort_variable_definition_of(op.variable_definitions[i]).directives,
    ) == directive_names(op.variable_definitions[i].directives) by {
        lemma_directive_arguments_keep_names(op.variable_definitions[i].directives);
    }
}

/// `ys` has the selections of `xs` in the same places: each of the same
/// kind and name, and each inline fragment with the same type condition,
/// its directives in the same order, and its own list kept in place too.
pub open spec fn kept_in_place(xs: Seq<SpecSelection>, ys: Seq<SpecSelection>) -> bool
    decreases xs, 0int,
{
    &&& xs.len() == ys.len()
    &&& forall|i: int| 0 <= i < xs.len() ==> kept_in_place_one(#[trigger] xs[i], ys[i])
}

pub open spec fn kept_in_place_one(x: SpecSelection, y: SpecSelection) -> bool
    decreases x, 1int,
{
    &&& selection_rank(y) == selection_rank(x)
    &&& selection_name(y) == selection_name(x)
    &&& x is InlineFragment ==> {
        &&& y->InlineFragment_type_condition == x->InlineFragment_type_condition
        &&& directive_names(y->InlineFragment_directives) == directive_names(
            x->InlineFragment_directives,
        )
        &&& kept_in_place(x->InlineFragment_selection_set, y->InlineFragment_selection_set)
    }
}

proof fn lemma_preserved_set_kept_in_place(xs: Seq<SpecSelection>)
    ensures
        kept_in_place(xs, sort_selection_set(xs, true)),
    decreases xs, 0int,
{
    lemma_sort_each_preserved(xs);
    assert forall|i: int| 0 <= i < xs.len() implies kept_in_place_one(
        #[trigger] xs[i],
        sort_selection_set(xs, true)[i],
    ) by {
        lemma_preserved_one_kept_in_place(xs[i]);
    }
}

proof fn lemma_preserved_one_kept_in_place(x: SpecSelection)
    ensures
        kept_in_place_one(x, sort_preserved_selection(x)),
    decreases x, 1int,
{
    lemma_sort_selection_keeps_kind(x);
    if let SpecSelection::InlineFragment { directives, selection_set, .. } = x {
        lemma_directive_arguments_keep_names(directives);
        lemma_preserved_set_kept_in_place(selection_set);
    }
}

/// A mutation's top-level selections keep their places, and so do the
/// selections of the inline fragments nested directly inside, at any depth
/// of such nesting; those inline fragments keep their directives in source
/// order.
pub proof fn law_mutation_order_carries_into_inline_fragments(op: SpecOperation)
    requires
        op.operation == OperationType::Mutation,
    ensures
        kept_in_place(op.selection_set, sort_operation(op).selection_set),
{
    lemma_preserved_set_kept_in_place(op.selection_set);
}

/// A fragment that a mutation spreads at its preserved top level keeps its
/// variable definitions and its directives in source order; any other
/// fragment has them in name order. Either way its body is sorted.
pub proof fn law_spread_fragments_keep_their_lists(f: SpecFragment, ignored: Seq<Seq<char>>)
    ensures
        sort_fragment_definition(f, ignored).selection_set == sort_selection_set(
            f.selection_set,
            false,
        ),
        ignored.contains(f.name) ==> {
            &&& variable_names(sort_fragment_definition(f, ignored).variable_definitions)
                == variable_names(f.variable_definitions)
            &&& directive_names(sort_fragment_definition(f, ignored).directives)
                == directive_names(f.directives)
        },
        !ignored.contains(f.name) ==> {
            &&& sort_fragment_definition(f, ignored).variable_definitions
                == sort_variable_definitions(f.variable_definitions)
            &&& sort_fragment_definition(f, ignored).directives == sort_directives(f.directives)
        },
{
    lemma_directive_arguments_keep_names(f.directives);
    assert(variable_names(sort_ignored_variable_definitions(f.variable_definitions))
        =~= variable_names(f.variable_definitions));
}

/// A sorted selection set is the sorted form of each source selection,
/// taken in non-decreasing order of the source selections' keys (see
/// `law_stable_order` for the order among equal keys): fields by name, then
/// spreads by name, then inline fragments by type condition and then by
/// their inner selections sorted one level deep.
pub proof fn law_sorted_set_follows_source_keys(s: Seq<SpecSelection>)
    ensures
        sort_by_key(s, selection_sort_key()).to_multiset() == s.to_multiset(),
        keys_nondecreasing(sort_by_key(s, selection_sort_key()), selection_sort_key()),
        sort_selection_set(s, false) == sort_by_key(s, selection_sort_key()).map_values(
            |e: SpecSelection| sort_selection(e),
        ),
{
    law_sort_by_key_is_sorted_permutation(s, selection_sort_key());
    lemma_sorted_set_is_sort_by_key(s);
}

} // verus!
