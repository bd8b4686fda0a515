//! What a value reads as, and what a printed value or operation reads back
//! as.
use vstd::prelude::*;
use crate::ast::OperationType;
use crate::model::{
    SpecArgument, SpecDirective, SpecOperation, SpecType, SpecValue, SpecVariableDefinition,
};
use crate::parse_spec::{
    at_char, digits_len, exp_part_end, frac_part_end, int_part_end, is_digit, is_name_continue,
    is_name_start, name_len, parse_name, parse_number, parse_value, parse_list_items,
    parse_object_fields, parse_type, parse_argument_items, parse_arguments, parse_directives,
    parse_default_value, parse_variable_definition, skip_ignored, PErr,
};
use crate::print_spec::{
    join_filtered, nonempty_parts, operation_keyword, print_block_string, print_directive,
    print_directives, print_operation, print_operation_variable_definitions, print_selection_set,
    print_string, print_type, print_value, print_values, print_arguments, print_variable_definition,
    wrap, print_object_fields, utf16_len, max_line_length,
};
use crate::string_laws::{
    law_block_string_reads_back, law_quoted_string_reads_back, lemma_quoted_string_then,
};
use crate::text::{dedent_block_string, join};
use crate::token_laws::{lemma_name_len_exact, lemma_skip_twice, name_shaped};

verus! {

/// The characters of `s` from `q` up to `e` are those of `lit`.
pub open spec fn reads_literal(s: Seq<char>, q: int, e: int, lit: Seq<char>) -> bool {
    &&& e - q == lit.len()
    &&& forall|i: int| 0 <= i < lit.len() ==> s[q + i] == #[trigger] lit[i]
}

/// A value that reads a boolean read the literal that names it, and the
/// literals `true` and `false` read as the booleans they name.
pub proof fn law_boolean_literals(s: Seq<char>, p: int, is_const: bool)
    requires
        0 <= p,
    ensures
        match parse_value(s, p, is_const) {
            Ok((v, e)) => {
                let q = skip_ignored(s, p);
                &&& (v == SpecValue::Boolean(true) <==> reads_literal(s, q, e, "true"@))
                &&& (v == SpecValue::Boolean(false) <==> reads_literal(s, q, e, "false"@))
            },
            Err(_) => true,
        },
{
    reveal_strlit("true");
    reveal_strlit("false");
    let q = skip_ignored(s, p);
    lemma_skip_twice(s, p);
    if 0 <= q < s.len() {
        if is_name_start(s[q]) {
            lemma_name_literal(s, q);
        } else {
            assert(!reads_literal(s, q, q + 4, "true"@) && !reads_literal(s, q, q + 5, "false"@)) by {
                assert("true"@[0] == 't' && "false"@[0] == 'f');
            }
        }
    }
}

/// A name read at a token start is one of the boolean literals exactly
/// when its characters are.
proof fn lemma_name_literal(s: Seq<char>, q: int)
    requires
        0 <= q < s.len(),
        is_name_start(s[q]),
        skip_ignored(s, q) == q,
    ensures
        parse_name(s, q) is Ok,
        ({
            let (n, e) = parse_name(s, q)->Ok_0;
            &&& (n == "true"@ <==> reads_literal(s, q, e, "true"@))
            &&& (n == "false"@ <==> reads_literal(s, q, e, "false"@))
        }),
{
    crate::token_laws::lemma_name_len_bound(s, q + 1);
    let (n, e) = parse_name(s, q)->Ok_0;
    assert(e <= s.len());
    assert(n == s.subrange(q, e));
    if reads_literal(s, q, e, "true"@) {
        assert(n =~= "true"@);
    }
    if reads_literal(s, q, e, "false"@) {
        assert(n =~= "false"@);
    }
}

/// A value with no list or object in it that the parser could have read:
/// names that are names (and not `true`, `false` or `null` for an enum
/// value), number texts that read as themselves, no variable where a
/// constant is wanted, and block strings that the block-string reader can
/// give.
pub open spec fn readable_scalar(v: SpecValue, is_const: bool) -> bool {
    match v {
        SpecValue::Variable(n) => !is_const && name_shaped(n),
        SpecValue::Int(t) => parse_number(t, 0) == Ok::<_, PErr>((v, t.len() as int)),
        SpecValue::Float(t) => parse_number(t, 0) == Ok::<_, PErr>((v, t.len() as int)),
        SpecValue::Str { value, block } => !block || exists|raw: Seq<char>|
            value == dedent_block_string(raw),
        SpecValue::Boolean(_) => true,
        SpecValue::Null => true,
        SpecValue::Enum(n) => name_shaped(n) && n != "true"@ && n != "false"@ && n != "null"@,
        SpecValue::List(_) => false,
        SpecValue::Object(_) => false,
    }
}

/// A name written at `k`, running to the end of `s`, reads as itself.
proof fn lemma_name_reads(s: Seq<char>, k: int, n: Seq<char>)
    requires
        0 <= k,
        name_shaped(n),
        s.len() == k + n.len(),
        s.subrange(k, s.len() as int) == n,
    ensures
        parse_name(s, k) == Ok::<_, PErr>((n, s.len() as int)),
{
    assert(s[k] == n[0]);
    assert forall|j: int| k + 1 <= j < k + 1 + (n.len() - 1) implies crate::parse_spec::is_name_continue(#[trigger] s[j]) by {
        assert(s[j] == n[j - k]);
    }
    lemma_name_len_exact(s, k + 1, n.len() - 1);
    assert(name_len(s, k + 1) == n.len() - 1);
    assert(skip_ignored(s, k) == k);
}

/// Printing a value with no list or object in it and reading the text back
/// gives the value.
pub proof fn law_scalar_values_read_back(v: SpecValue, is_const: bool)
    requires
        readable_scalar(v, is_const),
    ensures
        parse_value(print_value(v), 0, is_const) == Ok::<_, PErr>(
            (v, print_value(v).len() as int),
        ),
{
    reveal_strlit("true");
    reveal_strlit("false");
    reveal_strlit("null");
    reveal_strlit("$");
    let s = print_value(v);
    match v {
        SpecValue::Variable(n) => {
            assert(s =~= seq!['$'] + n);
            assert(s[0] == '$');
            assert(skip_ignored(s, 0) == 0);
            assert(s.subrange(1, s.len() as int) =~= n);
            lemma_name_reads(s, 1, n);
        },
        SpecValue::Int(t) => {
            assert(s == t);
            assert(t.len() > 0 && (t[0] == '-' || is_digit(t[0])));
            assert(skip_ignored(s, 0) == 0);
        },
        SpecValue::Float(t) => {
            assert(s == t);
            assert(t.len() > 0 && (t[0] == '-' || is_digit(t[0])));
            assert(skip_ignored(s, 0) == 0);
        },
        SpecValue::Str { value, block } => {
            if block {
                let raw = choose|raw: Seq<char>| value == dedent_block_string(raw);
                law_block_string_reads_back(raw);
                assert(s == print_block_string(value));
            } else {
                law_quoted_string_reads_back(value);
                assert(s == print_string(value));
            }
            assert(s[0] == '"');
            assert(skip_ignored(s, 0) == 0);
        },
        SpecValue::Boolean(b) => {
            let n = if b { "true"@ } else { "false"@ };
            assert(name_shaped(n));
            assert(s.subrange(0, s.len() as int) =~= n);
            lemma_name_reads(s, 0, n);
            assert(skip_ignored(s, 0) == 0);
        },
        SpecValue::Null => {
            let n = "null"@;
            assert(name_shaped(n));
            assert(s.subrange(0, s.len() as int) =~= n);
            lemma_name_reads(s, 0, n);
            assert(skip_ignored(s, 0) == 0);
        },
        SpecValue::Enum(n) => {
            assert(s.subrange(0, s.len() as int) =~= n);
            lemma_name_reads(s, 0, n);
            assert(skip_ignored(s, 0) == 0);
        },
        SpecValue::List(_) => {},
        SpecValue::Object(_) => {},
    }
}

// --- operations ---

/// `t` occurs in `s`.
pub open spec fn occurs(t: Seq<char>, s: Seq<char>) -> bool {
    exists|i: int| 0 <= i && i + t.len() <= s.len() && #[trigger] s.subrange(i, i + t.len()) == t
}

/// `sep` then `x`, or nothing when `x` is empty.
pub open spec fn spaced(sep: Seq<char>, x: Seq<char>) -> Seq<char> {
    if x.len() > 0 {
        sep + x
    } else {
        Seq::empty()
    }
}

proof fn lemma_occurs_at(t: Seq<char>, s: Seq<char>, i: int)
    requires
        0 <= i,
        i + t.len() <= s.len(),
        s.subrange(i, i + t.len()) == t,
    ensures
        occurs(t, s),
{
}

proof fn lemma_nonempty_parts_push(ps: Seq<Seq<char>>, x: Seq<char>)
    ensures
        nonempty_parts(ps.push(x)) == if x.len() > 0 {
            nonempty_parts(ps).push(x)
        } else {
            nonempty_parts(ps)
        },
{
    assert(ps.push(x).drop_last() =~= ps);
    assert(ps.push(x).last() == x);
}

/// Joining after appending a part that may be empty.
proof fn lemma_join_filtered_push(ps: Seq<Seq<char>>, x: Seq<char>, sep: Seq<char>)
    requires
        nonempty_parts(ps).len() > 0,
    ensures
        join_filtered(ps.push(x), sep) == join_filtered(ps, sep) + spaced(sep, x),
{
    lemma_nonempty_parts_push(ps, x);
    if x.len() > 0 {
        crate::laws::lemma_join_push(nonempty_parts(ps), x, sep);
        assert(join_filtered(ps, sep) + sep + x =~= join_filtered(ps, sep) + spaced(sep, x));
    } else {
        assert(join_filtered(ps, sep) + spaced(sep, x) =~= join_filtered(ps, sep));
    }
}

proof fn lemma_join_filtered3(a: Seq<char>, b: Seq<char>, c: Seq<char>, sep: Seq<char>)
    requires
        a.len() > 0,
    ensures
        join_filtered(seq![a, b, c], sep) == a + spaced(sep, b) + spaced(sep, c),
{
    let e = Seq::<Seq<char>>::empty();
    assert(nonempty_parts(e) == e);
    lemma_nonempty_parts_push(e, a);
    assert(nonempty_parts(e.push(a)) == e.push(a));
    assert(join(e.push(a), sep) == e.push(a)[0]);
    assert(join_filtered(e.push(a), sep) == a);
    lemma_join_filtered_push(e.push(a), b, sep);
    lemma_nonempty_parts_push(e.push(a), b);
    lemma_join_filtered_push(e.push(a).push(b), c, sep);
    assert(e.push(a).push(b).push(c) =~= seq![a, b, c]);
}

proof fn lemma_join_filtered2(a: Seq<char>, b: Seq<char>)
    ensures
        join_filtered(seq![a, b], Seq::<char>::empty()) == a + b,
{
    let e = Seq::<Seq<char>>::empty();
    let z = Seq::<char>::empty();
    assert(nonempty_parts(e) == e);
    lemma_nonempty_parts_push(e, a);
    lemma_nonempty_parts_push(e.push(a), b);
    assert(e.push(a).push(b) =~= seq![a, b]);
    if a.len() > 0 {
        assert(join(e.push(a), z) == e.push(a)[0]);
        lemma_join_filtered_push(e.push(a), b, z);
        assert(a + spaced(z, b) =~= a + b);
    } else {
        if b.len() > 0 {
            assert(nonempty_parts(seq![a, b]) == e.push(b));
            assert(join(e.push(b), z) == e.push(b)[0]);
            assert(a + b =~= b);
        } else {
            assert(nonempty_parts(seq![a, b]) == e);
            assert(a + b =~= z);
        }
    }
}

proof fn lemma_directives_nonempty(ds: Seq<SpecDirective>)
    ensures
        print_directives(ds).len() == 0 <==> ds.len() == 0,
    decreases ds.len(),
{
    let parts = ds.map_values(|d: SpecDirective| print_directive(d));
    reveal_strlit("@");
    assert forall|i: int| 0 <= i < parts.len() implies #[trigger] parts[i].len() > 0 by {
        assert(parts[i] == print_directive(ds[i]));
        assert(print_directive(ds[i]).len() >= 1);
    }
    lemma_nonempty_parts_all(parts);
    crate::laws::lemma_join_empty(parts, " "@);
}

proof fn lemma_nonempty_parts_all(parts: Seq<Seq<char>>)
    requires
        forall|i: int| 0 <= i < parts.len() ==> #[trigger] parts[i].len() > 0,
    ensures
        nonempty_parts(parts) == parts,
    decreases parts.len(),
{
    if parts.len() > 0 {
        let u = parts.drop_last();
        assert forall|i: int| 0 <= i < u.len() implies #[trigger] u[i].len() > 0 by {
            assert(u[i] == parts[i]);
        }
        lemma_nonempty_parts_all(u);
        assert(u.push(parts.last()) =~= parts);
    }
}

/// The words before an operation's selection set, as printed.
pub open spec fn operation_head(op: SpecOperation) -> Seq<char> {
    let nm = match op.name {
        Some(n) => n,
        None => Seq::<char>::empty(),
    };
    let nv = nm + print_operation_variable_definitions(op.variable_definitions);
    operation_keyword(op.operation) + spaced(" "@, nv) + spaced(" "@, print_directives(op.directives))
}

proof fn lemma_operation_text(op: SpecOperation)
    ensures
        print_operation(op) == if operation_head(op) == "query"@ {
            print_selection_set(op.selection_set)
        } else {
            operation_head(op) + " "@ + print_selection_set(op.selection_set)
        },
{
    reveal_strlit("query");
    reveal_strlit("mutation");
    reveal_strlit("subscription");
    let kw = operation_keyword(op.operation);
    let nm = match op.name {
        Some(n) => n,
        None => Seq::<char>::empty(),
    };
    let vs = print_operation_variable_definitions(op.variable_definitions);
    lemma_join_filtered2(nm, vs);
    assert(kw.len() >= 5);
    lemma_join_filtered3(kw, nm + vs, print_directives(op.directives), " "@);
}

proof fn lemma_var_defs_nonempty(defs: Seq<SpecVariableDefinition>)
    ensures
        print_operation_variable_definitions(defs).len() == 0 <==> defs.len() == 0,
{
    reveal_strlit("(");
    reveal_strlit("(\n");
}

/// Printing an operation keeps its head: the bare selection set is printed
/// exactly for an anonymous query with no variable definitions and no
/// directives, and otherwise the printed text holds the operation's name,
/// its variable definitions and its directives as they print.
#[verifier::spinoff_prover]
pub proof fn law_printed_operation_keeps_its_head(op: SpecOperation)
    ensures
        (print_operation(op) == print_selection_set(op.selection_set)) <==> {
            &&& op.operation == OperationType::Query
            &&& (op.name is None || op.name->0.len() == 0)
            &&& op.variable_definitions.len() == 0
            &&& op.directives.len() == 0
        },
        occurs(print_operation_variable_definitions(op.variable_definitions), print_operation(op)),
        occurs(print_directives(op.directives), print_operation(op)),
        op.name is Some ==> occurs(op.name->0, print_operation(op)),
        op.name is Some ==> occurs(
            op.name->0 + print_operation_variable_definitions(op.variable_definitions),
            print_operation(op),
        ),
        print_operation(op) != print_selection_set(op.selection_set) ==> {
            let kw = operation_keyword(op.operation);
            &&& print_operation(op).len() > kw.len()
            &&& print_operation(op).subrange(0, kw.len() as int) == kw
            &&& print_operation(op)[kw.len() as int] == ' '
        },
        ({
            let out = print_operation(op);
            let set = print_selection_set(op.selection_set);
            &&& out.len() >= set.len()
            &&& out.subrange(out.len() - set.len(), out.len() as int) == set
        }),
{
    reveal_strlit("query");
    reveal_strlit("mutation");
    reveal_strlit("subscription");
    reveal_strlit(" ");
    let kw = operation_keyword(op.operation);
    let nm = match op.name {
        Some(n) => n,
        None => Seq::<char>::empty(),
    };
    let vs = print_operation_variable_definitions(op.variable_definitions);
    let ds = print_directives(op.directives);
    let set = print_selection_set(op.selection_set);
    let sp = " "@;
    let e = Seq::<char>::empty();
    let nv = nm + vs;
    let prefix = operation_head(op);
    let out = print_operation(op);
    lemma_operation_text(op);
    lemma_directives_nonempty(op.directives);
    lemma_var_defs_nonempty(op.variable_definitions);
    assert(kw.len() >= 5);
    assert(prefix.len() == kw.len() + spaced(sp, nv).len() + spaced(sp, ds).len());
    if prefix == "query"@ {
        assert(out.subrange(0, 0) =~= e);
        lemma_occurs_at(e, out, 0);
        assert(prefix.len() == 5);
        assert(spaced(sp, nv).len() == 0 && spaced(sp, ds).len() == 0);
        assert(nv.len() == 0 && ds.len() == 0);
        assert(kw == "query"@);
        assert(op.operation == OperationType::Query);
        assert(vs =~= e && nm =~= e);
        assert(nm + vs =~= e);
        assert(out.subrange(out.len() - set.len(), out.len() as int) =~= set);
    } else {
        assert(out == prefix + sp + set);
        lemma_head_text(kw, nm, vs, ds, set);
    }
}

/// Where the parts of a printed operation head stand in the printed text.
#[verifier::spinoff_prover]
proof fn lemma_head_text(kw: Seq<char>, nm: Seq<char>, vs: Seq<char>, ds: Seq<char>, set: Seq<char>)
    ensures
        ({
            let sp = " "@;
            let out = kw + spaced(sp, nm + vs) + spaced(sp, ds) + sp + set;
            &&& out.len() > set.len()
            &&& out.subrange(0, kw.len() as int) == kw
            &&& out[kw.len() as int] == ' '
            &&& out.subrange(out.len() - set.len(), out.len() as int) == set
            &&& occurs(nm, out)
            &&& occurs(vs, out)
            &&& occurs(nm + vs, out)
            &&& occurs(ds, out)
        }),
{
    reveal_strlit(" ");
    let sp = " "@;
    let e = Seq::<char>::empty();
    let nv = nm + vs;
    let out = kw + spaced(sp, nv) + spaced(sp, ds) + sp + set;
    let k = kw.len() as int;
    assert(out.subrange(0, k) =~= kw);
    assert(out.subrange(out.len() - set.len(), out.len() as int) =~= set);
    assert(out.subrange(0, 0) =~= e);
    lemma_occurs_at(e, out, 0);
    if nv.len() > 0 {
        assert(out[k] == ' ');
        assert(out.subrange(k + 1, k + 1 + nm.len()) =~= nm);
        lemma_occurs_at(nm, out, k + 1);
        assert(out.subrange(k + 1 + nm.len(), k + 1 + nm.len() + vs.len()) =~= vs);
        lemma_occurs_at(vs, out, k + 1 + nm.len());
        assert(out.subrange(k + 1, k + 1 + nm.len() + vs.len()) =~= nv);
        lemma_occurs_at(nv, out, k + 1);
    } else {
        assert(vs =~= e && nm =~= e && nv =~= e);
    }
    if ds.len() > 0 {
        assert(out[k] == ' ');
        let j = k + spaced(sp, nv).len() + 1;
        assert(out.subrange(j, j + ds.len()) =~= ds);
        lemma_occurs_at(ds, out, j);
    } else {
        assert(ds =~= e);
        if nv.len() == 0 {
            assert(out[k] == ' ');
        }
    }
}

// --- values that print on one line ---

/// A character that may follow a value on one line.
pub open spec fn ends_token(r: Seq<char>) -> bool {
    r.len() == 0 || r[0] == ',' || r[0] == ' ' || r[0] == ']' || r[0] == '}' || r[0] == ')'
}

#[verifier::spinoff_prover]
proof fn lemma_join_front(x: Seq<char>, rest: Seq<Seq<char>>, sep: Seq<char>)
    ensures
        join(seq![x] + rest, sep) == if rest.len() == 0 {
            x
        } else {
            x + sep + join(rest, sep)
        },
    decreases rest.len(),
{
    let all = seq![x] + rest;
    if rest.len() == 0 {
        assert(all =~= seq![x]);
    } else if rest.len() == 1 {
        assert(all.drop_last() =~= seq![x]);
        assert(all.last() == rest[0]);
        assert(join(seq![x], sep) == x);
        assert(join(rest, sep) == rest[0]);
        assert(join(all, sep) == join(all.drop_last(), sep) + sep + all.last());
    } else {
        assert(all.drop_last() =~= seq![x] + rest.drop_last());
        assert(all.last() == rest.last());
        lemma_join_front(x, rest.drop_last(), sep);
        assert(join(all, sep) == join(all.drop_last(), sep) + sep + all.last());
        assert(join(rest, sep) == join(rest.drop_last(), sep) + sep + rest.last());
        assert(x + sep + join(rest.drop_last(), sep) + sep + rest.last() =~= x + sep + (join(
            rest.drop_last(),
            sep,
        ) + sep + rest.last()));
    }
}

/// A name followed by a character that does not continue it reads as
/// itself.
#[verifier::spinoff_prover]
proof fn lemma_name_in_context(a: Seq<char>, n: Seq<char>, r: Seq<char>)
    requires
        name_shaped(n),
        r.len() == 0 || !is_name_continue(r[0]),
    ensures
        parse_name(a + n + r, a.len() as int) == Ok::<_, PErr>(
            (n, (a.len() + n.len()) as int),
        ),
{
    let q = a + n + r;
    let k = a.len() as int;
    assert(q[k] == n[0]);
    assert forall|j: int| k + 1 <= j < k + 1 + (n.len() - 1) implies is_name_continue(
        #[trigger] q[j],
    ) by {
        assert(q[j] == n[j - k]);
    }
    if r.len() > 0 {
        assert(q[k + n.len()] == r[0]);
    }
    lemma_name_len_exact(q, k + 1, n.len() - 1);
    assert(skip_ignored(q, k) == k);
    assert(q.subrange(k, k + n.len()) =~= n);
}

proof fn lemma_digits_extend(t: Seq<char>, r: Seq<char>, p: int)
    requires
        0 <= p <= t.len(),
        r.len() == 0 || !is_digit(r[0]),
    ensures
        p + digits_len(t, p) == t.len() || p + digits_len(t, p) < t.len(),
        digits_len(t + r, p) == digits_len(t, p),
    decreases t.len() - p,
{
    let s = t + r;
    if p < t.len() {
        assert(s[p] == t[p]);
        lemma_digits_extend(t, r, p + 1);
    } else if r.len() > 0 {
        assert(s[p] == r[0]);
    }
}

proof fn lemma_at_extend(t: Seq<char>, r: Seq<char>, p: int, c: char)
    requires
        0 <= p < t.len(),
    ensures
        at_char(t + r, p, c) == at_char(t, p, c),
{
    assert((t + r)[p] == t[p]);
}

/// A number text followed by a character that does not continue a number
/// reads as it does alone.
#[verifier::spinoff_prover]
proof fn lemma_number_extend(t: Seq<char>, r: Seq<char>)
    requires
        parse_number(t, 0) is Ok,
        parse_number(t, 0)->Ok_0.1 == t.len(),
        ends_token(r),
    ensures
        parse_number(t + r, 0) == parse_number(t, 0),
{
    let s = t + r;
    let n = t.len() as int;
    let a0 = if at_char(t, 0, '-') { 1int } else { 0int };
    lemma_at_extend(t, r, 0, '-');
    let a = int_part_end(t, 0)->Ok_0;
    if a0 < n {
        lemma_at_extend(t, r, a0, '0');
    }
    lemma_digits_extend(t, r, a0);
    assert(int_part_end(s, 0) == int_part_end(t, 0));
    let b = frac_part_end(t, a)->Ok_0.0;
    if a < n {
        lemma_at_extend(t, r, a, '.');
        if a + 1 < n {
            lemma_at_extend(t, r, a + 1, '0');
        }
        if at_char(t, a, '.') {
            lemma_digits_extend(t, r, a + 1);
        }
    } else if r.len() > 0 {
        assert(s[a] == r[0]);
    }
    assert(frac_part_end(s, a) == frac_part_end(t, a));
    let c = exp_part_end(t, b)->Ok_0.0;
    if b < n {
        lemma_at_extend(t, r, b, 'e');
        lemma_at_extend(t, r, b, 'E');
        if at_char(t, b, 'e') || at_char(t, b, 'E') {
            if b + 1 < n {
                lemma_at_extend(t, r, b + 1, '+');
                lemma_at_extend(t, r, b + 1, '-');
            }
            let d = if at_char(t, b + 1, '+') || at_char(t, b + 1, '-') { b + 2 } else { b + 1 };
            if d < n {
                lemma_at_extend(t, r, d, '0');
            }
            lemma_digits_extend(t, r, d);
        }
    } else if r.len() > 0 {
        assert(s[b] == r[0]);
    }
    assert(exp_part_end(s, b) == exp_part_end(t, b));
    assert(s.subrange(0, c) =~= t.subrange(0, c));
}

/// A list value as the printer writes it on one line.
pub open spec fn list_line(items: Seq<SpecValue>) -> Seq<char> {
    "["@ + join(print_values(items), ", "@) + "]"@
}

/// An object value as the printer writes it on one line.
pub open spec fn object_line(fs: Seq<(Seq<char>, SpecValue)>) -> Seq<char> {
    "{ "@ + join(print_object_fields(fs), ", "@) + " }"@
}

/// A value that the parser could have read and that the printer writes on
/// one line: its scalars as for `readable_scalar` but for block strings,
/// its object field names names, and each list and object in it short
/// enough for its one-line form.
pub open spec fn one_line_readable(v: SpecValue, is_const: bool) -> bool
    decreases v, 1int,
{
    match v {
        SpecValue::List(items) => utf16_len(list_line(items)) <= max_line_length()
            && one_line_readable_list(items, is_const),
        SpecValue::Object(fs) => utf16_len(object_line(fs)) <= max_line_length()
            && one_line_readable_fields(fs, is_const),
        SpecValue::Str { block, .. } => !block,
        _ => readable_scalar(v, is_const),
    }
}

pub open spec fn one_line_readable_list(items: Seq<SpecValue>, is_const: bool) -> bool
    decreases items, 0int,
{
    items.len() == 0 || (one_line_readable(items[0], is_const) && one_line_readable_list(items.drop_first(), is_const))
}

pub open spec fn one_line_readable_fields(fs: Seq<(Seq<char>, SpecValue)>, is_const: bool) -> bool
    decreases fs, 0int,
{
    fs.len() == 0 || (name_shaped(fs[0].0) && one_line_readable(fs[0].1, is_const) && one_line_readable_fields(
        fs.drop_first(),
        is_const,
    ))
}

/// A character that can start a printed value.
pub open spec fn starts_value(c: char) -> bool {
    c == '$' || c == '[' || c == '{' || c == '"' || c == '-' || is_digit(c) || is_name_start(c)
}

#[verifier::spinoff_prover]
proof fn lemma_first_char(v: SpecValue, is_const: bool)
    requires
        one_line_readable(v, is_const),
    ensures
        print_value(v).len() > 0,
        starts_value(print_value(v)[0]),
        v is List ==> print_value(v) == list_line(v->List_0),
        v is Object ==> print_value(v) == object_line(v->Object_0),
{
    reveal_strlit("true");
    reveal_strlit("false");
    reveal_strlit("null");
    reveal_strlit("$");
    reveal_strlit("[");
    reveal_strlit("{ ");
    match v {
        SpecValue::Int(t) => {
            assert(int_part_end(t, 0) is Ok);
            assert(t.len() > 0 && (t[0] == '-' || is_digit(t[0])));
        },
        SpecValue::Float(t) => {
            assert(int_part_end(t, 0) is Ok);
            assert(t.len() > 0 && (t[0] == '-' || is_digit(t[0])));
        },
        SpecValue::Str { value, .. } => {
            lemma_quoted_string_then(value, Seq::<char>::empty());
        },
        _ => {},
    }
}

/// Reading list items from a position or from a later one that skips to
/// the same place gives the same result.
proof fn lemma_list_items_from(s: Seq<char>, p1: int, p2: int, is_const: bool)
    requires
        0 <= p1 <= p2,
        skip_ignored(s, p1) == skip_ignored(s, p2),
        parse_list_items(s, p2, is_const) is Ok,
    ensures
        parse_list_items(s, p1, is_const) == parse_list_items(s, p2, is_const),
{
}

proof fn lemma_fields_from(s: Seq<char>, p1: int, p2: int, is_const: bool)
    requires
        0 <= p1 <= p2,
        skip_ignored(s, p1) == skip_ignored(s, p2),
        parse_object_fields(s, p2, is_const) is Ok,
    ensures
        parse_object_fields(s, p1, is_const) == parse_object_fields(s, p2, is_const),
{
}

proof fn lemma_value_from(s: Seq<char>, p1: int, p2: int, is_const: bool)
    requires
        skip_ignored(s, p1) == skip_ignored(s, p2),
    ensures
        parse_value(s, p1, is_const) == parse_value(s, p2, is_const),
{
}

/// Ignored text: a comma or a space, then a character that starts a token.
proof fn lemma_skip_separator(s: Seq<char>, p: int, k: int)
    requires
        0 <= p,
        0 <= k <= 2,
        p + k < s.len(),
        forall|i: int| p <= i < p + k ==> (#[trigger] s[i] == ',' || s[i] == ' '),
        !crate::parse_spec::is_ignorable(s[p + k]),
        s[p + k] != '#',
    ensures
        skip_ignored(s, p) == p + k,
{
    assert(crate::parse_spec::ignored_len(s, p + k) == 0);
    if k >= 1 {
        assert(s[p + k - 1] == ',' || s[p + k - 1] == ' ');
        assert(crate::parse_spec::ignored_len(s, p + k - 1) == 1);
    }
    if k == 2 {
        assert(s[p] == ',' || s[p] == ' ');
        assert(crate::parse_spec::ignored_len(s, p) == 2);
    }
}

proof fn lemma_skip_one(s: Seq<char>, p: int)
    requires
        0 <= p < s.len(),
        crate::parse_spec::is_ignorable(s[p]),
    ensures
        skip_ignored(s, p) == skip_ignored(s, p + 1),
{
}

proof fn lemma_items_step(s: Seq<char>, p: int, is_const: bool, v: SpecValue, e: int)
    requires
        skip_ignored(s, p) == p,
        0 <= p < s.len(),
        s[p] != ']',
        parse_value(s, p, is_const) == Ok::<_, PErr>((v, e)),
        p < e <= s.len(),
    ensures
        parse_list_items(s, p, is_const) == crate::parse_spec::cons(
            v,
            parse_list_items(s, e, is_const),
        ),
{
}

proof fn lemma_items_end(s: Seq<char>, p: int, q: int, is_const: bool)
    requires
        skip_ignored(s, p) == q,
        at_char(s, q, ']'),
    ensures
        parse_list_items(s, p, is_const) == Ok::<_, PErr>((Seq::<SpecValue>::empty(), q + 1)),
{
}

proof fn lemma_fields_step(
    s: Seq<char>,
    p: int,
    is_const: bool,
    n: Seq<char>,
    a: int,
    b: int,
    v: SpecValue,
    e: int,
)
    requires
        skip_ignored(s, p) == p,
        0 <= p < s.len(),
        s[p] != '}',
        parse_name(s, p) == Ok::<_, PErr>((n, a)),
        crate::parse_spec::expect(s, a, ':') == Ok::<_, PErr>(b),
        parse_value(s, b, is_const) == Ok::<_, PErr>((v, e)),
        p < e <= s.len(),
    ensures
        parse_object_fields(s, p, is_const) == crate::parse_spec::cons(
            (n, v),
            parse_object_fields(s, e, is_const),
        ),
{
}

proof fn lemma_fields_end(s: Seq<char>, p: int, q: int, is_const: bool)
    requires
        skip_ignored(s, p) == q,
        at_char(s, q, '}'),
    ensures
        parse_object_fields(s, p, is_const) == Ok::<_, PErr>(
            (Seq::<(Seq<char>, SpecValue)>::empty(), q + 1),
        ),
{
}

/// A printed value followed by a character that ends a token reads as the
/// value, up to the end of its printed text.
#[verifier::spinoff_prover]
proof fn lemma_value_then(v: SpecValue, r: Seq<char>, is_const: bool)
    requires
        one_line_readable(v, is_const),
        ends_token(r),
    ensures
        parse_value(print_value(v) + r, 0, is_const) == Ok::<_, PErr>(
            (v, print_value(v).len() as int),
        ),
    decreases v, 2int,
{
    reveal_strlit("true");
    reveal_strlit("false");
    reveal_strlit("null");
    reveal_strlit("$");
    let t = print_value(v);
    let s = t + r;
    let e = Seq::<char>::empty();
    lemma_first_char(v, is_const);
    assert(s[0] == t[0]);
    lemma_skip_separator(s, 0, 0);
    match v {
        SpecValue::Variable(n) => {
            assert(t == "$"@ + n);
            lemma_name_in_context("$"@, n, r);
        },
        SpecValue::Int(x) => {
            lemma_number_extend(x, r);
        },
        SpecValue::Float(x) => {
            lemma_number_extend(x, r);
        },
        SpecValue::Str { value, .. } => {
            lemma_quoted_string_then(value, r);
        },
        SpecValue::Boolean(b) => {
            let n = if b { "true"@ } else { "false"@ };
            assert(name_shaped(n));
            assert(s =~= e + n + r);
            lemma_name_in_context(e, n, r);
        },
        SpecValue::Null => {
            let n = "null"@;
            assert(name_shaped(n));
            assert(s =~= e + n + r);
            lemma_name_in_context(e, n, r);
        },
        SpecValue::Enum(n) => {
            assert(s =~= e + n + r);
            lemma_name_in_context(e, n, r);
        },
        SpecValue::List(items) => {
            lemma_list_then(items, r, is_const);
        },
        SpecValue::Object(fs) => {
            lemma_object_then(fs, r, is_const);
        },
    }
}

#[verifier::spinoff_prover]
proof fn lemma_list_then(items: Seq<SpecValue>, r: Seq<char>, is_const: bool)
    requires
        one_line_readable_list(items, is_const),
    ensures
        parse_value(list_line(items) + r, 0, is_const) == Ok::<_, PErr>(
            (SpecValue::List(items), list_line(items).len() as int),
        ),
    decreases items, 1int,
{
    reveal_strlit("[");
    reveal_strlit("]");
    let j = join(print_values(items), ", "@);
    let u = j + "]"@ + r;
    let s = list_line(items) + r;
    assert(s =~= seq!['['] + u);
    lemma_skip_separator(s, 0, 0);
    lemma_items_then(items, r, is_const);
    crate::parse_laws::lemma_list_items(seq!['['], u, 0, is_const);
}

#[verifier::spinoff_prover]
proof fn lemma_object_then(fs: Seq<(Seq<char>, SpecValue)>, r: Seq<char>, is_const: bool)
    requires
        one_line_readable_fields(fs, is_const),
    ensures
        parse_value(object_line(fs) + r, 0, is_const) == Ok::<_, PErr>(
            (SpecValue::Object(fs), object_line(fs).len() as int),
        ),
    decreases fs, 1int,
{
    reveal_strlit("{ ");
    reveal_strlit(" }");
    let j = join(print_object_fields(fs), ", "@);
    let u = j + " }"@ + r;
    let w = seq![' '] + u;
    let s = object_line(fs) + r;
    assert(s =~= seq!['{'] + w);
    lemma_skip_separator(s, 0, 0);
    lemma_fields_then(fs, r, is_const);
    crate::parse_laws::lemma_object_fields(seq![' '], u, 0, is_const);
    lemma_skip_one(w, 0);
    lemma_fields_from(w, 0, 1, is_const);
    crate::parse_laws::lemma_object_fields(seq!['{'], w, 0, is_const);
}

/// The printed items of a list, then its closing bracket, read as the
/// items.
#[verifier::spinoff_prover]
proof fn lemma_items_then(items: Seq<SpecValue>, r: Seq<char>, is_const: bool)
    requires
        one_line_readable_list(items, is_const),
    ensures
        parse_list_items(join(print_values(items), ", "@) + "]"@ + r, 0, is_const) == Ok::<
            _,
            PErr,
        >((items, join(print_values(items), ", "@).len() + 1int)),
    decreases items, 0int,
{
    reveal_strlit("]");
    reveal_strlit(", ");
    let pv = print_values(items);
    let j = join(pv, ", "@);
    let u = j + "]"@ + r;
    if items.len() == 0 {
        assert(j == Seq::<char>::empty());
        assert(u =~= "]"@ + r);
        assert(u[0] == ']');
        lemma_items_end(u, 0, 0, is_const);
        assert(items =~= Seq::<SpecValue>::empty());
    } else {
        let x = items[0];
        let rest = items.drop_first();
        assert(one_line_readable(x, is_const) && one_line_readable_list(rest, is_const));
        let px = print_value(x);
        let pr = print_values(rest);
        assert(pv == seq![px] + pr);
        lemma_join_front(px, pr, ", "@);
        lemma_first_char(x, is_const);
        if rest.len() == 0 {
            let tail = "]"@ + r;
            assert(tail[0] == ']');
            lemma_value_then(x, tail, is_const);
            lemma_last_item(x, px, r, is_const);
            assert(j == px);
            assert(seq![x] =~= items);
        } else {
            let jr = join(pr, ", "@);
            let tail = ", "@ + jr + "]"@ + r;
            assert(tail[0] == ',');
            lemma_value_then(x, tail, is_const);
            lemma_items_then(rest, r, is_const);
            let y = rest[0];
            assert(one_line_readable(y, is_const));
            lemma_first_char(y, is_const);
            assert(pr == seq![print_value(y)] + print_values(rest.drop_first()));
            lemma_join_front(print_value(y), print_values(rest.drop_first()), ", "@);
            lemma_more_items(x, px, jr, r, rest, is_const);
            assert(j == px + ", "@ + jr);
            assert(seq![x] + rest =~= items);
        }
    }
}

#[verifier::spinoff_prover]
proof fn lemma_last_item(x: SpecValue, px: Seq<char>, r: Seq<char>, is_const: bool)
    requires
        px.len() > 0,
        starts_value(px[0]),
        parse_value(px + ("]"@ + r), 0, is_const) == Ok::<_, PErr>((x, px.len() as int)),
    ensures
        parse_list_items(px + "]"@ + r, 0, is_const) == Ok::<_, PErr>(
            (seq![x], px.len() + 1int),
        ),
{
    reveal_strlit("]");
    let u = px + "]"@ + r;
    let k = px.len() as int;
    assert(u =~= px + ("]"@ + r));
    assert(u[0] == px[0]);
    lemma_skip_separator(u, 0, 0);
    lemma_items_step(u, 0, is_const, x, k);
    assert(u[k] == ']');
    lemma_skip_separator(u, k, 0);
    lemma_items_end(u, k, k, is_const);
    assert(seq![x] + Seq::<SpecValue>::empty() =~= seq![x]);
}

#[verifier::spinoff_prover]
proof fn lemma_more_items(
    x: SpecValue,
    px: Seq<char>,
    jr: Seq<char>,
    r: Seq<char>,
    rest: Seq<SpecValue>,
    is_const: bool,
)
    requires
        px.len() > 0,
        starts_value(px[0]),
        parse_value(px + (", "@ + jr + "]"@ + r), 0, is_const) == Ok::<_, PErr>(
            (x, px.len() as int),
        ),
        jr.len() > 0,
        starts_value(jr[0]),
        parse_list_items(jr + "]"@ + r, 0, is_const) == Ok::<_, PErr>((rest, jr.len() + 1int)),
    ensures
        parse_list_items(px + ", "@ + jr + "]"@ + r, 0, is_const) == Ok::<_, PErr>(
            (seq![x] + rest, px.len() + 2 + jr.len() + 1int),
        ),
{
    reveal_strlit("]");
    reveal_strlit(", ");
    let u = px + ", "@ + jr + "]"@ + r;
    let k = px.len() as int;
    let pre = px + ", "@;
    assert(u =~= px + (", "@ + jr + "]"@ + r));
    assert(u =~= pre + (jr + "]"@ + r));
    assert(u[0] == px[0]);
    lemma_skip_separator(u, 0, 0);
    lemma_items_step(u, 0, is_const, x, k);
    crate::parse_laws::lemma_list_items(pre, jr + "]"@ + r, 0, is_const);
    assert(u[k] == ',' && u[k + 1] == ' ');
    assert(u[k + 2] == jr[0]);
    lemma_skip_separator(u, k, 2);
    lemma_list_items_from(u, k, k + 2, is_const);
}

/// The first field of a printed object reads as its name and value.
#[verifier::spinoff_prover]
proof fn lemma_field_head(n: Seq<char>, x: SpecValue, px: Seq<char>, tail: Seq<char>, is_const: bool)
    requires
        name_shaped(n),
        px.len() > 0,
        starts_value(px[0]),
        parse_value(px + tail, 0, is_const) == Ok::<_, PErr>((x, px.len() as int)),
    ensures
        parse_object_fields(n + ": "@ + px + tail, 0, is_const) == crate::parse_spec::cons(
            (n, x),
            parse_object_fields(n + ": "@ + px + tail, n.len() + 2int + px.len(), is_const),
        ),
{
    let u = n + ": "@ + px + tail;
    let m = n.len() as int;
    lemma_name_colon_value(n, x, px, tail, is_const);
    lemma_fields_step(u, 0, is_const, n, m, m + 1, x, m + 2 + px.len());
}

/// The printed fields of an object, then its closing brace, read as the
/// fields.
#[verifier::spinoff_prover]
proof fn lemma_fields_then(fs: Seq<(Seq<char>, SpecValue)>, r: Seq<char>, is_const: bool)
    requires
        one_line_readable_fields(fs, is_const),
    ensures
        parse_object_fields(join(print_object_fields(fs), ", "@) + " }"@ + r, 0, is_const)
            == Ok::<_, PErr>((fs, join(print_object_fields(fs), ", "@).len() + 2int)),
    decreases fs, 0int,
{
    let pe = print_object_fields(fs);
    let j = join(pe, ", "@);
    let u = j + " }"@ + r;
    if fs.len() == 0 {
        assert(j == Seq::<char>::empty());
        lemma_fields_none(r, is_const);
        assert(u =~= " }"@ + r);
        assert(fs =~= Seq::<(Seq<char>, SpecValue)>::empty());
    } else {
        let n = fs[0].0;
        let x = fs[0].1;
        let rest = fs.drop_first();
        assert(name_shaped(n) && one_line_readable(x, is_const) && one_line_readable_fields(rest, is_const));
        let px = print_value(x);
        let ent = n + ": "@ + px;
        let pr = print_object_fields(rest);
        assert(pe == seq![ent] + pr);
        lemma_join_front(ent, pr, ", "@);
        lemma_first_char(x, is_const);
        if rest.len() == 0 {
            let tail = " }"@ + r;
            reveal_strlit(" }");
            assert(tail[0] == ' ');
            lemma_value_then(x, tail, is_const);
            lemma_last_field(n, x, px, r, is_const);
            assert(j == ent);
            assert(u == (n + ": "@ + px) + " }"@ + r);
            reveal_strlit(": ");
            assert(j.len() == n.len() + 2 + px.len());
            assert(seq![(n, x)] =~= fs);
        } else {
            let jr = join(pr, ", "@);
            let tail = ", "@ + jr + " }"@ + r;
            reveal_strlit(", ");
            assert(tail[0] == ',');
            lemma_value_then(x, tail, is_const);
            lemma_fields_then(rest, r, is_const);
            let n2 = rest[0].0;
            assert(name_shaped(n2));
            let e2 = n2 + ": "@ + print_value(rest[0].1);
            assert(pr == seq![e2] + print_object_fields(rest.drop_first()));
            lemma_first_of_entry(n2, print_value(rest[0].1), print_object_fields(rest.drop_first()));
            lemma_more_fields(n, x, px, jr, r, rest, is_const);
            assert(j == ent + ", "@ + jr);
            assert(u == (n + ": "@ + px + ", "@ + jr) + " }"@ + r);
            reveal_strlit(": ");
            assert(j.len() == n.len() + 4 + px.len() + jr.len());
            assert(seq![(n, x)] + rest =~= fs);
        }
    }
}

/// The last field of a printed object, then its closing brace.
#[verifier::spinoff_prover]
proof fn lemma_last_field(n: Seq<char>, x: SpecValue, px: Seq<char>, r: Seq<char>, is_const: bool)
    requires
        name_shaped(n),
        px.len() > 0,
        starts_value(px[0]),
        parse_value(px + (" }"@ + r), 0, is_const) == Ok::<_, PErr>((x, px.len() as int)),
    ensures
        parse_object_fields((n + ": "@ + px) + " }"@ + r, 0, is_const) == Ok::<_, PErr>(
            (seq![(n, x)], n.len() + 2 + px.len() + 2int),
        ),
{
    let tail = " }"@ + r;
    let k = n.len() + 2int + px.len();
    lemma_shape_last(n, px, r);
    lemma_field_head(n, x, px, tail, is_const);
    lemma_fields_close((n + ": "@ + px) + " }"@ + r, k, is_const);
    assert(seq![(n, x)] + Seq::<(Seq<char>, SpecValue)>::empty() =~= seq![(n, x)]);
}

/// A field of a printed object followed by more fields.
#[verifier::spinoff_prover]
proof fn lemma_more_fields(
    n: Seq<char>,
    x: SpecValue,
    px: Seq<char>,
    jr: Seq<char>,
    r: Seq<char>,
    rest: Seq<(Seq<char>, SpecValue)>,
    is_const: bool,
)
    requires
        name_shaped(n),
        px.len() > 0,
        starts_value(px[0]),
        parse_value(px + (", "@ + jr + " }"@ + r), 0, is_const) == Ok::<_, PErr>(
            (x, px.len() as int),
        ),
        jr.len() > 0,
        is_name_start(jr[0]),
        parse_object_fields(jr + " }"@ + r, 0, is_const) == Ok::<_, PErr>(
            (rest, jr.len() + 2int),
        ),
    ensures
        parse_object_fields((n + ": "@ + px + ", "@ + jr) + " }"@ + r, 0, is_const) == Ok::<
            _,
            PErr,
        >((seq![(n, x)] + rest, n.len() + 4 + px.len() + jr.len() + 2int)),
{
    let tail = ", "@ + jr + " }"@ + r;
    let u = (n + ": "@ + px + ", "@ + jr) + " }"@ + r;
    lemma_shape_more(n, px, jr, r);
    lemma_field_head(n, x, px, tail, is_const);
    lemma_fields_more(u, n + ": "@ + px + ", "@, jr, r, rest, is_const);
}

proof fn lemma_fields_none(r: Seq<char>, is_const: bool)
    ensures
        parse_object_fields(" }"@ + r, 0, is_const) == Ok::<_, PErr>(
            (Seq::<(Seq<char>, SpecValue)>::empty(), 2int),
        ),
{
    reveal_strlit(" }");
    let u = " }"@ + r;
    assert(u[0] == ' ' && u[1] == '}');
    lemma_fields_close(u, 0, is_const);
}

proof fn lemma_shape_last(n: Seq<char>, px: Seq<char>, r: Seq<char>)
    ensures
        (n + ": "@ + px) + " }"@ + r == n + ": "@ + px + (" }"@ + r),
        (n + ": "@ + px).len() == n.len() + 2 + px.len(),
        ((n + ": "@ + px) + " }"@ + r)[n.len() + 2int + px.len()] == ' ',
        ((n + ": "@ + px) + " }"@ + r)[n.len() + 3int + px.len()] == '}',
        ((n + ": "@ + px) + " }"@ + r).len() >= n.len() + 4 + px.len(),
{
    reveal_strlit(": ");
    reveal_strlit(" }");
    assert((n + ": "@ + px) + " }"@ + r =~= n + ": "@ + px + (" }"@ + r));
}

proof fn lemma_shape_more(n: Seq<char>, px: Seq<char>, jr: Seq<char>, r: Seq<char>)
    ensures
        (n + ": "@ + px + ", "@ + jr) + " }"@ + r == n + ": "@ + px + (", "@ + jr + " }"@ + r),
        (n + ": "@ + px + ", "@ + jr) + " }"@ + r == (n + ": "@ + px + ", "@) + (jr + " }"@ + r),
        (n + ": "@ + px + ", "@).len() == n.len() + 4 + px.len(),
        (n + ": "@ + px + ", "@)[n.len() + 2int + px.len()] == ',',
        (n + ": "@ + px + ", "@)[n.len() + 3int + px.len()] == ' ',
{
    reveal_strlit(": ");
    reveal_strlit(", ");
    reveal_strlit(" }");
    assert((n + ": "@ + px + ", "@ + jr) + " }"@ + r =~= n + ": "@ + px + (", "@ + jr + " }"@ + r));
    assert((n + ": "@ + px + ", "@ + jr) + " }"@ + r =~= (n + ": "@ + px + ", "@) + (jr + " }"@
        + r));
}

proof fn lemma_first_of_entry(n: Seq<char>, pv: Seq<char>, more: Seq<Seq<char>>)
    requires
        name_shaped(n),
    ensures
        join(seq![n + ": "@ + pv] + more, ", "@).len() > 0,
        is_name_start(join(seq![n + ": "@ + pv] + more, ", "@)[0]),
{
    lemma_join_front(n + ": "@ + pv, more, ", "@);
}

proof fn lemma_fields_close(u: Seq<char>, k: int, is_const: bool)
    requires
        0 <= k,
        k + 1 < u.len(),
        u[k] == ' ',
        u[k + 1] == '}',
    ensures
        parse_object_fields(u, k, is_const) == Ok::<_, PErr>(
            (Seq::<(Seq<char>, SpecValue)>::empty(), k + 2),
        ),
{
    lemma_skip_separator(u, k, 1);
    lemma_fields_end(u, k, k + 1, is_const);
}

#[verifier::spinoff_prover]
proof fn lemma_fields_more(
    u: Seq<char>,
    pre: Seq<char>,
    jr: Seq<char>,
    r: Seq<char>,
    rest: Seq<(Seq<char>, SpecValue)>,
    is_const: bool,
)
    requires
        u == pre + (jr + " }"@ + r),
        pre.len() >= 2,
        pre[pre.len() - 2] == ',',
        pre[pre.len() - 1] == ' ',
        jr.len() > 0,
        is_name_start(jr[0]),
        parse_object_fields(jr + " }"@ + r, 0, is_const) == Ok::<_, PErr>(
            (rest, jr.len() + 2int),
        ),
    ensures
        parse_object_fields(u, pre.len() - 2, is_const) == Ok::<_, PErr>(
            (rest, pre.len() + jr.len() + 2int),
        ),
{
    let k = pre.len() - 2;
    crate::parse_laws::lemma_object_fields(pre, jr + " }"@ + r, 0, is_const);
    assert(u[k] == ',' && u[k + 1] == ' ');
    assert(u[k + 2] == jr[0]);
    lemma_skip_separator(u, k, 2);
    lemma_fields_from(u, k, k + 2, is_const);
}

/// A value that the printer writes on one line reads back as itself:
/// parsing its printed text gives the value and stops at the end of the
/// text.
pub proof fn law_one_line_values_read_back(v: SpecValue, is_const: bool)
    requires
        one_line_readable(v, is_const),
    ensures
        parse_value(print_value(v), 0, is_const) == Ok::<_, PErr>(
            (v, print_value(v).len() as int),
        ),
{
    lemma_value_then(v, Seq::<char>::empty(), is_const);
    assert(print_value(v) + Seq::<char>::empty() =~= print_value(v));
}

// --- types ---

/// A type that the parser could have read: its names are names, and no
/// non-null marker stands directly on a non-null type.
pub open spec fn readable_type(t: SpecType) -> bool
    decreases t,
{
    match t {
        SpecType::Named(n) => name_shaped(n),
        SpecType::List(inner) => readable_type(*inner),
        SpecType::NonNull(inner) => !(*inner is NonNull) && readable_type(*inner),
    }
}

/// What may follow a printed type: nothing, a closing bracket, a non-null
/// marker, or a space before a default value or a directive.
pub open spec fn after_type(r: Seq<char>) -> bool {
    r.len() == 0 || r[0] == ']' || r[0] == '!' || (r[0] == ' ' && r.len() > 1 && (r[1] == '='
        || r[1] == '@'))
}

/// A printed type followed by `r` reads as the type, or as the type made
/// non-null when a marker follows; the reading ends at the end of the type
/// or at the space after it.
pub open spec fn type_reads(t: SpecType, r: Seq<char>) -> bool {
    let s = print_type(t) + r;
    let k = print_type(t).len() as int;
    let res = parse_type(s, 0);
    &&& r.len() > 0 && r[0] == '!' ==> res == Ok::<_, PErr>(
        (SpecType::NonNull(Box::new(t)), k + 1),
    )
    &&& !(r.len() > 0 && r[0] == '!') ==> {
        &&& res is Ok
        &&& res->Ok_0.0 == t
        &&& k <= res->Ok_0.1 <= k + r.len()
        &&& skip_ignored(s, res->Ok_0.1) == skip_ignored(s, k)
        &&& (r.len() == 0 || r[0] == ']') ==> res->Ok_0.1 == k
    }
}

proof fn lemma_after_type_skip(pt: Seq<char>, r: Seq<char>)
    requires
        after_type(r),
    ensures
        r.len() == 0 ==> skip_ignored(pt + r, pt.len() as int) == pt.len(),
        r.len() > 0 && r[0] != ' ' ==> skip_ignored(pt + r, pt.len() as int) == pt.len() && (pt
            + r)[pt.len() as int] == r[0],
        r.len() > 0 && r[0] == ' ' ==> {
            &&& skip_ignored(pt + r, pt.len() as int) == pt.len() + 1
            &&& skip_ignored(pt + r, pt.len() + 1int) == pt.len() + 1
            &&& (pt + r)[pt.len() + 1int] == r[1]
        },
{
    let s = pt + r;
    let k = pt.len() as int;
    if r.len() > 0 {
        assert(s[k] == r[0]);
        if r[0] == ' ' {
            assert(s[k + 1] == r[1]);
            lemma_skip_separator(s, k + 1, 0);
            lemma_skip_one(s, k);
        } else {
            lemma_skip_separator(s, k, 0);
        }
    }
}

#[verifier::spinoff_prover]
proof fn lemma_named_type_then(n: Seq<char>, r: Seq<char>)
    requires
        name_shaped(n),
        after_type(r),
    ensures
        type_reads(SpecType::Named(n), r),
{
    let s = n + r;
    assert(print_type(SpecType::Named(n)) == n);
    lemma_after_type_skip(n, r);
    assert(s[0] == n[0]);
    lemma_skip_separator(s, 0, 0);
    assert(s =~= Seq::<char>::empty() + n + r);
    lemma_name_in_context(Seq::<char>::empty(), n, r);
}

#[verifier::spinoff_prover]
proof fn lemma_list_type_then(inner: SpecType, r: Seq<char>)
    requires
        after_type(r),
        parse_type(print_type(inner) + ("]"@ + r), 0) == Ok::<_, PErr>(
            (inner, print_type(inner).len() as int),
        ),
    ensures
        type_reads(SpecType::List(Box::new(inner)), r),
{
    reveal_strlit("[");
    reveal_strlit("]");
    let t = SpecType::List(Box::new(inner));
    let pi = print_type(inner);
    let pt = print_type(t);
    assert(pt == "["@ + pi + "]"@);
    let s = pt + r;
    lemma_after_type_skip(pt, r);
    let w = pi + "]"@ + r;
    assert(s =~= seq!['['] + w);
    assert(s[0] == '[');
    lemma_skip_separator(s, 0, 0);
    assert(w =~= pi + ("]"@ + r));
    crate::parse_laws::lemma_parse_type(seq!['['], w, 0);
    let m = 1int + pi.len();
    assert(s[m] == ']');
    lemma_skip_separator(s, m, 0);
}

#[verifier::spinoff_prover]
proof fn lemma_type_then(t: SpecType, r: Seq<char>)
    requires
        readable_type(t),
        after_type(r),
        t is NonNull ==> !(r.len() > 0 && r[0] == '!'),
    ensures
        type_reads(t, r),
    decreases t,
{
    reveal_strlit("]");
    reveal_strlit("!");
    match t {
        SpecType::Named(n) => {
            lemma_named_type_then(n, r);
        },
        SpecType::List(inner) => {
            lemma_type_then(*inner, "]"@ + r);
            lemma_list_type_then(*inner, r);
        },
        SpecType::NonNull(inner) => {
            let pi = print_type(*inner);
            assert(print_type(t) + r =~= pi + ("!"@ + r));
            lemma_type_then(*inner, "!"@ + r);
        },
    }
}

/// A printed type reads back as itself.
pub proof fn law_types_read_back(t: SpecType)
    requires
        readable_type(t),
    ensures
        parse_type(print_type(t), 0) == Ok::<_, PErr>((t, print_type(t).len() as int)),
{
    lemma_type_then(t, Seq::<char>::empty());
    assert(print_type(t) + Seq::<char>::empty() =~= print_type(t));
}

// --- arguments and directives ---

/// Arguments that the parser could have read in a directive: their names
/// are names and their values read back on one line.
pub open spec fn readable_arguments(args: Seq<SpecArgument>) -> bool {
    forall|i: int|
        0 <= i < args.len() ==> name_shaped(#[trigger] args[i].name) && one_line_readable(
            args[i].value,
            false,
        )
}

proof fn lemma_arg_items_step(s: Seq<char>, p: int, n: Seq<char>, a: int, b: int, v: SpecValue, e: int)
    requires
        skip_ignored(s, p) == p,
        0 <= p < s.len(),
        s[p] != ')',
        parse_name(s, p) == Ok::<_, PErr>((n, a)),
        crate::parse_spec::expect(s, a, ':') == Ok::<_, PErr>(b),
        parse_value(s, b, false) == Ok::<_, PErr>((v, e)),
        p < e < s.len(),
    ensures
        parse_argument_items(s, p) == crate::parse_spec::cons(
            SpecArgument { name: n, value: v },
            parse_argument_items(s, e),
        ),
{
}

proof fn lemma_arg_items_end(s: Seq<char>, p: int, q: int)
    requires
        skip_ignored(s, p) == q,
        at_char(s, q, ')'),
    ensures
        parse_argument_items(s, p) == Ok::<_, PErr>((Seq::<SpecArgument>::empty(), q + 1)),
{
}

proof fn lemma_arg_items_from(s: Seq<char>, p1: int, p2: int)
    requires
        0 <= p1 <= p2,
        skip_ignored(s, p1) == skip_ignored(s, p2),
        parse_argument_items(s, p2) is Ok,
    ensures
        parse_argument_items(s, p1) == parse_argument_items(s, p2),
{
}

/// A name, a colon and a printed value: the name, the colon and the value
/// read in turn.
#[verifier::spinoff_prover]
proof fn lemma_name_colon_value(
    n: Seq<char>,
    x: SpecValue,
    px: Seq<char>,
    tail: Seq<char>,
    is_const: bool,
)
    requires
        name_shaped(n),
        px.len() > 0,
        starts_value(px[0]),
        parse_value(px + tail, 0, is_const) == Ok::<_, PErr>((x, px.len() as int)),
    ensures
        skip_ignored(n + ": "@ + px + tail, 0) == 0,
        (n + ": "@ + px + tail)[0] == n[0],
        parse_name(n + ": "@ + px + tail, 0) == Ok::<_, PErr>((n, n.len() as int)),
        crate::parse_spec::expect(n + ": "@ + px + tail, n.len() as int, ':') == Ok::<_, PErr>(
            n.len() + 1int,
        ),
        parse_value(n + ": "@ + px + tail, n.len() + 1int, is_const) == Ok::<_, PErr>(
            (x, n.len() + 2int + px.len()),
        ),
        (n + ": "@ + px + tail).len() == n.len() + 2 + px.len() + tail.len(),
{
    reveal_strlit(": ");
    let u = n + ": "@ + px + tail;
    let m = n.len() as int;
    assert(u[0] == n[0]);
    lemma_skip_separator(u, 0, 0);
    assert(u =~= Seq::<char>::empty() + n + (": "@ + px + tail));
    lemma_name_in_context(Seq::<char>::empty(), n, ": "@ + px + tail);
    assert(u[m] == ':');
    lemma_skip_separator(u, m, 0);
    assert(u[m + 1] == ' ');
    assert(u[m + 2] == px[0]);
    lemma_skip_separator(u, m + 1, 1);
    lemma_skip_separator(u, m + 2, 0);
    lemma_value_from(u, m + 1, m + 2, is_const);
    assert(u =~= (n + ": "@) + (px + tail));
    crate::parse_laws::lemma_parse_value(n + ": "@, px + tail, 0, is_const);
}

/// The first argument of a printed list reads as its name and value.
#[verifier::spinoff_prover]
proof fn lemma_arg_head(n: Seq<char>, x: SpecValue, px: Seq<char>, tail: Seq<char>)
    requires
        name_shaped(n),
        px.len() > 0,
        starts_value(px[0]),
        tail.len() > 0,
        parse_value(px + tail, 0, false) == Ok::<_, PErr>((x, px.len() as int)),
    ensures
        parse_argument_items(n + ": "@ + px + tail, 0) == crate::parse_spec::cons(
            SpecArgument { name: n, value: x },
            parse_argument_items(n + ": "@ + px + tail, n.len() + 2int + px.len()),
        ),
{
    let u = n + ": "@ + px + tail;
    let m = n.len() as int;
    lemma_name_colon_value(n, x, px, tail, false);
    lemma_arg_items_step(u, 0, n, m, m + 1, x, m + 2 + px.len());
}

#[verifier::spinoff_prover]
proof fn lemma_last_arg(n: Seq<char>, x: SpecValue, px: Seq<char>, r: Seq<char>)
    requires
        name_shaped(n),
        px.len() > 0,
        starts_value(px[0]),
        parse_value(px + (")"@ + r), 0, false) == Ok::<_, PErr>((x, px.len() as int)),
    ensures
        parse_argument_items((n + ": "@ + px) + ")"@ + r, 0) == Ok::<_, PErr>(
            (seq![SpecArgument { name: n, value: x }], n.len() + 2 + px.len() + 1int),
        ),
{
    reveal_strlit(": ");
    reveal_strlit(")");
    let tail = ")"@ + r;
    let u = (n + ": "@ + px) + ")"@ + r;
    let k = n.len() + 2int + px.len();
    assert(u =~= n + ": "@ + px + tail);
    lemma_arg_head(n, x, px, tail);
    assert(u[k] == ')');
    lemma_skip_separator(u, k, 0);
    lemma_arg_items_end(u, k, k);
    assert(seq![SpecArgument { name: n, value: x }] + Seq::<SpecArgument>::empty() =~= seq![
        SpecArgument { name: n, value: x },
    ]);
}

#[verifier::spinoff_prover]
proof fn lemma_more_args(
    n: Seq<char>,
    x: SpecValue,
    px: Seq<char>,
    jr: Seq<char>,
    r: Seq<char>,
    rest: Seq<SpecArgument>,
)
    requires
        name_shaped(n),
        px.len() > 0,
        starts_value(px[0]),
        parse_value(px + (", "@ + jr + ")"@ + r), 0, false) == Ok::<_, PErr>(
            (x, px.len() as int),
        ),
        jr.len() > 0,
        is_name_start(jr[0]),
        parse_argument_items(jr + ")"@ + r, 0) == Ok::<_, PErr>((rest, jr.len() + 1int)),
    ensures
        parse_argument_items((n + ": "@ + px + ", "@ + jr) + ")"@ + r, 0) == Ok::<_, PErr>(
            (seq![SpecArgument { name: n, value: x }] + rest, n.len() + 4 + px.len() + jr.len()
                + 1int),
        ),
{
    let tail = ", "@ + jr + ")"@ + r;
    let u = (n + ": "@ + px + ", "@ + jr) + ")"@ + r;
    lemma_shape_more_args(n, px, jr, r);
    lemma_arg_head(n, x, px, tail);
    lemma_args_more(u, n + ": "@ + px + ", "@, jr, r, rest);
}

proof fn lemma_shape_more_args(n: Seq<char>, px: Seq<char>, jr: Seq<char>, r: Seq<char>)
    ensures
        (n + ": "@ + px + ", "@ + jr) + ")"@ + r == n + ": "@ + px + (", "@ + jr + ")"@ + r),
        (n + ": "@ + px + ", "@ + jr) + ")"@ + r == (n + ": "@ + px + ", "@) + (jr + ")"@ + r),
        (n + ": "@ + px + ", "@).len() == n.len() + 4 + px.len(),
        (n + ": "@ + px + ", "@)[n.len() + 2int + px.len()] == ',',
        (n + ": "@ + px + ", "@)[n.len() + 3int + px.len()] == ' ',
{
    reveal_strlit(": ");
    reveal_strlit(", ");
    reveal_strlit(")");
    assert((n + ": "@ + px + ", "@ + jr) + ")"@ + r =~= n + ": "@ + px + (", "@ + jr + ")"@ + r));
    assert((n + ": "@ + px + ", "@ + jr) + ")"@ + r =~= (n + ": "@ + px + ", "@) + (jr + ")"@
        + r));
}

#[verifier::spinoff_prover]
proof fn lemma_args_more(
    u: Seq<char>,
    pre: Seq<char>,
    jr: Seq<char>,
    r: Seq<char>,
    rest: Seq<SpecArgument>,
)
    requires
        u == pre + (jr + ")"@ + r),
        pre.len() >= 2,
        pre[pre.len() - 2] == ',',
        pre[pre.len() - 1] == ' ',
        jr.len() > 0,
        is_name_start(jr[0]),
        parse_argument_items(jr + ")"@ + r, 0) == Ok::<_, PErr>((rest, jr.len() + 1int)),
    ensures
        parse_argument_items(u, pre.len() - 2) == Ok::<_, PErr>(
            (rest, pre.len() + jr.len() + 1int),
        ),
{
    let k = pre.len() - 2;
    crate::parse_laws::lemma_argument_items(pre, jr + ")"@ + r, 0);
    assert(u[k] == ',' && u[k + 1] == ' ');
    assert(u[k + 2] == jr[0]);
    lemma_skip_separator(u, k, 2);
    lemma_arg_items_from(u, k, k + 2);
}

/// Printed arguments, then a closing parenthesis, read as the arguments.
#[verifier::spinoff_prover]
proof fn lemma_arg_items_then(args: Seq<SpecArgument>, r: Seq<char>)
    requires
        readable_arguments(args),
    ensures
        parse_argument_items(join(print_arguments(args), ", "@) + ")"@ + r, 0) == Ok::<_, PErr>(
            (args, join(print_arguments(args), ", "@).len() + 1int),
        ),
    decreases args.len(),
{
    reveal_strlit(")");
    reveal_strlit(", ");
    reveal_strlit(": ");
    let pa = print_arguments(args);
    let j = join(pa, ", "@);
    let u = j + ")"@ + r;
    if args.len() == 0 {
        assert(pa =~= Seq::<Seq<char>>::empty());
        assert(j == Seq::<char>::empty());
        assert(u =~= ")"@ + r);
        assert(u[0] == ')');
        lemma_skip_separator(u, 0, 0);
        lemma_arg_items_end(u, 0, 0);
        assert(args =~= Seq::<SpecArgument>::empty());
    } else {
        let n = args[0].name;
        let x = args[0].value;
        let rest = args.drop_first();
        assert(name_shaped(n) && one_line_readable(x, false));
        assert(readable_arguments(rest)) by {
            assert forall|i: int| 0 <= i < rest.len() implies name_shaped(#[trigger] rest[i].name)
                && one_line_readable(rest[i].value, false) by {
                assert(rest[i] == args[i + 1]);
            }
        }
        let px = print_value(x);
        let ent = n + ": "@ + px;
        let pr = print_arguments(rest);
        assert(pa =~= seq![ent] + pr);
        lemma_join_front(ent, pr, ", "@);
        lemma_first_char(x, false);
        if rest.len() == 0 {
            let tail = ")"@ + r;
            assert(tail[0] == ')');
            lemma_value_then(x, tail, false);
            lemma_last_arg(n, x, px, r);
            assert(j == ent);
            assert(u == (n + ": "@ + px) + ")"@ + r);
            assert(j.len() == n.len() + 2 + px.len());
            assert(seq![SpecArgument { name: n, value: x }] =~= args);
        } else {
            let jr = join(pr, ", "@);
            let tail = ", "@ + jr + ")"@ + r;
            assert(tail[0] == ',');
            lemma_value_then(x, tail, false);
            lemma_arg_items_then(rest, r);
            let n2 = rest[0].name;
            assert(name_shaped(n2));
            let e2 = n2 + ": "@ + print_value(rest[0].value);
            assert(pr =~= seq![e2] + print_arguments(rest.drop_first()));
            lemma_first_of_entry(n2, print_value(rest[0].value), print_arguments(rest.drop_first()));
            lemma_more_args(n, x, px, jr, r, rest);
            assert(j == ent + ", "@ + jr);
            assert(u == (n + ": "@ + px + ", "@ + jr) + ")"@ + r);
            assert(j.len() == n.len() + 4 + px.len() + jr.len());
            assert(seq![SpecArgument { name: n, value: x }] + rest =~= args);
        }
    }
}

/// Directives that the parser could have read: their names are names and
/// their arguments readable.
pub open spec fn readable_directives(ds: Seq<SpecDirective>) -> bool {
    forall|i: int|
        0 <= i < ds.len() ==> name_shaped(#[trigger] ds[i].name) && readable_arguments(
            ds[i].arguments,
        )
}

proof fn lemma_directives_step(
    s: Seq<char>,
    p: int,
    n: Seq<char>,
    a: int,
    args: Seq<SpecArgument>,
    b: int,
)
    requires
        skip_ignored(s, p) == p,
        at_char(s, p, '@'),
        parse_name(s, p + 1) == Ok::<_, PErr>((n, a)),
        parse_arguments(s, a) == Ok::<_, PErr>((args, b)),
        p < b <= s.len(),
    ensures
        parse_directives(s, p) == crate::parse_spec::cons(
            SpecDirective { name: n, arguments: args },
            parse_directives(s, b),
        ),
{
}

proof fn lemma_directives_from(s: Seq<char>, p1: int, p2: int)
    requires
        0 <= p1 <= p2,
        skip_ignored(s, p1) == skip_ignored(s, p2),
        parse_directives(s, p2) is Ok,
    ensures
        parse_directives(s, p1) == parse_directives(s, p2),
{
}

/// Printed arguments in parentheses read as the arguments.
#[verifier::spinoff_prover]
proof fn lemma_arguments_then(args: Seq<SpecArgument>, r: Seq<char>)
    requires
        readable_arguments(args),
    ensures
        parse_arguments("("@ + join(print_arguments(args), ", "@) + ")"@ + r, 0) == Ok::<
            _,
            PErr,
        >((args, join(print_arguments(args), ", "@).len() + 2int)),
{
    reveal_strlit("(");
    reveal_strlit(")");
    let j = join(print_arguments(args), ", "@);
    let w = j + ")"@ + r;
    let s = "("@ + j + ")"@ + r;
    assert(s =~= seq!['('] + w);
    assert(s[0] == '(');
    lemma_skip_separator(s, 0, 0);
    lemma_arg_items_then(args, r);
    crate::parse_laws::lemma_argument_items(seq!['('], w, 0);
}

/// Arguments printed on one line in parentheses, as directives and fields
/// that fit on a line carry them, read back as themselves; no arguments
/// print as nothing and read as none.
pub proof fn law_arguments_read_back(args: Seq<SpecArgument>)
    requires
        readable_arguments(args),
    ensures
        parse_arguments(wrap("("@, join(print_arguments(args), ", "@), ")"@), 0) == Ok::<
            _,
            PErr,
        >((args, wrap("("@, join(print_arguments(args), ", "@), ")"@).len() as int)),
{
    reveal_strlit("(");
    reveal_strlit(")");
    reveal_strlit(": ");
    let pa = print_arguments(args);
    let j = join(pa, ", "@);
    if args.len() > 0 {
        assert(pa =~= seq![pa[0]] + pa.drop_first());
        assert(pa[0] == args[0].name + ": "@ + print_value(args[0].value));
        assert(name_shaped(args[0].name));
        lemma_first_of_entry(args[0].name, print_value(args[0].value), pa.drop_first());
        assert(j.len() > 0);
        lemma_arguments_then(args, Seq::<char>::empty());
        assert("("@ + j + ")"@ + Seq::<char>::empty() =~= wrap("("@, j, ")"@));
    } else {
        assert(pa =~= Seq::<Seq<char>>::empty());
        assert(j == Seq::<char>::empty());
        assert(args =~= Seq::<SpecArgument>::empty());
        let s = wrap("("@, j, ")"@);
        assert(s == Seq::<char>::empty());
        assert(crate::parse_spec::ignored_len(s, 0) == 0);
    }
}

/// A printed directive reads as the directive, followed by nothing or by a
/// space and another directive; the reading of what follows starts at a
/// position that skips to the same place as the end of the directive.
#[verifier::spinoff_prover]
proof fn lemma_directive_then(d: SpecDirective, r: Seq<char>) -> (b: int)
    requires
        name_shaped(d.name),
        readable_arguments(d.arguments),
        r.len() == 0 || (r.len() > 1 && r[0] == ' ' && r[1] == '@'),
    ensures
        print_directive(d).len() <= b <= print_directive(d).len() + r.len(),
        b <= print_directive(d).len() + 1,
        skip_ignored(print_directive(d) + r, b) == skip_ignored(
            print_directive(d) + r,
            print_directive(d).len() as int,
        ),
        parse_directives(print_directive(d) + r, 0) == crate::parse_spec::cons(
            d,
            parse_directives(print_directive(d) + r, b),
        ),
{
    reveal_strlit("@");
    reveal_strlit("(");
    reveal_strlit(")");
    reveal_strlit(": ");
    let n = d.name;
    let args = d.arguments;
    let j = join(print_arguments(args), ", "@);
    let w = wrap("("@, j, ")"@);
    let pd = print_directive(d);
    let s = pd + r;
    let a = 1int + n.len();
    assert(pd == "@"@ + n + w);
    assert(s[0] == '@');
    lemma_skip_separator(s, 0, 0);
    if args.len() > 0 {
        let pa = print_arguments(args);
        assert(pa =~= seq![pa[0]] + pa.drop_first());
        assert(pa[0] == args[0].name + ": "@ + print_value(args[0].value));
        assert(name_shaped(args[0].name));
        lemma_first_of_entry(args[0].name, print_value(args[0].value), pa.drop_first());
        assert(j.len() > 0);
        assert(w == "("@ + j + ")"@);
        assert(s =~= "@"@ + n + (w + r));
        assert((w + r)[0] == '(');
        lemma_name_in_context("@"@, n, w + r);
        lemma_arguments_then(args, r);
        assert(s =~= ("@"@ + n) + ("("@ + j + ")"@ + r));
        crate::parse_laws::lemma_parse_arguments("@"@ + n, "("@ + j + ")"@ + r, 0);
        lemma_directives_step(s, 0, n, a, args, pd.len() as int);
        pd.len() as int
    } else {
        assert(w == Seq::<char>::empty());
        assert(s =~= "@"@ + n + r);
        lemma_name_in_context("@"@, n, r);
        assert(args =~= Seq::<SpecArgument>::empty());
        if r.len() == 0 {
            assert(crate::parse_spec::ignored_len(s, a) == 0);
            assert(parse_arguments(s, a) == Ok::<_, PErr>((args, a)));
            lemma_directives_step(s, 0, n, a, args, a);
            a
        } else {
            assert(s[a] == ' ' && s[a + 1] == '@');
            lemma_skip_separator(s, a, 1);
            assert(parse_arguments(s, a) == Ok::<_, PErr>((args, a + 1)));
            lemma_directives_step(s, 0, n, a, args, a + 1);
            lemma_skip_one(s, a);
            a + 1
        }
    }
}

/// The printed form of each directive is not empty and starts with `@`.
proof fn lemma_directive_parts(ds: Seq<SpecDirective>)
    ensures
        print_directives(ds) == join(ds.map_values(|d: SpecDirective| print_directive(d)), " "@),
        forall|i: int| 0 <= i < ds.len() ==> (#[trigger] print_directive(ds[i])).len() > 0 && print_directive(ds[i])[0] == '@',
{
    reveal_strlit("@");
    let parts = ds.map_values(|d: SpecDirective| print_directive(d));
    assert forall|i: int| 0 <= i < parts.len() implies #[trigger] parts[i].len() > 0 by {
        assert(parts[i] == print_directive(ds[i]));
    }
    lemma_nonempty_parts_all(parts);
}

/// Printed directives read back as themselves.
#[verifier::spinoff_prover]
pub proof fn law_directives_read_back(ds: Seq<SpecDirective>)
    requires
        readable_directives(ds),
    ensures
        parse_directives(print_directives(ds), 0) == Ok::<_, PErr>(
            (ds, print_directives(ds).len() as int),
        ),
    decreases ds.len(),
{
    let parts = ds.map_values(|d: SpecDirective| print_directive(d));
    let t = print_directives(ds);
    lemma_directive_parts(ds);
    if ds.len() == 0 {
        assert(parts =~= Seq::<Seq<char>>::empty());
        assert(t == Seq::<char>::empty());
        assert(ds =~= Seq::<SpecDirective>::empty());
    } else {
        let d0 = ds[0];
        let rest = ds.drop_first();
        assert(name_shaped(d0.name) && readable_arguments(d0.arguments));
        assert(readable_directives(rest)) by {
            assert forall|i: int| 0 <= i < rest.len() implies name_shaped(#[trigger] rest[i].name)
                && readable_arguments(rest[i].arguments) by {
                assert(rest[i] == ds[i + 1]);
            }
        }
        let pd0 = print_directive(d0);
        let rparts = rest.map_values(|d: SpecDirective| print_directive(d));
        assert(parts =~= seq![pd0] + rparts);
        lemma_join_front(pd0, rparts, " "@);
        lemma_directive_parts(rest);
        if rest.len() == 0 {
            assert(t == pd0);
            lemma_last_directive(d0);
            assert(seq![d0] + Seq::<SpecDirective>::empty() =~= ds);
        } else {
            let tr = print_directives(rest);
            law_directives_read_back(rest);
            reveal_strlit(" ");
            assert(t == pd0 + " "@ + tr);
            assert(tr[0] == '@') by {
                lemma_join_front(print_directive(rest[0]), rparts.drop_first(), " "@);
                assert(rparts =~= seq![print_directive(rest[0])] + rparts.drop_first());
            }
            lemma_more_directives(d0, tr, rest);
            assert(seq![d0] + rest =~= ds);
        }
    }
}

#[verifier::spinoff_prover]
proof fn lemma_last_directive(d: SpecDirective)
    requires
        name_shaped(d.name),
        readable_arguments(d.arguments),
    ensures
        parse_directives(print_directive(d), 0) == Ok::<_, PErr>(
            (seq![d], print_directive(d).len() as int),
        ),
{
    let t = print_directive(d);
    let b = lemma_directive_then(d, Seq::<char>::empty());
    assert(t + Seq::<char>::empty() =~= t);
    assert(b == t.len());
    assert(crate::parse_spec::ignored_len(t, b) == 0);
    assert(parse_directives(t, b) == Ok::<_, PErr>((Seq::<SpecDirective>::empty(), b)));
    assert(seq![d] + Seq::<SpecDirective>::empty() =~= seq![d]);
}

#[verifier::spinoff_prover]
proof fn lemma_more_directives(d: SpecDirective, tr: Seq<char>, rest: Seq<SpecDirective>)
    requires
        name_shaped(d.name),
        readable_arguments(d.arguments),
        tr.len() > 0,
        tr[0] == '@',
        parse_directives(tr, 0) == Ok::<_, PErr>((rest, tr.len() as int)),
    ensures
        parse_directives(print_directive(d) + " "@ + tr, 0) == Ok::<_, PErr>(
            (seq![d] + rest, print_directive(d).len() + 1int + tr.len()),
        ),
{
    reveal_strlit(" ");
    let pd = print_directive(d);
    let t = pd + " "@ + tr;
    let k = pd.len() as int;
    let r = " "@ + tr;
    assert(t =~= pd + r);
    let b = lemma_directive_then(d, r);
    assert(t =~= (pd + " "@) + tr);
    crate::parse_laws::lemma_parse_directives(pd + " "@, tr, 0);
    assert(t[k] == ' ' && t[k + 1] == '@');
    lemma_skip_separator(t, k, 1);
    lemma_skip_separator(t, k + 1, 0);
    lemma_directives_from(t, b, k + 1);
}

// --- variable definitions ---

/// A variable definition that the parser could have read: its variable is
/// a name, its type readable, its default value reads back on one line as a
/// constant, and its directives are readable.
pub open spec fn readable_variable_definition(d: SpecVariableDefinition) -> bool {
    &&& name_shaped(d.variable)
    &&& readable_type(d.ty)
    &&& (d.default_value is Some ==> one_line_readable(d.default_value->0, true))
    &&& readable_directives(d.directives)
}

proof fn lemma_type_first(t: SpecType)
    requires
        readable_type(t),
    ensures
        print_type(t).len() > 0,
        print_type(t)[0] == '[' || is_name_start(print_type(t)[0]),
    decreases t,
{
    reveal_strlit("[");
    reveal_strlit("!");
    match t {
        SpecType::Named(_) => {},
        SpecType::List(_) => {},
        SpecType::NonNull(inner) => {
            lemma_type_first(*inner);
        },
    }
}

proof fn lemma_type_from(s: Seq<char>, p1: int, p2: int)
    requires
        skip_ignored(s, p1) == skip_ignored(s, p2),
    ensures
        parse_type(s, p1) == parse_type(s, p2),
{
}

/// A variable, a colon and a printed type, followed by what may follow the
/// type: each reads in turn.
#[verifier::spinoff_prover]
proof fn lemma_var_head(v: Seq<char>, ty: SpecType, x: Seq<char>)
    requires
        name_shaped(v),
        readable_type(ty),
        after_type(x),
        !(x.len() > 0 && x[0] == '!'),
    ensures
        crate::parse_spec::expect("$"@ + v + ": "@ + print_type(ty) + x, 0, '$') == Ok::<_, PErr>(
            1int,
        ),
        parse_name("$"@ + v + ": "@ + print_type(ty) + x, 1) == Ok::<_, PErr>(
            (v, 1int + v.len()),
        ),
        crate::parse_spec::expect("$"@ + v + ": "@ + print_type(ty) + x, 1int + v.len(), ':')
            == Ok::<_, PErr>(2int + v.len()),
        ({
            let s = "$"@ + v + ": "@ + print_type(ty) + x;
            let k = 3int + v.len() + print_type(ty).len();
            let res = parse_type(s, 2int + v.len());
            &&& res is Ok
            &&& res->Ok_0.0 == ty
            &&& k <= res->Ok_0.1 <= s.len()
            &&& skip_ignored(s, res->Ok_0.1) == skip_ignored(s, k)
        }),
{
    reveal_strlit("$");
    reveal_strlit(": ");
    let pt = print_type(ty);
    let pre = "$"@ + v + ": "@;
    let s = pre + pt + x;
    let m = v.len() as int;
    assert(s[0] == '$');
    lemma_skip_separator(s, 0, 0);
    assert(s =~= "$"@ + v + (": "@ + pt + x));
    lemma_name_in_context("$"@, v, ": "@ + pt + x);
    assert(s[1 + m] == ':');
    lemma_skip_separator(s, 1 + m, 0);
    lemma_type_first(ty);
    assert(s[2 + m] == ' ');
    assert(s[3 + m] == pt[0]);
    lemma_skip_separator(s, 2 + m, 1);
    lemma_skip_separator(s, 3 + m, 0);
    lemma_type_from(s, 2 + m, 3 + m);
    lemma_type_then(ty, x);
    assert(s =~= pre + (pt + x));
    crate::parse_laws::lemma_parse_type(pre, pt + x, 0);
    let e = parse_type(pt + x, 0)->Ok_0.1;
    crate::parse_laws::lemma_skip(pre, pt + x, e);
    crate::parse_laws::lemma_skip(pre, pt + x, pt.len() as int);
}

/// Printed directives, if any, start with `@`.
proof fn lemma_directives_first(ds: Seq<SpecDirective>)
    ensures
        ds.len() > 0 ==> print_directives(ds).len() > 0 && print_directives(ds)[0] == '@',
        ds.len() == 0 ==> print_directives(ds) == Seq::<char>::empty(),
{
    lemma_directive_parts(ds);
    let parts = ds.map_values(|d: SpecDirective| print_directive(d));
    if ds.len() > 0 {
        assert(parts =~= seq![print_directive(ds[0])] + parts.drop_first());
        lemma_join_front(print_directive(ds[0]), parts.drop_first(), " "@);
    } else {
        assert(parts =~= Seq::<Seq<char>>::empty());
    }
}

/// Directives after a space read as themselves from the space or from the
/// first directive on.
#[verifier::spinoff_prover]
proof fn lemma_directives_at(a: Seq<char>, ds: Seq<SpecDirective>)
    requires
        readable_directives(ds),
        ds.len() > 0,
    ensures
        parse_directives(a + " "@ + print_directives(ds), a.len() as int) == Ok::<_, PErr>(
            (ds, a.len() + 1int + print_directives(ds).len()),
        ),
        parse_directives(a + " "@ + print_directives(ds), a.len() + 1int) == Ok::<_, PErr>(
            (ds, a.len() + 1int + print_directives(ds).len()),
        ),
{
    reveal_strlit(" ");
    let pds = print_directives(ds);
    let s = a + " "@ + pds;
    let k = a.len() as int;
    lemma_directives_first(ds);
    law_directives_read_back(ds);
    assert(s =~= (a + " "@) + pds);
    crate::parse_laws::lemma_parse_directives(a + " "@, pds, 0);
    assert(s[k] == ' ' && s[k + 1] == '@');
    lemma_skip_separator(s, k, 1);
    lemma_skip_separator(s, k + 1, 0);
    lemma_directives_from(s, k, k + 1);
}

proof fn lemma_default_shape(a: Seq<char>, pv: Seq<char>, y: Seq<char>)
    requires
        pv.len() > 0,
    ensures
        (a + " = "@ + pv + y)[a.len() as int] == ' ',
        (a + " = "@ + pv + y)[a.len() + 1int] == '=',
        (a + " = "@ + pv + y)[a.len() + 2int] == ' ',
        (a + " = "@ + pv + y)[a.len() + 3int] == pv[0],
        (a + " = "@ + pv + y).len() == a.len() + 3 + pv.len() + y.len(),
        a + " = "@ + pv + y == (a + " = "@) + (pv + y),
        (a + " = "@).len() == a.len() + 3,
{
    reveal_strlit(" = ");
    assert(a + " = "@ + pv + y =~= (a + " = "@) + (pv + y));
}

/// A default value, then nothing or directives after a space.
#[verifier::spinoff_prover]
proof fn lemma_default_then(a: Seq<char>, e: int, dv: SpecValue, pv: Seq<char>, y: Seq<char>)
    requires
        pv.len() > 0,
        starts_value(pv[0]),
        parse_value(pv + y, 0, true) == Ok::<_, PErr>((dv, pv.len() as int)),
        a.len() <= e,
        skip_ignored(a + " = "@ + pv + y, e) == skip_ignored(a + " = "@ + pv + y, a.len() as int),
    ensures
        parse_default_value(a + " = "@ + pv + y, e) == Ok::<_, PErr>(
            (Some(dv), a.len() + 3int + pv.len()),
        ),
{
    let s = a + " = "@ + pv + y;
    let k = a.len() as int;
    lemma_default_shape(a, pv, y);
    lemma_skip_separator(s, k, 1);
    lemma_skip_separator(s, k + 2, 1);
    lemma_skip_separator(s, k + 3, 0);
    lemma_value_from(s, k + 2, k + 3, true);
    crate::parse_laws::lemma_parse_value(a + " = "@, pv + y, 0, true);
}

/// Nothing after the type.
proof fn lemma_nothing_after_type(a: Seq<char>, e: int)
    requires
        a.len() <= e,
        skip_ignored(a, e) == skip_ignored(a, a.len() as int),
    ensures
        parse_default_value(a, e) == Ok::<_, PErr>((None::<SpecValue>, a.len() as int)),
        parse_directives(a, a.len() as int) == Ok::<_, PErr>(
            (Seq::<SpecDirective>::empty(), a.len() as int),
        ),
{
    assert(crate::parse_spec::ignored_len(a, a.len() as int) == 0);
}

proof fn lemma_var_def_compose(
    s: Seq<char>,
    v: Seq<char>,
    ty: SpecType,
    dvo: Option<SpecValue>,
    ds: Seq<SpecDirective>,
    e: int,
    f: int,
    g: int,
)
    requires
        crate::parse_spec::expect(s, 0, '$') == Ok::<_, PErr>(1int),
        parse_name(s, 1) == Ok::<_, PErr>((v, 1int + v.len())),
        crate::parse_spec::expect(s, 1int + v.len(), ':') == Ok::<_, PErr>(2int + v.len()),
        parse_type(s, 2int + v.len()) == Ok::<_, PErr>((ty, e)),
        parse_default_value(s, e) == Ok::<_, PErr>((dvo, f)),
        parse_directives(s, f) == Ok::<_, PErr>((ds, g)),
    ensures
        parse_variable_definition(s, 0) == Ok::<_, PErr>(
            (SpecVariableDefinition { variable: v, ty, default_value: dvo, directives: ds }, g),
        ),
{
    reveal(parse_variable_definition);
}

proof fn lemma_no_default(s: Seq<char>, e: int, q: int)
    requires
        skip_ignored(s, e) == q,
        !at_char(s, q, '='),
    ensures
        parse_default_value(s, e) == Ok::<_, PErr>((None::<SpecValue>, q)),
{
}

/// A printed variable definition with a default value and directives.
#[verifier::spinoff_prover]
proof fn lemma_var_def_default_directives(
    v: Seq<char>,
    ty: SpecType,
    dv: SpecValue,
    ds: Seq<SpecDirective>,
)
    requires
        name_shaped(v),
        readable_type(ty),
        one_line_readable(dv, true),
        readable_directives(ds),
        ds.len() > 0,
    ensures
        ({
            let a = "$"@ + v + ": "@ + print_type(ty);
            let s = a + (" = "@ + print_value(dv) + (" "@ + print_directives(ds)));
            parse_variable_definition(s, 0) == Ok::<_, PErr>(
                (
                    SpecVariableDefinition {
                        variable: v,
                        ty,
                        default_value: Some(dv),
                        directives: ds,
                    },
                    s.len() as int,
                ),
            )
        }),
{
    reveal_strlit("$");
    reveal_strlit(": ");
    reveal_strlit(" = ");
    reveal_strlit(" ");
    let a = "$"@ + v + ": "@ + print_type(ty);
    let pv = print_value(dv);
    let y = " "@ + print_directives(ds);
    let x = " = "@ + pv + y;
    let s = a + x;
    lemma_first_char(dv, true);
    lemma_directives_first(ds);
    assert(x[0] == ' ' && x[1] == '=');
    lemma_var_head(v, ty, x);
    let e = parse_type(s, 2int + v.len())->Ok_0.1;
    lemma_value_then(dv, y, true);
    assert(s =~= a + " = "@ + pv + y);
    lemma_default_then(a, e, dv, pv, y);
    assert(s =~= (a + " = "@ + pv) + " "@ + print_directives(ds));
    lemma_directives_at(a + " = "@ + pv, ds);
    lemma_var_def_compose(s, v, ty, Some(dv), ds, e, a.len() + 3int + pv.len(), s.len() as int);
}

/// A printed variable definition with a default value and no directives.
#[verifier::spinoff_prover]
proof fn lemma_var_def_default(v: Seq<char>, ty: SpecType, dv: SpecValue)
    requires
        name_shaped(v),
        readable_type(ty),
        one_line_readable(dv, true),
    ensures
        ({
            let a = "$"@ + v + ": "@ + print_type(ty);
            let s = a + (" = "@ + print_value(dv) + Seq::<char>::empty());
            parse_variable_definition(s, 0) == Ok::<_, PErr>(
                (
                    SpecVariableDefinition {
                        variable: v,
                        ty,
                        default_value: Some(dv),
                        directives: Seq::<SpecDirective>::empty(),
                    },
                    s.len() as int,
                ),
            )
        }),
{
    reveal_strlit("$");
    reveal_strlit(": ");
    reveal_strlit(" = ");
    let a = "$"@ + v + ": "@ + print_type(ty);
    let pv = print_value(dv);
    let y = Seq::<char>::empty();
    let x = " = "@ + pv + y;
    let s = a + x;
    lemma_first_char(dv, true);
    assert(x[0] == ' ' && x[1] == '=');
    lemma_var_head(v, ty, x);
    let e = parse_type(s, 2int + v.len())->Ok_0.1;
    lemma_value_then(dv, y, true);
    assert(s =~= a + " = "@ + pv + y);
    lemma_default_then(a, e, dv, pv, y);
    let f = a.len() + 3int + pv.len();
    assert(s.len() == f);
    assert(crate::parse_spec::ignored_len(s, f) == 0);
    lemma_var_def_compose(
        s,
        v,
        ty,
        Some(dv),
        Seq::<SpecDirective>::empty(),
        e,
        f,
        s.len() as int,
    );
}

/// A printed variable definition with directives and no default value.
#[verifier::spinoff_prover]
proof fn lemma_var_def_directives(v: Seq<char>, ty: SpecType, ds: Seq<SpecDirective>)
    requires
        name_shaped(v),
        readable_type(ty),
        readable_directives(ds),
        ds.len() > 0,
    ensures
        ({
            let a = "$"@ + v + ": "@ + print_type(ty);
            let s = a + (" "@ + print_directives(ds));
            parse_variable_definition(s, 0) == Ok::<_, PErr>(
                (
                    SpecVariableDefinition {
                        variable: v,
                        ty,
                        default_value: None,
                        directives: ds,
                    },
                    s.len() as int,
                ),
            )
        }),
{
    reveal_strlit("$");
    reveal_strlit(": ");
    reveal_strlit(" ");
    let a = "$"@ + v + ": "@ + print_type(ty);
    let x = " "@ + print_directives(ds);
    let s = a + x;
    let k = a.len() as int;
    lemma_directives_first(ds);
    assert(x[0] == ' ' && x[1] == '@');
    lemma_var_head(v, ty, x);
    let e = parse_type(s, 2int + v.len())->Ok_0.1;
    assert(s[k] == ' ' && s[k + 1] == '@');
    lemma_skip_separator(s, k, 1);
    lemma_no_default(s, e, k + 1);
    assert(s =~= a + " "@ + print_directives(ds));
    lemma_directives_at(a, ds);
    lemma_var_def_compose(s, v, ty, None, ds, e, k + 1, s.len() as int);
}

/// A printed variable definition with neither a default value nor
/// directives.
#[verifier::spinoff_prover]
proof fn lemma_var_def_plain(v: Seq<char>, ty: SpecType)
    requires
        name_shaped(v),
        readable_type(ty),
    ensures
        ({
            let a = "$"@ + v + ": "@ + print_type(ty);
            parse_variable_definition(a + Seq::<char>::empty(), 0) == Ok::<_, PErr>(
                (
                    SpecVariableDefinition {
                        variable: v,
                        ty,
                        default_value: None,
                        directives: Seq::<SpecDirective>::empty(),
                    },
                    a.len() as int,
                ),
            )
        }),
{
    reveal_strlit("$");
    reveal_strlit(": ");
    let a = "$"@ + v + ": "@ + print_type(ty);
    let x = Seq::<char>::empty();
    let s = a + x;
    lemma_var_head(v, ty, x);
    let e = parse_type(s, 2int + v.len())->Ok_0.1;
    assert(s =~= a);
    lemma_nothing_after_type(a, e);
    lemma_var_def_compose(
        s,
        v,
        ty,
        None,
        Seq::<SpecDirective>::empty(),
        e,
        a.len() as int,
        a.len() as int,
    );
}

/// A printed variable definition reads back as itself.
pub proof fn law_variable_definition_reads_back(d: SpecVariableDefinition)
    requires
        readable_variable_definition(d),
    ensures
        parse_variable_definition(print_variable_definition(d), 0) == Ok::<_, PErr>(
            (d, print_variable_definition(d).len() as int),
        ),
{
    let v = d.variable;
    let ty = d.ty;
    let ds = d.directives;
    let pds = print_directives(ds);
    let a = "$"@ + v + ": "@ + print_type(ty);
    let s = print_variable_definition(d);
    lemma_directives_first(ds);
    let y = wrap(" "@, pds, Seq::<char>::empty());
    match d.default_value {
        Some(dv) => {
            assert(s =~= a + (" = "@ + print_value(dv) + y));
            if ds.len() > 0 {
                assert(y == " "@ + pds);
                lemma_var_def_default_directives(v, ty, dv, ds);
            } else {
                assert(ds =~= Seq::<SpecDirective>::empty());
                assert(y == Seq::<char>::empty());
                lemma_var_def_default(v, ty, dv);
            }
        },
        None => {
            if ds.len() > 0 {
                assert(y == " "@ + pds);
                assert(s =~= a + (" "@ + pds));
                lemma_var_def_directives(v, ty, ds);
            } else {
                assert(ds =~= Seq::<SpecDirective>::empty());
                assert(y == Seq::<char>::empty());
                assert(s =~= a + Seq::<char>::empty());
                lemma_var_def_plain(v, ty);
            }
        },
    }
}

} // verus!
