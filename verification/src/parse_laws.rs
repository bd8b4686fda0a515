//! What the parser does with ignored text in front of a document.
//!
//! Every read of the parser looks only at the source from its own position
//! on, and measures positions from the start of the source. So putting any
//! text in front of the source moves each result and each failure by the
//! length of that text and changes nothing else. Whitespace, commas,
//! byte-order marks and complete comment lines in front of a document are
//! then simply skipped.
use vstd::prelude::*;

use crate::parse_spec::{
    at_char, comment_len, consume, digits_len, expect, hex_len, ignored_len, is_line_end,
    is_name_start, keyword_at, name_len, parse_name, peek_is, peek_keyword, skip_ignored, PErr,
    PRes, int_part_end, frac_part_end, exp_part_end, parse_number, read_four_hex,
    parse_unicode_escape, parse_escape, string_body, starts_at, block_string_raw, parse_string,
    triple_quote, is_digit, parse_value, parse_list_items, parse_object_fields, parse_type,
    parse_argument_items, parse_arguments, parse_directives, parse_default_value,
    parse_variable_definition, parse_variable_definition_items, parse_variable_definitions, cons,
    parse_selection_set, parse_selection_items, parse_selection, parse_field,
    parse_operation_definition, parse_fragment_definition, parse_definition, parse_definitions,
    parse_document, is_ignorable,
};

verus! {

/// `r` with its end position, or its failure position, moved by `k`.
pub open spec fn shifted<T>(r: PRes<T>, k: int) -> PRes<T> {
    match r {
        Ok((v, e)) => Ok((v, e + k)),
        Err(er) => Err(PErr { msg: er.msg, at: er.at + k }),
    }
}

pub open spec fn shifted_pos(r: Result<int, PErr>, k: int) -> Result<int, PErr> {
    match r {
        Ok(e) => Ok(e + k),
        Err(er) => Err(PErr { msg: er.msg, at: er.at + k }),
    }
}

pub open spec fn shifted_flag(r: Result<(int, bool), PErr>, k: int) -> Result<(int, bool), PErr> {
    match r {
        Ok((e, b)) => Ok((e + k, b)),
        Err(er) => Err(PErr { msg: er.msg, at: er.at + k }),
    }
}

/// A successful read ends at or after `p`.
pub open spec fn ends_after<T>(r: PRes<T>, p: int) -> bool {
    match r {
        Ok((_, e)) => e >= p,
        Err(_) => true,
    }
}

pub(crate) proof fn lemma_at_char(pre: Seq<char>, s: Seq<char>, p: int, c: char)
    requires
        0 <= p,
    ensures
        at_char(pre + s, p + pre.len(), c) == at_char(s, p, c),
        0 <= p < s.len() ==> (pre + s)[p + pre.len()] == s[p],
{
}

pub(crate) proof fn lemma_subrange(pre: Seq<char>, s: Seq<char>, a: int, b: int)
    requires
        0 <= a <= b <= s.len(),
    ensures
        (pre + s).subrange(a + pre.len(), b + pre.len()) == s.subrange(a, b),
{
    assert((pre + s).subrange(a + pre.len(), b + pre.len()) =~= s.subrange(a, b));
}

pub(crate) proof fn lemma_ignored_len(pre: Seq<char>, s: Seq<char>, p: int)
    requires
        0 <= p,
    ensures
        ignored_len(pre + s, p + pre.len()) == ignored_len(s, p),
        comment_len(pre + s, p + pre.len()) == comment_len(s, p),
    decreases s.len() - p,
{
    let t = pre + s;
    let k = pre.len() as int;
    if p < s.len() {
        assert(t[p + k] == s[p]);
        lemma_ignored_len(pre, s, p + 1);
        assert(ignored_len(t, p + k) == ignored_len(s, p));
        if is_line_end(s[p]) {
            assert(comment_len(t, p + k) == ignored_len(t, p + k));
        }
    }
}

pub(crate) proof fn lemma_skip(pre: Seq<char>, s: Seq<char>, p: int)
    requires
        0 <= p,
    ensures
        skip_ignored(pre + s, p + pre.len()) == skip_ignored(s, p) + pre.len(),
        skip_ignored(s, p) >= p,
{
    lemma_ignored_len(pre, s, p);
}

pub(crate) proof fn lemma_peek_is(pre: Seq<char>, s: Seq<char>, p: int, c: char)
    requires
        0 <= p,
    ensures
        peek_is(pre + s, p + pre.len(), c) == peek_is(s, p, c),
{
    lemma_skip(pre, s, p);
    lemma_at_char(pre, s, skip_ignored(s, p), c);
}

pub(crate) proof fn lemma_name_len(pre: Seq<char>, s: Seq<char>, p: int)
    requires
        0 <= p,
    ensures
        name_len(pre + s, p + pre.len()) == name_len(s, p),
        p + name_len(s, p) <= s.len() || name_len(s, p) == 0,
    decreases s.len() - p,
{
    if p < s.len() {
        assert((pre + s)[p + pre.len()] == s[p]);
        lemma_name_len(pre, s, p + 1);
    }
}

pub(crate) proof fn lemma_digits_len(pre: Seq<char>, s: Seq<char>, p: int)
    requires
        0 <= p,
    ensures
        digits_len(pre + s, p + pre.len()) == digits_len(s, p),
        p + digits_len(s, p) <= s.len() || digits_len(s, p) == 0,
    decreases s.len() - p,
{
    if p < s.len() {
        assert((pre + s)[p + pre.len()] == s[p]);
        lemma_digits_len(pre, s, p + 1);
    }
}

pub(crate) proof fn lemma_hex_len(pre: Seq<char>, s: Seq<char>, p: int)
    requires
        0 <= p,
    ensures
        hex_len(pre + s, p + pre.len()) == hex_len(s, p),
        p + hex_len(s, p) <= s.len() || hex_len(s, p) == 0,
    decreases s.len() - p,
{
    if p < s.len() {
        assert((pre + s)[p + pre.len()] == s[p]);
        lemma_hex_len(pre, s, p + 1);
    }
}

pub(crate) proof fn lemma_parse_name(pre: Seq<char>, s: Seq<char>, p: int)
    requires
        0 <= p,
    ensures
        parse_name(pre + s, p + pre.len()) == shifted(parse_name(s, p), pre.len() as int),
        ends_after(parse_name(s, p), p),
{
    lemma_skip(pre, s, p);
    let q = skip_ignored(s, p);
    lemma_at_char(pre, s, q, ' ');
    if 0 <= q < s.len() && is_name_start(s[q]) {
        lemma_name_len(pre, s, q + 1);
        let e = q + 1 + name_len(s, q + 1);
        lemma_subrange(pre, s, q, e);
    }
}

pub(crate) proof fn lemma_keyword_at(pre: Seq<char>, s: Seq<char>, q: int, kw: Seq<char>)
    requires
        0 <= q,
    ensures
        keyword_at(pre + s, q + pre.len(), kw) == keyword_at(s, q, kw),
{
    let k = pre.len() as int;
    if q + kw.len() <= s.len() {
        lemma_subrange(pre, s, q, q + kw.len());
        if q + kw.len() < s.len() {
            assert((pre + s)[q + kw.len() + k] == s[q + kw.len()]);
        }
    }
}

pub(crate) proof fn lemma_peek_keyword(pre: Seq<char>, s: Seq<char>, p: int, kw: Seq<char>)
    requires
        0 <= p,
    ensures
        peek_keyword(pre + s, p + pre.len(), kw) == peek_keyword(s, p, kw),
{
    lemma_skip(pre, s, p);
    lemma_keyword_at(pre, s, skip_ignored(s, p), kw);
}

pub(crate) proof fn lemma_expect(pre: Seq<char>, s: Seq<char>, p: int, c: char)
    requires
        0 <= p,
    ensures
        expect(pre + s, p + pre.len(), c) == shifted_pos(expect(s, p, c), pre.len() as int),
        expect(s, p, c) is Ok ==> expect(s, p, c)->Ok_0 > p,
{
    lemma_skip(pre, s, p);
    lemma_at_char(pre, s, skip_ignored(s, p), c);
}

pub(crate) proof fn lemma_consume(pre: Seq<char>, s: Seq<char>, p: int, c: char)
    requires
        0 <= p,
    ensures
        consume(pre + s, p + pre.len(), c) == (consume(s, p, c).0, consume(s, p, c).1 + pre.len()),
        consume(s, p, c).1 >= p,
{
    lemma_skip(pre, s, p);
    lemma_at_char(pre, s, skip_ignored(s, p), c);
}

pub(crate) proof fn lemma_int_part_end(pre: Seq<char>, s: Seq<char>, p: int)
    requires
        0 <= p,
    ensures
        int_part_end(pre + s, p + pre.len()) == shifted_pos(int_part_end(s, p), pre.len() as int),
        int_part_end(s, p) is Ok ==> p < int_part_end(s, p)->Ok_0 <= s.len(),
{
    let a = if at_char(s, p, '-') { p + 1 } else { p };
    lemma_at_char(pre, s, p, '-');
    lemma_at_char(pre, s, a, '0');
    if a < s.len() {
        assert((pre + s)[a + pre.len()] == s[a]);
    }
    lemma_digits_len(pre, s, a);
}

pub(crate) proof fn lemma_frac_part_end(pre: Seq<char>, s: Seq<char>, p: int)
    requires
        0 <= p <= s.len(),
    ensures
        frac_part_end(pre + s, p + pre.len()) == shifted_flag(frac_part_end(s, p), pre.len() as int),
        frac_part_end(s, p) is Ok ==> p <= frac_part_end(s, p)->Ok_0.0 <= s.len(),
{
    lemma_at_char(pre, s, p, '.');
    if p + 1 < s.len() {
        assert((pre + s)[p + 1 + pre.len()] == s[p + 1]);
    }
    lemma_digits_len(pre, s, p + 1);
}

pub(crate) proof fn lemma_exp_part_end(pre: Seq<char>, s: Seq<char>, p: int)
    requires
        0 <= p <= s.len(),
    ensures
        exp_part_end(pre + s, p + pre.len()) == shifted_flag(exp_part_end(s, p), pre.len() as int),
        exp_part_end(s, p) is Ok ==> p <= exp_part_end(s, p)->Ok_0.0 <= s.len(),
{
    lemma_at_char(pre, s, p, 'e');
    lemma_at_char(pre, s, p, 'E');
    lemma_at_char(pre, s, p + 1, '+');
    lemma_at_char(pre, s, p + 1, '-');
    let a = if at_char(s, p + 1, '+') || at_char(s, p + 1, '-') { p + 2 } else { p + 1 };
    if a < s.len() {
        assert((pre + s)[a + pre.len()] == s[a]);
    }
    lemma_digits_len(pre, s, a);
}

#[verifier::spinoff_prover]
pub(crate) proof fn lemma_parse_number(pre: Seq<char>, s: Seq<char>, p: int)
    requires
        0 <= p < s.len(),
    ensures
        parse_number(pre + s, p + pre.len()) == shifted(parse_number(s, p), pre.len() as int),
        ends_after(parse_number(s, p), p),
{
    lemma_int_part_end(pre, s, p);
    if let Ok(a) = int_part_end(s, p) {
        lemma_frac_part_end(pre, s, a);
        if let Ok((b, _)) = frac_part_end(s, a) {
            lemma_exp_part_end(pre, s, b);
            if let Ok((c, _)) = exp_part_end(s, b) {
                lemma_subrange(pre, s, p, c);
            }
        }
    }
}

pub(crate) proof fn lemma_read_four_hex(pre: Seq<char>, s: Seq<char>, p: int)
    requires
        0 <= p,
    ensures
        read_four_hex(pre + s, p + pre.len()) == shifted(read_four_hex(s, p), pre.len() as int),
        read_four_hex(s, p) is Ok ==> read_four_hex(s, p)->Ok_0.1 == p + 4 <= s.len(),
{
    if p + 4 <= s.len() {
        lemma_subrange(pre, s, p, p + 4);
    }
}

#[verifier::spinoff_prover]
pub(crate) proof fn lemma_parse_unicode_escape(pre: Seq<char>, s: Seq<char>, p: int)
    requires
        0 <= p,
    ensures
        parse_unicode_escape(pre + s, p + pre.len()) == shifted(
            parse_unicode_escape(s, p),
            pre.len() as int,
        ),
        ends_after(parse_unicode_escape(s, p), p),
{
    lemma_at_char(pre, s, p, '{');
    if at_char(s, p, '{') {
        lemma_hex_len(pre, s, p + 1);
        let j = p + 1 + hex_len(s, p + 1);
        lemma_at_char(pre, s, j, '}');
        if at_char(s, j, '}') {
            lemma_subrange(pre, s, p + 1, j);
        }
    } else {
        lemma_read_four_hex(pre, s, p);
        if let Ok((high, a)) = read_four_hex(s, p) {
            lemma_at_char(pre, s, a, '\\');
            lemma_at_char(pre, s, a + 1, 'u');
            lemma_read_four_hex(pre, s, a + 2);
        }
    }
}

pub(crate) proof fn lemma_parse_escape(pre: Seq<char>, s: Seq<char>, p: int)
    requires
        0 <= p,
    ensures
        parse_escape(pre + s, p + pre.len()) == shifted(parse_escape(s, p), pre.len() as int),
        ends_after(parse_escape(s, p), p),
{
    if p < s.len() {
        assert((pre + s)[p + pre.len()] == s[p]);
        lemma_parse_unicode_escape(pre, s, p + 1);
    }
}

#[verifier::spinoff_prover]
pub(crate) proof fn lemma_string_body(pre: Seq<char>, s: Seq<char>, p: int)
    requires
        0 <= p,
    ensures
        string_body(pre + s, p + pre.len()) == shifted(string_body(s, p), pre.len() as int),
        ends_after(string_body(s, p), p),
    decreases s.len() - p,
{
    if p < s.len() {
        assert((pre + s)[p + pre.len()] == s[p]);
        if s[p] == '\\' {
            lemma_parse_escape(pre, s, p + 1);
            if let Ok((c, q)) = parse_escape(s, p + 1) {
                if q > p {
                    lemma_string_body(pre, s, q);
                }
            }
        } else if s[p] != '"' && !is_line_end(s[p]) {
            lemma_string_body(pre, s, p + 1);
        }
    }
}

pub(crate) proof fn lemma_starts_at(pre: Seq<char>, s: Seq<char>, p: int, x: Seq<char>)
    requires
        0 <= p,
    ensures
        starts_at(pre + s, p + pre.len(), x) == starts_at(s, p, x),
{
    if p + x.len() <= s.len() {
        lemma_subrange(pre, s, p, p + x.len());
    }
}

#[verifier::spinoff_prover]
pub(crate) proof fn lemma_block_string_raw(pre: Seq<char>, s: Seq<char>, p: int)
    requires
        0 <= p,
    ensures
        block_string_raw(pre + s, p + pre.len()) == shifted(
            block_string_raw(s, p),
            pre.len() as int,
        ),
        ends_after(block_string_raw(s, p), p),
    decreases s.len() - p,
{
    lemma_starts_at(pre, s, p, seq!['\\', '"', '"', '"']);
    lemma_starts_at(pre, s, p, triple_quote());
    if starts_at(s, p, seq!['\\', '"', '"', '"']) {
        lemma_block_string_raw(pre, s, p + 4);
    } else if !starts_at(s, p, triple_quote()) && p < s.len() {
        assert((pre + s)[p + pre.len()] == s[p]);
        lemma_block_string_raw(pre, s, p + 1);
    }
}

pub(crate) proof fn lemma_parse_string(pre: Seq<char>, s: Seq<char>, p: int)
    requires
        0 <= p,
    ensures
        parse_string(pre + s, p + pre.len()) == shifted(parse_string(s, p), pre.len() as int),
        ends_after(parse_string(s, p), p),
{
    lemma_starts_at(pre, s, p, triple_quote());
    lemma_block_string_raw(pre, s, p + 3);
    lemma_string_body(pre, s, p + 1);
}

#[verifier::spinoff_prover]
pub(crate) proof fn lemma_parse_value(pre: Seq<char>, s: Seq<char>, p: int, is_const: bool)
    requires
        0 <= p,
    ensures
        parse_value(pre + s, p + pre.len(), is_const) == shifted(
            parse_value(s, p, is_const),
            pre.len() as int,
        ),
        ends_after(parse_value(s, p, is_const), p),
    decreases s.len() - p, 0int,
{
    lemma_skip(pre, s, p);
    let q = skip_ignored(s, p);
    if 0 <= q < s.len() {
        assert((pre + s)[q + pre.len()] == s[q]);
        let c = s[q];
        if c == '$' {
            lemma_parse_name(pre, s, q + 1);
        } else if c == '[' {
            lemma_list_items(pre, s, q + 1, is_const);
        } else if c == '{' {
            lemma_object_fields(pre, s, q + 1, is_const);
        } else if c == '"' {
            lemma_parse_string(pre, s, q);
        } else if c == '-' || is_digit(c) {
            lemma_parse_number(pre, s, q);
        } else {
            lemma_parse_name(pre, s, q);
        }
    }
}

#[verifier::spinoff_prover]
pub(crate) proof fn lemma_list_items(pre: Seq<char>, s: Seq<char>, p: int, is_const: bool)
    requires
        0 <= p,
    ensures
        parse_list_items(pre + s, p + pre.len(), is_const) == shifted(
            parse_list_items(s, p, is_const),
            pre.len() as int,
        ),
        ends_after(parse_list_items(s, p, is_const), p),
    decreases s.len() - p, 1int,
{
    lemma_skip(pre, s, p);
    let q = skip_ignored(s, p);
    lemma_at_char(pre, s, q, ']');
    if !at_char(s, q, ']') && 0 <= q < s.len() {
        lemma_parse_value(pre, s, q, is_const);
        if let Ok((v, r)) = parse_value(s, q, is_const) {
            if p < r <= s.len() {
                lemma_list_items(pre, s, r, is_const);
            }
        }
    }
}

#[verifier::spinoff_prover]
pub(crate) proof fn lemma_object_fields(pre: Seq<char>, s: Seq<char>, p: int, is_const: bool)
    requires
        0 <= p,
    ensures
        parse_object_fields(pre + s, p + pre.len(), is_const) == shifted(
            parse_object_fields(s, p, is_const),
            pre.len() as int,
        ),
        ends_after(parse_object_fields(s, p, is_const), p),
    decreases s.len() - p, 1int,
{
    lemma_skip(pre, s, p);
    let q = skip_ignored(s, p);
    lemma_at_char(pre, s, q, '}');
    if !at_char(s, q, '}') && 0 <= q < s.len() {
        lemma_parse_name(pre, s, q);
        if let Ok((n, a)) = parse_name(s, q) {
            lemma_expect(pre, s, a, ':');
            if let Ok(b) = expect(s, a, ':') {
                lemma_parse_value(pre, s, b, is_const);
                if let Ok((v, r)) = parse_value(s, b, is_const) {
                    if p < r <= s.len() {
                        lemma_object_fields(pre, s, r, is_const);
                    }
                }
            }
        }
    }
}

#[verifier::spinoff_prover]
pub(crate) proof fn lemma_parse_type(pre: Seq<char>, s: Seq<char>, p: int)
    requires
        0 <= p,
    ensures
        parse_type(pre + s, p + pre.len()) == shifted(parse_type(s, p), pre.len() as int),
        ends_after(parse_type(s, p), p),
    decreases s.len() - p,
{
    lemma_consume(pre, s, p, '[');
    let (open, q) = consume(s, p, '[');
    if open {
        lemma_parse_type(pre, s, q);
        if let Ok((inner, r)) = parse_type(s, q) {
            lemma_expect(pre, s, r, ']');
            if let Ok(e) = expect(s, r, ']') {
                lemma_consume(pre, s, e, '!');
            }
        }
    } else {
        lemma_parse_name(pre, s, q);
        if let Ok((n, e)) = parse_name(s, q) {
            lemma_consume(pre, s, e, '!');
        }
    }
}

pub(crate) proof fn lemma_argument_items(pre: Seq<char>, s: Seq<char>, p: int)
    requires
        0 <= p,
    ensures
        parse_argument_items(pre + s, p + pre.len()) == shifted(
            parse_argument_items(s, p),
            pre.len() as int,
        ),
        ends_after(parse_argument_items(s, p), p),
    decreases s.len() - p,
{
    lemma_skip(pre, s, p);
    let q = skip_ignored(s, p);
    lemma_at_char(pre, s, q, ')');
    if !at_char(s, q, ')') {
        lemma_parse_name(pre, s, q);
        if let Ok((n, a)) = parse_name(s, q) {
            lemma_expect(pre, s, a, ':');
            if let Ok(b) = expect(s, a, ':') {
                lemma_parse_value(pre, s, b, false);
                if let Ok((v, r)) = parse_value(s, b, false) {
                    if r < s.len() && p < r {
                        lemma_argument_items(pre, s, r);
                    }
                }
            }
        }
    }
}

pub(crate) proof fn lemma_parse_arguments(pre: Seq<char>, s: Seq<char>, p: int)
    requires
        0 <= p,
    ensures
        parse_arguments(pre + s, p + pre.len()) == shifted(parse_arguments(s, p), pre.len() as int),
        ends_after(parse_arguments(s, p), p),
{
    lemma_consume(pre, s, p, '(');
    lemma_argument_items(pre, s, consume(s, p, '(').1);
}

#[verifier::spinoff_prover]
pub(crate) proof fn lemma_parse_directives(pre: Seq<char>, s: Seq<char>, p: int)
    requires
        0 <= p,
    ensures
        parse_directives(pre + s, p + pre.len()) == shifted(parse_directives(s, p), pre.len() as int),
        ends_after(parse_directives(s, p), p),
    decreases s.len() - p,
{
    lemma_skip(pre, s, p);
    let q = skip_ignored(s, p);
    lemma_at_char(pre, s, q, '@');
    if at_char(s, q, '@') {
        lemma_parse_name(pre, s, q + 1);
        if let Ok((n, a)) = parse_name(s, q + 1) {
            lemma_parse_arguments(pre, s, a);
            if let Ok((args, b)) = parse_arguments(s, a) {
                if p < b <= s.len() {
                    lemma_parse_directives(pre, s, b);
                }
            }
        }
    }
}

pub(crate) proof fn lemma_default_value(pre: Seq<char>, s: Seq<char>, p: int)
    requires
        0 <= p,
    ensures
        parse_default_value(pre + s, p + pre.len()) == shifted(
            parse_default_value(s, p),
            pre.len() as int,
        ),
        ends_after(parse_default_value(s, p), p),
{
    lemma_consume(pre, s, p, '=');
    lemma_parse_value(pre, s, consume(s, p, '=').1, true);
}

#[verifier::spinoff_prover]
pub(crate) proof fn lemma_variable_definition(pre: Seq<char>, s: Seq<char>, p: int)
    requires
        0 <= p,
    ensures
        parse_variable_definition(pre + s, p + pre.len()) == shifted(
            parse_variable_definition(s, p),
            pre.len() as int,
        ),
        ends_after(parse_variable_definition(s, p), p),
{
    reveal(parse_variable_definition);
    lemma_expect(pre, s, p, '$');
    if let Ok(a) = expect(s, p, '$') {
        lemma_parse_name(pre, s, a);
        if let Ok((variable, b)) = parse_name(s, a) {
            lemma_expect(pre, s, b, ':');
            if let Ok(c) = expect(s, b, ':') {
                lemma_parse_type(pre, s, c);
                if let Ok((ty, d)) = parse_type(s, c) {
                    lemma_default_value(pre, s, d);
                    if let Ok((dv, f)) = parse_default_value(s, d) {
                        lemma_parse_directives(pre, s, f);
                    }
                }
            }
        }
    }
}

#[verifier::spinoff_prover]
pub(crate) proof fn lemma_variable_definition_items(pre: Seq<char>, s: Seq<char>, p: int)
    requires
        0 <= p,
    ensures
        parse_variable_definition_items(pre + s, p + pre.len()) == shifted(
            parse_variable_definition_items(s, p),
            pre.len() as int,
        ),
        ends_after(parse_variable_definition_items(s, p), p),
    decreases s.len() - p,
{
    let t = pre + s;
    let k = pre.len() as int;
    lemma_skip(pre, s, p);
    let q = skip_ignored(s, p);
    lemma_at_char(pre, s, q, ')');
    if !at_char(s, q, ')') {
        lemma_variable_definition(pre, s, q);
        let one = parse_variable_definition(s, q);
        assert(parse_variable_definition(t, q + k) == shifted(one, k));
        match one {
            Ok((d, r)) => {
                if r < s.len() && p < r {
                    lemma_variable_definition_items(pre, s, r);
                    let rest = parse_variable_definition_items(s, r);
                    assert(parse_variable_definition_items(t, r + k) == shifted(rest, k));
                    assert(parse_variable_definition_items(s, p) == cons(d, rest));
                    assert(parse_variable_definition_items(t, p + k) == cons(d, shifted(rest, k)));
                }
            },
            Err(_) => {},
        }
    }
}

pub(crate) proof fn lemma_variable_definitions(pre: Seq<char>, s: Seq<char>, p: int)
    requires
        0 <= p,
    ensures
        parse_variable_definitions(pre + s, p + pre.len()) == shifted(
            parse_variable_definitions(s, p),
            pre.len() as int,
        ),
        ends_after(parse_variable_definitions(s, p), p),
{
    lemma_consume(pre, s, p, '(');
    lemma_variable_definition_items(pre, s, consume(s, p, '(').1);
}

#[verifier::spinoff_prover]
pub(crate) proof fn lemma_selection_set(pre: Seq<char>, s: Seq<char>, p: int)
    requires
        0 <= p,
    ensures
        parse_selection_set(pre + s, p + pre.len()) == shifted(
            parse_selection_set(s, p),
            pre.len() as int,
        ),
        ends_after(parse_selection_set(s, p), p + 1),
    decreases s.len() - p, 3int,
{
    lemma_expect(pre, s, p, '{');
    if let Ok(a) = expect(s, p, '{') {
        lemma_selection_items(pre, s, a);
    }
}

#[verifier::spinoff_prover]
pub(crate) proof fn lemma_selection_items(pre: Seq<char>, s: Seq<char>, p: int)
    requires
        0 <= p,
    ensures
        parse_selection_items(pre + s, p + pre.len()) == shifted(
            parse_selection_items(s, p),
            pre.len() as int,
        ),
        ends_after(parse_selection_items(s, p), p),
    decreases s.len() - p, 2int,
{
    lemma_skip(pre, s, p);
    let q = skip_ignored(s, p);
    lemma_at_char(pre, s, q, '}');
    if !at_char(s, q, '}') && 0 <= q < s.len() {
        lemma_selection(pre, s, q);
        if let Ok((sel, r)) = parse_selection(s, q) {
            if p < r <= s.len() {
                lemma_selection_items(pre, s, r);
                assert(parse_selection_items(s, p) == cons(sel, parse_selection_items(s, r)));
                assert(parse_selection_items(pre + s, p + pre.len()) == cons(
                    sel,
                    parse_selection_items(pre + s, r + pre.len()),
                ));
            }
        }
    }
}

#[verifier::spinoff_prover]
pub(crate) proof fn lemma_selection(pre: Seq<char>, s: Seq<char>, p: int)
    requires
        0 <= p,
    ensures
        parse_selection(pre + s, p + pre.len()) == shifted(parse_selection(s, p), pre.len() as int),
        ends_after(parse_selection(s, p), p),
    decreases s.len() - p, 1int,
{
    lemma_skip(pre, s, p);
    let q = skip_ignored(s, p);
    lemma_at_char(pre, s, q, '.');
    if at_char(s, q, '.') {
        lemma_expect(pre, s, q, '.');
        if let Ok(a1) = expect(s, q, '.') {
            lemma_expect(pre, s, a1, '.');
            if let Ok(a2) = expect(s, a1, '.') {
                lemma_expect(pre, s, a2, '.');
                if let Ok(a) = expect(s, a2, '.') {
                    lemma_peek_keyword(pre, s, a, "on"@);
                    lemma_peek_is(pre, s, a, '@');
                    lemma_peek_is(pre, s, a, '{');
                    if peek_keyword(s, a, "on"@) {
                        lemma_parse_name(pre, s, a);
                        if let Ok((_, b)) = parse_name(s, a) {
                            lemma_parse_name(pre, s, b);
                            if let Ok((tc, c)) = parse_name(s, b) {
                                lemma_parse_directives(pre, s, c);
                                if let Ok((ds, d)) = parse_directives(s, c) {
                                    if p < d <= s.len() {
                                        lemma_selection_set(pre, s, d);
                                    }
                                }
                            }
                        }
                    } else if peek_is(s, a, '@') || peek_is(s, a, '{') {
                        lemma_parse_directives(pre, s, a);
                        if let Ok((ds, d)) = parse_directives(s, a) {
                            if p < d <= s.len() {
                                lemma_selection_set(pre, s, d);
                            }
                        }
                    } else {
                        lemma_parse_name(pre, s, a);
                        if let Ok((n, b)) = parse_name(s, a) {
                            lemma_parse_directives(pre, s, b);
                        }
                    }
                }
            }
        }
    } else {
        lemma_field(pre, s, p);
    }
}

#[verifier::spinoff_prover]
pub(crate) proof fn lemma_field(pre: Seq<char>, s: Seq<char>, p: int)
    requires
        0 <= p,
    ensures
        parse_field(pre + s, p + pre.len()) == shifted(parse_field(s, p), pre.len() as int),
        ends_after(parse_field(s, p), p),
    decreases s.len() - p, 0int,
{
    lemma_parse_name(pre, s, p);
    if let Ok((first, a)) = parse_name(s, p) {
        lemma_consume(pre, s, a, ':');
        let (colon, b) = consume(s, a, ':');
        lemma_parse_name(pre, s, b);
        let head: PRes<(Option<Seq<char>>, Seq<char>)> = if colon {
            match parse_name(s, b) {
                Err(e) => Err(e),
                Ok((n, c)) => Ok(((Some(first), n), c)),
            }
        } else {
            Ok(((None, first), b))
        };
        if let Ok(((alias, name), c)) = head {
            lemma_parse_arguments(pre, s, c);
            if let Ok((arguments, d)) = parse_arguments(s, c) {
                lemma_parse_directives(pre, s, d);
                if let Ok((directives, e)) = parse_directives(s, d) {
                    lemma_skip(pre, s, e);
                    let q = skip_ignored(s, e);
                    lemma_at_char(pre, s, q, '{');
                    if at_char(s, q, '{') && p < q {
                        lemma_selection_set(pre, s, q);
                    }
                }
            }
        }
    }
}

#[verifier::spinoff_prover]
pub(crate) proof fn lemma_operation_definition(pre: Seq<char>, s: Seq<char>, p: int)
    requires
        0 <= p,
    ensures
        parse_operation_definition(pre + s, p + pre.len()) == shifted(
            parse_operation_definition(s, p),
            pre.len() as int,
        ),
        ends_after(parse_operation_definition(s, p), p + 1),
{
    lemma_peek_keyword(pre, s, p, "query"@);
    lemma_peek_keyword(pre, s, p, "mutation"@);
    lemma_parse_name(pre, s, p);
    if let Ok((_, a)) = parse_name(s, p) {
        lemma_skip(pre, s, a);
        let q = skip_ignored(s, a);
        if 0 <= q < s.len() {
            assert((pre + s)[q + pre.len()] == s[q]);
        }
        lemma_parse_name(pre, s, a);
        let named = 0 <= q < s.len() && is_name_start(s[q]);
        let head: PRes<Option<Seq<char>>> = if named {
            match parse_name(s, a) {
                Err(e) => Err(e),
                Ok((n, b)) => Ok((Some(n), b)),
            }
        } else {
            Ok((None, a))
        };
        if let Ok((name, b)) = head {
            lemma_variable_definitions(pre, s, b);
            if let Ok((vds, c)) = parse_variable_definitions(s, b) {
                lemma_parse_directives(pre, s, c);
                if let Ok((ds, d)) = parse_directives(s, c) {
                    lemma_selection_set(pre, s, d);
                }
            }
        }
    }
}

#[verifier::spinoff_prover]
pub(crate) proof fn lemma_fragment_definition(pre: Seq<char>, s: Seq<char>, p: int)
    requires
        0 <= p,
    ensures
        parse_fragment_definition(pre + s, p + pre.len()) == shifted(
            parse_fragment_definition(s, p),
            pre.len() as int,
        ),
        ends_after(parse_fragment_definition(s, p), p + 1),
{
    lemma_parse_name(pre, s, p);
    if let Ok((_, a)) = parse_name(s, p) {
        lemma_parse_name(pre, s, a);
        if let Ok((name, b)) = parse_name(s, a) {
            lemma_variable_definitions(pre, s, b);
            if let Ok((vds, c)) = parse_variable_definitions(s, b) {
                lemma_peek_keyword(pre, s, c, "on"@);
                lemma_skip(pre, s, c);
                lemma_parse_name(pre, s, c);
                if let Ok((_, d)) = parse_name(s, c) {
                    lemma_parse_name(pre, s, d);
                    if let Ok((tc, e)) = parse_name(s, d) {
                        lemma_parse_directives(pre, s, e);
                        if let Ok((ds, f)) = parse_directives(s, e) {
                            lemma_selection_set(pre, s, f);
                        }
                    }
                }
            }
        }
    }
}

#[verifier::spinoff_prover]
pub(crate) proof fn lemma_definition(pre: Seq<char>, s: Seq<char>, p: int)
    requires
        0 <= p,
    ensures
        parse_definition(pre + s, p + pre.len()) == shifted(parse_definition(s, p), pre.len() as int),
        ends_after(parse_definition(s, p), p + 1),
{
    lemma_skip(pre, s, p);
    let q = skip_ignored(s, p);
    lemma_at_char(pre, s, q, '{');
    lemma_keyword_at(pre, s, q, "fragment"@);
    lemma_keyword_at(pre, s, q, "query"@);
    lemma_keyword_at(pre, s, q, "mutation"@);
    lemma_keyword_at(pre, s, q, "subscription"@);
    lemma_selection_set(pre, s, q);
    lemma_fragment_definition(pre, s, q);
    lemma_operation_definition(pre, s, q);
}

#[verifier::spinoff_prover]
pub(crate) proof fn lemma_definitions(pre: Seq<char>, s: Seq<char>, p: int)
    requires
        0 <= p,
    ensures
        parse_definitions(pre + s, p + pre.len()) == shifted(
            parse_definitions(s, p),
            pre.len() as int,
        ),
    decreases s.len() - p,
{
    lemma_skip(pre, s, p);
    let q = skip_ignored(s, p);
    if 0 <= q < s.len() {
        lemma_definition(pre, s, q);
        if let Ok((d, r)) = parse_definition(s, q) {
            if p < r <= s.len() {
                lemma_definitions(pre, s, r);
            }
        }
    }
}

/// `w` is a run of whitespace, commas, byte-order marks and comments, each
/// comment closed by a line end.
pub open spec fn ignored_text(w: Seq<char>) -> bool
    decreases w.len(), 0int,
{
    if w.len() == 0 {
        true
    } else if is_ignorable(w[0]) {
        ignored_text(w.drop_first())
    } else if w[0] == '#' {
        comment_text(w.drop_first())
    } else {
        false
    }
}

/// `w` is the rest of a comment, a line end, then ignored text.
pub open spec fn comment_text(w: Seq<char>) -> bool
    decreases w.len(), 1int,
{
    if w.len() == 0 {
        false
    } else if is_line_end(w[0]) {
        ignored_text(w)
    } else {
        comment_text(w.drop_first())
    }
}

pub(crate) proof fn lemma_ignored_text_len(w: Seq<char>, s: Seq<char>, i: int)
    requires
        0 <= i <= w.len(),
    ensures
        ignored_text(w.subrange(i, w.len() as int)) ==> ignored_len(w + s, i) == w.len() - i
            + ignored_len(s, 0),
        comment_text(w.subrange(i, w.len() as int)) ==> comment_len(w + s, i) == w.len() - i
            + ignored_len(s, 0),
    decreases w.len() - i,
{
    let t = w + s;
    let u = w.subrange(i, w.len() as int);
    if i == w.len() {
        lemma_ignored_len(w, s, 0);
    } else {
        assert(u[0] == w[i] && t[i] == w[i]);
        assert(u.drop_first() =~= w.subrange(i + 1, w.len() as int));
        lemma_ignored_text_len(w, s, i + 1);
        if ignored_text(u) {
            if is_ignorable(u[0]) {
                assert(ignored_len(t, i) == 1 + ignored_len(t, i + 1));
            } else {
                assert(ignored_len(t, i) == 1 + comment_len(t, i + 1));
            }
        }
        if comment_text(u) {
            if is_line_end(u[0]) {
                assert(!is_ignorable(u[0]) ==> false);
                assert(ignored_len(t, i) == 1 + ignored_len(t, i + 1));
                assert(comment_len(t, i) == ignored_len(t, i));
            } else {
                assert(comment_len(t, i) == 1 + comment_len(t, i + 1));
            }
        }
    }
}

/// Whitespace, commas, byte-order marks and comments closed by a line end,
/// put in front of a source, change nothing of what it parses to: the same
/// document, or the same failure that many characters further on.
pub proof fn law_leading_ignored_text(w: Seq<char>, s: Seq<char>)
    requires
        ignored_text(w),
    ensures
        parse_document(w + s) == match parse_document(s) {
            Ok(d) => Ok(d),
            Err(e) => Err(PErr { msg: e.msg, at: e.at + w.len() }),
        },
{
    let t = w + s;
    let k = w.len() as int;
    assert(w.subrange(0, k) =~= w);
    lemma_ignored_text_len(w, s, 0);
    lemma_definitions(w, s, 0);
    lemma_skip(w, s, 0);
    let q = skip_ignored(s, 0);
    assert(skip_ignored(t, 0) == q + k);
    assert(skip_ignored(t, k) == q + k);
    if 0 <= q < s.len() {
        lemma_definition(w, s, q);
        if let Ok((d, r)) = parse_definition(s, q) {
            assert(r > q);
            if r <= s.len() {
                assert(parse_definitions(t, 0) == cons(d, parse_definitions(t, r + k)));
                assert(parse_definitions(t, k) == cons(d, parse_definitions(t, r + k)));
            }
        }
    }
    assert(parse_definitions(t, 0) == parse_definitions(t, k));
}

} // verus!
