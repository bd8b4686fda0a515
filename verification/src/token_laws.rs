//! Sources with the same tokens parse alike.
//!
//! A source is read as a run of tokens separated by ignored text
//! (whitespace, commas, byte-order marks and comments): names, numbers,
//! strings and single punctuation characters. The parser decides only by
//! these tokens, so two sources that have the same tokens, whatever stands
//! between them, parse to the same document, or both fail.
use vstd::prelude::*;
use crate::parse_spec::{
    at_char, comment_len, ignored_len, is_line_end, is_name_continue, is_name_start, is_digit,
    keyword_at, name_len, parse_number, parse_string, skip_ignored, digits_len, hex_len,
    is_hex_digit, int_part_end, frac_part_end, exp_part_end, read_four_hex, parse_unicode_escape,
    parse_escape, string_body, block_string_raw, starts_at, triple_quote, PErr, PRes, expect,
    consume, parse_name, peek_keyword, parse_value, parse_list_items, parse_object_fields,
    parse_type, parse_argument_items, parse_arguments, parse_directives, parse_default_value,
    parse_variable_definition, parse_variable_definition_items, parse_variable_definitions,
    parse_selection_set, parse_selection_items, parse_selection, parse_field, peek_is,
    parse_operation_definition, parse_fragment_definition, parse_definition, parse_definitions,
    parse_document,
};
use crate::parse_laws::{
    lemma_int_part_end, lemma_frac_part_end, lemma_exp_part_end, lemma_parse_number,
    lemma_parse_string,
};

verus! {

/// The end of the token that starts at `q`, if it is well formed: a name, a
/// number, a string, or any other single character.
pub open spec fn token_end(s: Seq<char>, q: int) -> Option<int> {
    if !(0 <= q < s.len()) {
        None
    } else if is_name_start(s[q]) {
        Some(q + 1 + name_len(s, q + 1))
    } else if s[q] == '-' || is_digit(s[q]) {
        match parse_number(s, q) {
            Ok((_, e)) => Some(e),
            Err(_) => None,
        }
    } else if s[q] == '"' {
        match parse_string(s, q) {
            Ok((_, e)) => Some(e),
            Err(_) => None,
        }
    } else {
        Some(q + 1)
    }
}

/// The texts of the tokens of `s` from `p` on, if every one is well formed.
pub open spec fn tokens(s: Seq<char>, p: int) -> Option<Seq<Seq<char>>>
    decreases s.len() - p,
{
    let q = skip_ignored(s, p);
    if !(0 <= q < s.len()) {
        Some(Seq::empty())
    } else {
        match token_end(s, q) {
            Some(e) => if q < e <= s.len() {
                match tokens(s, e) {
                    Some(ts) => Some(seq![s.subrange(q, e)] + ts),
                    None => None,
                }
            } else {
                None
            },
            None => None,
        }
    }
}

/// `s1` from `p1` and `s2` from `p2` have the same well-formed tokens.
pub open spec fn same_tokens(s1: Seq<char>, p1: int, s2: Seq<char>, p2: int) -> bool {
    &&& tokens(s1, p1) is Some
    &&& tokens(s1, p1) == tokens(s2, p2)
}

proof fn lemma_skip_settles(s: Seq<char>, p: int)
    requires
        0 <= p,
    ensures
        ignored_len(s, p + ignored_len(s, p)) == 0,
        ignored_len(s, p + comment_len(s, p)) == 0,
    decreases s.len() - p,
{
    if p < s.len() {
        lemma_skip_settles(s, p + 1);
    }
}

/// Skipping ignored text twice is skipping it once.
pub(crate) proof fn lemma_skip_twice(s: Seq<char>, p: int)
    requires
        0 <= p,
    ensures
        skip_ignored(s, skip_ignored(s, p)) == skip_ignored(s, p),
        tokens(s, skip_ignored(s, p)) == tokens(s, p),
{
    lemma_skip_settles(s, p);
}

/// The first token and the rest, read off a well-formed token run.
proof fn lemma_tokens_step(s: Seq<char>, p: int)
    requires
        0 <= p,
        tokens(s, p) is Some,
    ensures
        ({
            let q = skip_ignored(s, p);
            let ts = tokens(s, p)->0;
            &&& (ts.len() == 0 <==> !(q < s.len()))
            &&& ts.len() > 0 ==> {
                &&& token_end(s, q) is Some
                &&& q < token_end(s, q)->0 <= s.len()
                &&& ts[0] == s.subrange(q, token_end(s, q)->0)
                &&& tokens(s, token_end(s, q)->0) == Some(ts.drop_first())
            }
        }),
{
    let q = skip_ignored(s, p);
    if q < s.len() {
        let e = token_end(s, q)->0;
        let rest = tokens(s, e)->0;
        assert((seq![s.subrange(q, e)] + rest).drop_first() =~= rest);
    }
}

pub(crate) proof fn lemma_name_len_bound(s: Seq<char>, p: int)
    requires
        0 <= p,
    ensures
        p + name_len(s, p) <= s.len() || name_len(s, p) == 0,
        forall|i: int| p <= i < p + name_len(s, p) ==> is_name_continue(#[trigger] s[i]),
        !(p + name_len(s, p) < s.len() && is_name_continue(s[p + name_len(s, p)])),
    decreases s.len() - p,
{
    if p < s.len() && is_name_continue(s[p]) {
        lemma_name_len_bound(s, p + 1);
    }
}

/// A run of `m` name characters from `p` that is not followed by another is
/// what `name_len` counts.
pub(crate) proof fn lemma_name_len_exact(s: Seq<char>, p: int, m: int)
    requires
        0 <= p,
        0 <= m,
        p + m <= s.len(),
        forall|i: int| p <= i < p + m ==> is_name_continue(#[trigger] s[i]),
        !(p + m < s.len() && is_name_continue(s[p + m])),
    ensures
        name_len(s, p) == m,
    decreases m,
{
    if m > 0 {
        assert(is_name_continue(s[p]));
        lemma_name_len_exact(s, p + 1, m - 1);
    }
}

/// `kw` looks like a name.
pub open spec fn name_shaped(kw: Seq<char>) -> bool {
    &&& kw.len() > 0
    &&& is_name_start(kw[0])
    &&& forall|i: int| 0 <= i < kw.len() ==> is_name_continue(#[trigger] kw[i])
}

/// The keyword test at a token start is a test of the token's text.
proof fn lemma_keyword_is_token(s: Seq<char>, q: int, kw: Seq<char>)
    requires
        0 <= q,
        name_shaped(kw),
    ensures
        keyword_at(s, q, kw) <==> (q < s.len() && is_name_start(s[q]) && s.subrange(
            q,
            q + 1 + name_len(s, q + 1),
        ) == kw),
{
    lemma_name_len_bound(s, q + 1);
    let n = name_len(s, q + 1);
    if keyword_at(s, q, kw) {
        let m = kw.len() - 1;
        assert(s.subrange(q, q + kw.len())[0] == s[q]);
        assert forall|i: int| q + 1 <= i < q + 1 + m implies is_name_continue(#[trigger] s[i]) by {
            assert(s.subrange(q, q + kw.len())[i - q] == s[i]);
        }
        lemma_name_len_exact(s, q + 1, m);
    }
    if q < s.len() && is_name_start(s[q]) && s.subrange(q, q + 1 + n) == kw {
        assert(kw.len() == 1 + n);
    }
}

// --- a token's value depends only on its text ---

proof fn lemma_digits_cut(x: Seq<char>, y: Seq<char>, p: int)
    requires
        0 <= p,
        p + digits_len(x + y, p) <= x.len(),
    ensures
        digits_len(x, p) == digits_len(x + y, p),
    decreases x.len() - p,
{
    if p < x.len() {
        assert((x + y)[p] == x[p]);
        if is_digit(x[p]) {
            lemma_digits_cut(x, y, p + 1);
        }
    }
}

proof fn lemma_hex_cut(x: Seq<char>, y: Seq<char>, p: int)
    requires
        0 <= p,
        p + hex_len(x + y, p) <= x.len(),
    ensures
        hex_len(x, p) == hex_len(x + y, p),
    decreases x.len() - p,
{
    if p < x.len() {
        assert((x + y)[p] == x[p]);
        if is_hex_digit(x[p]) {
            lemma_hex_cut(x, y, p + 1);
        }
    }
}

proof fn lemma_at_cut(x: Seq<char>, y: Seq<char>, p: int, c: char)
    requires
        0 <= p < x.len(),
    ensures
        at_char(x + y, p, c) == at_char(x, p, c),
        (x + y)[p] == x[p],
{
}

proof fn lemma_sub_cut(x: Seq<char>, y: Seq<char>, a: int, b: int)
    requires
        0 <= a <= b <= x.len(),
    ensures
        (x + y).subrange(a, b) == x.subrange(a, b),
{
    assert((x + y).subrange(a, b) =~= x.subrange(a, b));
}

proof fn lemma_number_cut(x: Seq<char>, y: Seq<char>, p: int)
    requires
        0 <= p,
        parse_number(x + y, p) is Ok,
        parse_number(x + y, p)->Ok_0.1 <= x.len(),
    ensures
        parse_number(x, p) == parse_number(x + y, p),
{
    let s = x + y;
    let a0 = if at_char(s, p, '-') { p + 1 } else { p };
    let a = int_part_end(s, p)->Ok_0;
    let b = frac_part_end(s, a)->Ok_0.0;
    let c = exp_part_end(s, b)->Ok_0.0;
    assert(p < a <= b <= c <= x.len());
    lemma_at_cut(x, y, p, '-');
    lemma_at_cut(x, y, a0, '0');
    if !at_char(s, a0, '0') {
        lemma_digits_cut(x, y, a0);
    }
    assert(int_part_end(x, p) == int_part_end(s, p));
    if at_char(s, a, '.') {
        lemma_at_cut(x, y, a, '.');
        lemma_at_cut(x, y, a + 1, '0');
        lemma_digits_cut(x, y, a + 1);
    } else if a < x.len() {
        lemma_at_cut(x, y, a, '.');
    }
    assert(frac_part_end(x, a) == frac_part_end(s, a));
    if at_char(s, b, 'e') || at_char(s, b, 'E') {
        lemma_at_cut(x, y, b, 'e');
        lemma_at_cut(x, y, b, 'E');
        lemma_at_cut(x, y, b + 1, '+');
        lemma_at_cut(x, y, b + 1, '-');
        let d = if at_char(s, b + 1, '+') || at_char(s, b + 1, '-') { b + 2 } else { b + 1 };
        lemma_at_cut(x, y, d, '0');
        lemma_digits_cut(x, y, d);
    } else if b < x.len() {
        lemma_at_cut(x, y, b, 'e');
        lemma_at_cut(x, y, b, 'E');
    }
    assert(exp_part_end(x, b) == exp_part_end(s, b));
    lemma_sub_cut(x, y, p, c);
}

proof fn lemma_four_hex_cut(x: Seq<char>, y: Seq<char>, p: int)
    requires
        0 <= p,
        p + 4 <= x.len(),
    ensures
        read_four_hex(x, p) == read_four_hex(x + y, p),
{
    lemma_sub_cut(x, y, p, p + 4);
}

proof fn lemma_unicode_escape_cut(x: Seq<char>, y: Seq<char>, p: int)
    requires
        0 <= p,
        parse_unicode_escape(x + y, p) is Ok,
        parse_unicode_escape(x + y, p)->Ok_0.1 <= x.len(),
    ensures
        parse_unicode_escape(x, p) == parse_unicode_escape(x + y, p),
{
    let s = x + y;
    if at_char(s, p, '{') {
        lemma_at_cut(x, y, p, '{');
        let j = p + 1 + hex_len(s, p + 1);
        lemma_hex_cut(x, y, p + 1);
        lemma_at_cut(x, y, j, '}');
        lemma_sub_cut(x, y, p + 1, j);
    } else {
        if p < x.len() {
            lemma_at_cut(x, y, p, '{');
        }
        let (high, a) = read_four_hex(s, p)->Ok_0;
        lemma_four_hex_cut(x, y, p);
        if 0xD800 <= high && high <= 0xDBFF && at_char(s, a, '\\') && at_char(s, a + 1, 'u') {
            lemma_at_cut(x, y, a, '\\');
            lemma_at_cut(x, y, a + 1, 'u');
            lemma_four_hex_cut(x, y, a + 2);
        } else {
            if a < x.len() {
                lemma_at_cut(x, y, a, '\\');
            }
            if a + 1 < x.len() {
                lemma_at_cut(x, y, a + 1, 'u');
            }
        }
    }
}

proof fn lemma_escape_cut(x: Seq<char>, y: Seq<char>, p: int)
    requires
        0 <= p,
        parse_escape(x + y, p) is Ok,
        parse_escape(x + y, p)->Ok_0.1 <= x.len(),
    ensures
        parse_escape(x, p) == parse_escape(x + y, p),
{
    lemma_at_cut(x, y, p, ' ');
    let c = (x + y)[p];
    if c == 'u' {
        lemma_unicode_escape_cut(x, y, p + 1);
    }
}

proof fn lemma_string_body_cut(x: Seq<char>, y: Seq<char>, p: int)
    requires
        0 <= p,
        string_body(x + y, p) is Ok,
        string_body(x + y, p)->Ok_0.1 <= x.len(),
    ensures
        string_body(x, p) == string_body(x + y, p),
    decreases x.len() - p,
{
    let s = x + y;
    lemma_string_body_ends(s, p);
    lemma_at_cut(x, y, p, ' ');
    if s[p] == '\\' {
        lemma_escape_ends(s, p + 1);
        let (c, q) = parse_escape(s, p + 1)->Ok_0;
        lemma_string_body_ends(s, q);
        lemma_escape_cut(x, y, p + 1);
        lemma_string_body_cut(x, y, q);
    } else if s[p] != '"' {
        lemma_string_body_cut(x, y, p + 1);
    }
}

proof fn lemma_escape_ends(s: Seq<char>, p: int)
    requires
        0 <= p,
    ensures
        parse_escape(s, p) is Ok ==> parse_escape(s, p)->Ok_0.1 > p,
{
    if p < s.len() && s[p] == 'u' {
        lemma_unicode_escape_ends(s, p + 1);
    }
}

proof fn lemma_unicode_escape_ends(s: Seq<char>, p: int)
    requires
        0 <= p,
    ensures
        parse_unicode_escape(s, p) is Ok ==> parse_unicode_escape(s, p)->Ok_0.1 > p,
{
}

proof fn lemma_string_body_ends(s: Seq<char>, p: int)
    requires
        0 <= p,
    ensures
        string_body(s, p) is Ok ==> p < string_body(s, p)->Ok_0.1 <= s.len(),
    decreases s.len() - p,
{
    if 0 <= p < s.len() {
        if s[p] == '\\' {
            lemma_escape_ends(s, p + 1);
            if let Ok((c, q)) = parse_escape(s, p + 1) {
                if q > p {
                    lemma_string_body_ends(s, q);
                }
            }
        } else if s[p] != '"' && !is_line_end(s[p]) {
            lemma_string_body_ends(s, p + 1);
        }
    }
}

proof fn lemma_block_raw_ends(s: Seq<char>, p: int)
    requires
        0 <= p,
    ensures
        block_string_raw(s, p) is Ok ==> p + 3 <= block_string_raw(s, p)->Ok_0.1 <= s.len(),
    decreases s.len() - p,
{
    if starts_at(s, p, seq!['\\', '"', '"', '"']) {
        lemma_block_raw_ends(s, p + 4);
    } else if !starts_at(s, p, triple_quote()) && p < s.len() {
        lemma_block_raw_ends(s, p + 1);
    }
}

proof fn lemma_starts_cut(x: Seq<char>, y: Seq<char>, p: int, t: Seq<char>)
    requires
        0 <= p,
    ensures
        p + t.len() <= x.len() ==> starts_at(x, p, t) == starts_at(x + y, p, t),
        p + t.len() > x.len() ==> !starts_at(x, p, t),
{
    if p + t.len() <= x.len() {
        lemma_sub_cut(x, y, p, p + t.len());
    }
}

proof fn lemma_block_raw_cut(x: Seq<char>, y: Seq<char>, p: int)
    requires
        0 <= p,
        block_string_raw(x + y, p) is Ok,
        block_string_raw(x + y, p)->Ok_0.1 <= x.len(),
    ensures
        block_string_raw(x, p) == block_string_raw(x + y, p),
    decreases x.len() - p,
{
    let s = x + y;
    let bs = seq!['\\', '"', '"', '"'];
    lemma_block_raw_ends(s, p);
    lemma_starts_cut(x, y, p, bs);
    lemma_starts_cut(x, y, p, triple_quote());
    if starts_at(s, p, bs) {
        lemma_block_raw_ends(s, p + 4);
        lemma_block_raw_cut(x, y, p + 4);
    } else if starts_at(s, p, triple_quote()) {
        if p + 4 > x.len() {
            assert(!starts_at(x, p, bs));
        }
    } else {
        lemma_block_raw_ends(s, p + 1);
        lemma_at_cut(x, y, p, ' ');
        if p + 4 > x.len() {
            assert(!starts_at(x, p, bs));
        }
        if p + 3 > x.len() {
            assert(!starts_at(x, p, triple_quote()));
        }
        lemma_block_raw_cut(x, y, p + 1);
    }
}

proof fn lemma_string_cut(x: Seq<char>, y: Seq<char>, p: int)
    requires
        0 <= p,
        parse_string(x + y, p) is Ok,
        parse_string(x + y, p)->Ok_0.1 <= x.len(),
    ensures
        parse_string(x, p) == parse_string(x + y, p),
{
    let s = x + y;
    lemma_starts_cut(x, y, p, triple_quote());
    if starts_at(s, p, triple_quote()) {
        lemma_block_raw_cut(x, y, p + 3);
    } else {
        if p + 3 > x.len() {
            lemma_string_body_ends(s, p + 1);
            assert(!starts_at(x, p, triple_quote()));
        }
        lemma_string_body_cut(x, y, p + 1);
    }
}

/// A number token parses to what its text alone parses to.
pub(crate) proof fn lemma_number_text(s: Seq<char>, q: int)
    requires
        0 <= q,
        parse_number(s, q) is Ok,
    ensures
        q < parse_number(s, q)->Ok_0.1 <= s.len(),
        parse_number(s.subrange(q, parse_number(s, q)->Ok_0.1), 0) == Ok::<_, PErr>(
            (parse_number(s, q)->Ok_0.0, parse_number(s, q)->Ok_0.1 - q),
        ),
{
    let e = parse_number(s, q)->Ok_0.1;
    let emp = Seq::<char>::empty();
    assert(emp + s =~= s);
    lemma_int_part_end(emp, s, q);
    let a = int_part_end(s, q)->Ok_0;
    lemma_frac_part_end(emp, s, a);
    let b = frac_part_end(s, a)->Ok_0.0;
    lemma_exp_part_end(emp, s, b);
    assert(q < e <= s.len());
    let pre = s.subrange(0, q);
    let rest = s.subrange(q, s.len() as int);
    assert(s =~= pre + rest);
    lemma_parse_number(pre, rest, 0);
    let text = s.subrange(q, e);
    let tail = s.subrange(e, s.len() as int);
    assert(rest =~= text + tail);
    lemma_number_cut(text, tail, 0);
}

/// A string token parses to what its text alone parses to.
pub(crate) proof fn lemma_string_text(s: Seq<char>, q: int)
    requires
        0 <= q,
        parse_string(s, q) is Ok,
    ensures
        q < parse_string(s, q)->Ok_0.1 <= s.len(),
        parse_string(s.subrange(q, parse_string(s, q)->Ok_0.1), 0) == Ok::<_, PErr>(
            (parse_string(s, q)->Ok_0.0, parse_string(s, q)->Ok_0.1 - q),
        ),
{
    let e = parse_string(s, q)->Ok_0.1;
    lemma_string_body_ends(s, q + 1);
    lemma_block_raw_ends(s, q + 3);
    assert(q < e <= s.len());
    let pre = s.subrange(0, q);
    let rest = s.subrange(q, s.len() as int);
    assert(s =~= pre + rest);
    lemma_parse_string(pre, rest, 0);
    let text = s.subrange(q, e);
    let tail = s.subrange(e, s.len() as int);
    assert(rest =~= text + tail);
    lemma_string_cut(text, tail, 0);
}

// --- reading the same tokens ---

/// A read's result is the same on both sources, and both read on from
/// positions with the same tokens; or both fail.
pub open spec fn agree<T>(s1: Seq<char>, r1: PRes<T>, s2: Seq<char>, r2: PRes<T>) -> bool {
    match r1 {
        Ok((v1, e1)) => match r2 {
            Ok((v2, e2)) => v1 == v2 && same_tokens(s1, e1, s2, e2),
            Err(_) => false,
        },
        Err(_) => r2 is Err,
    }
}

/// A successful read ends between `lo` and `hi`.
pub open spec fn ends_in<T>(r: PRes<T>, lo: int, hi: int) -> bool {
    match r {
        Ok((_, e)) => lo <= e <= hi,
        Err(_) => true,
    }
}

/// Equal token runs start alike: both at the end, or both at the same
/// character, and both continue alike after their first token.
proof fn lemma_same_first(s1: Seq<char>, p1: int, s2: Seq<char>, p2: int)
    requires
        0 <= p1,
        0 <= p2,
        same_tokens(s1, p1, s2, p2),
    ensures
        ({
            let q1 = skip_ignored(s1, p1);
            let q2 = skip_ignored(s2, p2);
            &&& p1 <= q1
            &&& p2 <= q2
            &&& (q1 < s1.len()) == (q2 < s2.len())
            &&& q1 < s1.len() ==> {
                &&& s1[q1] == s2[q2]
                &&& token_end(s1, q1) is Some
                &&& token_end(s2, q2) is Some
                &&& q1 < token_end(s1, q1)->0 <= s1.len()
                &&& q2 < token_end(s2, q2)->0 <= s2.len()
                &&& s1.subrange(q1, token_end(s1, q1)->0) == s2.subrange(
                    q2,
                    token_end(s2, q2)->0,
                )
                &&& same_tokens(s1, token_end(s1, q1)->0, s2, token_end(s2, q2)->0)
            }
            &&& forall|c: char| at_char(s1, q1, c) == at_char(s2, q2, c)
        }),
{
    lemma_tokens_step(s1, p1);
    lemma_tokens_step(s2, p2);
    let q1 = skip_ignored(s1, p1);
    let q2 = skip_ignored(s2, p2);
    if q1 < s1.len() {
        let e1 = token_end(s1, q1)->0;
        let e2 = token_end(s2, q2)->0;
        assert(s1.subrange(q1, e1)[0] == s1[q1]);
        assert(s2.subrange(q2, e2)[0] == s2[q2]);
    }
}

/// A character that is a token by itself.
pub open spec fn is_punctuator(c: char) -> bool {
    !is_name_start(c) && !is_digit(c) && c != '-' && c != '"'
}

proof fn lemma_expect_same(s1: Seq<char>, p1: int, s2: Seq<char>, p2: int, c: char)
    requires
        0 <= p1,
        0 <= p2,
        same_tokens(s1, p1, s2, p2),
        is_punctuator(c),
    ensures
        expect(s1, p1, c) is Ok == expect(s2, p2, c) is Ok,
        expect(s1, p1, c) is Ok ==> {
            &&& same_tokens(s1, expect(s1, p1, c)->Ok_0, s2, expect(s2, p2, c)->Ok_0)
            &&& p1 < expect(s1, p1, c)->Ok_0 <= s1.len()
            &&& p2 < expect(s2, p2, c)->Ok_0 <= s2.len()
        },
{
    lemma_same_first(s1, p1, s2, p2);
}

proof fn lemma_consume_same(s1: Seq<char>, p1: int, s2: Seq<char>, p2: int, c: char)
    requires
        0 <= p1 <= s1.len(),
        0 <= p2 <= s2.len(),
        same_tokens(s1, p1, s2, p2),
        is_punctuator(c),
    ensures
        consume(s1, p1, c).0 == consume(s2, p2, c).0,
        same_tokens(s1, consume(s1, p1, c).1, s2, consume(s2, p2, c).1),
        p1 <= consume(s1, p1, c).1 <= s1.len(),
        p2 <= consume(s2, p2, c).1 <= s2.len(),
{
    lemma_same_first(s1, p1, s2, p2);
    lemma_skip_twice(s1, p1);
    lemma_skip_twice(s2, p2);
    lemma_skip_bound(s1, p1);
    lemma_skip_bound(s2, p2);
}

proof fn lemma_skip_bound(s: Seq<char>, p: int)
    requires
        0 <= p <= s.len(),
    ensures
        p <= skip_ignored(s, p) <= s.len(),
    decreases s.len() - p,
{
    lemma_ignored_bound(s, p);
}

proof fn lemma_ignored_bound(s: Seq<char>, p: int)
    requires
        0 <= p <= s.len(),
    ensures
        p + ignored_len(s, p) <= s.len(),
        p + comment_len(s, p) <= s.len(),
    decreases s.len() - p,
{
    if p < s.len() {
        lemma_ignored_bound(s, p + 1);
    }
}

proof fn lemma_name_same(s1: Seq<char>, p1: int, s2: Seq<char>, p2: int)
    requires
        0 <= p1,
        0 <= p2,
        same_tokens(s1, p1, s2, p2),
    ensures
        agree(s1, parse_name(s1, p1), s2, parse_name(s2, p2)),
        ends_in(parse_name(s1, p1), p1 + 1, s1.len() as int),
        ends_in(parse_name(s2, p2), p2 + 1, s2.len() as int),
{
    lemma_same_first(s1, p1, s2, p2);
}

proof fn lemma_keyword_same(s1: Seq<char>, p1: int, s2: Seq<char>, p2: int, kw: Seq<char>)
    requires
        0 <= p1,
        0 <= p2,
        same_tokens(s1, p1, s2, p2),
        name_shaped(kw),
    ensures
        peek_keyword(s1, p1, kw) == peek_keyword(s2, p2, kw),
        keyword_at(s1, skip_ignored(s1, p1), kw) == keyword_at(s2, skip_ignored(s2, p2), kw),
{
    lemma_same_first(s1, p1, s2, p2);
    lemma_keyword_is_token(s1, skip_ignored(s1, p1), kw);
    lemma_keyword_is_token(s2, skip_ignored(s2, p2), kw);
}

proof fn lemma_number_same(s1: Seq<char>, p1: int, s2: Seq<char>, p2: int)
    requires
        0 <= p1,
        0 <= p2,
        same_tokens(s1, p1, s2, p2),
        skip_ignored(s1, p1) < s1.len(),
        s1[skip_ignored(s1, p1)] == '-' || is_digit(s1[skip_ignored(s1, p1)]),
    ensures
        agree(
            s1,
            parse_number(s1, skip_ignored(s1, p1)),
            s2,
            parse_number(s2, skip_ignored(s2, p2)),
        ),
        parse_number(s1, skip_ignored(s1, p1)) is Ok,
        ends_in(parse_number(s1, skip_ignored(s1, p1)), p1 + 1, s1.len() as int),
        ends_in(parse_number(s2, skip_ignored(s2, p2)), p2 + 1, s2.len() as int),
{
    lemma_same_first(s1, p1, s2, p2);
    let q1 = skip_ignored(s1, p1);
    let q2 = skip_ignored(s2, p2);
    lemma_number_text(s1, q1);
    lemma_number_text(s2, q2);
}

proof fn lemma_string_same(s1: Seq<char>, p1: int, s2: Seq<char>, p2: int)
    requires
        0 <= p1,
        0 <= p2,
        same_tokens(s1, p1, s2, p2),
        skip_ignored(s1, p1) < s1.len(),
        s1[skip_ignored(s1, p1)] == '"',
    ensures
        agree(
            s1,
            parse_string(s1, skip_ignored(s1, p1)),
            s2,
            parse_string(s2, skip_ignored(s2, p2)),
        ),
        parse_string(s1, skip_ignored(s1, p1)) is Ok,
        ends_in(parse_string(s1, skip_ignored(s1, p1)), p1 + 1, s1.len() as int),
        ends_in(parse_string(s2, skip_ignored(s2, p2)), p2 + 1, s2.len() as int),
{
    lemma_same_first(s1, p1, s2, p2);
    let q1 = skip_ignored(s1, p1);
    let q2 = skip_ignored(s2, p2);
    lemma_string_text(s1, q1);
    lemma_string_text(s2, q2);
}

// --- values ---

#[verifier::spinoff_prover]
proof fn lemma_value_same(s1: Seq<char>, p1: int, s2: Seq<char>, p2: int, is_const: bool)
    requires
        0 <= p1 <= s1.len(),
        0 <= p2 <= s2.len(),
        same_tokens(s1, p1, s2, p2),
    ensures
        agree(s1, parse_value(s1, p1, is_const), s2, parse_value(s2, p2, is_const)),
        ends_in(parse_value(s1, p1, is_const), p1 + 1, s1.len() as int),
        ends_in(parse_value(s2, p2, is_const), p2 + 1, s2.len() as int),
    decreases s1.len() - p1, 0int,
{
    lemma_same_first(s1, p1, s2, p2);
    lemma_skip_twice(s1, p1);
    lemma_skip_twice(s2, p2);
    let q1 = skip_ignored(s1, p1);
    let q2 = skip_ignored(s2, p2);
    if q1 < s1.len() {
        let c = s1[q1];
        if c == '$' {
            lemma_name_same(s1, q1 + 1, s2, q2 + 1);
        } else if c == '[' {
            lemma_list_same(s1, q1 + 1, s2, q2 + 1, is_const);
        } else if c == '{' {
            lemma_object_same(s1, q1 + 1, s2, q2 + 1, is_const);
        } else if c == '"' {
            lemma_string_same(s1, p1, s2, p2);
        } else if c == '-' || is_digit(c) {
            lemma_number_same(s1, p1, s2, p2);
        } else if is_name_start(c) {
            lemma_name_same(s1, q1, s2, q2);
        }
    }
}

#[verifier::spinoff_prover]
proof fn lemma_list_same(s1: Seq<char>, p1: int, s2: Seq<char>, p2: int, is_const: bool)
    requires
        0 <= p1 <= s1.len(),
        0 <= p2 <= s2.len(),
        same_tokens(s1, p1, s2, p2),
    ensures
        agree(s1, parse_list_items(s1, p1, is_const), s2, parse_list_items(s2, p2, is_const)),
        ends_in(parse_list_items(s1, p1, is_const), p1 + 1, s1.len() as int),
        ends_in(parse_list_items(s2, p2, is_const), p2 + 1, s2.len() as int),
    decreases s1.len() - p1, 1int,
{
    lemma_same_first(s1, p1, s2, p2);
    lemma_skip_twice(s1, p1);
    lemma_skip_twice(s2, p2);
    let q1 = skip_ignored(s1, p1);
    let q2 = skip_ignored(s2, p2);
    if !at_char(s1, q1, ']') && q1 < s1.len() {
        lemma_value_same(s1, q1, s2, q2, is_const);
        if let Ok((v, r1)) = parse_value(s1, q1, is_const) {
            let r2 = parse_value(s2, q2, is_const)->Ok_0.1;
            lemma_list_same(s1, r1, s2, r2, is_const);
        }
    }
}

#[verifier::spinoff_prover]
proof fn lemma_object_same(s1: Seq<char>, p1: int, s2: Seq<char>, p2: int, is_const: bool)
    requires
        0 <= p1 <= s1.len(),
        0 <= p2 <= s2.len(),
        same_tokens(s1, p1, s2, p2),
    ensures
        agree(s1, parse_object_fields(s1, p1, is_const), s2, parse_object_fields(s2, p2, is_const)),
        ends_in(parse_object_fields(s1, p1, is_const), p1 + 1, s1.len() as int),
        ends_in(parse_object_fields(s2, p2, is_const), p2 + 1, s2.len() as int),
    decreases s1.len() - p1, 1int,
{
    lemma_same_first(s1, p1, s2, p2);
    lemma_skip_twice(s1, p1);
    lemma_skip_twice(s2, p2);
    let q1 = skip_ignored(s1, p1);
    let q2 = skip_ignored(s2, p2);
    if !at_char(s1, q1, '}') && q1 < s1.len() {
        lemma_name_same(s1, q1, s2, q2);
        if let Ok((n, a1)) = parse_name(s1, q1) {
            let a2 = parse_name(s2, q2)->Ok_0.1;
            lemma_expect_same(s1, a1, s2, a2, ':');
            if let Ok(b1) = expect(s1, a1, ':') {
                let b2 = expect(s2, a2, ':')->Ok_0;
                lemma_value_same(s1, b1, s2, b2, is_const);
                if let Ok((v, r1)) = parse_value(s1, b1, is_const) {
                    let r2 = parse_value(s2, b2, is_const)->Ok_0.1;
                    lemma_object_same(s1, r1, s2, r2, is_const);
                }
            }
        }
    }
}

// --- types, arguments, directives, variable definitions ---

#[verifier::spinoff_prover]
proof fn lemma_type_same(s1: Seq<char>, p1: int, s2: Seq<char>, p2: int)
    requires
        0 <= p1 <= s1.len(),
        0 <= p2 <= s2.len(),
        same_tokens(s1, p1, s2, p2),
    ensures
        agree(s1, parse_type(s1, p1), s2, parse_type(s2, p2)),
        ends_in(parse_type(s1, p1), p1 + 1, s1.len() as int),
        ends_in(parse_type(s2, p2), p2 + 1, s2.len() as int),
    decreases s1.len() - p1,
{
    lemma_consume_same(s1, p1, s2, p2, '[');
    let (open, q1) = consume(s1, p1, '[');
    let q2 = consume(s2, p2, '[').1;
    if open {
        lemma_type_same(s1, q1, s2, q2);
        if let Ok((inner, r1)) = parse_type(s1, q1) {
            let r2 = parse_type(s2, q2)->Ok_0.1;
            lemma_expect_same(s1, r1, s2, r2, ']');
            if let Ok(e1) = expect(s1, r1, ']') {
                lemma_consume_same(s1, e1, s2, expect(s2, r2, ']')->Ok_0, '!');
            }
        }
    } else {
        lemma_name_same(s1, q1, s2, q2);
        if let Ok((n, e1)) = parse_name(s1, q1) {
            lemma_consume_same(s1, e1, s2, parse_name(s2, q2)->Ok_0.1, '!');
        }
    }
}

/// With no tokens left, an argument list is unterminated.
proof fn lemma_argument_items_at_end(s: Seq<char>, p: int)
    requires
        0 <= p,
        skip_ignored(s, p) >= s.len(),
    ensures
        parse_argument_items(s, p) is Err,
{
}

#[verifier::spinoff_prover]
proof fn lemma_argument_items_same(s1: Seq<char>, p1: int, s2: Seq<char>, p2: int)
    requires
        0 <= p1 <= s1.len(),
        0 <= p2 <= s2.len(),
        same_tokens(s1, p1, s2, p2),
    ensures
        agree(s1, parse_argument_items(s1, p1), s2, parse_argument_items(s2, p2)),
        ends_in(parse_argument_items(s1, p1), p1 + 1, s1.len() as int),
        ends_in(parse_argument_items(s2, p2), p2 + 1, s2.len() as int),
    decreases s1.len() - p1,
{
    lemma_same_first(s1, p1, s2, p2);
    lemma_skip_twice(s1, p1);
    lemma_skip_twice(s2, p2);
    let q1 = skip_ignored(s1, p1);
    let q2 = skip_ignored(s2, p2);
    if !at_char(s1, q1, ')') {
        lemma_name_same(s1, q1, s2, q2);
        if let Ok((n, a1)) = parse_name(s1, q1) {
            let a2 = parse_name(s2, q2)->Ok_0.1;
            lemma_expect_same(s1, a1, s2, a2, ':');
            if let Ok(b1) = expect(s1, a1, ':') {
                let b2 = expect(s2, a2, ':')->Ok_0;
                lemma_value_same(s1, b1, s2, b2, false);
                if let Ok((v, r1)) = parse_value(s1, b1, false) {
                    let r2 = parse_value(s2, b2, false)->Ok_0.1;
                    lemma_same_first(s1, r1, s2, r2);
                    if r1 >= s1.len() && r2 < s2.len() {
                        lemma_argument_items_at_end(s2, r2);
                    } else if r2 >= s2.len() && r1 < s1.len() {
                        lemma_argument_items_at_end(s1, r1);
                    } else if r1 < s1.len() {
                        lemma_argument_items_same(s1, r1, s2, r2);
                    }
                }
            }
        }
    }
}

proof fn lemma_arguments_same(s1: Seq<char>, p1: int, s2: Seq<char>, p2: int)
    requires
        0 <= p1 <= s1.len(),
        0 <= p2 <= s2.len(),
        same_tokens(s1, p1, s2, p2),
    ensures
        agree(s1, parse_arguments(s1, p1), s2, parse_arguments(s2, p2)),
        ends_in(parse_arguments(s1, p1), p1, s1.len() as int),
        ends_in(parse_arguments(s2, p2), p2, s2.len() as int),
{
    lemma_consume_same(s1, p1, s2, p2, '(');
    lemma_argument_items_same(s1, consume(s1, p1, '(').1, s2, consume(s2, p2, '(').1);
}

#[verifier::spinoff_prover]
proof fn lemma_directives_same(s1: Seq<char>, p1: int, s2: Seq<char>, p2: int)
    requires
        0 <= p1 <= s1.len(),
        0 <= p2 <= s2.len(),
        same_tokens(s1, p1, s2, p2),
    ensures
        agree(s1, parse_directives(s1, p1), s2, parse_directives(s2, p2)),
        ends_in(parse_directives(s1, p1), p1, s1.len() as int),
        ends_in(parse_directives(s2, p2), p2, s2.len() as int),
    decreases s1.len() - p1,
{
    lemma_same_first(s1, p1, s2, p2);
    lemma_skip_twice(s1, p1);
    lemma_skip_twice(s2, p2);
    lemma_skip_bound(s1, p1);
    lemma_skip_bound(s2, p2);
    let q1 = skip_ignored(s1, p1);
    let q2 = skip_ignored(s2, p2);
    if at_char(s1, q1, '@') {
        lemma_name_same(s1, q1 + 1, s2, q2 + 1);
        if let Ok((n, a1)) = parse_name(s1, q1 + 1) {
            let a2 = parse_name(s2, q2 + 1)->Ok_0.1;
            lemma_arguments_same(s1, a1, s2, a2);
            if let Ok((args, b1)) = parse_arguments(s1, a1) {
                let b2 = parse_arguments(s2, a2)->Ok_0.1;
                lemma_directives_same(s1, b1, s2, b2);
            }
        }
    }
}

proof fn lemma_default_value_same(s1: Seq<char>, p1: int, s2: Seq<char>, p2: int)
    requires
        0 <= p1 <= s1.len(),
        0 <= p2 <= s2.len(),
        same_tokens(s1, p1, s2, p2),
    ensures
        agree(s1, parse_default_value(s1, p1), s2, parse_default_value(s2, p2)),
        ends_in(parse_default_value(s1, p1), p1, s1.len() as int),
        ends_in(parse_default_value(s2, p2), p2, s2.len() as int),
{
    lemma_consume_same(s1, p1, s2, p2, '=');
    lemma_value_same(s1, consume(s1, p1, '=').1, s2, consume(s2, p2, '=').1, true);
}

#[verifier::spinoff_prover]
proof fn lemma_variable_definition_same(s1: Seq<char>, p1: int, s2: Seq<char>, p2: int)
    requires
        0 <= p1 <= s1.len(),
        0 <= p2 <= s2.len(),
        same_tokens(s1, p1, s2, p2),
    ensures
        agree(s1, parse_variable_definition(s1, p1), s2, parse_variable_definition(s2, p2)),
        ends_in(parse_variable_definition(s1, p1), p1 + 1, s1.len() as int),
        ends_in(parse_variable_definition(s2, p2), p2 + 1, s2.len() as int),
{
    reveal(parse_variable_definition);
    lemma_expect_same(s1, p1, s2, p2, '$');
    if let Ok(a1) = expect(s1, p1, '$') {
        let a2 = expect(s2, p2, '$')->Ok_0;
        lemma_name_same(s1, a1, s2, a2);
        if let Ok((variable, b1)) = parse_name(s1, a1) {
            let b2 = parse_name(s2, a2)->Ok_0.1;
            lemma_expect_same(s1, b1, s2, b2, ':');
            if let Ok(c1) = expect(s1, b1, ':') {
                let c2 = expect(s2, b2, ':')->Ok_0;
                lemma_type_same(s1, c1, s2, c2);
                if let Ok((ty, d1)) = parse_type(s1, c1) {
                    let d2 = parse_type(s2, c2)->Ok_0.1;
                    lemma_default_value_same(s1, d1, s2, d2);
                    if let Ok((dv, f1)) = parse_default_value(s1, d1) {
                        let f2 = parse_default_value(s2, d2)->Ok_0.1;
                        lemma_directives_same(s1, f1, s2, f2);
                    }
                }
            }
        }
    }
}

/// With no tokens left, a variable-definition list is unterminated.
proof fn lemma_variable_definition_items_at_end(s: Seq<char>, p: int)
    requires
        0 <= p,
        skip_ignored(s, p) >= s.len(),
    ensures
        parse_variable_definition_items(s, p) is Err,
{
    reveal(parse_variable_definition);
}

#[verifier::spinoff_prover]
proof fn lemma_variable_definition_items_same(s1: Seq<char>, p1: int, s2: Seq<char>, p2: int)
    requires
        0 <= p1 <= s1.len(),
        0 <= p2 <= s2.len(),
        same_tokens(s1, p1, s2, p2),
    ensures
        agree(
            s1,
            parse_variable_definition_items(s1, p1),
            s2,
            parse_variable_definition_items(s2, p2),
        ),
        ends_in(parse_variable_definition_items(s1, p1), p1 + 1, s1.len() as int),
        ends_in(parse_variable_definition_items(s2, p2), p2 + 1, s2.len() as int),
    decreases s1.len() - p1,
{
    lemma_same_first(s1, p1, s2, p2);
    lemma_skip_twice(s1, p1);
    lemma_skip_twice(s2, p2);
    let q1 = skip_ignored(s1, p1);
    let q2 = skip_ignored(s2, p2);
    if !at_char(s1, q1, ')') {
        lemma_skip_bound(s1, p1);
        lemma_skip_bound(s2, p2);
        lemma_variable_definition_same(s1, q1, s2, q2);
        if let Ok((d, r1)) = parse_variable_definition(s1, q1) {
            let r2 = parse_variable_definition(s2, q2)->Ok_0.1;
            lemma_same_first(s1, r1, s2, r2);
            if r1 >= s1.len() && r2 < s2.len() {
                lemma_variable_definition_items_at_end(s2, r2);
            } else if r2 >= s2.len() && r1 < s1.len() {
                lemma_variable_definition_items_at_end(s1, r1);
            } else if r1 < s1.len() {
                lemma_variable_definition_items_same(s1, r1, s2, r2);
            }
        }
    }
}

proof fn lemma_variable_definitions_same(s1: Seq<char>, p1: int, s2: Seq<char>, p2: int)
    requires
        0 <= p1 <= s1.len(),
        0 <= p2 <= s2.len(),
        same_tokens(s1, p1, s2, p2),
    ensures
        agree(s1, parse_variable_definitions(s1, p1), s2, parse_variable_definitions(s2, p2)),
        ends_in(parse_variable_definitions(s1, p1), p1, s1.len() as int),
        ends_in(parse_variable_definitions(s2, p2), p2, s2.len() as int),
{
    lemma_consume_same(s1, p1, s2, p2, '(');
    lemma_variable_definition_items_same(
        s1,
        consume(s1, p1, '(').1,
        s2,
        consume(s2, p2, '(').1,
    );
}

// --- selections ---

proof fn lemma_keywords_shaped()
    ensures
        name_shaped("on"@),
        name_shaped("query"@),
        name_shaped("mutation"@),
        name_shaped("subscription"@),
        name_shaped("fragment"@),
{
    reveal_strlit("on");
    reveal_strlit("query");
    reveal_strlit("mutation");
    reveal_strlit("subscription");
    reveal_strlit("fragment");
}

#[verifier::spinoff_prover]
proof fn lemma_selection_set_same(s1: Seq<char>, p1: int, s2: Seq<char>, p2: int)
    requires
        0 <= p1 <= s1.len(),
        0 <= p2 <= s2.len(),
        same_tokens(s1, p1, s2, p2),
    ensures
        agree(s1, parse_selection_set(s1, p1), s2, parse_selection_set(s2, p2)),
        ends_in(parse_selection_set(s1, p1), p1 + 1, s1.len() as int),
        ends_in(parse_selection_set(s2, p2), p2 + 1, s2.len() as int),
    decreases s1.len() - p1, 3int,
{
    lemma_expect_same(s1, p1, s2, p2, '{');
    if let Ok(a1) = expect(s1, p1, '{') {
        lemma_selection_items_same(s1, a1, s2, expect(s2, p2, '{')->Ok_0);
    }
}

#[verifier::spinoff_prover]
proof fn lemma_selection_items_same(s1: Seq<char>, p1: int, s2: Seq<char>, p2: int)
    requires
        0 <= p1 <= s1.len(),
        0 <= p2 <= s2.len(),
        same_tokens(s1, p1, s2, p2),
    ensures
        agree(s1, parse_selection_items(s1, p1), s2, parse_selection_items(s2, p2)),
        ends_in(parse_selection_items(s1, p1), p1 + 1, s1.len() as int),
        ends_in(parse_selection_items(s2, p2), p2 + 1, s2.len() as int),
    decreases s1.len() - p1, 2int,
{
    lemma_same_first(s1, p1, s2, p2);
    lemma_skip_twice(s1, p1);
    lemma_skip_twice(s2, p2);
    let q1 = skip_ignored(s1, p1);
    let q2 = skip_ignored(s2, p2);
    if !at_char(s1, q1, '}') && q1 < s1.len() {
        lemma_selection_same(s1, q1, s2, q2);
        if let Ok((sel, r1)) = parse_selection(s1, q1) {
            let r2 = parse_selection(s2, q2)->Ok_0.1;
            lemma_selection_items_same(s1, r1, s2, r2);
        }
    }
}

#[verifier::spinoff_prover]
#[verifier::rlimit(80)]
proof fn lemma_selection_same(s1: Seq<char>, p1: int, s2: Seq<char>, p2: int)
    requires
        0 <= p1 <= s1.len(),
        0 <= p2 <= s2.len(),
        same_tokens(s1, p1, s2, p2),
    ensures
        agree(s1, parse_selection(s1, p1), s2, parse_selection(s2, p2)),
        ends_in(parse_selection(s1, p1), p1 + 1, s1.len() as int),
        ends_in(parse_selection(s2, p2), p2 + 1, s2.len() as int),
    decreases s1.len() - p1, 1int,
{
    lemma_same_first(s1, p1, s2, p2);
    lemma_skip_twice(s1, p1);
    lemma_skip_twice(s2, p2);
    lemma_keywords_shaped();
    let q1 = skip_ignored(s1, p1);
    let q2 = skip_ignored(s2, p2);
    if at_char(s1, q1, '.') {
        lemma_expect_same(s1, q1, s2, q2, '.');
        let x1 = expect(s1, q1, '.')->Ok_0;
        let x2 = expect(s2, q2, '.')->Ok_0;
        lemma_expect_same(s1, x1, s2, x2, '.');
        if let Ok(y1) = expect(s1, x1, '.') {
            let y2 = expect(s2, x2, '.')->Ok_0;
            lemma_expect_same(s1, y1, s2, y2, '.');
            if let Ok(a1) = expect(s1, y1, '.') {
                let a2 = expect(s2, y2, '.')->Ok_0;
                lemma_keyword_same(s1, a1, s2, a2, "on"@);
                lemma_same_first(s1, a1, s2, a2);
                if peek_keyword(s1, a1, "on"@) {
                    lemma_name_same(s1, a1, s2, a2);
                    let b1 = parse_name(s1, a1)->Ok_0.1;
                    let b2 = parse_name(s2, a2)->Ok_0.1;
                    lemma_name_same(s1, b1, s2, b2);
                    if let Ok((tc, c1)) = parse_name(s1, b1) {
                        let c2 = parse_name(s2, b2)->Ok_0.1;
                        lemma_directives_same(s1, c1, s2, c2);
                        if let Ok((ds, d1)) = parse_directives(s1, c1) {
                            let d2 = parse_directives(s2, c2)->Ok_0.1;
                            lemma_selection_set_same(s1, d1, s2, d2);
                        }
                    }
                } else if peek_is(s1, a1, '@') || peek_is(s1, a1, '{') {
                    lemma_directives_same(s1, a1, s2, a2);
                    if let Ok((ds, d1)) = parse_directives(s1, a1) {
                        let d2 = parse_directives(s2, a2)->Ok_0.1;
                        lemma_selection_set_same(s1, d1, s2, d2);
                    }
                } else {
                    lemma_name_same(s1, a1, s2, a2);
                    if let Ok((n, b1)) = parse_name(s1, a1) {
                        lemma_directives_same(s1, b1, s2, parse_name(s2, a2)->Ok_0.1);
                    }
                }
            }
        }
    } else {
        lemma_field_same(s1, p1, s2, p2);
    }
}

#[verifier::spinoff_prover]
proof fn lemma_field_same(s1: Seq<char>, p1: int, s2: Seq<char>, p2: int)
    requires
        0 <= p1 <= s1.len(),
        0 <= p2 <= s2.len(),
        same_tokens(s1, p1, s2, p2),
    ensures
        agree(s1, parse_field(s1, p1), s2, parse_field(s2, p2)),
        ends_in(parse_field(s1, p1), p1 + 1, s1.len() as int),
        ends_in(parse_field(s2, p2), p2 + 1, s2.len() as int),
    decreases s1.len() - p1, 0int,
{
    lemma_name_same(s1, p1, s2, p2);
    if let Ok((first, a1)) = parse_name(s1, p1) {
        let a2 = parse_name(s2, p2)->Ok_0.1;
        lemma_consume_same(s1, a1, s2, a2, ':');
        let (colon, b1) = consume(s1, a1, ':');
        let b2 = consume(s2, a2, ':').1;
        lemma_name_same(s1, b1, s2, b2);
        let c1 = if colon { parse_name(s1, b1)->Ok_0.1 } else { b1 };
        let c2 = if colon { parse_name(s2, b2)->Ok_0.1 } else { b2 };
        if !colon || parse_name(s1, b1) is Ok {
            lemma_arguments_same(s1, c1, s2, c2);
            if let Ok((arguments, d1)) = parse_arguments(s1, c1) {
                let d2 = parse_arguments(s2, c2)->Ok_0.1;
                lemma_directives_same(s1, d1, s2, d2);
                if let Ok((directives, e1)) = parse_directives(s1, d1) {
                    let e2 = parse_directives(s2, d2)->Ok_0.1;
                    lemma_same_first(s1, e1, s2, e2);
                    lemma_skip_twice(s1, e1);
                    lemma_skip_twice(s2, e2);
                    lemma_skip_bound(s1, e1);
                    lemma_skip_bound(s2, e2);
                    let q1 = skip_ignored(s1, e1);
                    let q2 = skip_ignored(s2, e2);
                    if at_char(s1, q1, '{') {
                        lemma_selection_set_same(s1, q1, s2, q2);
                    }
                }
            }
        }
    }
}

// --- definitions ---

#[verifier::spinoff_prover]
proof fn lemma_operation_same(s1: Seq<char>, p1: int, s2: Seq<char>, p2: int)
    requires
        0 <= p1 <= s1.len(),
        0 <= p2 <= s2.len(),
        same_tokens(s1, p1, s2, p2),
    ensures
        agree(s1, parse_operation_definition(s1, p1), s2, parse_operation_definition(s2, p2)),
        ends_in(parse_operation_definition(s1, p1), p1 + 1, s1.len() as int),
        ends_in(parse_operation_definition(s2, p2), p2 + 1, s2.len() as int),
{
    lemma_keywords_shaped();
    lemma_keyword_same(s1, p1, s2, p2, "query"@);
    lemma_keyword_same(s1, p1, s2, p2, "mutation"@);
    lemma_name_same(s1, p1, s2, p2);
    if let Ok((_, a1)) = parse_name(s1, p1) {
        let a2 = parse_name(s2, p2)->Ok_0.1;
        lemma_same_first(s1, a1, s2, a2);
        lemma_name_same(s1, a1, s2, a2);
        let q1 = skip_ignored(s1, a1);
        let named = 0 <= q1 < s1.len() && is_name_start(s1[q1]);
        let b1 = if named { parse_name(s1, a1)->Ok_0.1 } else { a1 };
        let b2 = if named { parse_name(s2, a2)->Ok_0.1 } else { a2 };
        if !named || parse_name(s1, a1) is Ok {
            lemma_variable_definitions_same(s1, b1, s2, b2);
            if let Ok((vds, c1)) = parse_variable_definitions(s1, b1) {
                let c2 = parse_variable_definitions(s2, b2)->Ok_0.1;
                lemma_directives_same(s1, c1, s2, c2);
                if let Ok((ds, d1)) = parse_directives(s1, c1) {
                    let d2 = parse_directives(s2, c2)->Ok_0.1;
                    lemma_selection_set_same(s1, d1, s2, d2);
                }
            }
        }
    }
}

#[verifier::spinoff_prover]
proof fn lemma_fragment_same(s1: Seq<char>, p1: int, s2: Seq<char>, p2: int)
    requires
        0 <= p1 <= s1.len(),
        0 <= p2 <= s2.len(),
        same_tokens(s1, p1, s2, p2),
    ensures
        agree(s1, parse_fragment_definition(s1, p1), s2, parse_fragment_definition(s2, p2)),
        ends_in(parse_fragment_definition(s1, p1), p1 + 1, s1.len() as int),
        ends_in(parse_fragment_definition(s2, p2), p2 + 1, s2.len() as int),
{
    lemma_keywords_shaped();
    lemma_name_same(s1, p1, s2, p2);
    if let Ok((_, a1)) = parse_name(s1, p1) {
        let a2 = parse_name(s2, p2)->Ok_0.1;
        lemma_name_same(s1, a1, s2, a2);
        if let Ok((name, b1)) = parse_name(s1, a1) {
            let b2 = parse_name(s2, a2)->Ok_0.1;
            lemma_variable_definitions_same(s1, b1, s2, b2);
            if let Ok((vds, c1)) = parse_variable_definitions(s1, b1) {
                let c2 = parse_variable_definitions(s2, b2)->Ok_0.1;
                lemma_keyword_same(s1, c1, s2, c2, "on"@);
                lemma_name_same(s1, c1, s2, c2);
                if let Ok((_, d1)) = parse_name(s1, c1) {
                    let d2 = parse_name(s2, c2)->Ok_0.1;
                    lemma_name_same(s1, d1, s2, d2);
                    if let Ok((tc, e1)) = parse_name(s1, d1) {
                        let e2 = parse_name(s2, d2)->Ok_0.1;
                        lemma_directives_same(s1, e1, s2, e2);
                        if let Ok((ds, f1)) = parse_directives(s1, e1) {
                            let f2 = parse_directives(s2, e2)->Ok_0.1;
                            lemma_selection_set_same(s1, f1, s2, f2);
                        }
                    }
                }
            }
        }
    }
}

#[verifier::spinoff_prover]
proof fn lemma_definition_same(s1: Seq<char>, p1: int, s2: Seq<char>, p2: int)
    requires
        0 <= p1 <= s1.len(),
        0 <= p2 <= s2.len(),
        same_tokens(s1, p1, s2, p2),
    ensures
        agree(s1, parse_definition(s1, p1), s2, parse_definition(s2, p2)),
        ends_in(parse_definition(s1, p1), p1 + 1, s1.len() as int),
        ends_in(parse_definition(s2, p2), p2 + 1, s2.len() as int),
{
    lemma_keywords_shaped();
    lemma_same_first(s1, p1, s2, p2);
    lemma_skip_twice(s1, p1);
    lemma_skip_twice(s2, p2);
    lemma_skip_bound(s1, p1);
    lemma_skip_bound(s2, p2);
    lemma_keyword_same(s1, p1, s2, p2, "fragment"@);
    lemma_keyword_same(s1, p1, s2, p2, "query"@);
    lemma_keyword_same(s1, p1, s2, p2, "mutation"@);
    lemma_keyword_same(s1, p1, s2, p2, "subscription"@);
    let q1 = skip_ignored(s1, p1);
    let q2 = skip_ignored(s2, p2);
    lemma_selection_set_same(s1, q1, s2, q2);
    lemma_fragment_same(s1, q1, s2, q2);
    lemma_operation_same(s1, q1, s2, q2);
}

#[verifier::spinoff_prover]
proof fn lemma_definitions_same(s1: Seq<char>, p1: int, s2: Seq<char>, p2: int)
    requires
        0 <= p1 <= s1.len(),
        0 <= p2 <= s2.len(),
        same_tokens(s1, p1, s2, p2),
    ensures
        agree(s1, parse_definitions(s1, p1), s2, parse_definitions(s2, p2)),
    decreases s1.len() - p1,
{
    lemma_same_first(s1, p1, s2, p2);
    lemma_skip_twice(s1, p1);
    lemma_skip_twice(s2, p2);
    lemma_skip_bound(s1, p1);
    lemma_skip_bound(s2, p2);
    let q1 = skip_ignored(s1, p1);
    let q2 = skip_ignored(s2, p2);
    if q1 < s1.len() {
        lemma_definition_same(s1, q1, s2, q2);
        if let Ok((d, r1)) = parse_definition(s1, q1) {
            let r2 = parse_definition(s2, q2)->Ok_0.1;
            lemma_definitions_same(s1, r1, s2, r2);
        }
    }
}

/// Two sources with the same tokens parse alike, whatever whitespace,
/// commas and comments stand between the tokens: both to the same
/// document, or both fail.
pub proof fn law_same_tokens_same_document(s1: Seq<char>, s2: Seq<char>)
    requires
        tokens(s1, 0) is Some,
        tokens(s1, 0) == tokens(s2, 0),
    ensures
        parse_document(s1) is Ok <==> parse_document(s2) is Ok,
        parse_document(s1) is Ok ==> parse_document(s1) == parse_document(s2),
{
    lemma_definitions_same(s1, 0, s2, 0);
}

} // verus!
