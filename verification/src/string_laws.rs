//! Reading back a printed block string.
//!
//! The printer writes a block-string value between `"""` delimiters,
//! escaping each `"""` inside it as `\"""` and adding a line break before the
//! closing delimiter where the value would otherwise run into it. Reading the
//! printed text gives back the value's characters, framed by the line breaks
//! the printer added.
use vstd::prelude::*;
use crate::model::SpecValue;
use crate::parse_spec::{
    all_hex, block_string_raw, four_hex_ok, four_hex_value, hex_digit_value, hex_value,
    is_hex_digit, parse_escape, parse_string, parse_unicode_escape, read_four_hex, starts_at,
    string_body, triple_quote, PErr, PRes, cons,
};
use crate::print_spec::{
    escape_char, escape_string, escape_triple_quotes, hex_upper, print_block_string, print_string,
    starts_with_space_or_tab, utf16_len,
};
use crate::text::{
    common_indent_upto, is_blank, is_space_or_tab, join, leading_whitespace, space_run, split_lines,
    split_lines_from, dedent_line, drop_leading_blank, drop_trailing_blank, dedent_block_string,
    lemma_drop_leading_blank, lemma_drop_trailing_blank,
};

verus! {

/// `v` placed before the characters that `r` read.
pub open spec fn prepend_raw(v: Seq<char>, r: PRes<Seq<char>>) -> PRes<Seq<char>> {
    match r {
        Ok((raw, e)) => Ok((v + raw, e)),
        Err(x) => Err(x),
    }
}

/// The escaped `"""`.
pub open spec fn escaped_quotes() -> Seq<char> {
    seq!['\\', '"', '"', '"']
}

/// `w` starts with `"""`.
pub open spec fn starts_with_quotes(w: Seq<char>) -> bool {
    w.len() >= 3 && w[0] == '"' && w[1] == '"' && w[2] == '"'
}

/// What may follow an escaped value without being read as part of it: a
/// line break, or the closing `"""` when the value does not end with a
/// quote or a backslash.
pub open spec fn closes_cleanly(v: Seq<char>, z: Seq<char>) -> bool {
    ||| z.len() > 0 && z[0] == '\n'
    ||| z == triple_quote() && (v.len() == 0 || (v.last() != '"' && v.last() != '\\'))
}

proof fn lemma_escape_unfold(w: Seq<char>)
    ensures
        w.len() == 0 ==> escape_triple_quotes(w) == Seq::<char>::empty(),
        starts_with_quotes(w) ==> escape_triple_quotes(w) == escaped_quotes()
            + escape_triple_quotes(w.skip(3)),
        w.len() > 0 && !starts_with_quotes(w) ==> escape_triple_quotes(w) == seq![w[0]]
            + escape_triple_quotes(w.drop_first()),
{
}

/// How an escaped text followed by `z` can begin with quotes.
proof fn lemma_escape_head(w: Seq<char>, z: Seq<char>)
    ensures
        ({
            let r = escape_triple_quotes(w) + z;
            &&& r.len() >= 1 && r[0] == '"' ==> w.len() == 0 || (w[0] == '"' && !starts_with_quotes(w))
            &&& r.len() >= 2 && r[0] == '"' && r[1] == '"' ==> {
                ||| w.len() == 0
                ||| w.len() == 1 && w[0] == '"' && z.len() > 0 && z[0] == '"'
                ||| w.len() >= 2 && w[0] == '"' && w[1] == '"'
            }
            &&& r.len() >= 3 && r[0] == '"' && r[1] == '"' && r[2] == '"' ==> {
                &&& w.len() <= 2
                &&& forall|i: int| 0 <= i < w.len() ==> w[i] == '"'
                &&& z.len() > 0
                &&& z[0] == '"'
            }
        }),
    decreases w.len(),
{
    let r = escape_triple_quotes(w) + z;
    lemma_escape_unfold(w);
    if w.len() > 0 {
        if starts_with_quotes(w) {
            assert(r[0] == '\\');
        } else {
            let w1 = w.drop_first();
            let r1 = escape_triple_quotes(w1) + z;
            assert(r =~= seq![w[0]] + r1);
            lemma_escape_head(w1, z);
            lemma_escape_unfold(w1);
            if w1.len() > 0 {
                assert(w1[0] == w[1]);
            }
            if w1.len() > 1 {
                assert(w1[1] == w[2]);
                let w2 = w1.drop_first();
                lemma_escape_head(w2, z);
                assert(w2[0] == w[2]);
            }
            if r.len() >= 3 && r[0] == '"' && r[1] == '"' && r[2] == '"' {
                assert(r1[0] == '"' && r1[1] == '"');
                if w1.len() >= 2 {
                    assert(w[0] == '"' && w[1] == '"');
                    let w2 = w1.drop_first();
                    let r2 = escape_triple_quotes(w2) + z;
                    assert(r1 =~= seq![w1[0]] + r2);
                    assert(r2[0] == '"');
                    assert(w2.len() == 0 || w2[0] == '"');
                    assert(!starts_with_quotes(w));
                    assert(w2.len() == 0);
                }
            }
        }
    }
}

/// Reading an escaped value gives the value back, and then reads on from
/// the end of the escaped text.
proof fn lemma_read_escaped(a: Seq<char>, v: Seq<char>, z: Seq<char>)
    requires
        closes_cleanly(v, z),
    ensures
        block_string_raw(a + escape_triple_quotes(v) + z, a.len() as int) == prepend_raw(
            v,
            block_string_raw(
                a + escape_triple_quotes(v) + z,
                (a.len() + escape_triple_quotes(v).len()) as int,
            ),
        ),
    decreases v.len(),
{
    let e = escape_triple_quotes(v);
    let q = a + e + z;
    let i = a.len() as int;
    lemma_escape_unfold(v);
    if v.len() == 0 {
        match block_string_raw(q, i) {
            Ok((raw, x)) => {
                assert(v + raw =~= raw);
            },
            Err(_) => {},
        }
    } else if starts_with_quotes(v) {
        let v3 = v.skip(3);
        let e3 = escape_triple_quotes(v3);
        let a4 = a + escaped_quotes();
        assert(q =~= a4 + e3 + z);
        if v3.len() > 0 {
            assert(v3.last() == v.last());
        }
        lemma_read_escaped(a4, v3, z);
        assert(q.subrange(i, i + 4) =~= escaped_quotes());
        assert(starts_at(q, i, escaped_quotes()));
        assert(v =~= triple_quote() + v3);
        match block_string_raw(q, i + 4 + e3.len()) {
            Ok((raw, x)) => {
                assert(triple_quote() + (v3 + raw) =~= v + raw);
            },
            Err(_) => {},
        }
    } else {
        let c = v[0];
        let v1 = v.drop_first();
        let e1 = escape_triple_quotes(v1);
        let a1 = a.push(c);
        assert(q =~= a1 + e1 + z);
        if v1.len() > 0 {
            assert(v1.last() == v.last());
        }
        lemma_read_escaped(a1, v1, z);
        let r1 = e1 + z;
        lemma_escape_head(v1, z);
        assert(q[i] == c);
        assert forall|k: int| 0 <= k < r1.len() implies q[i + 1 + k] == #[trigger] r1[k] by {
            assert(q[i + 1 + k] == (e1 + z)[k]);
        }
        if starts_at(q, i, escaped_quotes()) {
            assert(q.subrange(i, i + 4)[0] == q[i]);
            assert(q.subrange(i, i + 4)[1] == q[i + 1]);
            assert(q.subrange(i, i + 4)[2] == q[i + 2]);
            assert(q.subrange(i, i + 4)[3] == q[i + 3]);
            assert(r1[0] == '"' && r1[1] == '"' && r1[2] == '"');
            if v1.len() > 0 {
                assert(v1[v1.len() - 1] == '"');
            }
            assert(false);
        }
        if starts_at(q, i, triple_quote()) {
            assert(q.subrange(i, i + 3)[0] == q[i]);
            assert(q.subrange(i, i + 3)[1] == q[i + 1]);
            assert(q.subrange(i, i + 3)[2] == q[i + 2]);
            assert(r1[0] == '"' && r1[1] == '"');
            if v1.len() >= 2 {
                assert(starts_with_quotes(v));
            }
            assert(false);
        }
        match block_string_raw(q, i + 1 + e1.len()) {
            Ok((raw, x)) => {
                assert(seq![c] + (v1 + raw) =~= v + raw);
            },
            Err(_) => {},
        }
    }
}

/// The line break the printer puts after the opening `"""`, if any.
pub open spec fn block_lead(value: Seq<char>) -> Seq<char> {
    let escaped = escape_triple_quotes(value);
    let lines = split_lines(escaped);
    let is_single_line = lines.len() == 1;
    let force_leading_newline = lines.len() > 1 && forall|i: int|
        1 <= i < lines.len() ==> (#[trigger] lines[i]).len() == 0 || starts_with_space_or_tab(
            lines[i],
        );
    let has_trailing_triple_quotes = escaped.len() >= 4 && escaped.skip(escaped.len() - 4)
        == escaped_quotes();
    let has_trailing_quote = value.len() > 0 && value.last() == '"' && !has_trailing_triple_quotes;
    let has_trailing_slash = value.len() > 0 && value.last() == '\\';
    let force_trailing_newline = has_trailing_quote || has_trailing_slash;
    let print_as_multiple_lines = !is_single_line || utf16_len(value) > 70 || force_trailing_newline
        || force_leading_newline || has_trailing_triple_quotes;
    let skip_leading_newline = is_single_line && starts_with_space_or_tab(value);
    if (print_as_multiple_lines && !skip_leading_newline) || force_leading_newline {
        seq!['\n']
    } else {
        Seq::empty()
    }
}

/// The line break the printer puts before the closing `"""`, if any.
pub open spec fn block_trail(value: Seq<char>) -> Seq<char> {
    let escaped = escape_triple_quotes(value);
    let lines = split_lines(escaped);
    let is_single_line = lines.len() == 1;
    let force_leading_newline = lines.len() > 1 && forall|i: int|
        1 <= i < lines.len() ==> (#[trigger] lines[i]).len() == 0 || starts_with_space_or_tab(
            lines[i],
        );
    let has_trailing_triple_quotes = escaped.len() >= 4 && escaped.skip(escaped.len() - 4)
        == escaped_quotes();
    let has_trailing_quote = value.len() > 0 && value.last() == '"' && !has_trailing_triple_quotes;
    let has_trailing_slash = value.len() > 0 && value.last() == '\\';
    let force_trailing_newline = has_trailing_quote || has_trailing_slash;
    let print_as_multiple_lines = !is_single_line || utf16_len(value) > 70 || force_trailing_newline
        || force_leading_newline || has_trailing_triple_quotes;
    if print_as_multiple_lines || force_trailing_newline {
        seq!['\n']
    } else {
        Seq::empty()
    }
}

/// The printed block string is the escaped value between the delimiters,
/// framed by the printer's line breaks, and reading it from after the
/// opening delimiter gives the value so framed, up to the end.
pub proof fn lemma_read_printed_block(v: Seq<char>)
    ensures
        print_block_string(v) == triple_quote() + block_lead(v) + escape_triple_quotes(v)
            + block_trail(v) + triple_quote(),
        block_string_raw(print_block_string(v), 3) == Ok::<_, PErr>(
            (block_lead(v) + v + block_trail(v), print_block_string(v).len() as int),
        ),
{
    let lead = block_lead(v);
    let trail = block_trail(v);
    let e = escape_triple_quotes(v);
    let p = print_block_string(v);
    let tq = triple_quote();
    assert(p =~= tq + lead + e + trail + tq);
    let z = trail + tq;
    assert(p =~= (tq + lead) + e + z);
    if trail.len() == 0 {
        assert(z =~= tq);
    } else {
        assert(z[0] == '\n');
    }
    lemma_read_escaped(tq + lead, v, z);
    let j = ((tq + lead).len() + e.len()) as int;
    // the framing line breaks and the closing delimiter
    let n = p.len() as int;
    assert(starts_at(p, n - 3, tq)) by {
        assert(p.subrange(n - 3, n) =~= tq);
    }
    assert(block_string_raw(p, n - 3) == Ok::<_, PErr>((Seq::<char>::empty(), n)));
    if trail.len() > 0 {
        assert(p[n - 4] == '\n');
        assert(!starts_at(p, n - 4, escaped_quotes()));
        assert(!starts_at(p, n - 4, tq)) by {
            assert(p.subrange(n - 4, n - 1)[0] == p[n - 4]);
        }
        assert(block_string_raw(p, n - 4) == Ok::<_, PErr>((seq!['\n'], n)));
    }
    assert(j == n - 3 - trail.len());
    assert(block_string_raw(p, j) == Ok::<_, PErr>((trail, n)));
    if lead.len() > 0 {
        assert(p[3] == '\n');
        assert(!starts_at(p, 3, escaped_quotes())) by {
            assert(p.subrange(3, 7)[0] == p[3]);
        }
        assert(!starts_at(p, 3, tq)) by {
            assert(p.subrange(3, 6)[0] == p[3]);
        }
        assert(seq!['\n'] + (v + trail) =~= lead + v + trail);
    } else {
        assert(v + trail =~= lead + v + trail);
    }
}

// --- indentation ---

proof fn lemma_space_run(l: Seq<char>, i: int)
    requires
        0 <= i <= l.len(),
    ensures
        i + space_run(l, i) <= l.len(),
        forall|j: int| i <= j < i + space_run(l, i) ==> is_space_or_tab(#[trigger] l[j]),
        i + space_run(l, i) < l.len() ==> !is_space_or_tab(l[i + space_run(l, i)]),
    decreases l.len() - i,
{
    if i < l.len() && is_space_or_tab(l[i]) {
        lemma_space_run(l, i + 1);
    }
}

/// A line is blank exactly when its leading whitespace is all of it.
proof fn lemma_blank_iff(l: Seq<char>)
    ensures
        leading_whitespace(l) <= l.len(),
        is_blank(l) <==> leading_whitespace(l) == l.len(),
{
    lemma_space_run(l, 0);
    let n = leading_whitespace(l) as int;
    if n < l.len() {
        assert(!is_space_or_tab(l[n]));
    }
}

/// The common indent is the least indent of the non-blank lines among
/// `lines[1..k]`, found at some line `m`; there is none when all are blank.
proof fn lemma_common_indent(lines: Seq<Seq<char>>, k: int) -> (m: int)
    requires
        k <= lines.len(),
    ensures
        common_indent_upto(lines, k) is None <==> forall|j: int|
            1 <= j < k ==> leading_whitespace(#[trigger] lines[j]) >= lines[j].len(),
        common_indent_upto(lines, k) is Some ==> {
            &&& 1 <= m < k
            &&& leading_whitespace(lines[m]) < lines[m].len()
            &&& leading_whitespace(lines[m]) == common_indent_upto(lines, k)->0
            &&& forall|j: int|
                1 <= j < k && leading_whitespace(#[trigger] lines[j]) < lines[j].len()
                    ==> common_indent_upto(lines, k)->0 <= leading_whitespace(lines[j])
        },
    decreases k,
{
    if k <= 1 {
        0
    } else {
        let m0 = lemma_common_indent(lines, k - 1);
        let line = lines[k - 1];
        let ind = leading_whitespace(line);
        if ind < line.len() {
            match common_indent_upto(lines, k - 1) {
                Some(c) => if ind < c {
                    k - 1
                } else {
                    m0
                },
                None => k - 1,
            }
        } else {
            m0
        }
    }
}

// --- lines ---

/// `l` holds no line break.
pub open spec fn line_free(l: Seq<char>) -> bool {
    forall|i: int| 0 <= i < l.len() ==> #[trigger] l[i] != '\n' && l[i] != '\r'
}

proof fn lemma_split_rest_free(s: Seq<char>, st: int, i: int)
    requires
        0 <= st <= i <= s.len(),
        forall|j: int| i <= j < s.len() ==> #[trigger] s[j] != '\n' && s[j] != '\r',
    ensures
        split_lines_from(s, st, i) == seq![s.subrange(st, s.len() as int)],
    decreases s.len() - i,
{
    if i < s.len() {
        lemma_split_rest_free(s, st, i + 1);
    }
}

proof fn lemma_split_append(x: Seq<char>, y: Seq<char>, st: int, i: int)
    requires
        0 <= st <= i <= x.len(),
        forall|j: int| i <= j < x.len() ==> #[trigger] x[j] != '\r',
    ensures
        split_lines_from(x + seq!['\n'] + y, st, i) == split_lines_from(x, st, i) + split_lines_from(
            x + seq!['\n'] + y,
            x.len() + 1 as int,
            x.len() + 1 as int,
        ),
    decreases x.len() - i,
{
    let s = x + seq!['\n'] + y;
    let n = x.len() as int;
    if i == n {
        assert(s[i] == '\n');
        assert(s.subrange(st, i) =~= x.subrange(st, i));
    } else {
        assert(s[i] == x[i]);
        if x[i] == '\n' {
            lemma_split_append(x, y, i + 1, i + 1);
            assert(s.subrange(st, i) =~= x.subrange(st, i));
            let a = split_lines_from(x, i + 1, i + 1);
            let b = split_lines_from(s, n + 1, n + 1);
            assert(seq![x.subrange(st, i)] + (a + b) =~= (seq![x.subrange(st, i)] + a) + b);
        } else {
            lemma_split_append(x, y, st, i + 1);
        }
    }
}

proof fn lemma_split_shift(pre: Seq<char>, y: Seq<char>, st: int, i: int)
    requires
        0 <= st <= i <= y.len(),
    ensures
        split_lines_from(pre + y, (pre.len() + st) as int, (pre.len() + i) as int) == split_lines_from(
            y,
            st,
            i,
        ),
    decreases y.len() - i,
{
    let s = pre + y;
    let k = pre.len() as int;
    if i >= y.len() {
        assert(s.subrange(k + st, s.len() as int) =~= y.subrange(st, y.len() as int));
    } else {
        assert(s[k + i] == y[i]);
        if i + 1 < y.len() {
            assert(s[k + i + 1] == y[i + 1]);
        }
        assert(s.subrange(k + st, k + i) =~= y.subrange(st, i));
        if y[i] == '\r' {
            let j = if i + 1 < y.len() && y[i + 1] == '\n' { i + 2 } else { i + 1 };
            lemma_split_shift(pre, y, j, j);
        } else if y[i] == '\n' {
            lemma_split_shift(pre, y, i + 1, i + 1);
        } else {
            lemma_split_shift(pre, y, st, i + 1);
        }
    }
}

/// Splitting `x`, a line break and `y` gives the lines of `x`, then those of
/// `y`, when `x` holds no carriage return.
proof fn lemma_split_concat(x: Seq<char>, y: Seq<char>)
    requires
        forall|j: int| 0 <= j < x.len() ==> #[trigger] x[j] != '\r',
    ensures
        split_lines(x + seq!['\n'] + y) == split_lines(x) + split_lines(y),
{
    lemma_split_append(x, y, 0, 0);
    lemma_split_shift(x + seq!['\n'], y, 0, 0);
    assert(x + seq!['\n'] + y =~= (x + seq!['\n']) + y);
}

/// Lines without breaks, joined by line breaks, split back into themselves.
proof fn lemma_split_join(ls: Seq<Seq<char>>)
    requires
        ls.len() >= 1,
        forall|k: int| 0 <= k < ls.len() ==> line_free(#[trigger] ls[k]),
    ensures
        split_lines(join(ls, seq!['\n'])) == ls,
        forall|j: int| 0 <= j < join(ls, seq!['\n']).len() ==> #[trigger] join(ls, seq!['\n'])[j]
            != '\r',
        ls.len() == 1 ==> line_free(join(ls, seq!['\n'])),
        ls.len() >= 2 ==> exists|j: int|
            0 <= j < join(ls, seq!['\n']).len() && #[trigger] join(ls, seq!['\n'])[j] == '\n',
    decreases ls.len(),
{
    let v = join(ls, seq!['\n']);
    if ls.len() == 1 {
        lemma_split_rest_free(ls[0], 0, 0);
        assert(ls[0].subrange(0, ls[0].len() as int) =~= ls[0]);
        assert(seq![ls[0]] =~= ls);
    } else {
        let u = ls.drop_last();
        let y = ls.last();
        assert forall|k: int| 0 <= k < u.len() implies line_free(#[trigger] u[k]) by {
            assert(u[k] == ls[k]);
        }
        lemma_split_join(u);
        let x = join(u, seq!['\n']);
        assert(v == x + seq!['\n'] + y);
        lemma_split_concat(x, y);
        lemma_split_rest_free(y, 0, 0);
        assert(y.subrange(0, y.len() as int) =~= y);
        assert(u + seq![y] =~= ls);
        assert(v[x.len() as int] == '\n');
        assert forall|j: int| 0 <= j < v.len() implies #[trigger] v[j] != '\r' by {
            if j < x.len() {
                assert(v[j] == x[j]);
            } else if j > x.len() {
                assert(v[j] == y[j - x.len() - 1]);
            }
        }
    }
}

proof fn lemma_split_free(s: Seq<char>, st: int, i: int)
    requires
        0 <= st <= i <= s.len(),
        forall|j: int| st <= j < i ==> #[trigger] s[j] != '\n' && s[j] != '\r',
    ensures
        forall|k: int| 0 <= k < split_lines_from(s, st, i).len() ==> line_free(
            #[trigger] split_lines_from(s, st, i)[k],
        ),
    decreases s.len() - i,
{
    let r = split_lines_from(s, st, i);
    if i >= s.len() {
        assert(line_free(s.subrange(st, s.len() as int)));
        assert(r == seq![s.subrange(st, s.len() as int)]);
        assert forall|k: int| 0 <= k < r.len() implies line_free(#[trigger] r[k]) by {
            assert(r[k] == s.subrange(st, s.len() as int));
        }
    } else if s[i] == '\r' || s[i] == '\n' {
        let j = if s[i] == '\r' && i + 1 < s.len() && s[i + 1] == '\n' { i + 2 } else { i + 1 };
        lemma_split_free(s, j, j);
        assert(line_free(s.subrange(st, i)));
        assert(r == seq![s.subrange(st, i)] + split_lines_from(s, j, j));
        assert forall|k: int| 0 <= k < r.len() implies line_free(#[trigger] r[k]) by {
            if k == 0 {
                assert(r[0] == s.subrange(st, i));
            } else {
                assert(r[k] == split_lines_from(s, j, j)[k - 1]);
            }
        }
    } else {
        lemma_split_free(s, st, i + 1);
        assert(r == split_lines_from(s, st, i + 1));
    }
}

proof fn lemma_drop_leading_shape(ls: Seq<Seq<char>>)
    ensures
        drop_leading_blank(ls).len() <= ls.len(),
        drop_leading_blank(ls) == ls.skip(ls.len() - drop_leading_blank(ls).len()),
        forall|j: int| 0 <= j < ls.len() - drop_leading_blank(ls).len() ==> is_blank(#[trigger] ls[j]),
        drop_leading_blank(ls).len() > 0 ==> !is_blank(drop_leading_blank(ls)[0]),
    decreases ls.len(),
{
    if ls.len() > 0 && is_blank(ls[0]) {
        let t = ls.drop_first();
        lemma_drop_leading_shape(t);
        let d = drop_leading_blank(t);
        assert(t.skip(t.len() - d.len()) =~= ls.skip(ls.len() - d.len()));
        assert forall|j: int| 0 <= j < ls.len() - d.len() implies is_blank(#[trigger] ls[j]) by {
            if j > 0 {
                assert(ls[j] == t[j - 1]);
            }
        }
    } else {
        assert(ls.skip(0) =~= ls);
    }
}

proof fn lemma_drop_trailing_shape(ls: Seq<Seq<char>>)
    ensures
        drop_trailing_blank(ls).len() <= ls.len(),
        drop_trailing_blank(ls) == ls.take(drop_trailing_blank(ls).len() as int),
        forall|j: int| drop_trailing_blank(ls).len() <= j < ls.len() ==> is_blank(#[trigger] ls[j]),
        drop_trailing_blank(ls).len() > 0 ==> !is_blank(drop_trailing_blank(ls).last()),
    decreases ls.len(),
{
    if ls.len() > 0 && is_blank(ls.last()) {
        let t = ls.drop_last();
        lemma_drop_trailing_shape(t);
        let d = drop_trailing_blank(t);
        assert(t.take(d.len() as int) =~= ls.take(d.len() as int));
        assert forall|j: int| d.len() <= j < ls.len() implies is_blank(#[trigger] ls[j]) by {
            if j < ls.len() - 1 {
                assert(ls[j] == t[j]);
            }
        }
    } else {
        assert(ls.take(ls.len() as int) =~= ls);
    }
}

/// The lines of a block-string value before they are joined.
pub open spec fn dedented_lines(raw: Seq<char>) -> Seq<Seq<char>> {
    let lines = split_lines(raw);
    let indent = match common_indent_upto(lines, lines.len() as int) {
        Some(c) => c,
        None => 0,
    };
    let dedented = Seq::new(lines.len(), |i: int| dedent_line(lines, indent, i));
    drop_trailing_blank(drop_leading_blank(dedented))
}

/// The lines of a block-string value hold no line break; the first and the
/// last are not blank; and when there are several, one that is not blank
/// starts without indentation.
proof fn lemma_dedented_shape(raw: Seq<char>)
    ensures
        dedent_block_string(raw) == join(dedented_lines(raw), seq!['\n']),
        forall|k: int| 0 <= k < dedented_lines(raw).len() ==> line_free(
            #[trigger] dedented_lines(raw)[k],
        ),
        dedented_lines(raw).len() > 0 ==> !is_blank(dedented_lines(raw)[0]) && !is_blank(
            dedented_lines(raw).last(),
        ),
        dedented_lines(raw).len() >= 2 ==> exists|k: int|
            0 <= k < dedented_lines(raw).len() && !is_blank(#[trigger] dedented_lines(raw)[k])
                && leading_whitespace(dedented_lines(raw)[k]) == 0,
{
    let lines = split_lines(raw);
    let n = lines.len() as int;
    let indent = match common_indent_upto(lines, n) {
        Some(c) => c,
        None => 0,
    };
    let d = Seq::new(lines.len(), |i: int| dedent_line(lines, indent, i));
    let mm = drop_leading_blank(d);
    let l = drop_trailing_blank(mm);
    assert(l == dedented_lines(raw));
    lemma_split_free(raw, 0, 0);
    lemma_drop_leading_shape(d);
    lemma_drop_trailing_shape(mm);
    let a = d.len() - mm.len();
    assert forall|k: int| 0 <= k < d.len() implies line_free(#[trigger] d[k]) by {
        assert(line_free(lines[k]));
        if k > 0 {
            let nn = if indent < lines[k].len() { indent } else { lines[k].len() };
            assert(d[k] == lines[k].skip(nn as int));
        }
    }
    assert forall|k: int| 0 <= k < l.len() implies line_free(#[trigger] l[k]) by {
        assert(l[k] == mm[k]);
        assert(mm[k] == d[a + k]);
    }
    if l.len() > 0 {
        assert(l[0] == mm[0]);
    }
    let m = lemma_common_indent(lines, n);
    if l.len() >= 2 {
        match common_indent_upto(lines, n) {
            Some(c) => {
                lemma_space_run(lines[m], 0);
                assert(d[m] == lines[m].skip(c as int));
                assert(d[m][0] == lines[m][c as int]);
                assert(!is_space_or_tab(d[m][0]));
                assert(leading_whitespace(d[m]) == 0);
                assert(!is_blank(d[m]));
                assert(m >= a);
                assert(mm[m - a] == d[m]);
                assert(m - a < l.len());
                assert(l[m - a] == d[m]);
            },
            None => {
                let last = a + l.len() - 1;
                assert(l.last() == mm[l.len() - 1]);
                assert(mm[l.len() - 1] == d[last]);
                assert(last >= 1);
                lemma_blank_iff(lines[last]);
                assert(d[last] == lines[last].skip(0));
                assert(lines[last].skip(0) =~= lines[last]);
                assert(false);
            },
        }
    }
}

proof fn lemma_split_nonempty(s: Seq<char>, st: int, i: int)
    ensures
        split_lines_from(s, st, i).len() >= 1,
    decreases s.len() - i,
{
    if 0 <= i < s.len() {
        if s[i] == '\r' {
            let j = if i + 1 < s.len() && s[i + 1] == '\n' { i + 2 } else { i + 1 };
            lemma_split_nonempty(s, j, j);
        } else if s[i] == '\n' {
            lemma_split_nonempty(s, i + 1, i + 1);
        } else {
            lemma_split_nonempty(s, st, i + 1);
        }
    }
}

/// Escaping adds no line break, and keeps each that is there.
proof fn lemma_escape_breaks(v: Seq<char>)
    ensures
        line_free(v) ==> line_free(escape_triple_quotes(v)),
        (forall|j: int| 0 <= j < v.len() ==> #[trigger] v[j] != '\r') ==> forall|j: int|
            0 <= j < escape_triple_quotes(v).len() ==> #[trigger] escape_triple_quotes(v)[j] != '\r',
        (exists|j: int| 0 <= j < v.len() && #[trigger] v[j] == '\n') ==> exists|j: int|
            0 <= j < escape_triple_quotes(v).len() && #[trigger] escape_triple_quotes(v)[j] == '\n',
    decreases v.len(),
{
    let e = escape_triple_quotes(v);
    lemma_escape_unfold(v);
    if v.len() > 0 {
        let k: int = if starts_with_quotes(v) { 3 } else { 1 };
        let h: Seq<char> = if starts_with_quotes(v) { escaped_quotes() } else { seq![v[0]] };
        let w = v.skip(k);
        if !starts_with_quotes(v) {
            assert(w =~= v.drop_first());
        }
        lemma_escape_breaks(w);
        let ew = escape_triple_quotes(w);
        assert(e == h + ew);
        if line_free(v) {
            assert forall|j: int| 0 <= j < w.len() implies #[trigger] w[j] != '\n' && w[j] != '\r' by {
                assert(w[j] == v[j + k]);
            }
            assert forall|j: int| 0 <= j < e.len() implies #[trigger] e[j] != '\n' && e[j] != '\r' by {
                if j < h.len() {
                    assert(h[j] == v[j] || h[j] == '\\' || h[j] == '"');
                } else {
                    assert(e[j] == ew[j - h.len()]);
                }
            }
        }
        if forall|j: int| 0 <= j < v.len() ==> #[trigger] v[j] != '\r' {
            assert forall|j: int| 0 <= j < w.len() implies #[trigger] w[j] != '\r' by {
                assert(w[j] == v[j + k]);
            }
            assert forall|j: int| 0 <= j < e.len() implies #[trigger] e[j] != '\r' by {
                if j < h.len() {
                    assert(h[j] == v[j] || h[j] == '\\' || h[j] == '"');
                } else {
                    assert(e[j] == ew[j - h.len()]);
                }
            }
        }
        if exists|j: int| 0 <= j < v.len() && #[trigger] v[j] == '\n' {
            let j = choose|j: int| 0 <= j < v.len() && #[trigger] v[j] == '\n';
            if j < k {
                assert(j == 0 && !starts_with_quotes(v));
                assert(e[0] == '\n');
            } else {
                assert(w[j - k] == '\n');
                let j2 = choose|j2: int| 0 <= j2 < ew.len() && #[trigger] ew[j2] == '\n';
                assert(e[h.len() + j2] == '\n');
            }
        }
    }
}

/// A value made by the block-string reader, printed as a block string and
/// read back, is the same value.
pub proof fn law_block_string_reads_back(raw: Seq<char>)
    ensures
        parse_string(print_block_string(dedent_block_string(raw)), 0) == Ok::<_, PErr>(
            (
                SpecValue::Str { value: dedent_block_string(raw), block: true },
                print_block_string(dedent_block_string(raw)).len() as int,
            ),
        ),
{
    let v = dedent_block_string(raw);
    let p = print_block_string(v);
    let l = dedented_lines(raw);
    let nl = seq!['\n'];
    let e = Seq::<char>::empty();
    lemma_dedented_shape(raw);
    lemma_read_printed_block(v);
    assert(p.subrange(0, 3) =~= triple_quote());
    let lead = block_lead(v);
    let trail = block_trail(v);
    let r = lead + v + trail;
    assert(e.subrange(0, 0) =~= e);
    assert(split_lines(e) == seq![e]);
    if l.len() == 0 {
        assert(v == e);
        assert(escape_triple_quotes(e) == e);
        assert(lead == e && trail == e);
        assert(r =~= e);
        let ls = split_lines(r);
        let d = Seq::new(ls.len(), |i: int| dedent_line(ls, 0, i));
        assert(d =~= seq![e]);
        assert(is_blank(e));
        assert(drop_leading_blank(d) == drop_leading_blank(d.drop_first()));
        assert(d.drop_first() =~= Seq::<Seq<char>>::empty());
        assert(dedent_block_string(r) == e);
    } else {
        lemma_split_join(l);
        let w = escape_triple_quotes(v);
        lemma_escape_breaks(v);
        if l.len() == 1 {
            lemma_split_rest_free(w, 0, 0);
            assert(w.subrange(0, w.len() as int) =~= w);
            assert(split_lines(w).len() == 1);
        } else {
            let j = choose|j: int| 0 <= j < w.len() && #[trigger] w[j] == '\n';
            assert(w =~= w.take(j) + nl + w.skip(j + 1));
            lemma_split_concat(w.take(j), w.skip(j + 1));
            lemma_split_nonempty(w.take(j), 0, 0);
            lemma_split_nonempty(w.skip(j + 1), 0, 0);
            assert(split_lines(w).len() >= 2);
        }
        assert(v == join(l, nl));
        if lead.len() > 0 {
            // the value framed by line breaks
            assert(trail == nl);
            assert(r =~= e + nl + (v + nl + e));
            lemma_split_concat(e, v + nl + e);
            lemma_split_concat(v, e);
            assert(v + nl =~= v + nl + e);
            let ls = split_lines(r);
            assert(ls =~= seq![e] + l + seq![e]);
            let k = if l.len() >= 2 {
                choose|k: int| 0 <= k < l.len() && !is_blank(#[trigger] l[k]) && leading_whitespace(l[k]) == 0
            } else {
                0
            };
            if l.len() == 1 {
                assert(v == l[0]);
                assert(!starts_with_space_or_tab(v));
                assert(v.len() > 0);
                assert(leading_whitespace(l[0]) == 0);
            }
            assert(ls[k + 1] == l[k]);
            lemma_blank_iff(l[k]);
            let n = ls.len() as int;
            let m = lemma_common_indent(ls, n);
            assert(leading_whitespace(ls[k + 1]) < ls[k + 1].len());
            assert(common_indent_upto(ls, n) == Some(0nat));
            let d = Seq::new(ls.len(), |i: int| dedent_line(ls, 0, i));
            assert forall|i: int| 0 <= i < n implies #[trigger] d[i] == ls[i] by {
                assert(ls[i].skip(0) =~= ls[i]);
            }
            assert(d =~= ls);
            assert(is_blank(e));
            lemma_drop_leading_blank(d, 1);
            let d1 = d.skip(1);
            assert(d1 =~= l + seq![e]);
            lemma_drop_trailing_blank(d1, l.len() as int);
            assert(d1.take(l.len() as int) =~= l);
        } else if trail.len() > 0 {
            assert(l.len() == 1);
            assert(r =~= v + nl + e);
            lemma_split_concat(v, e);
            let ls = split_lines(r);
            assert(ls =~= l + seq![e]);
            let m = lemma_common_indent(ls, 2);
            lemma_blank_iff(e);
            assert(common_indent_upto(ls, 2) is None);
            let d = Seq::new(ls.len(), |i: int| dedent_line(ls, 0, i));
            assert(e.skip(0) =~= e);
            assert(d =~= ls);
            lemma_drop_leading_blank(d, 0);
            assert(d.skip(0) =~= d);
            lemma_drop_trailing_blank(d, 1);
            assert(d.take(1) =~= l);
        } else {
            assert(l.len() == 1);
            assert(r =~= v);
            let ls = split_lines(r);
            assert(ls == l);
            assert(common_indent_upto(ls, 1) is None);
            let d = Seq::new(ls.len(), |i: int| dedent_line(ls, 0, i));
            assert(d =~= ls);
            lemma_drop_leading_blank(d, 0);
            assert(d.skip(0) =~= d);
            lemma_drop_trailing_blank(d, 1);
            assert(d.take(1) =~= l);
        }
    }
}

// --- quoted strings ---

proof fn lemma_escape_string_front(c: char, w: Seq<char>)
    ensures
        escape_string(seq![c] + w) == escape_char(c) + escape_string(w),
    decreases w.len(),
{
    let s = seq![c] + w;
    assert(escape_string(s) == escape_string(s.drop_last()) + escape_char(s.last()));
    if w.len() == 0 {
        assert(s.last() == c);
        assert(s.drop_last() =~= Seq::<char>::empty());
        assert(escape_char(c) + Seq::<char>::empty() =~= escape_char(c));
    } else {
        assert(s.drop_last() =~= seq![c] + w.drop_last());
        assert(s.last() == w.last());
        assert(escape_string(w) == escape_string(w.drop_last()) + escape_char(w.last()));
        lemma_escape_string_front(c, w.drop_last());
        assert(escape_char(c) + escape_string(w.drop_last()) + escape_char(w.last())
            =~= escape_char(c) + (escape_string(w.drop_last()) + escape_char(w.last())));
    }
}

proof fn lemma_hex_upper(d: nat)
    requires
        d < 16,
    ensures
        is_hex_digit(hex_upper(d)),
        hex_digit_value(hex_upper(d)) == d,
        hex_upper(d) != '+',
        hex_upper(d) != '{',
{
}

/// A `\uXXXX` escape that the printer writes reads back as its character.
proof fn lemma_read_unicode_escape(s: Seq<char>, i: int, c: char)
    requires
        0 <= i,
        (c as u32) < 0xA0,
        i + 4 <= s.len(),
        s.subrange(i, i + 4) == escape_char_hex(c),
    ensures
        parse_unicode_escape(s, i) == Ok::<_, PErr>((c, i + 4)),
{
    let v = c as nat;
    let t = escape_char_hex(c);
    lemma_hex_upper(v / 4096);
    lemma_hex_upper((v / 256) % 16);
    lemma_hex_upper((v / 16) % 16);
    lemma_hex_upper(v % 16);
    assert(s[i] == t[0]);
    assert(all_hex(t));
    assert(four_hex_ok(t));
    let t3 = t.drop_last();
    let t2 = t3.drop_last();
    let t1 = t2.drop_last();
    assert(t1.drop_last() =~= Seq::<char>::empty());
    assert(t1.len() == 1 && t1.last() == t[0]);
    assert(t2.len() == 2 && t2.last() == t[1]);
    assert(t3.len() == 3 && t3.last() == t[2]);
    assert(t.last() == t[3]);
    assert(hex_value(t1.drop_last()) == 0);
    assert(hex_value(t1) == hex_value(t1.drop_last()) * 16 + hex_digit_value(t1.last()));
    assert(hex_value(t1) == hex_digit_value(t[0]));
    assert(hex_value(t2) == hex_value(t1) * 16 + hex_digit_value(t[1]));
    assert(hex_value(t3) == hex_value(t2) * 16 + hex_digit_value(t[2]));
    assert(hex_value(t) == hex_value(t3) * 16 + hex_digit_value(t[3]));
    assert(((v / 4096 * 16 + (v / 256) % 16) * 16 + (v / 16) % 16) * 16 + v % 16 == v) by (nonlinear_arith)
        requires
            v < 160,
    ;
    assert(four_hex_value(t) == v);
    assert(read_four_hex(s, i) == Ok::<_, PErr>((v, i + 4)));
    vstd::utf8::char_u32_cast(c, c as u32);
}

/// The four hex digits of a `\uXXXX` escape of `c`, in upper case.
pub open spec fn escape_char_hex(c: char) -> Seq<char> {
    let v = c as nat;
    seq![hex_upper(v / 4096), hex_upper((v / 256) % 16), hex_upper((v / 16) % 16), hex_upper(v % 16)]
}

/// Reading one escaped character.
proof fn lemma_read_one(q: Seq<char>, i: int, c: char)
    requires
        0 <= i,
        i + escape_char(c).len() <= q.len(),
        forall|k: int| 0 <= k < escape_char(c).len() ==> q[i + k] == #[trigger] escape_char(c)[k],
    ensures
        string_body(q, i) == cons(c, string_body(q, i + escape_char(c).len())),
{
    let ec = escape_char(c);
    if ec.len() == 1 {
        assert(q[i] == ec[0]);
    } else if ec.len() == 2 {
        assert(q[i] == ec[0] && q[i + 1] == ec[1]);
        assert(parse_escape(q, i + 1) == Ok::<_, PErr>((c, i + 2)));
    } else {
        assert(q[i] == ec[0] && q[i + 1] == ec[1]);
        assert(q.subrange(i + 2, i + 6) =~= escape_char_hex(c)) by {
            assert forall|k: int| 0 <= k < 4 implies #[trigger] q.subrange(i + 2, i + 6)[k]
                == escape_char_hex(c)[k] by {
                assert(q[i + 2 + k] == ec[2 + k]);
            }
        }
        lemma_read_unicode_escape(q, i + 2, c);
        assert(parse_escape(q, i + 1) == Ok::<_, PErr>((c, i + 6)));
    }
}

/// Reading the escaped characters of `v`, then the closing quote.
proof fn lemma_read_quoted(a: Seq<char>, v: Seq<char>, z: Seq<char>)
    ensures
        string_body(a + escape_string(v) + seq!['"'] + z, a.len() as int) == Ok::<_, PErr>(
            (v, (a.len() + escape_string(v).len() + 1) as int),
        ),
    decreases v.len(),
{
    let q = a + escape_string(v) + seq!['"'] + z;
    let i = a.len() as int;
    if v.len() == 0 {
        assert(escape_string(v) == Seq::<char>::empty());
        assert(q[i] == '"');
        assert(v =~= Seq::<char>::empty());
        assert(string_body(q, i) == Ok::<_, PErr>((Seq::<char>::empty(), i + 1)));
    } else {
        let c = v[0];
        let w = v.drop_first();
        assert(v =~= seq![c] + w);
        lemma_escape_string_front(c, w);
        let ec = escape_char(c);
        let a1 = a + ec;
        assert(q =~= a1 + escape_string(w) + seq!['"'] + z);
        lemma_read_quoted(a1, w, z);
        assert forall|k: int| 0 <= k < ec.len() implies q[i + k] == #[trigger] ec[k] by {
            assert(q[i + k] == a1[i + k]);
        }
        lemma_read_one(q, i, c);
        assert(escape_string(v) == ec + escape_string(w));
        let e1 = (a1.len() + escape_string(w).len() + 1) as int;
        assert(string_body(q, i + ec.len()) == Ok::<_, PErr>((w, e1)));
        assert(string_body(q, i) == Ok::<_, PErr>((seq![c] + w, e1)));
        assert(seq![c] + w =~= v);
    }
}

/// A quoted string, printed and read back, is the same value.
pub proof fn law_quoted_string_reads_back(v: Seq<char>)
    ensures
        parse_string(print_string(v), 0) == Ok::<_, PErr>(
            (SpecValue::Str { value: v, block: false }, print_string(v).len() as int),
        ),
{
    let p = print_string(v);
    let e = Seq::<char>::empty();
    let body = seq!['"'] + escape_string(v) + seq!['"'] + e;
    assert(p =~= body);
    lemma_read_quoted(seq!['"'], v, e);
    assert(string_body(p, 1) == Ok::<_, PErr>((v, p.len() as int)));
    assert(!starts_at(p, 0, triple_quote())) by {
        if v.len() > 0 {
            lemma_escape_string_front(v[0], v.drop_first());
            assert(v =~= seq![v[0]] + v.drop_first());
            let ec = escape_char(v[0]);
            assert(escape_string(v)[0] == ec[0]);
            assert(p[1] == ec[0]);
            assert(ec[0] != '"');
        } else {
            assert(p.len() == 2);
        }
        if p.len() >= 3 {
            assert(p.subrange(0, 3)[1] == p[1]);
        }
    }
}

/// A printed string value followed by text that does not start with a
/// quote reads as the value, up to the end of its printed text.
pub(crate) proof fn lemma_quoted_string_then(v: Seq<char>, r: Seq<char>)
    requires
        r.len() == 0 || r[0] != '"',
    ensures
        parse_string(print_string(v) + r, 0) == Ok::<_, PErr>(
            (SpecValue::Str { value: v, block: false }, print_string(v).len() as int),
        ),
        print_string(v)[0] == '"',
{
    let p = print_string(v);
    let q = p + r;
    let body = seq!['"'] + escape_string(v) + seq!['"'] + r;
    assert(q =~= body);
    lemma_read_quoted(seq!['"'], v, r);
    assert(!starts_at(q, 0, triple_quote())) by {
        if v.len() > 0 {
            lemma_escape_string_front(v[0], v.drop_first());
            assert(v =~= seq![v[0]] + v.drop_first());
            let ec = escape_char(v[0]);
            assert(escape_string(v)[0] == ec[0]);
            assert(q[1] == ec[0]);
            assert(ec[0] != '"');
        } else {
            assert(p.len() == 2);
            if r.len() > 0 {
                assert(q[2] == r[0]);
            }
        }
        if q.len() >= 3 {
            assert(q.subrange(0, 3)[1] == q[1]);
            assert(q.subrange(0, 3)[2] == q[2]);
        }
    }
}

} // verus!
