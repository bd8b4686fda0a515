//! Character-sequence utilities shared by the parser, printer and sorter.
use vstd::prelude::*;

verus! {

broadcast use vstd::string::group_string_axioms;

/// Appends `ch` to the end of the string, as `String::push` documents.
pub assume_specification[ std::string::String::push ](buf: &mut std::string::String, ch: char)
    ensures
        final(buf)@ == old(buf)@.push(ch),
;

/// `std::char::from_u32` returns the character whose scalar value is `i`
/// when `i` is at most U+10FFFF and not a surrogate (U+D800 to U+DFFF), and
/// `None` otherwise, as its documentation states.
pub assume_specification[ std::char::from_u32 ](i: u32) -> (r: Option<char>)
    ensures
        r == (if i <= 0x10FFFF && !(0xD800 <= i && i <= 0xDFFF) {
            Some(i as char)
        } else {
            None::<char>
        }),
;

/// Whether the characters of `v` are exactly those of `t`.
pub fn chars_eq_str(v: &Vec<char>, t: &str) -> (b: bool)
    ensures
        b == (v@ == t@),
{
    let w = str_chars(t);
    if v.len() != w.len() {
        return false;
    }
    let mut i: usize = 0;
    while i < v.len()
        invariant
            i <= v.len(),
            v.len() == w.len(),
            w@ == t@,
            forall|j: int| 0 <= j < i ==> v@[j] == w@[j],
        decreases v.len() - i,
    {
        if v[i] != w[i] {
            return false;
        }
        i += 1;
    }
    assert(v@ =~= w@);
    true
}

/// The characters of `s`, in order.
pub fn str_chars(s: &str) -> (v: Vec<char>)
    ensures
        v@ == s@,
{
    let mut v: Vec<char> = Vec::new();
    for c in it: s.chars()
        invariant
            v@ == it.seq().take(it.index() as int),
    {
        v.push(c);
    }
    v
}

/// A string holding exactly the characters of `v`.
pub fn string_from_chars(v: &Vec<char>) -> (s: String)
    ensures
        s@ == v@,
{
    let mut s = String::new();
    let mut i: usize = 0;
    while i < v.len()
        invariant
            i <= v.len(),
            s@ == v@.take(i as int),
        decreases v.len() - i,
    {
        s.push(v[i]);
        assert(v@.take(i + 1) == v@.take(i as int).push(v@[i as int]));
        i += 1;
    }
    assert(v@.take(v.len() as int) == v@);
    s
}

/// The character sequences held by a vector of character vectors.
pub open spec fn lines_view(v: Seq<Vec<char>>) -> Seq<Seq<char>> {
    v.map_values(|l: Vec<char>| l@)
}

/// `parts` joined with `sep` between neighbours.
pub open spec fn join(parts: Seq<Seq<char>>, sep: Seq<char>) -> Seq<char>
    decreases parts.len(),
{
    if parts.len() == 0 {
        Seq::empty()
    } else if parts.len() == 1 {
        parts[0]
    } else {
        join(parts.drop_last(), sep) + sep + parts.last()
    }
}

/// The lines of `s` from `start`, scanning from `i`: split on `\r\n`, `\n`
/// or `\r`.
pub open spec fn split_lines_from(s: Seq<char>, start: int, i: int) -> Seq<Seq<char>>
    decreases s.len() - i,
{
    if i < 0 || i >= s.len() {
        seq![s.subrange(start, s.len() as int)]
    } else if s[i] == '\r' {
        let j = if i + 1 < s.len() && s[i + 1] == '\n' {
            i + 2
        } else {
            i + 1
        };
        seq![s.subrange(start, i)] + split_lines_from(s, j, j)
    } else if s[i] == '\n' {
        seq![s.subrange(start, i)] + split_lines_from(s, i + 1, i + 1)
    } else {
        split_lines_from(s, start, i + 1)
    }
}

/// The lines of `s`, split on `\r\n`, `\n` or `\r`. There is always at
/// least one line.
pub open spec fn split_lines(s: Seq<char>) -> Seq<Seq<char>> {
    split_lines_from(s, 0, 0)
}

pub open spec fn is_space_or_tab(c: char) -> bool {
    c == ' ' || c == '\t'
}

/// The number of spaces and tabs in `line` from position `i` on, up to the
/// first other character.
pub open spec fn space_run(line: Seq<char>, i: int) -> nat
    decreases line.len() - i,
{
    if 0 <= i < line.len() && is_space_or_tab(line[i]) {
        1 + space_run(line, i + 1)
    } else {
        0
    }
}

/// The number of spaces and tabs that start `line`.
pub open spec fn leading_whitespace(line: Seq<char>) -> nat {
    space_run(line, 0)
}

/// `line` holds only spaces and tabs.
pub open spec fn is_blank(line: Seq<char>) -> bool {
    forall|i: int| 0 <= i < line.len() ==> is_space_or_tab(#[trigger] line[i])
}

/// The least indentation of the non-blank lines among `lines[1..k]`.
pub open spec fn common_indent_upto(lines: Seq<Seq<char>>, k: int) -> Option<nat>
    decreases k,
{
    if k <= 1 {
        None
    } else {
        let prev = common_indent_upto(lines, k - 1);
        let line = lines[k - 1];
        let ind = leading_whitespace(line);
        if ind < line.len() {
            match prev {
                Some(c) => if ind < c {
                    Some(ind)
                } else {
                    Some(c)
                },
                None => Some(ind),
            }
        } else {
            prev
        }
    }
}

/// Line `i` of `lines` with the common indentation removed (never from the
/// first line).
pub open spec fn dedent_line(lines: Seq<Seq<char>>, indent: nat, i: int) -> Seq<char> {
    if i == 0 {
        lines[i]
    } else {
        let line = lines[i];
        let n = if indent < line.len() {
            indent
        } else {
            line.len()
        };
        line.skip(n as int)
    }
}

pub open spec fn drop_leading_blank(lines: Seq<Seq<char>>) -> Seq<Seq<char>>
    decreases lines.len(),
{
    if lines.len() > 0 && is_blank(lines[0]) {
        drop_leading_blank(lines.drop_first())
    } else {
        lines
    }
}

pub open spec fn drop_trailing_blank(lines: Seq<Seq<char>>) -> Seq<Seq<char>>
    decreases lines.len(),
{
    if lines.len() > 0 && is_blank(lines.last()) {
        drop_trailing_blank(lines.drop_last())
    } else {
        lines
    }
}

/// The GraphQL block-string value of `raw`: the common indentation of the
/// lines after the first is removed, then leading and trailing blank lines
/// are dropped, and the lines are joined with `\n`.
pub open spec fn dedent_block_string(raw: Seq<char>) -> Seq<char> {
    let lines = split_lines(raw);
    let indent = match common_indent_upto(lines, lines.len() as int) {
        Some(c) => c,
        None => 0,
    };
    let dedented = Seq::new(lines.len(), |i: int| dedent_line(lines, indent, i));
    join(drop_trailing_blank(drop_leading_blank(dedented)), seq!['\n'])
}

/// Append the characters of `t` to `out`.
pub fn push_all(out: &mut Vec<char>, t: &Vec<char>)
    ensures
        final(out)@ == old(out)@ + t@,
{
    let mut i: usize = 0;
    while i < t.len()
        invariant
            i <= t.len(),
            out@ == old(out)@ + t@.take(i as int),
        decreases t.len() - i,
    {
        out.push(t[i]);
        assert(t@.take(i + 1) == t@.take(i as int).push(t@[i as int]));
        i += 1;
    }
    assert(t@.take(t.len() as int) == t@);
}

/// Append the characters of the literal `t` to `out`.
pub fn push_str(out: &mut Vec<char>, t: &str)
    ensures
        final(out)@ == old(out)@ + t@,
{
    let v = str_chars(t);
    push_all(out, &v);
}

/// The characters `s[from..to]`.
pub fn subrange(s: &Vec<char>, from: usize, to: usize) -> (v: Vec<char>)
    requires
        from <= to <= s.len(),
    ensures
        v@ == s@.subrange(from as int, to as int),
{
    let mut v = Vec::new();
    let mut i = from;
    while i < to
        invariant
            from <= i <= to <= s.len(),
            v@ == s@.subrange(from as int, i as int),
        decreases to - i,
    {
        v.push(s[i]);
        i += 1;
    }
    v
}

/// Split on `\r\n`, `\n`, or `\r`.
pub fn split_lines_exec(s: &Vec<char>) -> (lines: Vec<Vec<char>>)
    ensures
        lines_view(lines@) == split_lines(s@),
{
    let mut lines: Vec<Vec<char>> = Vec::new();
    let mut start: usize = 0;
    let mut i: usize = 0;
    while i < s.len()
        invariant
            start <= i <= s.len(),
            split_lines(s@) == lines_view(lines@) + split_lines_from(s@, start as int, i as int),
        decreases s.len() - i,
    {
        if s[i] == '\r' {
            let line = subrange(s, start, i);
            let ghost old_lines = lines_view(lines@);
            lines.push(line);
            assert(lines_view(lines@) =~= old_lines.push(line@));
            if i + 1 < s.len() && s[i + 1] == '\n' {
                i += 1;
            }
            i += 1;
            start = i;
            assert(split_lines(s@) == lines_view(lines@) + split_lines_from(s@, start as int, i as int));
        } else if s[i] == '\n' {
            let line = subrange(s, start, i);
            let ghost old_lines = lines_view(lines@);
            lines.push(line);
            assert(lines_view(lines@) =~= old_lines.push(line@));
            i += 1;
            start = i;
            assert(split_lines(s@) == lines_view(lines@) + split_lines_from(s@, start as int, i as int));
        } else {
            i += 1;
        }
    }
    let line = subrange(s, start, s.len());
    let ghost old_lines = lines_view(lines@);
    lines.push(line);
    assert(lines_view(lines@) =~= old_lines.push(line@));
    assert(lines_view(lines@) =~= old_lines + seq![line@]);
    lines
}

/// Count the spaces and tabs that start `line`.
pub fn leading_whitespace_exec(line: &Vec<char>) -> (n: usize)
    ensures
        n == leading_whitespace(line@),
        n <= line.len(),
{
    let mut i: usize = 0;
    while i < line.len() && (line[i] == ' ' || line[i] == '\t')
        invariant
            i <= line.len(),
            space_run(line@, 0) == i + space_run(line@, i as int),
        decreases line.len() - i,
    {
        i += 1;
    }
    i
}

/// Whether `line` holds only spaces and tabs.
pub fn is_blank_exec(line: &Vec<char>) -> (b: bool)
    ensures
        b == is_blank(line@),
{
    let mut i: usize = 0;
    while i < line.len()
        invariant
            i <= line.len(),
            forall|j: int| 0 <= j < i ==> is_space_or_tab(#[trigger] line@[j]),
        decreases line.len() - i,
    {
        if !(line[i] == ' ' || line[i] == '\t') {
            return false;
        }
        i += 1;
    }
    true
}

/// Joining all parts is joining the first `k` then appending the rest.
proof fn lemma_join_take(parts: Seq<Seq<char>>, sep: Seq<char>, k: int)
    requires
        0 < k < parts.len(),
    ensures
        join(parts.take(k + 1), sep) == join(parts.take(k), sep) + sep + parts[k],
{
    assert(parts.take(k + 1).drop_last() =~= parts.take(k));
}

/// `parts` joined with `sep` between neighbours.
pub fn join_exec(parts: &Vec<Vec<char>>, sep: &Vec<char>) -> (out: Vec<char>)
    ensures
        out@ == join(lines_view(parts@), sep@),
{
    let ghost ps = lines_view(parts@);
    let mut out: Vec<char> = Vec::new();
    let mut i: usize = 0;
    while i < parts.len()
        invariant
            i <= parts.len(),
            ps == lines_view(parts@),
            ps.len() == parts.len(),
            out@ == join(ps.take(i as int), sep@),
        decreases parts.len() - i,
    {
        if i > 0 {
            push_all(&mut out, sep);
            proof {
                lemma_join_take(ps, sep@, i as int);
            }
        } else {
            assert(ps.take(1) =~= seq![ps[0]]);
        }
        push_all(&mut out, &parts[i]);
        i += 1;
    }
    assert(ps.take(parts.len() as int) =~= ps);
    out
}

pub(crate) proof fn lemma_drop_leading_blank(ls: Seq<Seq<char>>, a: int)
    requires
        0 <= a <= ls.len(),
        forall|j: int| 0 <= j < a ==> is_blank(#[trigger] ls[j]),
        a == ls.len() || !is_blank(ls[a]),
    ensures
        drop_leading_blank(ls) == ls.skip(a),
    decreases a,
{
    if a > 0 {
        assert(ls.drop_first().skip(a - 1) =~= ls.skip(a));
        assert forall|j: int| 0 <= j < a - 1 implies is_blank(#[trigger] ls.drop_first()[j]) by {
            assert(ls.drop_first()[j] == ls[j + 1]);
        }
        lemma_drop_leading_blank(ls.drop_first(), a - 1);
    } else {
        assert(ls.skip(0) =~= ls);
    }
}

pub(crate) proof fn lemma_drop_trailing_blank(ls: Seq<Seq<char>>, b: int)
    requires
        0 <= b <= ls.len(),
        forall|j: int| b <= j < ls.len() ==> is_blank(#[trigger] ls[j]),
        b == 0 || !is_blank(ls[b - 1]),
    ensures
        drop_trailing_blank(ls) == ls.take(b),
    decreases ls.len() - b,
{
    if b < ls.len() {
        assert(ls.drop_last().take(b) =~= ls.take(b));
        lemma_drop_trailing_blank(ls.drop_last(), b);
    } else {
        assert(ls.take(b) =~= ls);
    }
}

/// Apply the GraphQL block-string dedent algorithm.
pub fn dedent_block_string_exec(raw: &Vec<char>) -> (out: Vec<char>)
    ensures
        out@ == dedent_block_string(raw@),
{
    let lines = split_lines_exec(raw);
    let ghost ls = lines_view(lines@);
    let mut common: Option<usize> = None;
    let mut k: usize = 1;
    while k < lines.len()
        invariant
            1 <= k,
            k <= lines.len() || k == 1,
            ls == lines_view(lines@),
            ls.len() == lines.len(),
            common is Some <==> common_indent_upto(ls, k as int) is Some,
            common matches Some(c) ==> common_indent_upto(ls, k as int) == Some(c as nat),
        decreases lines.len() - k,
    {
        let indent = leading_whitespace_exec(&lines[k]);
        if indent < lines[k].len() {
            match common {
                Some(c) => {
                    if indent < c {
                        common = Some(indent);
                    }
                },
                None => {
                    common = Some(indent);
                },
            }
        }
        k += 1;
    }
    let ghost indent_spec = match common_indent_upto(ls, ls.len() as int) {
        Some(c) => c,
        None => 0,
    };
    let indent = match common {
        Some(c) => c,
        None => 0,
    };
    proof {
        if lines.len() == 0 {
            assert(common_indent_upto(ls, 0) is None);
            assert(common_indent_upto(ls, 1) is None);
            assert(common is None);
        } else {
            assert(k == lines.len());
        }
        match common {
            Some(c) => {
                assert(common_indent_upto(ls, ls.len() as int) == Some(c as nat));
            },
            None => {
                assert(common_indent_upto(ls, ls.len() as int) is None);
            },
        }
    }
    assert(indent == indent_spec);
    let ghost dedented = Seq::new(ls.len(), |i: int| dedent_line(ls, indent_spec, i));
    let mut result: Vec<Vec<char>> = Vec::new();
    let mut i: usize = 0;
    while i < lines.len()
        invariant
            i <= lines.len(),
            ls == lines_view(lines@),
            ls.len() == lines.len(),
            indent == indent_spec,
            dedented == Seq::new(ls.len(), |i: int| dedent_line(ls, indent_spec, i)),
            lines_view(result@) == dedented.take(i as int),
        decreases lines.len() - i,
    {
        let line = &lines[i];
        let piece = if i == 0 {
            subrange(line, 0, line.len())
        } else {
            let n = if indent < line.len() {
                indent
            } else {
                line.len()
            };
            subrange(line, n, line.len())
        };
        assert(piece@ == dedented[i as int]);
        let ghost before = lines_view(result@);
        result.push(piece);
        assert(lines_view(result@) =~= before.push(piece@));
        assert(dedented.take(i + 1) =~= dedented.take(i as int).push(dedented[i as int]));
        i += 1;
    }
    assert(dedented.take(lines.len() as int) =~= dedented);
    // Drop leading blank lines.
    let mut a: usize = 0;
    while a < result.len() && is_blank_exec(&result[a])
        invariant
            a <= result.len(),
            lines_view(result@) == dedented,
            forall|j: int| 0 <= j < a ==> is_blank(#[trigger] dedented[j]),
        decreases result.len() - a,
    {
        a += 1;
    }
    proof {
        lemma_drop_leading_blank(dedented, a as int);
    }
    let ghost front = dedented.skip(a as int);
    // Drop trailing blank lines.
    let mut b: usize = result.len();
    while b > a && is_blank_exec(&result[b - 1])
        invariant
            a <= b <= result.len(),
            lines_view(result@) == dedented,
            front == dedented.skip(a as int),
            forall|j: int| b - a <= j < front.len() ==> is_blank(#[trigger] front[j]),
        decreases b,
    {
        assert(front[b - 1 - a] == dedented[b - 1]);
        b -= 1;
    }
    proof {
        if b > a {
            assert(front[b - 1 - a] == dedented[b - 1]);
        }
        lemma_drop_trailing_blank(front, b - a);
    }
    let mut kept: Vec<Vec<char>> = Vec::new();
    let mut j = a;
    while j < b
        invariant
            a <= j <= b <= result.len(),
            lines_view(result@) == dedented,
            dedented.len() == result.len(),
            front == dedented.skip(a as int),
            lines_view(kept@) == front.take(j - a),
        decreases b - j,
    {
        let line = subrange(&result[j], 0, result[j].len());
        assert(lines_view(result@)[j as int] == result@[j as int]@);
        assert(front[j - a] == dedented[j as int]);
        assert(line@ =~= front[j - a]);
        let ghost before = lines_view(kept@);
        kept.push(line);
        assert(lines_view(kept@) =~= before.push(line@));
        assert(front.take(j + 1 - a) =~= front.take(j - a).push(front[j - a]));
        j += 1;
    }
    let sep = str_chars("\n");
    proof {
        reveal_strlit("\n");
    }
    assert(sep@ =~= seq!['\n']);
    join_exec(&kept, &sep)
}

} // verus!
