//! Parser for GraphQL executable documents.
//!
//! Reads the source character by character. Comments, commas, and
//! insignificant whitespace are ignored. Every function here returns exactly
//! what the matching function of `parse_spec` describes.
use vstd::prelude::*;
use crate::ast::{
    Argument, Definition, Directive, Document, Field, FragmentDefinition, FragmentSpread,
    InlineFragment, ObjectField, OperationDefinition, OperationType, Selection, SelectionSet, Type,
    Value, VariableDefinition,
};
use crate::model::{
    lemma_values_view_push, lemma_object_fields_view_push, lemma_selections_view_push,
    values_view, object_fields_view, selections_view, arguments_view, directives_view,
    variable_definitions_view, definitions_view, SpecValue, SpecType, SpecSelection,
};
use crate::parse_spec::{self, PErr, PRes, cons, expected_msg, hex_value};
use crate::text::{str_chars, string_from_chars, chars_eq_str, dedent_block_string_exec};

verus! {

/// A parse failure with a message and byte offset into the source.
#[derive(Debug, Clone, PartialEq, Eq)]
pub struct ParseError {
    /// Human-readable description of the failure.
    pub message: String,
    /// Byte offset where the failure was detected.
    pub position: usize,
}

/// The decimal digits of `n`.
pub open spec fn decimal(n: nat) -> Seq<char>
    decreases n,
{
    if n < 10 {
        seq![((48 + n) as u32) as char]
    } else {
        decimal(n / 10).push(((48 + n % 10) as u32) as char)
    }
}

fn decimal_exec(n: usize) -> (v: Vec<char>)
    ensures
        v@ == decimal(n as nat),
    decreases n,
{
    if n < 10 {
        vec![((48 + n) as u8) as char]
    } else {
        let mut v = decimal_exec(n / 10);
        v.push(((48 + n % 10) as u8) as char);
        v
    }
}

impl ParseError {
    /// The failure as text: the message, then ` at position ` and the offset.
    pub fn to_string(&self) -> (text: String)
        ensures
            text@ == self.message@ + " at position "@ + decimal(self.position as nat),
    {
        let mut out = str_chars(self.message.as_str());
        crate::text::push_str(&mut out, " at position ");
        crate::text::push_all(&mut out, &decimal_exec(self.position));
        string_from_chars(&out)
    }
}

/// A failure found at a character position.
pub struct Fail {
    pub message: String,
    pub at: usize,
}

impl View for Fail {
    type V = PErr;

    open spec fn view(&self) -> PErr {
        PErr { msg: self.message@, at: self.at as int }
    }
}

/// The spec-level form of an exec result whose value views directly.
pub open spec fn lifted<T: View>(r: Result<(T, usize), Fail>) -> PRes<T::V> {
    match r {
        Ok((v, e)) => Ok((v@, e as int)),
        Err(f) => Err(f@),
    }
}

/// `acc` placed before the items of `r`.
pub open spec fn prepend<T>(acc: Seq<T>, r: PRes<Seq<T>>) -> PRes<Seq<T>> {
    match r {
        Ok((xs, e)) => Ok((acc + xs, e)),
        Err(e) => Err(e),
    }
}

pub proof fn lemma_prepend_cons<T>(acc: Seq<T>, x: T, r: PRes<Seq<T>>)
    ensures
        prepend(acc, cons(x, r)) == prepend(acc.push(x), r),
{
    match r {
        Ok((xs, e)) => {
            assert(acc + (seq![x] + xs) =~= acc.push(x) + xs);
        },
        Err(e) => {},
    }
}

pub proof fn lemma_prepend_empty<T>(acc: Seq<T>, e: int)
    ensures
        prepend(acc, Ok((Seq::<T>::empty(), e))) == Ok::<(Seq<T>, int), PErr>((acc, e)),
{
    assert(acc + Seq::<T>::empty() =~= acc);
}

fn fail_at(message: &str, at: usize) -> (f: Fail)
    ensures
        f@ == (PErr { msg: message@, at: at as int }),
{
    Fail { message: String::from_str(message), at }
}

/// Base-16 digit runs never shrink in value as digits are added.
proof fn lemma_hex_value_monotone(t: Seq<char>, k: int)
    requires
        0 <= k <= t.len(),
    ensures
        hex_value(t) >= hex_value(t.take(k)),
    decreases t.len(),
{
    if k < t.len() {
        assert(t.drop_last().take(k) =~= t.take(k));
        lemma_hex_value_monotone(t.drop_last(), k);
    } else {
        assert(t.take(k) =~= t);
    }
}

pub open spec fn pow16(n: nat) -> nat
    decreases n,
{
    if n == 0 {
        1
    } else {
        16 * pow16((n - 1) as nat)
    }
}

/// A run of `n` hexadecimal digits has a value below `16^n`.
proof fn lemma_hex_value_bound(t: Seq<char>)
    requires
        parse_spec::all_hex(t),
    ensures
        hex_value(t) < pow16(t.len()),
    decreases t.len(),
{
    if t.len() > 0 {
        let u = t.drop_last();
        assert(parse_spec::all_hex(u)) by {
            assert forall|i: int| 0 <= i < u.len() implies parse_spec::is_hex_digit(#[trigger] u[i]) by {
                assert(u[i] == t[i]);
            }
        }
        lemma_hex_value_bound(u);
        assert(parse_spec::is_hex_digit(t[t.len() - 1]));
        let d = parse_spec::hex_digit_value(t.last());
        assert(d < 16);
        let b = pow16(u.len());
        assert(hex_value(u) * 16 + d < 16 * b) by (nonlinear_arith)
            requires
                hex_value(u) < b,
                d < 16,
        ;
    }
}

struct Parser {
    input: Vec<char>,
}

impl Parser {
    fn new(source: &str) -> (parser: Parser)
        ensures
            parser.input@ == source@,
    {
        Parser { input: str_chars(source) }
    }

    /// Skip whitespace, line terminators, commas, BOM, and comments.
    fn skip_ignored(&self, p: usize) -> (q: usize)
        requires
            p <= self.input.len(),
        ensures
            q == parse_spec::skip_ignored(self.input@, p as int),
            p <= q <= self.input.len(),
    {
        let ghost s = self.input@;
        let mut i = p;
        let mut in_comment = false;
        while i < self.input.len()
            invariant
                p <= i <= self.input.len(),
                s == self.input@,
                parse_spec::skip_ignored(s, p as int) == i + (if in_comment {
                    parse_spec::comment_len(s, i as int)
                } else {
                    parse_spec::ignored_len(s, i as int)
                }),
            ensures
                parse_spec::skip_ignored(s, p as int) == i,
                p <= i <= self.input.len(),
            decreases self.input.len() - i, (if in_comment { 1int } else { 0int }),
        {
            let c = self.input[i];
            if in_comment {
                if c == '\n' || c == '\r' {
                    in_comment = false;
                } else {
                    i += 1;
                }
            } else if c == ' ' || c == '\t' || c == '\n' || c == '\r' || c == ',' || c
                == '\u{FEFF}' {
                i += 1;
            } else if c == '#' {
                in_comment = true;
                i += 1;
            } else {
                break;
            }
        }
        i
    }

    fn is_name_start(c: char) -> (b: bool)
        ensures
            b == parse_spec::is_name_start(c),
    {
        c == '_' || ('a' <= c && c <= 'z') || ('A' <= c && c <= 'Z')
    }

    fn is_name_continue(c: char) -> (b: bool)
        ensures
            b == parse_spec::is_name_continue(c),
    {
        Self::is_name_start(c) || ('0' <= c && c <= '9')
    }

    fn is_digit(c: char) -> (b: bool)
        ensures
            b == parse_spec::is_digit(c),
    {
        '0' <= c && c <= '9'
    }

    /// The characters `input[from..to]`.
    fn slice(&self, from: usize, to: usize) -> (v: Vec<char>)
        requires
            from <= to <= self.input.len(),
        ensures
            v@ == self.input@.subrange(from as int, to as int),
    {
        let mut v = Vec::new();
        let mut i = from;
        while i < to
            invariant
                from <= i <= to <= self.input.len(),
                v@ == self.input@.subrange(from as int, i as int),
            decreases to - i,
        {
            v.push(self.input[i]);
            i += 1;
        }
        v
    }

    /// Read a Name token: `/[_A-Za-z][_0-9A-Za-z]*/`.
    fn parse_name(&self, p: usize) -> (r: Result<(Vec<char>, usize), Fail>)
        requires
            p <= self.input.len(),
        ensures
            lifted(r) == parse_spec::parse_name(self.input@, p as int),
            r matches Ok((_, e)) ==> p < e <= self.input.len(),
            r matches Err(f) ==> f.at <= self.input.len(),
    {
        let ghost s = self.input@;
        let q = self.skip_ignored(p);
        if q < self.input.len() && Self::is_name_start(self.input[q]) {
            let mut e = q + 1;
            assert(parse_spec::name_len(s, q + 1) + (q + 1) == e + parse_spec::name_len(s, e as int));
            while e < self.input.len() && Self::is_name_continue(self.input[e])
                invariant
                    q < e <= self.input.len(),
                    s == self.input@,
                    parse_spec::name_len(s, q + 1) + (q + 1) == e + parse_spec::name_len(s, e as int),
                decreases self.input.len() - e,
            {
                e += 1;
            }
            Ok((self.slice(q, e), e))
        } else {
            Err(fail_at("expected a name", q))
        }
    }

    /// Match an exact keyword without consuming a longer name.
    fn keyword_at(&self, q: usize, kw: &str) -> (b: bool)
        requires
            q <= self.input.len(),
        ensures
            b == parse_spec::keyword_at(self.input@, q as int, kw@),
    {
        let k = str_chars(kw);
        if k.len() > self.input.len() - q {
            return false;
        }
        let mut i: usize = 0;
        while i < k.len()
            invariant
                i <= k.len(),
                q + k.len() <= self.input.len(),
                k@ == kw@,
                forall|j: int| 0 <= j < i ==> self.input@[q + j] == k@[j],
            decreases k.len() - i,
        {
            if self.input[q + i] != k[i] {
                assert(self.input@.subrange(q as int, q + k.len())[i as int] != kw@[i as int]);
                return false;
            }
            i += 1;
        }
        assert(self.input@.subrange(q as int, q + k.len()) =~= kw@);
        let end = q + k.len();
        !(end < self.input.len() && Self::is_name_continue(self.input[end]))
    }

    fn peek_keyword(&self, p: usize, kw: &str) -> (b: bool)
        requires
            p <= self.input.len(),
        ensures
            b == parse_spec::peek_keyword(self.input@, p as int, kw@),
    {
        let q = self.skip_ignored(p);
        self.keyword_at(q, kw)
    }

    /// Consume `expected` after skipping ignored tokens, or fail.
    fn expect(&self, p: usize, expected: char) -> (r: Result<usize, Fail>)
        requires
            p <= self.input.len(),
        ensures
            match r {
                Ok(e) => parse_spec::expect(self.input@, p as int, expected) == Ok::<int, PErr>(e as int)
                    && p < e <= self.input.len(),
                Err(f) => parse_spec::expect(self.input@, p as int, expected) == Err::<int, PErr>(f@)
                    && f.at <= self.input.len(),
            },
    {
        let q = self.skip_ignored(p);
        if q < self.input.len() && self.input[q] == expected {
            Ok(q + 1)
        } else {
            let mut message = String::from_str("expected '");
            message.push(expected);
            message.append("'");
            assert(message@ == expected_msg(expected));
            Err(Fail { message, at: q })
        }
    }

    /// Consume `expected` if it is next after ignored tokens.
    fn consume(&self, p: usize, expected: char) -> (r: (bool, usize))
        requires
            p <= self.input.len(),
        ensures
            (r.0, r.1 as int) == parse_spec::consume(self.input@, p as int, expected),
            p <= r.1 <= self.input.len(),
            r.0 ==> p < r.1,
    {
        let q = self.skip_ignored(p);
        if q < self.input.len() && self.input[q] == expected {
            (true, q + 1)
        } else {
            (false, q)
        }
    }
}

impl Parser {
    fn digit_at(&self, p: usize) -> (b: bool)
        ensures
            b == parse_spec::digit_at(self.input@, p as int),
    {
        p < self.input.len() && Self::is_digit(self.input[p])
    }

    fn char_at(&self, p: usize, c: char) -> (b: bool)
        ensures
            b == parse_spec::at_char(self.input@, p as int, c),
    {
        p < self.input.len() && self.input[p] == c
    }

    /// The end of the digit run starting at `p`.
    fn digits_end(&self, p: usize) -> (e: usize)
        requires
            p <= self.input.len(),
        ensures
            e == p + parse_spec::digits_len(self.input@, p as int),
            e <= self.input.len(),
    {
        let ghost s = self.input@;
        let mut e = p;
        while e < self.input.len() && Self::is_digit(self.input[e])
            invariant
                p <= e <= self.input.len(),
                s == self.input@,
                p + parse_spec::digits_len(s, p as int) == e + parse_spec::digits_len(s, e as int),
            decreases self.input.len() - e,
        {
            e += 1;
        }
        e
    }

    /// A number starting at `p`, kept as written.
    fn parse_number(&self, p: usize) -> (r: Result<(Value, usize), Fail>)
        requires
            p < self.input.len(),
        ensures
            lifted(r) == parse_spec::parse_number(self.input@, p as int),
            r matches Ok((_, e)) ==> p < e <= self.input.len(),
            r matches Err(f) ==> f.at <= self.input.len(),
    {
        let mut i = p;
        if self.char_at(i, '-') {
            i += 1;
        }
        if self.char_at(i, '0') {
            i += 1;
        } else {
            if !self.digit_at(i) {
                return Err(fail_at("invalid number", i));
            }
            i = self.digits_end(i);
        }
        let mut is_float = false;
        if self.char_at(i, '.') {
            is_float = true;
            if !self.digit_at(i + 1) {
                return Err(fail_at("invalid float", i + 1));
            }
            i = self.digits_end(i + 1);
        }
        if self.char_at(i, 'e') || self.char_at(i, 'E') {
            is_float = true;
            let mut a = i + 1;
            if self.char_at(a, '+') || self.char_at(a, '-') {
                a += 1;
            }
            if !self.digit_at(a) {
                return Err(fail_at("invalid exponent", a));
            }
            i = self.digits_end(a);
        }
        let text = string_from_chars(&self.slice(p, i));
        if is_float {
            Ok((Value::Float(text), i))
        } else {
            Ok((Value::Int(text), i))
        }
    }

    fn is_hex_digit(c: char) -> (b: bool)
        ensures
            b == parse_spec::is_hex_digit(c),
    {
        Self::is_digit(c) || ('a' <= c && c <= 'f') || ('A' <= c && c <= 'F')
    }

    fn hex_digit_value(c: char) -> (v: u32)
        requires
            parse_spec::is_hex_digit(c),
        ensures
            v == parse_spec::hex_digit_value(c),
            v < 16,
    {
        if Self::is_digit(c) {
            (c as u32) - ('0' as u32)
        } else if 'a' <= c && c <= 'f' {
            (c as u32) - ('a' as u32) + 10
        } else {
            (c as u32) - ('A' as u32) + 10
        }
    }

    /// The value of the hexadecimal digits `input[from..to]`, or `None` when
    /// it does not fit in a `u32`.
    fn hex_run_value(&self, from: usize, to: usize) -> (r: Option<u32>)
        requires
            from <= to <= self.input.len(),
            parse_spec::all_hex(self.input@.subrange(from as int, to as int)),
        ensures
            match r {
                Some(v) => v as nat == hex_value(self.input@.subrange(from as int, to as int)),
                None => hex_value(self.input@.subrange(from as int, to as int)) > 0xFFFF_FFFF,
            },
    {
        let ghost t = self.input@.subrange(from as int, to as int);
        let mut v: u64 = 0;
        let mut i = from;
        while i < to
            invariant
                from <= i <= to <= self.input.len(),
                t == self.input@.subrange(from as int, to as int),
                parse_spec::all_hex(t),
                v as nat == hex_value(t.take(i - from)),
                v <= 0xFFFF_FFFF,
            decreases to - i,
        {
            assert(t[i - from] == self.input@[i as int]);
            let d = Self::hex_digit_value(self.input[i]);
            assert(t.take(i + 1 - from).drop_last() =~= t.take(i - from));
            v = v * 16 + d as u64;
            i += 1;
            if v > 0xFFFF_FFFF {
                proof {
                    lemma_hex_value_monotone(t, i - from);
                }
                return None;
            }
        }
        assert(t.take(to - from) =~= t);
        Some(v as u32)
    }

    /// The `XXXX` of a `\uXXXX` escape at `p`.
    fn read_four_hex(&self, p: usize) -> (r: Result<(u32, usize), Fail>)
        requires
            p <= self.input.len(),
        ensures
            match r {
                Ok((v, e)) => parse_spec::read_four_hex(self.input@, p as int) == Ok::<
                    (nat, int),
                    PErr,
                >((v as nat, e as int)) && e == p + 4 && e <= self.input.len(),
                Err(f) => parse_spec::read_four_hex(self.input@, p as int) == Err::<
                    (nat, int),
                    PErr,
                >(f@) && f.at <= self.input.len(),
            },
    {
        let ghost s = self.input@;
        if self.input.len() - p < 4 {
            return Err(fail_at("invalid unicode escape", p));
        }
        let ghost t = s.subrange(p as int, p + 4);
        let h0 = Self::is_hex_digit(self.input[p]);
        let h1 = Self::is_hex_digit(self.input[p + 1]);
        let h2 = Self::is_hex_digit(self.input[p + 2]);
        let h3 = Self::is_hex_digit(self.input[p + 3]);
        assert(t[0] == s[p as int] && t[1] == s[p + 1] && t[2] == s[p + 2] && t[3] == s[p + 3]);
        if h0 && h1 && h2 && h3 {
            assert(parse_spec::all_hex(t));
            proof {
                lemma_hex_value_bound(t);
                reveal_with_fuel(pow16, 5);
            }
            match self.hex_run_value(p, p + 4) {
                Some(v) => Ok((v, p + 4)),
                None => Err(fail_at("invalid unicode escape", p)),
            }
        } else if self.input[p] == '+' && h1 && h2 && h3 {
            let ghost u = t.drop_first();
            assert(u =~= s.subrange(p + 1, p + 4));
            assert(parse_spec::all_hex(u));
            assert(!parse_spec::all_hex(t)) by {
                assert(!parse_spec::is_hex_digit(t[0]));
            }
            proof {
                lemma_hex_value_bound(u);
                reveal_with_fuel(pow16, 5);
            }
            match self.hex_run_value(p + 1, p + 4) {
                Some(v) => Ok((v, p + 4)),
                None => Err(fail_at("invalid unicode escape", p)),
            }
        } else {
            assert(!parse_spec::four_hex_ok(t)) by {
                if parse_spec::all_hex(t) {
                    assert(parse_spec::is_hex_digit(t[0]) && parse_spec::is_hex_digit(t[1])
                        && parse_spec::is_hex_digit(t[2]) && parse_spec::is_hex_digit(t[3]));
                }
                if t[0] == '+' && parse_spec::all_hex(t.drop_first()) {
                    assert(t.drop_first()[0] == t[1] && t.drop_first()[1] == t[2]
                        && t.drop_first()[2] == t[3]);
                }
            }
            Err(fail_at("invalid unicode escape", p))
        }
    }

    /// The character with scalar value `v`, or a failure at `at`.
    fn scalar_char(v: u32, message: &str, at: usize) -> (r: Result<(char, usize), Fail>)
        ensures
            lifted(r) == parse_spec::scalar_char(v as nat, message@, at as int),
            r matches Err(f) ==> f.at == at,
            r matches Ok((_, e)) ==> e == at,
    {
        match std::char::from_u32(v) {
            Some(c) => Ok((c, at)),
            None => Err(fail_at(message, at)),
        }
    }

    /// The unicode escape whose body starts at `p` (after `\u`).
    fn parse_unicode_escape(&self, p: usize) -> (r: Result<(char, usize), Fail>)
        requires
            p <= self.input.len(),
        ensures
            lifted(r) == parse_spec::parse_unicode_escape(self.input@, p as int),
            r matches Ok((_, e)) ==> p < e <= self.input.len(),
            r matches Err(f) ==> f.at <= self.input.len(),
    {
        let ghost s = self.input@;
        if self.char_at(p, '{') {
            let mut j = p + 1;
            while j < self.input.len() && Self::is_hex_digit(self.input[j])
                invariant
                    p + 1 <= j <= self.input.len(),
                    s == self.input@,
                    p + 1 + parse_spec::hex_len(s, p + 1) == j + parse_spec::hex_len(s, j as int),
                    forall|k: int| p + 1 <= k < j ==> parse_spec::is_hex_digit(#[trigger] s[k]),
                decreases self.input.len() - j,
            {
                j += 1;
            }
            if !self.char_at(j, '}') || j == p + 1 {
                return Err(fail_at("invalid unicode escape", j));
            }
            assert(parse_spec::all_hex(s.subrange(p + 1, j as int))) by {
                assert forall|k: int| 0 <= k < j - p - 1 implies parse_spec::is_hex_digit(
                    #[trigger] s.subrange(p + 1, j as int)[k],
                ) by {
                    assert(s.subrange(p + 1, j as int)[k] == s[p + 1 + k]);
                }
            }
            match self.hex_run_value(p + 1, j) {
                None => Err(fail_at("invalid unicode escape", j + 1)),
                Some(code) => Self::scalar_char(code, "invalid unicode code point", j + 1),
            }
        } else {
            let (high, a) = match self.read_four_hex(p) {
                Ok(x) => x,
                Err(f) => {
                    return Err(f);
                },
            };
            if 0xD800 <= high && high <= 0xDBFF && self.char_at(a, '\\') && self.char_at(a + 1, 'u') {
                let (low, b) = match self.read_four_hex(a + 2) {
                    Ok(x) => x,
                    Err(f) => {
                        return Err(f);
                    },
                };
                if 0xDC00 <= low && low <= 0xDFFF {
                    let code = 0x10000 + (high - 0xD800) * 1024 + (low - 0xDC00);
                    Self::scalar_char(code, "invalid surrogate pair", b)
                } else {
                    Err(fail_at("invalid low surrogate", b))
                }
            } else {
                Self::scalar_char(high, "invalid unicode code point", a)
            }
        }
    }

    /// The escape whose letter is at `p` (after the backslash).
    fn parse_escape(&self, p: usize) -> (r: Result<(char, usize), Fail>)
        requires
            p <= self.input.len(),
        ensures
            lifted(r) == parse_spec::parse_escape(self.input@, p as int),
            r matches Ok((_, e)) ==> p < e <= self.input.len(),
            r matches Err(f) ==> f.at <= self.input.len(),
    {
        if p >= self.input.len() {
            return Err(fail_at("invalid escape sequence", p));
        }
        let c = self.input[p];
        if c == '"' || c == '\\' || c == '/' {
            Ok((c, p + 1))
        } else if c == 'b' {
            Ok(('\u{8}', p + 1))
        } else if c == 'f' {
            Ok(('\u{c}', p + 1))
        } else if c == 'n' {
            Ok(('\n', p + 1))
        } else if c == 'r' {
            Ok(('\r', p + 1))
        } else if c == 't' {
            Ok(('\t', p + 1))
        } else if c == 'u' {
            self.parse_unicode_escape(p + 1)
        } else {
            Err(fail_at("invalid escape sequence", p))
        }
    }

    /// The characters of a quoted string from `p` through its closing quote.
    fn parse_string_body(&self, p: usize) -> (r: Result<(Vec<char>, usize), Fail>)
        requires
            p <= self.input.len(),
        ensures
            lifted(r) == parse_spec::string_body(self.input@, p as int),
            r matches Ok((_, e)) ==> p < e <= self.input.len(),
            r matches Err(f) ==> f.at <= self.input.len(),
    {
        let ghost s = self.input@;
        let mut out: Vec<char> = Vec::new();
        let mut i = p;
        loop
            invariant
                p <= i <= self.input.len(),
                s == self.input@,
                prepend(out@, parse_spec::string_body(s, i as int)) == parse_spec::string_body(
                    s,
                    p as int,
                ),
            decreases self.input.len() - i,
        {
            if i >= self.input.len() {
                return Err(fail_at("unterminated string", i));
            }
            let c = self.input[i];
            if c == '"' {
                proof {
                    lemma_prepend_empty(out@, i + 1);
                }
                return Ok((out, i + 1));
            } else if c == '\n' || c == '\r' {
                return Err(fail_at("unterminated string", i));
            } else if c == '\\' {
                match self.parse_escape(i + 1) {
                    Err(f) => {
                        return Err(f);
                    },
                    Ok((ch, q)) => {
                        proof {
                            lemma_prepend_cons(out@, ch, parse_spec::string_body(s, q as int));
                        }
                        out.push(ch);
                        i = q;
                    },
                }
            } else {
                proof {
                    lemma_prepend_cons(out@, c, parse_spec::string_body(s, i + 1));
                }
                out.push(c);
                i += 1;
            }
        }
    }

    /// `t` occurs at position `p`.
    fn starts_at(&self, p: usize, t: &Vec<char>) -> (b: bool)
        requires
            p <= self.input.len(),
        ensures
            b == parse_spec::starts_at(self.input@, p as int, t@),
    {
        if t.len() > self.input.len() - p {
            return false;
        }
        let mut i: usize = 0;
        while i < t.len()
            invariant
                i <= t.len(),
                p + t.len() <= self.input.len(),
                forall|j: int| 0 <= j < i ==> self.input@[p + j] == t@[j],
            decreases t.len() - i,
        {
            if self.input[p + i] != t[i] {
                assert(self.input@.subrange(p as int, p + t.len())[i as int] != t@[i as int]);
                return false;
            }
            i += 1;
        }
        assert(self.input@.subrange(p as int, p + t.len()) =~= t@);
        true
    }

    /// The raw characters of a block string from `p` through its closing `"""`.
    fn parse_block_string_raw(&self, p: usize) -> (r: Result<(Vec<char>, usize), Fail>)
        requires
            p <= self.input.len(),
        ensures
            lifted(r) == parse_spec::block_string_raw(self.input@, p as int),
            r matches Ok((_, e)) ==> p < e <= self.input.len(),
            r matches Err(f) ==> f.at <= self.input.len(),
    {
        let ghost s = self.input@;
        let escaped_close = vec!['\\', '"', '"', '"'];
        let close = vec!['"', '"', '"'];
        assert(escaped_close@ =~= seq!['\\', '"', '"', '"']);
        assert(close@ =~= parse_spec::triple_quote());
        let mut out: Vec<char> = Vec::new();
        let mut i = p;
        loop
            invariant
                p <= i <= self.input.len(),
                s == self.input@,
                escaped_close@ == seq!['\\', '"', '"', '"'],
                close@ == parse_spec::triple_quote(),
                prepend(out@, parse_spec::block_string_raw(s, i as int))
                    == parse_spec::block_string_raw(s, p as int),
            decreases self.input.len() - i,
        {
            if self.starts_at(i, &escaped_close) {
                let ghost rest = parse_spec::block_string_raw(s, i + 4);
                proof {
                    match rest {
                        Ok((raw, e)) => {
                            assert(out@ + (parse_spec::triple_quote() + raw) =~= (out@
                                + parse_spec::triple_quote()) + raw);
                        },
                        Err(e) => {},
                    }
                }
                let ghost before = out@;
                out.push('"');
                out.push('"');
                out.push('"');
                assert(out@ =~= before + parse_spec::triple_quote());
                i += 4;
            } else if self.starts_at(i, &close) {
                proof {
                    lemma_prepend_empty(out@, i + 3);
                }
                return Ok((out, i + 3));
            } else if i >= self.input.len() {
                return Err(fail_at("unterminated block string", i));
            } else {
                proof {
                    lemma_prepend_cons(out@, s[i as int], parse_spec::block_string_raw(s, i + 1));
                }
                out.push(self.input[i]);
                i += 1;
            }
        }
    }
}

/// The spec-level form of a list-of-values result.
pub open spec fn lifted_values(r: Result<(Vec<Value>, usize), Fail>) -> PRes<Seq<SpecValue>> {
    match r {
        Ok((v, e)) => Ok((values_view(v@), e as int)),
        Err(f) => Err(f@),
    }
}

pub open spec fn lifted_fields(r: Result<(Vec<ObjectField>, usize), Fail>) -> PRes<
    Seq<(Seq<char>, SpecValue)>,
> {
    match r {
        Ok((v, e)) => Ok((object_fields_view(v@), e as int)),
        Err(f) => Err(f@),
    }
}

impl Parser {
    /// A string literal starting at its opening quote `p`.
    fn parse_string(&self, p: usize) -> (r: Result<(Value, usize), Fail>)
        requires
            p < self.input.len(),
        ensures
            lifted(r) == parse_spec::parse_string(self.input@, p as int),
            r matches Ok((_, e)) ==> p < e <= self.input.len(),
            r matches Err(f) ==> f.at <= self.input.len(),
    {
        let close = vec!['"', '"', '"'];
        assert(close@ =~= parse_spec::triple_quote());
        if self.starts_at(p, &close) {
            match self.parse_block_string_raw(p + 3) {
                Err(f) => Err(f),
                Ok((raw, e)) => {
                    let value = dedent_block_string_exec(&raw);
                    Ok((Value::String { value: string_from_chars(&value), block: true }, e))
                },
            }
        } else {
            match self.parse_string_body(p + 1) {
                Err(f) => Err(f),
                Ok((value, e)) => Ok(
                    (Value::String { value: string_from_chars(&value), block: false }, e),
                ),
            }
        }
    }

    /// A value; `is_const` rejects variables.
    fn parse_value(&self, p: usize, is_const: bool) -> (r: Result<(Value, usize), Fail>)
        requires
            p <= self.input.len(),
        ensures
            lifted(r) == parse_spec::parse_value(self.input@, p as int, is_const),
            r matches Ok((_, e)) ==> p < e <= self.input.len(),
            r matches Err(f) ==> f.at <= self.input.len(),
        decreases self.input.len() - p, 0int,
    {
        let q = self.skip_ignored(p);
        if q >= self.input.len() {
            return Err(fail_at("expected a value", q));
        }
        let c = self.input[q];
        if c == '$' {
            if is_const {
                return Err(fail_at("a constant value cannot be a variable", q));
            }
            match self.parse_name(q + 1) {
                Ok((n, e)) => Ok((Value::Variable(string_from_chars(&n)), e)),
                Err(f) => Err(f),
            }
        } else if c == '[' {
            match self.parse_list_items(q + 1, is_const) {
                Ok((items, e)) => Ok((Value::List(items), e)),
                Err(f) => Err(f),
            }
        } else if c == '{' {
            match self.parse_object_fields(q + 1, is_const) {
                Ok((fields, e)) => Ok((Value::Object(fields), e)),
                Err(f) => Err(f),
            }
        } else if c == '"' {
            self.parse_string(q)
        } else if c == '-' || Self::is_digit(c) {
            self.parse_number(q)
        } else if Self::is_name_start(c) {
            match self.parse_name(q) {
                Ok((n, e)) => {
                    if chars_eq_str(&n, "true") {
                        Ok((Value::Boolean(true), e))
                    } else if chars_eq_str(&n, "false") {
                        Ok((Value::Boolean(false), e))
                    } else if chars_eq_str(&n, "null") {
                        Ok((Value::Null, e))
                    } else {
                        Ok((Value::Enum(string_from_chars(&n)), e))
                    }
                },
                Err(f) => Err(f),
            }
        } else {
            Err(fail_at("expected a value", q))
        }
    }

    /// The items of a list value from `p` (after `[`) through `]`.
    fn parse_list_items(&self, p: usize, is_const: bool) -> (r: Result<(Vec<Value>, usize), Fail>)
        requires
            p <= self.input.len(),
        ensures
            lifted_values(r) == parse_spec::parse_list_items(self.input@, p as int, is_const),
            r matches Ok((_, e)) ==> p < e <= self.input.len(),
            r matches Err(f) ==> f.at <= self.input.len(),
        decreases self.input.len() - p, 1int,
    {
        let ghost s = self.input@;
        let mut items: Vec<Value> = Vec::new();
        let mut i = p;
        loop
            invariant
                p <= i <= self.input.len(),
                s == self.input@,
                prepend(values_view(items@), parse_spec::parse_list_items(s, i as int, is_const))
                    == parse_spec::parse_list_items(s, p as int, is_const),
            decreases self.input.len() - i,
        {
            let q = self.skip_ignored(i);
            if q < self.input.len() && self.input[q] == ']' {
                proof {
                    lemma_prepend_empty(values_view(items@), q + 1);
                }
                return Ok((items, q + 1));
            }
            if q >= self.input.len() {
                return Err(fail_at("unterminated list value", q));
            }
            match self.parse_value(q, is_const) {
                Err(f) => {
                    return Err(f);
                },
                Ok((v, r)) => {
                    proof {
                        lemma_prepend_cons(
                            values_view(items@),
                            v@,
                            parse_spec::parse_list_items(s, r as int, is_const),
                        );
                        lemma_values_view_push(items@, v);
                    }
                    items.push(v);
                    i = r;
                },
            }
        }
    }

    /// The fields of an object value from `p` (after `{`) through `}`.
    fn parse_object_fields(&self, p: usize, is_const: bool) -> (r: Result<
        (Vec<ObjectField>, usize),
        Fail,
    >)
        requires
            p <= self.input.len(),
        ensures
            lifted_fields(r) == parse_spec::parse_object_fields(self.input@, p as int, is_const),
            r matches Ok((_, e)) ==> p < e <= self.input.len(),
            r matches Err(f) ==> f.at <= self.input.len(),
        decreases self.input.len() - p, 1int,
    {
        let ghost s = self.input@;
        let mut fields: Vec<ObjectField> = Vec::new();
        let mut i = p;
        loop
            invariant
                p <= i <= self.input.len(),
                s == self.input@,
                prepend(
                    object_fields_view(fields@),
                    parse_spec::parse_object_fields(s, i as int, is_const),
                ) == parse_spec::parse_object_fields(s, p as int, is_const),
            decreases self.input.len() - i,
        {
            let q = self.skip_ignored(i);
            if q < self.input.len() && self.input[q] == '}' {
                proof {
                    lemma_prepend_empty(object_fields_view(fields@), q + 1);
                }
                return Ok((fields, q + 1));
            }
            if q >= self.input.len() {
                return Err(fail_at("unterminated object value", q));
            }
            let (name, a) = match self.parse_name(q) {
                Ok(x) => x,
                Err(f) => {
                    return Err(f);
                },
            };
            let b = match self.expect(a, ':') {
                Ok(x) => x,
                Err(f) => {
                    return Err(f);
                },
            };
            match self.parse_value(b, is_const) {
                Err(f) => {
                    return Err(f);
                },
                Ok((v, r)) => {
                    let field = ObjectField { name: string_from_chars(&name), value: v };
                    proof {
                        lemma_prepend_cons(
                            object_fields_view(fields@),
                            field@,
                            parse_spec::parse_object_fields(s, r as int, is_const),
                        );
                        lemma_object_fields_view_push(fields@, field);
                    }
                    fields.push(field);
                    i = r;
                },
            }
        }
    }
}

pub open spec fn lifted_arguments(r: Result<(Vec<Argument>, usize), Fail>) -> PRes<
    Seq<crate::model::SpecArgument>,
> {
    match r {
        Ok((v, e)) => Ok((arguments_view(v@), e as int)),
        Err(f) => Err(f@),
    }
}

pub open spec fn lifted_directives(r: Result<(Vec<Directive>, usize), Fail>) -> PRes<
    Seq<crate::model::SpecDirective>,
> {
    match r {
        Ok((v, e)) => Ok((directives_view(v@), e as int)),
        Err(f) => Err(f@),
    }
}

pub open spec fn lifted_variable_definitions(
    r: Result<(Vec<VariableDefinition>, usize), Fail>,
) -> PRes<Seq<crate::model::SpecVariableDefinition>> {
    match r {
        Ok((v, e)) => Ok((variable_definitions_view(v@), e as int)),
        Err(f) => Err(f@),
    }
}

pub open spec fn lifted_default(r: Result<(Option<Value>, usize), Fail>) -> PRes<
    Option<SpecValue>,
> {
    match r {
        Ok((Some(v), e)) => Ok((Some(v@), e as int)),
        Ok((None, e)) => Ok((None, e as int)),
        Err(f) => Err(f@),
    }
}

impl Parser {
    /// A type reference: `Name`, `[Type]`, either optionally followed by `!`.
    fn parse_type(&self, p: usize) -> (r: Result<(Type, usize), Fail>)
        requires
            p <= self.input.len(),
        ensures
            lifted(r) == parse_spec::parse_type(self.input@, p as int),
            r matches Ok((_, e)) ==> p < e <= self.input.len(),
            r matches Err(f) ==> f.at <= self.input.len(),
        decreases self.input.len() - p,
    {
        let (open, q) = self.consume(p, '[');
        let (base, r) = if open {
            let (inner, r) = match self.parse_type(q) {
                Ok(x) => x,
                Err(f) => {
                    return Err(f);
                },
            };
            let e = match self.expect(r, ']') {
                Ok(x) => x,
                Err(f) => {
                    return Err(f);
                },
            };
            let t = Type::List(Box::new(inner));
            assert(t@ == crate::model::SpecType::List(Box::new(inner@)));
            (t, e)
        } else {
            let (n, e) = match self.parse_name(q) {
                Ok(x) => x,
                Err(f) => {
                    return Err(f);
                },
            };
            (Type::Named(string_from_chars(&n)), e)
        };
        let (bang, e) = self.consume(r, '!');
        if bang {
            let t = Type::NonNull(Box::new(base));
            assert(t@ == crate::model::SpecType::NonNull(Box::new(base@)));
            Ok((t, e))
        } else {
            Ok((base, e))
        }
    }

    /// The arguments from `p` (after `(`) through `)`.
    fn parse_argument_items(&self, p: usize) -> (r: Result<(Vec<Argument>, usize), Fail>)
        requires
            p <= self.input.len(),
        ensures
            lifted_arguments(r) == parse_spec::parse_argument_items(self.input@, p as int),
            r matches Ok((_, e)) ==> p < e <= self.input.len(),
            r matches Err(f) ==> f.at <= self.input.len(),
    {
        let ghost s = self.input@;
        let mut args: Vec<Argument> = Vec::new();
        let mut i = p;
        loop
            invariant
                p <= i <= self.input.len(),
                s == self.input@,
                prepend(arguments_view(args@), parse_spec::parse_argument_items(s, i as int))
                    == parse_spec::parse_argument_items(s, p as int),
            decreases self.input.len() - i,
        {
            let q = self.skip_ignored(i);
            if q < self.input.len() && self.input[q] == ')' {
                proof {
                    lemma_prepend_empty(arguments_view(args@), q + 1);
                }
                return Ok((args, q + 1));
            }
            let (name, a) = match self.parse_name(q) {
                Ok(x) => x,
                Err(f) => {
                    return Err(f);
                },
            };
            let b = match self.expect(a, ':') {
                Ok(x) => x,
                Err(f) => {
                    return Err(f);
                },
            };
            let (value, r) = match self.parse_value(b, false) {
                Ok(x) => x,
                Err(f) => {
                    return Err(f);
                },
            };
            if r >= self.input.len() {
                return Err(fail_at("unterminated arguments", r));
            }
            let arg = Argument { name: string_from_chars(&name), value };
            proof {
                lemma_prepend_cons(
                    arguments_view(args@),
                    arg@,
                    parse_spec::parse_argument_items(s, r as int),
                );
                assert(arguments_view(args@.push(arg)) =~= arguments_view(args@).push(arg@));
            }
            args.push(arg);
            i = r;
        }
    }

    /// An optional parenthesized argument list.
    fn parse_arguments(&self, p: usize) -> (r: Result<(Vec<Argument>, usize), Fail>)
        requires
            p <= self.input.len(),
        ensures
            lifted_arguments(r) == parse_spec::parse_arguments(self.input@, p as int),
            r matches Ok((_, e)) ==> p <= e <= self.input.len(),
            r matches Err(f) ==> f.at <= self.input.len(),
    {
        let (open, q) = self.consume(p, '(');
        if open {
            self.parse_argument_items(q)
        } else {
            let args: Vec<Argument> = Vec::new();
            assert(arguments_view(args@) =~= Seq::empty());
            Ok((args, q))
        }
    }

    /// A run of directives `@name(args)`.
    fn parse_directives(&self, p: usize) -> (r: Result<(Vec<Directive>, usize), Fail>)
        requires
            p <= self.input.len(),
        ensures
            lifted_directives(r) == parse_spec::parse_directives(self.input@, p as int),
            r matches Ok((_, e)) ==> p <= e <= self.input.len(),
            r matches Err(f) ==> f.at <= self.input.len(),
    {
        let ghost s = self.input@;
        let mut dirs: Vec<Directive> = Vec::new();
        let mut i = p;
        loop
            invariant
                p <= i <= self.input.len(),
                s == self.input@,
                prepend(directives_view(dirs@), parse_spec::parse_directives(s, i as int))
                    == parse_spec::parse_directives(s, p as int),
            decreases self.input.len() - i,
        {
            let q = self.skip_ignored(i);
            if !(q < self.input.len() && self.input[q] == '@') {
                proof {
                    lemma_prepend_empty(directives_view(dirs@), q as int);
                }
                return Ok((dirs, q));
            }
            let (name, a) = match self.parse_name(q + 1) {
                Ok(x) => x,
                Err(f) => {
                    return Err(f);
                },
            };
            let (arguments, b) = match self.parse_arguments(a) {
                Ok(x) => x,
                Err(f) => {
                    return Err(f);
                },
            };
            let dir = Directive { name: string_from_chars(&name), arguments };
            proof {
                lemma_prepend_cons(
                    directives_view(dirs@),
                    dir@,
                    parse_spec::parse_directives(s, b as int),
                );
                assert(directives_view(dirs@.push(dir)) =~= directives_view(dirs@).push(dir@));
            }
            dirs.push(dir);
            i = b;
        }
    }

    /// The default value of a variable definition, if `=` follows at `p`.
    fn parse_default_value(&self, p: usize) -> (r: Result<(Option<Value>, usize), Fail>)
        requires
            p <= self.input.len(),
        ensures
            lifted_default(r) == parse_spec::parse_default_value(self.input@, p as int),
            r matches Ok((_, e)) ==> p <= e <= self.input.len(),
            r matches Err(f) ==> f.at <= self.input.len(),
    {
        let (eq, q) = self.consume(p, '=');
        if eq {
            match self.parse_value(q, true) {
                Err(f) => Err(f),
                Ok((v, r)) => Ok((Some(v), r)),
            }
        } else {
            Ok((None, q))
        }
    }

    /// One variable definition `$name: Type = default @directives` at `p`.
    fn parse_variable_definition(&self, p: usize) -> (r: Result<(VariableDefinition, usize), Fail>)
        requires
            p <= self.input.len(),
        ensures
            lifted(r) == parse_spec::parse_variable_definition(self.input@, p as int),
            r matches Ok((_, e)) ==> p < e <= self.input.len(),
            r matches Err(f) ==> f.at <= self.input.len(),
    {
        proof {
            reveal(parse_spec::parse_variable_definition);
        }
        let a = match self.expect(p, '$') {
            Ok(x) => x,
            Err(f) => {
                return Err(f);
            },
        };
        let (variable, b) = match self.parse_name(a) {
            Ok(x) => x,
            Err(f) => {
                return Err(f);
            },
        };
        let c = match self.expect(b, ':') {
            Ok(x) => x,
            Err(f) => {
                return Err(f);
            },
        };
        let (ty, d) = match self.parse_type(c) {
            Ok(x) => x,
            Err(f) => {
                return Err(f);
            },
        };
        let (default_value, f) = match self.parse_default_value(d) {
            Ok(x) => x,
            Err(f) => {
                return Err(f);
            },
        };
        let (directives, g) = match self.parse_directives(f) {
            Ok(x) => x,
            Err(f) => {
                return Err(f);
            },
        };
        Ok((VariableDefinition { variable: string_from_chars(&variable), ty, default_value, directives }, g))
    }

    /// Variable definitions from `p` (after `(`) through `)`.
    fn parse_variable_definition_items(&self, p: usize) -> (r: Result<
        (Vec<VariableDefinition>, usize),
        Fail,
    >)
        requires
            p <= self.input.len(),
        ensures
            lifted_variable_definitions(r) == parse_spec::parse_variable_definition_items(
                self.input@,
                p as int,
            ),
            r matches Ok((_, e)) ==> p < e <= self.input.len(),
            r matches Err(f) ==> f.at <= self.input.len(),
    {
        let ghost s = self.input@;
        let mut defs: Vec<VariableDefinition> = Vec::new();
        let mut i = p;
        loop
            invariant
                p <= i <= self.input.len(),
                s == self.input@,
                prepend(
                    variable_definitions_view(defs@),
                    parse_spec::parse_variable_definition_items(s, i as int),
                ) == parse_spec::parse_variable_definition_items(s, p as int),
            decreases self.input.len() - i,
        {
            let q = self.skip_ignored(i);
            if q < self.input.len() && self.input[q] == ')' {
                proof {
                    lemma_prepend_empty(variable_definitions_view(defs@), q + 1);
                }
                return Ok((defs, q + 1));
            }
            let (def, r) = match self.parse_variable_definition(q) {
                Ok(x) => x,
                Err(f) => {
                    return Err(f);
                },
            };
            if r >= self.input.len() {
                return Err(fail_at("unterminated variable definitions", r));
            }
            proof {
                lemma_prepend_cons(
                    variable_definitions_view(defs@),
                    def@,
                    parse_spec::parse_variable_definition_items(s, r as int),
                );
                assert(variable_definitions_view(defs@.push(def)) =~= variable_definitions_view(
                    defs@,
                ).push(def@));
            }
            defs.push(def);
            i = r;
        }
    }

    /// An optional parenthesized list of variable definitions.
    fn parse_variable_definitions(&self, p: usize) -> (r: Result<
        (Vec<VariableDefinition>, usize),
        Fail,
    >)
        requires
            p <= self.input.len(),
        ensures
            lifted_variable_definitions(r) == parse_spec::parse_variable_definitions(
                self.input@,
                p as int,
            ),
            r matches Ok((_, e)) ==> p <= e <= self.input.len(),
            r matches Err(f) ==> f.at <= self.input.len(),
    {
        let (open, q) = self.consume(p, '(');
        if open {
            self.parse_variable_definition_items(q)
        } else {
            let defs: Vec<VariableDefinition> = Vec::new();
            assert(variable_definitions_view(defs@) =~= Seq::empty());
            Ok((defs, q))
        }
    }
}

pub open spec fn lifted_selections(r: Result<(Vec<Selection>, usize), Fail>) -> PRes<
    Seq<SpecSelection>,
> {
    match r {
        Ok((v, e)) => Ok((selections_view(v@), e as int)),
        Err(f) => Err(f@),
    }
}

impl Parser {
    /// A braced selection set.
    fn parse_selection_set(&self, p: usize) -> (r: Result<(SelectionSet, usize), Fail>)
        requires
            p <= self.input.len(),
        ensures
            lifted(r) == parse_spec::parse_selection_set(self.input@, p as int),
            r matches Ok((_, e)) ==> p < e <= self.input.len(),
            r matches Err(f) ==> f.at <= self.input.len(),
        decreases self.input.len() - p, 3int,
    {
        let a = match self.expect(p, '{') {
            Ok(x) => x,
            Err(f) => {
                return Err(f);
            },
        };
        match self.parse_selection_items(a) {
            Ok((selections, e)) => Ok((SelectionSet { selections }, e)),
            Err(f) => Err(f),
        }
    }

    /// The selections from `p` (after `{`) through `}`.
    fn parse_selection_items(&self, p: usize) -> (r: Result<(Vec<Selection>, usize), Fail>)
        requires
            p <= self.input.len(),
        ensures
            lifted_selections(r) == parse_spec::parse_selection_items(self.input@, p as int),
            r matches Ok((_, e)) ==> p < e <= self.input.len(),
            r matches Err(f) ==> f.at <= self.input.len(),
        decreases self.input.len() - p, 2int,
    {
        let ghost s = self.input@;
        let mut sels: Vec<Selection> = Vec::new();
        let mut i = p;
        loop
            invariant
                p <= i <= self.input.len(),
                s == self.input@,
                prepend(selections_view(sels@), parse_spec::parse_selection_items(s, i as int))
                    == parse_spec::parse_selection_items(s, p as int),
            decreases self.input.len() - i,
        {
            let q = self.skip_ignored(i);
            if q < self.input.len() && self.input[q] == '}' {
                proof {
                    lemma_prepend_empty(selections_view(sels@), q + 1);
                }
                return Ok((sels, q + 1));
            }
            if q >= self.input.len() {
                return Err(fail_at("unterminated selection set", q));
            }
            match self.parse_selection(q) {
                Err(f) => {
                    return Err(f);
                },
                Ok((sel, r)) => {
                    proof {
                        lemma_prepend_cons(
                            selections_view(sels@),
                            sel@,
                            parse_spec::parse_selection_items(s, r as int),
                        );
                        lemma_selections_view_push(sels@, sel);
                    }
                    sels.push(sel);
                    i = r;
                },
            }
        }
    }

    /// A field, a fragment spread or an inline fragment.
    fn parse_selection(&self, p: usize) -> (r: Result<(Selection, usize), Fail>)
        requires
            p <= self.input.len(),
        ensures
            lifted(r) == parse_spec::parse_selection(self.input@, p as int),
            r matches Ok((_, e)) ==> p < e <= self.input.len(),
            r matches Err(f) ==> f.at <= self.input.len(),
        decreases self.input.len() - p, 1int,
    {
        let q = self.skip_ignored(p);
        if !(q < self.input.len() && self.input[q] == '.') {
            return self.parse_field(p);
        }
        let a1 = match self.expect(q, '.') {
            Ok(x) => x,
            Err(f) => {
                return Err(f);
            },
        };
        let a2 = match self.expect(a1, '.') {
            Ok(x) => x,
            Err(f) => {
                return Err(f);
            },
        };
        let a = match self.expect(a2, '.') {
            Ok(x) => x,
            Err(f) => {
                return Err(f);
            },
        };
        if self.peek_keyword(a, "on") {
            let (_, b) = match self.parse_name(a) {
                Ok(x) => x,
                Err(f) => {
                    return Err(f);
                },
            };
            let (tc, c) = match self.parse_name(b) {
                Ok(x) => x,
                Err(f) => {
                    return Err(f);
                },
            };
            let (directives, d) = match self.parse_directives(c) {
                Ok(x) => x,
                Err(f) => {
                    return Err(f);
                },
            };
            let (selection_set, e) = match self.parse_selection_set(d) {
                Ok(x) => x,
                Err(f) => {
                    return Err(f);
                },
            };
            Ok(
                (
                    Selection::InlineFragment(
                        InlineFragment {
                            type_condition: Some(string_from_chars(&tc)),
                            directives,
                            selection_set,
                        },
                    ),
                    e,
                ),
            )
        } else {
            let r = self.skip_ignored(a);
            if r < self.input.len() && (self.input[r] == '@' || self.input[r] == '{') {
                let (directives, d) = match self.parse_directives(a) {
                    Ok(x) => x,
                    Err(f) => {
                        return Err(f);
                    },
                };
                let (selection_set, e) = match self.parse_selection_set(d) {
                    Ok(x) => x,
                    Err(f) => {
                        return Err(f);
                    },
                };
                Ok(
                    (
                        Selection::InlineFragment(
                            InlineFragment { type_condition: None, directives, selection_set },
                        ),
                        e,
                    ),
                )
            } else {
                let (name, b) = match self.parse_name(a) {
                    Ok(x) => x,
                    Err(f) => {
                        return Err(f);
                    },
                };
                let (directives, c) = match self.parse_directives(b) {
                    Ok(x) => x,
                    Err(f) => {
                        return Err(f);
                    },
                };
                Ok(
                    (
                        Selection::FragmentSpread(
                            FragmentSpread { name: string_from_chars(&name), directives },
                        ),
                        c,
                    ),
                )
            }
        }
    }

    /// A field `alias: name(args) @directives { ... }`.
    fn parse_field(&self, p: usize) -> (r: Result<(Selection, usize), Fail>)
        requires
            p <= self.input.len(),
        ensures
            lifted(r) == parse_spec::parse_field(self.input@, p as int),
            r matches Ok((_, e)) ==> p < e <= self.input.len(),
            r matches Err(f) ==> f.at <= self.input.len(),
        decreases self.input.len() - p, 0int,
    {
        let (first, a) = match self.parse_name(p) {
            Ok(x) => x,
            Err(f) => {
                return Err(f);
            },
        };
        let (colon, b) = self.consume(a, ':');
        let (alias, name, c) = if colon {
            let (n, c) = match self.parse_name(b) {
                Ok(x) => x,
                Err(f) => {
                    return Err(f);
                },
            };
            (Some(string_from_chars(&first)), string_from_chars(&n), c)
        } else {
            (None, string_from_chars(&first), b)
        };
        let (arguments, d) = match self.parse_arguments(c) {
            Ok(x) => x,
            Err(f) => {
                return Err(f);
            },
        };
        let (directives, e) = match self.parse_directives(d) {
            Ok(x) => x,
            Err(f) => {
                return Err(f);
            },
        };
        let q = self.skip_ignored(e);
        if q < self.input.len() && self.input[q] == '{' {
            let (set, f) = match self.parse_selection_set(q) {
                Ok(x) => x,
                Err(f) => {
                    return Err(f);
                },
            };
            Ok(
                (
                    Selection::Field(
                        Field { alias, name, arguments, directives, selection_set: Some(set) },
                    ),
                    f,
                ),
            )
        } else {
            Ok(
                (
                    Selection::Field(
                        Field { alias, name, arguments, directives, selection_set: None },
                    ),
                    q,
                ),
            )
        }
    }
}

pub open spec fn lifted_definitions(r: Result<(Vec<Definition>, usize), Fail>) -> PRes<
    Seq<crate::model::SpecDefinition>,
> {
    match r {
        Ok((v, e)) => Ok((definitions_view(v@), e as int)),
        Err(f) => Err(f@),
    }
}

/// The byte offset of character position `at` in the UTF-8 encoding of `s`.
pub open spec fn byte_offset(s: Seq<char>, at: int) -> int {
    vstd::utf8::encode_utf8(s.take(at)).len() as int
}

/// The number of bytes in the UTF-8 encoding of `c`.
pub open spec fn utf8_width(c: char) -> nat {
    if (c as u32) < 0x80 {
        1
    } else if (c as u32) < 0x800 {
        2
    } else if (c as u32) < 0x10000 {
        3
    } else {
        4
    }
}

/// Encoding a sequence with one more character adds that character's width.
proof fn lemma_encode_utf8_push(s: Seq<char>, c: char)
    ensures
        vstd::utf8::encode_utf8(s.push(c)).len() == vstd::utf8::encode_utf8(s).len()
            + utf8_width(c),
    decreases s.len(),
{
    vstd::utf8::char_is_scalar(c);
    assert(vstd::utf8::encode_scalar(c as u32).len() == utf8_width(c));
    if s.len() > 0 {
        vstd::utf8::char_is_scalar(s[0]);
    }
    let t = s.push(c);
    assert(t.len() > 0);
    assert(vstd::utf8::encode_utf8(t) == vstd::utf8::encode_scalar(t[0] as u32)
        + vstd::utf8::encode_utf8(t.drop_first()));
    if s.len() == 0 {
        assert(t.drop_first() =~= Seq::<char>::empty());
        assert(t[0] == c);
    } else {
        assert(t.drop_first() =~= s.drop_first().push(c));
        assert(t[0] == s[0]);
        lemma_encode_utf8_push(s.drop_first(), c);
        assert(vstd::utf8::encode_utf8(s) == vstd::utf8::encode_scalar(s[0] as u32)
            + vstd::utf8::encode_utf8(s.drop_first()));
    }
}

/// An encoding is at least as long as the encoding of any prefix.
proof fn lemma_encode_utf8_prefix(s: Seq<char>, k: int)
    requires
        0 <= k <= s.len(),
    ensures
        vstd::utf8::encode_utf8(s.take(k)).len() <= vstd::utf8::encode_utf8(s).len(),
    decreases s.len() - k,
{
    if k < s.len() {
        assert(s.take(k + 1) =~= s.take(k).push(s[k]));
        lemma_encode_utf8_push(s.take(k), s[k]);
        lemma_encode_utf8_prefix(s, k + 1);
    } else {
        assert(s.take(k) =~= s);
    }
}

fn utf8_width_exec(c: char) -> (w: usize)
    ensures
        w == utf8_width(c),
{
    let v = c as u32;
    if v < 0x80 {
        1
    } else if v < 0x800 {
        2
    } else if v < 0x10000 {
        3
    } else {
        4
    }
}

impl Parser {
    /// One top-level definition.
    fn parse_definition(&self, p: usize) -> (r: Result<(Definition, usize), Fail>)
        requires
            p <= self.input.len(),
        ensures
            lifted(r) == parse_spec::parse_definition(self.input@, p as int),
            r matches Ok((_, e)) ==> p < e <= self.input.len(),
            r matches Err(f) ==> f.at <= self.input.len(),
    {
        let q = self.skip_ignored(p);
        if q < self.input.len() && self.input[q] == '{' {
            return match self.parse_selection_set(q) {
                Ok((selection_set, e)) => {
                    let op = OperationDefinition {
                        operation: OperationType::Query,
                        name: None,
                        variable_definitions: Vec::new(),
                        directives: Vec::new(),
                        selection_set,
                    };
                    assert(variable_definitions_view(op.variable_definitions@) =~= Seq::empty());
                    assert(directives_view(op.directives@) =~= Seq::empty());
                    Ok((Definition::Operation(op), e))
                },
                Err(f) => Err(f),
            };
        }
        if self.keyword_at(q, "fragment") {
            return match self.parse_fragment_definition(q) {
                Ok((f, e)) => Ok((Definition::Fragment(f), e)),
                Err(f) => Err(f),
            };
        }
        if self.keyword_at(q, "query") || self.keyword_at(q, "mutation") || self.keyword_at(
            q,
            "subscription",
        ) {
            return match self.parse_operation_definition(q) {
                Ok((o, e)) => Ok((Definition::Operation(o), e)),
                Err(f) => Err(f),
            };
        }
        Err(fail_at("expected a definition", q))
    }

    /// An operation `query Name($vars) @directives { ... }`.
    fn parse_operation_definition(&self, p: usize) -> (r: Result<(OperationDefinition, usize), Fail>)
        requires
            p <= self.input.len(),
        ensures
            lifted(r) == parse_spec::parse_operation_definition(self.input@, p as int),
            r matches Ok((_, e)) ==> p < e <= self.input.len(),
            r matches Err(f) ==> f.at <= self.input.len(),
    {
        let operation = if self.peek_keyword(p, "query") {
            OperationType::Query
        } else if self.peek_keyword(p, "mutation") {
            OperationType::Mutation
        } else {
            OperationType::Subscription
        };
        let (_, a) = match self.parse_name(p) {
            Ok(x) => x,
            Err(f) => {
                return Err(f);
            },
        };
        let k = self.skip_ignored(a);
        let (name, b) = if k < self.input.len() && Self::is_name_start(self.input[k]) {
            let (n, b) = match self.parse_name(a) {
                Ok(x) => x,
                Err(f) => {
                    return Err(f);
                },
            };
            (Some(string_from_chars(&n)), b)
        } else {
            (None, a)
        };
        let (variable_definitions, c) = match self.parse_variable_definitions(b) {
            Ok(x) => x,
            Err(f) => {
                return Err(f);
            },
        };
        let (directives, d) = match self.parse_directives(c) {
            Ok(x) => x,
            Err(f) => {
                return Err(f);
            },
        };
        let (selection_set, e) = match self.parse_selection_set(d) {
            Ok(x) => x,
            Err(f) => {
                return Err(f);
            },
        };
        Ok(
            (
                OperationDefinition {
                    operation,
                    name,
                    variable_definitions,
                    directives,
                    selection_set,
                },
                e,
            ),
        )
    }

    /// A fragment definition `fragment Name($vars) on Type @directives { ... }`.
    fn parse_fragment_definition(&self, p: usize) -> (r: Result<(FragmentDefinition, usize), Fail>)
        requires
            p <= self.input.len(),
        ensures
            lifted(r) == parse_spec::parse_fragment_definition(self.input@, p as int),
            r matches Ok((_, e)) ==> p < e <= self.input.len(),
            r matches Err(f) ==> f.at <= self.input.len(),
    {
        let (_, a) = match self.parse_name(p) {
            Ok(x) => x,
            Err(f) => {
                return Err(f);
            },
        };
        let (name, b) = match self.parse_name(a) {
            Ok(x) => x,
            Err(f) => {
                return Err(f);
            },
        };
        if chars_eq_str(&name, "on") {
            return Err(fail_at("a fragment cannot be named 'on'", b));
        }
        let (variable_definitions, c) = match self.parse_variable_definitions(b) {
            Ok(x) => x,
            Err(f) => {
                return Err(f);
            },
        };
        if !self.peek_keyword(c, "on") {
            return Err(fail_at("expected 'on' in fragment definition", self.skip_ignored(c)));
        }
        let (_, d) = match self.parse_name(c) {
            Ok(x) => x,
            Err(f) => {
                return Err(f);
            },
        };
        let (type_condition, e) = match self.parse_name(d) {
            Ok(x) => x,
            Err(f) => {
                return Err(f);
            },
        };
        let (directives, f) = match self.parse_directives(e) {
            Ok(x) => x,
            Err(err) => {
                return Err(err);
            },
        };
        let (selection_set, g) = match self.parse_selection_set(f) {
            Ok(x) => x,
            Err(err) => {
                return Err(err);
            },
        };
        Ok(
            (
                FragmentDefinition {
                    name: string_from_chars(&name),
                    variable_definitions,
                    type_condition: string_from_chars(&type_condition),
                    directives,
                    selection_set,
                },
                g,
            ),
        )
    }

    /// All definitions from `p` to the end of the source.
    fn parse_definitions(&self, p: usize) -> (r: Result<(Vec<Definition>, usize), Fail>)
        requires
            p <= self.input.len(),
        ensures
            lifted_definitions(r) == parse_spec::parse_definitions(self.input@, p as int),
            r matches Ok((_, e)) ==> p <= e <= self.input.len(),
            r matches Err(f) ==> f.at <= self.input.len(),
    {
        let ghost s = self.input@;
        let mut defs: Vec<Definition> = Vec::new();
        let mut i = p;
        loop
            invariant
                p <= i <= self.input.len(),
                s == self.input@,
                prepend(definitions_view(defs@), parse_spec::parse_definitions(s, i as int))
                    == parse_spec::parse_definitions(s, p as int),
            decreases self.input.len() - i,
        {
            let q = self.skip_ignored(i);
            if q >= self.input.len() {
                proof {
                    lemma_prepend_empty(definitions_view(defs@), q as int);
                }
                return Ok((defs, q));
            }
            match self.parse_definition(q) {
                Err(f) => {
                    return Err(f);
                },
                Ok((d, r)) => {
                    proof {
                        lemma_prepend_cons(
                            definitions_view(defs@),
                            d@,
                            parse_spec::parse_definitions(s, r as int),
                        );
                        assert(definitions_view(defs@.push(d)) =~= definitions_view(defs@).push(
                            d@,
                        ));
                    }
                    defs.push(d);
                    i = r;
                },
            }
        }
    }
}

/// The byte offset of character position `at`, computed by summing widths.
fn byte_offset_exec(input: &Vec<char>, at: usize) -> (off: usize)
    requires
        at <= input.len(),
        vstd::utf8::encode_utf8(input@).len() <= usize::MAX,
    ensures
        off == byte_offset(input@, at as int),
        off <= vstd::utf8::encode_utf8(input@).len(),
{
    let ghost s = input@;
    let mut off: usize = 0;
    let mut i: usize = 0;
    assert(s.take(0) =~= Seq::<char>::empty());
    while i < at
        invariant
            i <= at <= input.len(),
            s == input@,
            vstd::utf8::encode_utf8(s).len() <= usize::MAX,
            off == vstd::utf8::encode_utf8(s.take(i as int)).len(),
        decreases at - i,
    {
        proof {
            assert(s.take(i + 1) =~= s.take(i as int).push(s[i as int]));
            lemma_encode_utf8_push(s.take(i as int), s[i as int]);
            lemma_encode_utf8_prefix(s, i + 1);
        }
        off = off + utf8_width_exec(input[i]);
        i += 1;
    }
    proof {
        lemma_encode_utf8_prefix(s, at as int);
    }
    off
}

/// Parse a GraphQL executable document from source text.
///
/// On failure the error carries the message and the byte offset at which
/// `parse_spec::parse_document` reports it.
pub fn parse(source: &str) -> (r: Result<Document, ParseError>)
    ensures
        match (r, parse_spec::parse_document(source@)) {
            (Ok(d), Ok(sd)) => d@ == sd,
            (Err(e), Err(se)) => e.message@ == se.msg && e.position == byte_offset(
                source@,
                se.at,
            ),
            _ => false,
        },
        r matches Err(e) ==> e.position <= vstd::utf8::encode_utf8(source@).len(),
{
    broadcast use vstd::slice::group_slice_axioms;

    let bytes = source.as_bytes();
    let n = bytes.len();
    assert(vstd::utf8::encode_utf8(source@).len() <= usize::MAX);
    let parser = Parser::new(source);
    let failure = match parser.parse_definitions(0) {
        Ok((definitions, e)) => {
            if definitions.len() == 0 {
                fail_at("a document must define at least one definition", e)
            } else {
                assert(definitions_view(definitions@).len() == definitions@.len());
                return Ok(Document { definitions });
            }
        },
        Err(f) => f,
    };
    let position = byte_offset_exec(&parser.input, failure.at);
    Err(ParseError { message: failure.message, position })
}

} // verus!
