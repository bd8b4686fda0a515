//! The meaning of the parser, stated over character sequences.
//!
//! Each function takes the source `s` and a character position `p` and
//! returns what is read from there together with the position after it, or
//! the message and position of the first failure. Whitespace, commas, the
//! byte-order mark and `#` comments are skipped before every token.
use vstd::prelude::*;
use crate::ast::OperationType;
use crate::model::{
    SpecArgument, SpecDefinition, SpecDirective, SpecDocument, SpecFragment, SpecOperation,
    SpecSelection, SpecType, SpecValue, SpecVariableDefinition,
};

verus! {

/// A parse failure: its message and the character position where it was found.
pub struct PErr {
    pub msg: Seq<char>,
    pub at: int,
}

/// What was read and the position after it, or the failure.
pub type PRes<T> = Result<(T, int), PErr>;

pub open spec fn fail<T>(msg: Seq<char>, at: int) -> PRes<T> {
    Err(PErr { msg, at })
}

/// The result of a repeated read whose last step consumed nothing. Every
/// successful read consumes input, so this value never arises; it only
/// makes the recursion visibly well-founded.
pub open spec fn stalled<T>(at: int) -> PRes<T> {
    Err(PErr { msg: Seq::empty(), at })
}

/// `Ok((seq![x] + rest, end))` from `rest`, or its failure.
pub open spec fn cons<T>(x: T, rest: PRes<Seq<T>>) -> PRes<Seq<T>> {
    match rest {
        Ok((xs, e)) => Ok((seq![x] + xs, e)),
        Err(e) => Err(e),
    }
}

// --- characters ---

pub open spec fn is_ignorable(c: char) -> bool {
    c == ' ' || c == '\t' || c == '\n' || c == '\r' || c == ',' || c == '\u{FEFF}'
}

pub open spec fn is_line_end(c: char) -> bool {
    c == '\n' || c == '\r'
}

pub open spec fn is_digit(c: char) -> bool {
    '0' <= c && c <= '9'
}

pub open spec fn is_hex_digit(c: char) -> bool {
    is_digit(c) || ('a' <= c && c <= 'f') || ('A' <= c && c <= 'F')
}

pub open spec fn is_name_start(c: char) -> bool {
    c == '_' || ('a' <= c && c <= 'z') || ('A' <= c && c <= 'Z')
}

pub open spec fn is_name_continue(c: char) -> bool {
    is_name_start(c) || is_digit(c)
}

/// True when position `p` holds the character `c`.
pub open spec fn at_char(s: Seq<char>, p: int, c: char) -> bool {
    0 <= p < s.len() && s[p] == c
}

// --- ignored tokens ---

/// How many characters of whitespace, commas, byte-order marks and comments
/// start at `p`.
pub open spec fn ignored_len(s: Seq<char>, p: int) -> nat
    decreases s.len() - p, 0int,
{
    if p < 0 || p >= s.len() {
        0
    } else if is_ignorable(s[p]) {
        1 + ignored_len(s, p + 1)
    } else if s[p] == '#' {
        1 + comment_len(s, p + 1)
    } else {
        0
    }
}

/// The length of the rest of a comment from `p` plus what is ignored after it.
pub open spec fn comment_len(s: Seq<char>, p: int) -> nat
    decreases s.len() - p, 1int,
{
    if p < 0 || p >= s.len() {
        0
    } else if is_line_end(s[p]) {
        ignored_len(s, p)
    } else {
        1 + comment_len(s, p + 1)
    }
}

/// The first position at or after `p` that is not ignored.
pub open spec fn skip_ignored(s: Seq<char>, p: int) -> int {
    p + ignored_len(s, p)
}

/// After skipping ignored input, the next character is `c`.
pub open spec fn peek_is(s: Seq<char>, p: int, c: char) -> bool {
    at_char(s, skip_ignored(s, p), c)
}

// --- tokens ---

/// The number of name characters starting at `p`.
pub open spec fn name_len(s: Seq<char>, p: int) -> nat
    decreases s.len() - p,
{
    if 0 <= p < s.len() && is_name_continue(s[p]) {
        1 + name_len(s, p + 1)
    } else {
        0
    }
}

/// A name `/[_A-Za-z][_0-9A-Za-z]*/`.
pub open spec fn parse_name(s: Seq<char>, p: int) -> PRes<Seq<char>> {
    let q = skip_ignored(s, p);
    if 0 <= q < s.len() && is_name_start(s[q]) {
        let e = q + 1 + name_len(s, q + 1);
        Ok((s.subrange(q, e), e))
    } else {
        fail("expected a name"@, q)
    }
}

/// `kw` starts at `q` and is not followed by another name character.
pub open spec fn keyword_at(s: Seq<char>, q: int, kw: Seq<char>) -> bool {
    &&& 0 <= q
    &&& q + kw.len() <= s.len()
    &&& s.subrange(q, q + kw.len()) == kw
    &&& !(q + kw.len() < s.len() && is_name_continue(s[q + kw.len()]))
}

pub open spec fn peek_keyword(s: Seq<char>, p: int, kw: Seq<char>) -> bool {
    keyword_at(s, skip_ignored(s, p), kw)
}

/// The message for a missing punctuator `c`.
pub open spec fn expected_msg(c: char) -> Seq<char> {
    "expected '"@ + seq![c] + "'"@
}

/// Read the punctuator `c`, returning the position after it.
pub open spec fn expect(s: Seq<char>, p: int, c: char) -> Result<int, PErr> {
    let q = skip_ignored(s, p);
    if at_char(s, q, c) {
        Ok(q + 1)
    } else {
        Err(PErr { msg: expected_msg(c), at: q })
    }
}

/// Read the punctuator `c` if it is next; the flag says whether it was.
pub open spec fn consume(s: Seq<char>, p: int, c: char) -> (bool, int) {
    let q = skip_ignored(s, p);
    if at_char(s, q, c) {
        (true, q + 1)
    } else {
        (false, q)
    }
}

// --- numbers ---

pub open spec fn digits_len(s: Seq<char>, p: int) -> nat
    decreases s.len() - p,
{
    if 0 <= p < s.len() && is_digit(s[p]) {
        1 + digits_len(s, p + 1)
    } else {
        0
    }
}

pub open spec fn digit_at(s: Seq<char>, p: int) -> bool {
    0 <= p < s.len() && is_digit(s[p])
}

/// The integer part: an optional minus sign then `0` or a digit run.
/// Returns the position after it.
pub open spec fn int_part_end(s: Seq<char>, p: int) -> Result<int, PErr> {
    let a = if at_char(s, p, '-') { p + 1 } else { p };
    if at_char(s, a, '0') {
        Ok(a + 1)
    } else if !digit_at(s, a) {
        Err(PErr { msg: "invalid number"@, at: a })
    } else {
        Ok(a + digits_len(s, a))
    }
}

/// The optional fraction `.digits` from `p`: the end and whether it was there.
pub open spec fn frac_part_end(s: Seq<char>, p: int) -> Result<(int, bool), PErr> {
    if at_char(s, p, '.') {
        if !digit_at(s, p + 1) {
            Err(PErr { msg: "invalid float"@, at: p + 1 })
        } else {
            Ok((p + 1 + digits_len(s, p + 1), true))
        }
    } else {
        Ok((p, false))
    }
}

/// The optional exponent `[eE][+-]?digits` from `p`.
pub open spec fn exp_part_end(s: Seq<char>, p: int) -> Result<(int, bool), PErr> {
    if at_char(s, p, 'e') || at_char(s, p, 'E') {
        let a = if at_char(s, p + 1, '+') || at_char(s, p + 1, '-') { p + 2 } else { p + 1 };
        if !digit_at(s, a) {
            Err(PErr { msg: "invalid exponent"@, at: a })
        } else {
            Ok((a + digits_len(s, a), true))
        }
    } else {
        Ok((p, false))
    }
}

/// A number starting at `p`, kept as written: a float when it has a fraction
/// or an exponent, else an integer.
pub open spec fn parse_number(s: Seq<char>, p: int) -> PRes<SpecValue> {
    match int_part_end(s, p) {
        Err(e) => Err(e),
        Ok(a) => match frac_part_end(s, a) {
            Err(e) => Err(e),
            Ok((b, has_frac)) => match exp_part_end(s, b) {
                Err(e) => Err(e),
                Ok((c, has_exp)) => {
                    let text = s.subrange(p, c);
                    if has_frac || has_exp {
                        Ok((SpecValue::Float(text), c))
                    } else {
                        Ok((SpecValue::Int(text), c))
                    }
                },
            },
        },
    }
}

// --- strings ---

/// The value of a hexadecimal digit.
pub open spec fn hex_digit_value(c: char) -> nat {
    if is_digit(c) {
        (c as nat - '0' as nat) as nat
    } else if 'a' <= c && c <= 'f' {
        (c as nat - 'a' as nat + 10) as nat
    } else {
        (c as nat - 'A' as nat + 10) as nat
    }
}

/// The value of a run of hexadecimal digits.
pub open spec fn hex_value(t: Seq<char>) -> nat
    decreases t.len(),
{
    if t.len() == 0 {
        0
    } else {
        hex_value(t.drop_last()) * 16 + hex_digit_value(t.last())
    }
}

pub open spec fn all_hex(t: Seq<char>) -> bool {
    forall|i: int| 0 <= i < t.len() ==> is_hex_digit(#[trigger] t[i])
}

pub open spec fn hex_len(s: Seq<char>, p: int) -> nat
    decreases s.len() - p,
{
    if 0 <= p < s.len() && is_hex_digit(s[p]) {
        1 + hex_len(s, p + 1)
    } else {
        0
    }
}

/// Four characters read as a base-16 number, as `u32::from_str_radix` reads
/// them: either four hex digits or `+` and three hex digits.
pub open spec fn four_hex_ok(t: Seq<char>) -> bool {
    t.len() == 4 && (all_hex(t) || (t[0] == '+' && all_hex(t.drop_first())))
}

pub open spec fn four_hex_value(t: Seq<char>) -> nat {
    if t[0] == '+' {
        hex_value(t.drop_first())
    } else {
        hex_value(t)
    }
}

/// The `XXXX` of a `\uXXXX` escape at `p`.
pub open spec fn read_four_hex(s: Seq<char>, p: int) -> PRes<nat> {
    if 0 <= p && p + 4 <= s.len() && four_hex_ok(s.subrange(p, p + 4)) {
        Ok((four_hex_value(s.subrange(p, p + 4)), p + 4))
    } else {
        fail("invalid unicode escape"@, p)
    }
}

pub open spec fn is_scalar_value(v: nat) -> bool {
    v <= 0x10FFFF && !(0xD800 <= v && v <= 0xDFFF)
}

/// The character with scalar value `v`, or the failure at `at`.
pub open spec fn scalar_char(v: nat, msg: Seq<char>, at: int) -> PRes<char> {
    if is_scalar_value(v) {
        Ok(((v as u32) as char, at))
    } else {
        fail(msg, at)
    }
}

/// The unicode escape whose body starts at `p` (after `\u`).
pub open spec fn parse_unicode_escape(s: Seq<char>, p: int) -> PRes<char> {
    if at_char(s, p, '{') {
        let j = p + 1 + hex_len(s, p + 1);
        if !at_char(s, j, '}') || j == p + 1 {
            fail("invalid unicode escape"@, j)
        } else {
            let code = hex_value(s.subrange(p + 1, j));
            if code > 0xFFFF_FFFF {
                fail("invalid unicode escape"@, j + 1)
            } else {
                scalar_char(code, "invalid unicode code point"@, j + 1)
            }
        }
    } else {
        match read_four_hex(s, p) {
            Err(e) => Err(e),
            Ok((high, a)) => if 0xD800 <= high && high <= 0xDBFF && at_char(s, a, '\\')
                && at_char(s, a + 1, 'u') {
                match read_four_hex(s, a + 2) {
                    Err(e) => Err(e),
                    Ok((low, b)) => if 0xDC00 <= low && low <= 0xDFFF {
                        let code = 0x10000 + (high - 0xD800) * 1024 + (low - 0xDC00);
                        scalar_char(code as nat, "invalid surrogate pair"@, b)
                    } else {
                        fail("invalid low surrogate"@, b)
                    },
                }
            } else {
                scalar_char(high, "invalid unicode code point"@, a)
            },
        }
    }
}

/// The escape whose letter is at `p` (after the backslash).
pub open spec fn parse_escape(s: Seq<char>, p: int) -> PRes<char> {
    if !(0 <= p < s.len()) {
        fail("invalid escape sequence"@, p)
    } else {
        let c = s[p];
        if c == '"' || c == '\\' || c == '/' {
            Ok((c, p + 1))
        } else if c == 'b' {
            Ok(('\u{8}', p + 1))
        } else if c == 'f' {
            Ok(('\u{c}', p + 1))
        } else if c == 'n' {
            Ok(('\n', p + 1))
        } else if c == 'r' {
            Ok(('\r', p + 1))
        } else if c == 't' {
            Ok(('\t', p + 1))
        } else if c == 'u' {
            parse_unicode_escape(s, p + 1)
        } else {
            fail("invalid escape sequence"@, p)
        }
    }
}

/// The characters of a quoted string from `p` up to its closing quote, and
/// the position after that quote.
pub open spec fn string_body(s: Seq<char>, p: int) -> PRes<Seq<char>>
    decreases s.len() - p,
{
    if !(0 <= p < s.len()) {
        fail("unterminated string"@, p)
    } else if s[p] == '"' {
        Ok((Seq::empty(), p + 1))
    } else if is_line_end(s[p]) {
        fail("unterminated string"@, p)
    } else if s[p] == '\\' {
        match parse_escape(s, p + 1) {
            Err(e) => Err(e),
            Ok((c, q)) => if q > p {
                cons(c, string_body(s, q))
            } else {
                stalled(q)
            },
        }
    } else {
        cons(s[p], string_body(s, p + 1))
    }
}

/// The block-string delimiter `"""`.
pub open spec fn triple_quote() -> Seq<char> {
    seq!['"', '"', '"']
}

/// `t` occurs in `s` at position `p`.
pub open spec fn starts_at(s: Seq<char>, p: int, t: Seq<char>) -> bool {
    0 <= p && p + t.len() <= s.len() && s.subrange(p, p + t.len()) == t
}

/// The raw characters of a block string from `p` up to its closing `"""`,
/// with each `\"""` read as `"""`, and the position after the close.
pub open spec fn block_string_raw(s: Seq<char>, p: int) -> PRes<Seq<char>>
    decreases s.len() - p,
{
    if starts_at(s, p, seq!['\\', '"', '"', '"']) {
        match block_string_raw(s, p + 4) {
            Ok((raw, e)) => Ok((triple_quote() + raw, e)),
            Err(e) => Err(e),
        }
    } else if starts_at(s, p, triple_quote()) {
        Ok((Seq::empty(), p + 3))
    } else if !(0 <= p < s.len()) {
        fail("unterminated block string"@, p)
    } else {
        cons(s[p], block_string_raw(s, p + 1))
    }
}

/// A string literal starting at its opening quote `p`.
pub open spec fn parse_string(s: Seq<char>, p: int) -> PRes<SpecValue> {
    if starts_at(s, p, triple_quote()) {
        match block_string_raw(s, p + 3) {
            Ok((raw, e)) => Ok((SpecValue::Str { value: crate::text::dedent_block_string(raw), block: true }, e)),
            Err(e) => Err(e),
        }
    } else {
        match string_body(s, p + 1) {
            Ok((v, e)) => Ok((SpecValue::Str { value: v, block: false }, e)),
            Err(e) => Err(e),
        }
    }
}

// --- values ---

/// A value; `is_const` rejects variables.
pub open spec fn parse_value(s: Seq<char>, p: int, is_const: bool) -> PRes<SpecValue>
    decreases s.len() - p, 0int,
{
    let q = skip_ignored(s, p);
    if !(0 <= q < s.len()) {
        fail("expected a value"@, q)
    } else {
        let c = s[q];
        if c == '$' {
            if is_const {
                fail("a constant value cannot be a variable"@, q)
            } else {
                match parse_name(s, q + 1) {
                    Ok((n, e)) => Ok((SpecValue::Variable(n), e)),
                    Err(e) => Err(e),
                }
            }
        } else if c == '[' {
            match parse_list_items(s, q + 1, is_const) {
                Ok((items, e)) => Ok((SpecValue::List(items), e)),
                Err(e) => Err(e),
            }
        } else if c == '{' {
            match parse_object_fields(s, q + 1, is_const) {
                Ok((fields, e)) => Ok((SpecValue::Object(fields), e)),
                Err(e) => Err(e),
            }
        } else if c == '"' {
            parse_string(s, q)
        } else if c == '-' || is_digit(c) {
            parse_number(s, q)
        } else if is_name_start(c) {
            match parse_name(s, q) {
                Ok((n, e)) => if n == "true"@ {
                    Ok((SpecValue::Boolean(true), e))
                } else if n == "false"@ {
                    Ok((SpecValue::Boolean(false), e))
                } else if n == "null"@ {
                    Ok((SpecValue::Null, e))
                } else {
                    Ok((SpecValue::Enum(n), e))
                },
                Err(e) => Err(e),
            }
        } else {
            fail("expected a value"@, q)
        }
    }
}

/// The items of a list value from `p` (after `[`) through the closing `]`.
pub open spec fn parse_list_items(s: Seq<char>, p: int, is_const: bool) -> PRes<Seq<SpecValue>>
    decreases s.len() - p, 1int,
{
    let q = skip_ignored(s, p);
    if at_char(s, q, ']') {
        Ok((Seq::empty(), q + 1))
    } else if !(0 <= q < s.len()) {
        fail("unterminated list value"@, q)
    } else {
        match parse_value(s, q, is_const) {
            Err(e) => Err(e),
            Ok((v, r)) => if p < r <= s.len() {
                cons(v, parse_list_items(s, r, is_const))
            } else {
                stalled(r)
            },
        }
    }
}

/// The fields of an object value from `p` (after `{`) through the closing `}`.
pub open spec fn parse_object_fields(s: Seq<char>, p: int, is_const: bool) -> PRes<
    Seq<(Seq<char>, SpecValue)>,
>
    decreases s.len() - p, 1int,
{
    let q = skip_ignored(s, p);
    if at_char(s, q, '}') {
        Ok((Seq::empty(), q + 1))
    } else if !(0 <= q < s.len()) {
        fail("unterminated object value"@, q)
    } else {
        match parse_name(s, q) {
            Err(e) => Err(e),
            Ok((n, a)) => match expect(s, a, ':') {
                Err(e) => Err(e),
                Ok(b) => match parse_value(s, b, is_const) {
                    Err(e) => Err(e),
                    Ok((v, r)) => if p < r <= s.len() {
                        cons((n, v), parse_object_fields(s, r, is_const))
                    } else {
                        stalled(r)
                    },
                },
            },
        }
    }
}

// --- types, arguments, directives, variable definitions ---

/// A type reference: `Name`, `[Type]`, either optionally followed by `!`.
pub open spec fn parse_type(s: Seq<char>, p: int) -> PRes<SpecType>
    decreases s.len() - p,
{
    let (open, q) = consume(s, p, '[');
    let base: PRes<SpecType> = if open {
        match parse_type(s, q) {
            Err(e) => Err(e),
            Ok((inner, r)) => match expect(s, r, ']') {
                Err(e) => Err(e),
                Ok(e) => Ok((SpecType::List(Box::new(inner)), e)),
            },
        }
    } else {
        match parse_name(s, q) {
            Err(e) => Err(e),
            Ok((n, e)) => Ok((SpecType::Named(n), e)),
        }
    };
    match base {
        Err(e) => Err(e),
        Ok((t, r)) => {
            let (bang, e) = consume(s, r, '!');
            if bang {
                Ok((SpecType::NonNull(Box::new(t)), e))
            } else {
                Ok((t, e))
            }
        },
    }
}

/// The arguments of a parenthesized list from `p` (after `(`) through `)`.
pub open spec fn parse_argument_items(s: Seq<char>, p: int) -> PRes<Seq<SpecArgument>>
    decreases s.len() - p,
{
    let q = skip_ignored(s, p);
    if at_char(s, q, ')') {
        Ok((Seq::empty(), q + 1))
    } else {
        match parse_name(s, q) {
            Err(e) => Err(e),
            Ok((n, a)) => match expect(s, a, ':') {
                Err(e) => Err(e),
                Ok(b) => match parse_value(s, b, false) {
                    Err(e) => Err(e),
                    Ok((v, r)) => if r >= s.len() {
                        fail("unterminated arguments"@, r)
                    } else if p < r {
                        cons(SpecArgument { name: n, value: v }, parse_argument_items(s, r))
                    } else {
                        stalled(r)
                    },
                },
            },
        }
    }
}

/// An optional parenthesized argument list.
pub open spec fn parse_arguments(s: Seq<char>, p: int) -> PRes<Seq<SpecArgument>> {
    let (open, q) = consume(s, p, '(');
    if open {
        parse_argument_items(s, q)
    } else {
        Ok((Seq::empty(), q))
    }
}

/// A run of directives `@name(args)`.
pub open spec fn parse_directives(s: Seq<char>, p: int) -> PRes<Seq<SpecDirective>>
    decreases s.len() - p,
{
    let q = skip_ignored(s, p);
    if at_char(s, q, '@') {
        match parse_name(s, q + 1) {
            Err(e) => Err(e),
            Ok((n, a)) => match parse_arguments(s, a) {
                Err(e) => Err(e),
                Ok((args, b)) => if p < b <= s.len() {
                    cons(SpecDirective { name: n, arguments: args }, parse_directives(s, b))
                } else {
                    stalled(b)
                },
            },
        }
    } else {
        Ok((Seq::empty(), q))
    }
}

/// The default value of a variable definition, if `=` follows at `p`.
pub open spec fn parse_default_value(s: Seq<char>, p: int) -> PRes<Option<SpecValue>> {
    let (eq, q) = consume(s, p, '=');
    if eq {
        match parse_value(s, q, true) {
            Err(e) => Err(e),
            Ok((v, r)) => Ok((Some(v), r)),
        }
    } else {
        Ok((None, q))
    }
}

/// One variable definition `$name: Type = default @directives` at `p`.
#[verifier::opaque]
pub open spec fn parse_variable_definition(s: Seq<char>, p: int) -> PRes<SpecVariableDefinition> {
    match expect(s, p, '$') {
        Err(e) => Err(e),
        Ok(a) => match parse_name(s, a) {
            Err(e) => Err(e),
            Ok((variable, b)) => match expect(s, b, ':') {
                Err(e) => Err(e),
                Ok(c) => match parse_type(s, c) {
                    Err(e) => Err(e),
                    Ok((ty, d)) => match parse_default_value(s, d) {
                        Err(e) => Err(e),
                        Ok((default_value, f)) => match parse_directives(s, f) {
                            Err(e) => Err(e),
                            Ok((directives, g)) => Ok(
                                (
                                    SpecVariableDefinition {
                                        variable,
                                        ty,
                                        default_value,
                                        directives,
                                    },
                                    g,
                                ),
                            ),
                        },
                    },
                },
            },
        },
    }
}

/// Variable definitions from `p` (after `(`) through `)`.
pub open spec fn parse_variable_definition_items(s: Seq<char>, p: int) -> PRes<
    Seq<SpecVariableDefinition>,
>
    decreases s.len() - p,
{
    let q = skip_ignored(s, p);
    if at_char(s, q, ')') {
        Ok((Seq::empty(), q + 1))
    } else {
        match parse_variable_definition(s, q) {
            Err(e) => Err(e),
            Ok((d, r)) => if r >= s.len() {
                fail("unterminated variable definitions"@, r)
            } else if p < r {
                cons(d, parse_variable_definition_items(s, r))
            } else {
                stalled(r)
            },
        }
    }
}

/// An optional parenthesized list of variable definitions.
pub open spec fn parse_variable_definitions(s: Seq<char>, p: int) -> PRes<
    Seq<SpecVariableDefinition>,
> {
    let (open, q) = consume(s, p, '(');
    if open {
        parse_variable_definition_items(s, q)
    } else {
        Ok((Seq::empty(), q))
    }
}

// --- selections ---

/// A braced selection set.
pub open spec fn parse_selection_set(s: Seq<char>, p: int) -> PRes<Seq<SpecSelection>>
    decreases s.len() - p, 3int,
{
    match expect(s, p, '{') {
        Err(e) => Err(e),
        Ok(a) => parse_selection_items(s, a),
    }
}

/// The selections from `p` (after `{`) through the closing `}`.
pub open spec fn parse_selection_items(s: Seq<char>, p: int) -> PRes<Seq<SpecSelection>>
    decreases s.len() - p, 2int,
{
    let q = skip_ignored(s, p);
    if at_char(s, q, '}') {
        Ok((Seq::empty(), q + 1))
    } else if !(0 <= q < s.len()) {
        fail("unterminated selection set"@, q)
    } else {
        match parse_selection(s, q) {
            Err(e) => Err(e),
            Ok((sel, r)) => if p < r <= s.len() {
                cons(sel, parse_selection_items(s, r))
            } else {
                stalled(r)
            },
        }
    }
}

/// A field, a fragment spread or an inline fragment.
pub open spec fn parse_selection(s: Seq<char>, p: int) -> PRes<SpecSelection>
    decreases s.len() - p, 1int,
{
    let q = skip_ignored(s, p);
    if at_char(s, q, '.') {
        match expect(s, q, '.') {
            Err(e) => Err(e),
            Ok(a1) => match expect(s, a1, '.') {
                Err(e) => Err(e),
                Ok(a2) => match expect(s, a2, '.') {
                    Err(e) => Err(e),
                    Ok(a) => if peek_keyword(s, a, "on"@) {
                        match parse_name(s, a) {
                            Err(e) => Err(e),
                            Ok((_, b)) => match parse_name(s, b) {
                                Err(e) => Err(e),
                                Ok((tc, c)) => match parse_directives(s, c) {
                                    Err(e) => Err(e),
                                    Ok((ds, d)) => if p < d <= s.len() {
                                        match parse_selection_set(s, d) {
                                            Err(e) => Err(e),
                                            Ok((set, e)) => Ok(
                                                (
                                                    SpecSelection::InlineFragment {
                                                        type_condition: Some(tc),
                                                        directives: ds,
                                                        selection_set: set,
                                                    },
                                                    e,
                                                ),
                                            ),
                                        }
                                    } else {
                                        stalled(d)
                                    },
                                },
                            },
                        }
                    } else if peek_is(s, a, '@') || peek_is(s, a, '{') {
                        match parse_directives(s, a) {
                            Err(e) => Err(e),
                            Ok((ds, d)) => if p < d <= s.len() {
                                match parse_selection_set(s, d) {
                                    Err(e) => Err(e),
                                    Ok((set, e)) => Ok(
                                        (
                                            SpecSelection::InlineFragment {
                                                type_condition: None,
                                                directives: ds,
                                                selection_set: set,
                                            },
                                            e,
                                        ),
                                    ),
                                }
                            } else {
                                stalled(d)
                            },
                        }
                    } else {
                        match parse_name(s, a) {
                            Err(e) => Err(e),
                            Ok((n, b)) => match parse_directives(s, b) {
                                Err(e) => Err(e),
                                Ok((ds, c)) => Ok(
                                    (SpecSelection::FragmentSpread { name: n, directives: ds }, c),
                                ),
                            },
                        }
                    },
                },
            },
        }
    } else {
        parse_field(s, p)
    }
}

/// A field `alias: name(args) @directives { ... }`.
pub open spec fn parse_field(s: Seq<char>, p: int) -> PRes<SpecSelection>
    decreases s.len() - p, 0int,
{
    match parse_name(s, p) {
        Err(e) => Err(e),
        Ok((first, a)) => {
            let (colon, b) = consume(s, a, ':');
            let head: PRes<(Option<Seq<char>>, Seq<char>)> = if colon {
                match parse_name(s, b) {
                    Err(e) => Err(e),
                    Ok((n, c)) => Ok(((Some(first), n), c)),
                }
            } else {
                Ok(((None, first), b))
            };
            match head {
                Err(e) => Err(e),
                Ok(((alias, name), c)) => match parse_arguments(s, c) {
                    Err(e) => Err(e),
                    Ok((arguments, d)) => match parse_directives(s, d) {
                        Err(e) => Err(e),
                        Ok((directives, e)) => {
                            let q = skip_ignored(s, e);
                            if at_char(s, q, '{') {
                                if p < q {
                                    match parse_selection_set(s, q) {
                                        Err(err) => Err(err),
                                        Ok((set, f)) => Ok(
                                            (
                                                SpecSelection::Field {
                                                    alias,
                                                    name,
                                                    arguments,
                                                    directives,
                                                    selection_set: Some(set),
                                                },
                                                f,
                                            ),
                                        ),
                                    }
                                } else {
                                    stalled(q)
                                }
                            } else {
                                Ok(
                                    (
                                        SpecSelection::Field {
                                            alias,
                                            name,
                                            arguments,
                                            directives,
                                            selection_set: None,
                                        },
                                        q,
                                    ),
                                )
                            }
                        },
                    },
                },
            }
        },
    }
}

// --- definitions ---

/// The operation type named by the keyword at `p`: `query`, `mutation`, or
/// otherwise `subscription`.
pub open spec fn operation_keyword(s: Seq<char>, p: int) -> OperationType {
    if peek_keyword(s, p, "query"@) {
        OperationType::Query
    } else if peek_keyword(s, p, "mutation"@) {
        OperationType::Mutation
    } else {
        OperationType::Subscription
    }
}

/// An operation `query Name($vars) @directives { ... }`.
pub open spec fn parse_operation_definition(s: Seq<char>, p: int) -> PRes<SpecOperation> {
    let operation = operation_keyword(s, p);
    match parse_name(s, p) {
        Err(e) => Err(e),
        Ok((_, a)) => {
            let named = 0 <= skip_ignored(s, a) < s.len() && is_name_start(
                s[skip_ignored(s, a)],
            );
            let head: PRes<Option<Seq<char>>> = if named {
                match parse_name(s, a) {
                    Err(e) => Err(e),
                    Ok((n, b)) => Ok((Some(n), b)),
                }
            } else {
                Ok((None, a))
            };
            match head {
                Err(e) => Err(e),
                Ok((name, b)) => match parse_variable_definitions(s, b) {
                    Err(e) => Err(e),
                    Ok((variable_definitions, c)) => match parse_directives(s, c) {
                        Err(e) => Err(e),
                        Ok((directives, d)) => match parse_selection_set(s, d) {
                            Err(e) => Err(e),
                            Ok((selection_set, e)) => Ok(
                                (
                                    SpecOperation {
                                        operation,
                                        name,
                                        variable_definitions,
                                        directives,
                                        selection_set,
                                    },
                                    e,
                                ),
                            ),
                        },
                    },
                },
            }
        },
    }
}

/// A fragment definition `fragment Name($vars) on Type @directives { ... }`.
pub open spec fn parse_fragment_definition(s: Seq<char>, p: int) -> PRes<SpecFragment> {
    match parse_name(s, p) {
        Err(e) => Err(e),
        Ok((_, a)) => match parse_name(s, a) {
            Err(e) => Err(e),
            Ok((name, b)) => if name == "on"@ {
                fail("a fragment cannot be named 'on'"@, b)
            } else {
                match parse_variable_definitions(s, b) {
                    Err(e) => Err(e),
                    Ok((variable_definitions, c)) => if !peek_keyword(s, c, "on"@) {
                        fail("expected 'on' in fragment definition"@, skip_ignored(s, c))
                    } else {
                        match parse_name(s, c) {
                            Err(e) => Err(e),
                            Ok((_, d)) => match parse_name(s, d) {
                                Err(e) => Err(e),
                                Ok((type_condition, e)) => match parse_directives(s, e) {
                                    Err(err) => Err(err),
                                    Ok((directives, f)) => match parse_selection_set(s, f) {
                                        Err(err) => Err(err),
                                        Ok((selection_set, g)) => Ok(
                                            (
                                                SpecFragment {
                                                    name,
                                                    variable_definitions,
                                                    type_condition,
                                                    directives,
                                                    selection_set,
                                                },
                                                g,
                                            ),
                                        ),
                                    },
                                },
                            },
                        }
                    },
                }
            },
        },
    }
}

/// One top-level definition: the `{ ... }` query shorthand, a fragment, or
/// an operation.
pub open spec fn parse_definition(s: Seq<char>, p: int) -> PRes<SpecDefinition> {
    let q = skip_ignored(s, p);
    if at_char(s, q, '{') {
        match parse_selection_set(s, q) {
            Err(e) => Err(e),
            Ok((selection_set, e)) => Ok(
                (
                    SpecDefinition::Operation(
                        SpecOperation {
                            operation: OperationType::Query,
                            name: None,
                            variable_definitions: Seq::empty(),
                            directives: Seq::empty(),
                            selection_set,
                        },
                    ),
                    e,
                ),
            ),
        }
    } else if keyword_at(s, q, "fragment"@) {
        match parse_fragment_definition(s, q) {
            Err(e) => Err(e),
            Ok((f, e)) => Ok((SpecDefinition::Fragment(f), e)),
        }
    } else if keyword_at(s, q, "query"@) || keyword_at(s, q, "mutation"@) || keyword_at(
        s,
        q,
        "subscription"@,
    ) {
        match parse_operation_definition(s, q) {
            Err(e) => Err(e),
            Ok((o, e)) => Ok((SpecDefinition::Operation(o), e)),
        }
    } else {
        fail("expected a definition"@, q)
    }
}

/// The definitions from `p` to the end of the source.
pub open spec fn parse_definitions(s: Seq<char>, p: int) -> PRes<Seq<SpecDefinition>>
    decreases s.len() - p,
{
    let q = skip_ignored(s, p);
    if !(0 <= q < s.len()) {
        Ok((Seq::empty(), q))
    } else {
        match parse_definition(s, q) {
            Err(e) => Err(e),
            Ok((d, r)) => if p < r <= s.len() {
                cons(d, parse_definitions(s, r))
            } else {
                stalled(r)
            },
        }
    }
}

/// A whole executable document: at least one definition, up to the end.
pub open spec fn parse_document(s: Seq<char>) -> Result<SpecDocument, PErr> {
    match parse_definitions(s, 0) {
        Err(e) => Err(e),
        Ok((definitions, e)) => if definitions.len() == 0 {
            Err(PErr { msg: "a document must define at least one definition"@, at: e })
        } else {
            Ok(SpecDocument { definitions })
        },
    }
}

} // verus!
