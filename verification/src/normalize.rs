//! Whitespace normalization.
//!
//! Collapse each run of whitespace into a single ASCII space, then trim. The
//! whitespace set is the ECMAScript `\s` class, which is wider than the ASCII
//! whitespace the printer emits.
use vstd::prelude::*;
use crate::text::{str_chars, string_from_chars};

verus! {

/// Membership in the ECMAScript `RegExp` `\s` class: tab, line feed,
/// vertical tab, form feed, carriage return, space, no-break space, U+1680,
/// U+2000 through U+200A, the line and paragraph separators, U+202F, U+205F,
/// U+3000 and the byte-order mark.
pub open spec fn spec_is_js_whitespace(c: char) -> bool {
    ||| c == '\u{0009}'
    ||| c == '\u{000A}'
    ||| c == '\u{000B}'
    ||| c == '\u{000C}'
    ||| c == '\u{000D}'
    ||| c == '\u{0020}'
    ||| c == '\u{00A0}'
    ||| c == '\u{1680}'
    ||| ('\u{2000}' <= c && c <= '\u{200A}')
    ||| c == '\u{2028}'
    ||| c == '\u{2029}'
    ||| c == '\u{202F}'
    ||| c == '\u{205F}'
    ||| c == '\u{3000}'
    ||| c == '\u{FEFF}'
}

/// The text built so far from `s` together with whether `s` ends inside a
/// whitespace run. A non-whitespace character that follows a run is preceded
/// by one space, unless nothing has been emitted yet.
pub open spec fn collapse_state(s: Seq<char>) -> (Seq<char>, bool)
    decreases s.len(),
{
    if s.len() == 0 {
        (Seq::empty(), false)
    } else {
        let (out, in_run) = collapse_state(s.drop_last());
        let c = s.last();
        if spec_is_js_whitespace(c) {
            (out, true)
        } else if in_run && out.len() > 0 {
            (out.push(' ').push(c), false)
        } else {
            (out.push(c), false)
        }
    }
}

/// `s` with every whitespace run collapsed to one space and both ends trimmed.
pub open spec fn spec_normalize_whitespace(s: Seq<char>) -> Seq<char> {
    collapse_state(s).0
}

/// Test membership in the ECMAScript `RegExp` `\s` class.
pub fn is_js_whitespace(c: char) -> (b: bool)
    ensures
        b == spec_is_js_whitespace(c),
{
    c == '\u{0009}' || c == '\u{000A}' || c == '\u{000B}' || c == '\u{000C}' || c == '\u{000D}'
        || c == '\u{0020}' || c == '\u{00A0}' || c == '\u{1680}' || ('\u{2000}' <= c && c
        <= '\u{200A}') || c == '\u{2028}' || c == '\u{2029}' || c == '\u{202F}' || c
        == '\u{205F}' || c == '\u{3000}' || c == '\u{FEFF}'
}

/// Collapse whitespace runs in a character sequence.
pub fn normalize_chars(input: &Vec<char>) -> (out: Vec<char>)
    ensures
        out@ == spec_normalize_whitespace(input@),
{
    let mut out: Vec<char> = Vec::new();
    let mut in_run = false;
    let mut i: usize = 0;
    while i < input.len()
        invariant
            i <= input.len(),
            (out@, in_run) == collapse_state(input@.take(i as int)),
        decreases input.len() - i,
    {
        let ch = input[i];
        assert(input@.take(i + 1).drop_last() == input@.take(i as int));
        if is_js_whitespace(ch) {
            in_run = true;
        } else {
            if in_run && out.len() > 0 {
                out.push(' ');
            }
            in_run = false;
            out.push(ch);
        }
        i += 1;
    }
    assert(input@.take(input.len() as int) == input@);
    out
}

/// Collapse whitespace runs to single spaces and trim the ends.
pub fn normalize_whitespace(input: &str) -> (out: String)
    ensures
        out@ == spec_normalize_whitespace(input@),
{
    let chars = str_chars(input);
    let out = normalize_chars(&chars);
    string_from_chars(&out)
}

} // verus!
