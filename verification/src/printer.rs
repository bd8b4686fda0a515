//! Printer for GraphQL executable documents.
//!
//! Output matches the canonical GraphQL printer: two-space indent, blank
//! lines between top-level definitions, and a line-length rule that wraps
//! long argument, list, object, and variable-definition lists across lines.
//! Every function here returns exactly the text that the matching function
//! of `print_spec` describes.
use vstd::prelude::*;
use crate::ast::{
    Argument, Definition, Directive, Document, Field, FragmentDefinition, FragmentSpread,
    InlineFragment, ObjectField, OperationDefinition, OperationType, Selection, SelectionSet, Type,
    Value, VariableDefinition,
};
use crate::model::{
    arguments_view, directives_view, lemma_object_fields_view, lemma_selections_view,
    lemma_values_view, object_fields_view, selections_view, values_view, variable_definitions_view,
    definitions_view,
};
use crate::print_spec::{
    self, lemma_print_values, lemma_print_object_fields, lemma_print_selections, join_filtered,
    nonempty_parts, wrap, indent, indent_after_newlines, block, utf16_len,
};
use crate::text::{
    string_from_chars, join, join_exec, lines_view, push_all, push_str, split_lines,
    split_lines_exec, str_chars,
};

verus! {

/// Join the non-empty parts with `sep`.
pub fn join_filtered_exec(parts: &Vec<Vec<char>>, sep: &Vec<char>) -> (out: Vec<char>)
    ensures
        out@ == join_filtered(lines_view(parts@), sep@),
{
    let ghost ps = lines_view(parts@);
    let mut kept: Vec<Vec<char>> = Vec::new();
    let mut i: usize = 0;
    while i < parts.len()
        invariant
            i <= parts.len(),
            ps == lines_view(parts@),
            ps.len() == parts.len(),
            lines_view(kept@) == nonempty_parts(ps.take(i as int)),
        decreases parts.len() - i,
    {
        assert(ps.take(i + 1).drop_last() =~= ps.take(i as int));
        assert(ps[i as int] == parts@[i as int]@);
        if parts[i].len() > 0 {
            let ghost before = lines_view(kept@);
            let mut copy: Vec<char> = Vec::new();
            push_all(&mut copy, &parts[i]);
            kept.push(copy);
            assert(lines_view(kept@) =~= before.push(ps[i as int]));
        }
        i += 1;
    }
    assert(ps.take(parts.len() as int) =~= ps);
    join_exec(&kept, sep)
}

/// Join the non-empty parts with the literal separator `sep`.
pub fn join_filtered_str(parts: &Vec<Vec<char>>, sep: &str) -> (out: Vec<char>)
    ensures
        out@ == join_filtered(lines_view(parts@), sep@),
{
    join_filtered_exec(parts, &str_chars(sep))
}

/// Join the parts with the literal separator `sep`.
pub fn join_str(parts: &Vec<Vec<char>>, sep: &str) -> (out: Vec<char>)
    ensures
        out@ == join(lines_view(parts@), sep@),
{
    join_exec(parts, &str_chars(sep))
}

/// `start + body + end` when `body` is non-empty, else empty.
pub fn wrap_exec(start: &str, body: &Vec<char>, end: &str) -> (out: Vec<char>)
    ensures
        out@ == wrap(start@, body@, end@),
{
    let mut out: Vec<char> = Vec::new();
    if body.len() > 0 {
        push_str(&mut out, start);
        push_all(&mut out, body);
        push_str(&mut out, end);
    }
    out
}

/// Every line of `s` indented by two spaces.
pub fn indent_exec(s: &Vec<char>) -> (out: Vec<char>)
    ensures
        out@ == indent(s@),
{
    let mut out: Vec<char> = Vec::new();
    if s.len() == 0 {
        return out;
    }
    out.push(' ');
    out.push(' ');
    let mut i: usize = 0;
    while i < s.len()
        invariant
            i <= s.len(),
            out@ == seq![' ', ' '] + indent_after_newlines(s@.take(i as int)),
        decreases s.len() - i,
    {
        assert(s@.take(i + 1).drop_last() =~= s@.take(i as int));
        let ghost before = out@;
        if s[i] == '\n' {
            out.push('\n');
            out.push(' ');
            out.push(' ');
            assert(out@ =~= before + seq!['\n', ' ', ' ']);
        } else {
            out.push(s[i]);
        }
        i += 1;
    }
    assert(s@.take(s.len() as int) =~= s@);
    out
}

/// A brace block with each entry on its own indented line.
pub fn block_exec(parts: &Vec<Vec<char>>) -> (out: Vec<char>)
    ensures
        out@ == block(lines_view(parts@)),
{
    let body = join_filtered_str(parts, "\n");
    wrap_exec("{\n", &indent_exec(&body), "\n}")
}

/// Whether `s` has more than `limit` UTF-16 code units.
pub fn utf16_len_exceeds(s: &Vec<char>, limit: usize) -> (b: bool)
    ensures
        b == (utf16_len(s@) > limit),
{
    let mut n: usize = 0;
    let mut i: usize = 0;
    while i < s.len()
        invariant
            i <= s.len(),
            n == utf16_len(s@.take(i as int)),
            n <= limit,
        decreases s.len() - i,
    {
        assert(s@.take(i + 1).drop_last() =~= s@.take(i as int));
        let w: usize = if (s[i] as u32) >= 0x10000 {
            2
        } else {
            1
        };
        if w > limit - n {
            proof {
                lemma_utf16_len_prefix(s@, i + 1);
            }
            return true;
        }
        n = n + w;
        i += 1;
    }
    assert(s@.take(s.len() as int) =~= s@);
    false
}

/// A prefix never has more code units than the whole.
pub proof fn lemma_utf16_len_prefix(s: Seq<char>, k: int)
    requires
        0 <= k <= s.len(),
    ensures
        utf16_len(s.take(k)) <= utf16_len(s),
    decreases s.len() - k,
{
    if k < s.len() {
        assert(s.take(k + 1).drop_last() =~= s.take(k));
        lemma_utf16_len_prefix(s, k + 1);
    } else {
        assert(s.take(k) =~= s);
    }
}

/// The characters of a string field.
pub fn text(s: &String) -> (v: Vec<char>)
    ensures
        v@ == s@,
{
    str_chars(s.as_str())
}

/// Concatenate character vectors.
pub fn concat(a: Vec<char>, b: &Vec<char>) -> (out: Vec<char>)
    ensures
        out@ == a@ + b@,
{
    let mut out = a;
    push_all(&mut out, b);
    out
}

/// Print a type reference.
pub fn print_type(ty: &Type) -> (out: Vec<char>)
    ensures
        out@ == print_spec::print_type(ty@),
    decreases ty,
{
    match ty {
        Type::Named(name) => text(name),
        Type::List(inner) => {
            let mut out = str_chars("[");
            push_all(&mut out, &print_type(inner));
            push_str(&mut out, "]");
            out
        },
        Type::NonNull(inner) => {
            let mut out = print_type(inner);
            push_str(&mut out, "!");
            out
        },
    }
}

/// The uppercase hexadecimal digit for `d < 16`.
fn hex_upper(d: u32) -> (c: char)
    requires
        d < 16,
    ensures
        c == print_spec::hex_upper(d as nat),
{
    if d < 10 {
        ((48 + d) as u8) as char
    } else {
        ((55 + d) as u8) as char
    }
}

/// Escape a character of a quoted string.
fn escape_char(c: char) -> (out: Vec<char>)
    ensures
        out@ == print_spec::escape_char(c),
{
    if c == '"' {
        vec!['\\', '"']
    } else if c == '\\' {
        vec!['\\', '\\']
    } else if c == '\u{8}' {
        vec!['\\', 'b']
    } else if c == '\u{c}' {
        vec!['\\', 'f']
    } else if c == '\n' {
        vec!['\\', 'n']
    } else if c == '\r' {
        vec!['\\', 'r']
    } else if c == '\t' {
        vec!['\\', 't']
    } else if (c as u32) < 0x20 || (0x7F <= (c as u32) && (c as u32) <= 0x9F) {
        let v = c as u32;
        let out = vec![
            '\\',
            'u',
            hex_upper(v / 4096),
            hex_upper((v / 256) % 16),
            hex_upper((v / 16) % 16),
            hex_upper(v % 16),
        ];
        assert(out@ =~= print_spec::escape_char(c));
        out
    } else {
        vec![c]
    }
}

/// Escape and quote a string the way the canonical GraphQL printer does.
fn print_string(value: &Vec<char>) -> (out: Vec<char>)
    ensures
        out@ == print_spec::print_string(value@),
{
    let mut body: Vec<char> = Vec::new();
    let mut i: usize = 0;
    while i < value.len()
        invariant
            i <= value.len(),
            body@ == print_spec::escape_string(value@.take(i as int)),
        decreases value.len() - i,
    {
        assert(value@.take(i + 1).drop_last() =~= value@.take(i as int));
        push_all(&mut body, &escape_char(value[i]));
        i += 1;
    }
    assert(value@.take(value.len() as int) =~= value@);
    let mut out = vec!['"'];
    push_all(&mut out, &body);
    out.push('"');
    assert(out@ =~= print_spec::print_string(value@));
    out
}

/// Write every `"""` of `s`, read left to right, as `\"""`.
fn escape_triple_quotes(s: &Vec<char>) -> (out: Vec<char>)
    ensures
        out@ == print_spec::escape_triple_quotes(s@),
{
    let mut out: Vec<char> = Vec::new();
    let mut i: usize = 0;
    assert(s@.skip(0) =~= s@);
    while i < s.len()
        invariant
            i <= s.len(),
            print_spec::escape_triple_quotes(s@) == out@ + print_spec::escape_triple_quotes(
                s@.skip(i as int),
            ),
        decreases s.len() - i,
    {
        let ghost rest = s@.skip(i as int);
        let ghost before = out@;
        if s.len() - i >= 3 && s[i] == '"' && s[i + 1] == '"' && s[i + 2] == '"' {
            assert(rest[0] == s@[i as int] && rest[1] == s@[i + 1] && rest[2] == s@[i + 2]);
            assert(rest.skip(3) =~= s@.skip(i + 3));
            out.push('\\');
            out.push('"');
            out.push('"');
            out.push('"');
            assert(out@ =~= before + seq!['\\', '"', '"', '"']);
            i += 3;
        } else {
            assert(rest[0] == s@[i as int]);
            if s.len() - i >= 3 {
                assert(rest[1] == s@[i + 1] && rest[2] == s@[i + 2]);
            }
            assert(rest.drop_first() =~= s@.skip(i + 1));
            out.push(s[i]);
            assert(out@ =~= before + seq![s@[i as int]]);
            i += 1;
        }
    }
    assert(s@.skip(s.len() as int) =~= Seq::<char>::empty());
    assert(out@ =~= out@ + Seq::<char>::empty());
    out
}

fn starts_with_space_or_tab(line: &Vec<char>) -> (b: bool)
    ensures
        b == print_spec::starts_with_space_or_tab(line@),
{
    line.len() > 0 && (line[0] == ' ' || line[0] == '\t')
}

/// Print a block string with `"""` delimiters.
fn print_block_string(value: &Vec<char>) -> (out: Vec<char>)
    ensures
        out@ == print_spec::print_block_string(value@),
{
    let escaped = escape_triple_quotes(value);
    let lines = split_lines_exec(&escaped);
    let ghost ls = split_lines(escaped@);
    assert(ls.len() == lines.len());
    let is_single_line = lines.len() == 1;
    let mut all_indented = true;
    let mut k: usize = 1;
    while k < lines.len()
        invariant
            1 <= k,
            k <= lines.len() || k == 1,
            ls == lines_view(lines@),
            ls.len() == lines.len(),
            all_indented == (forall|i: int|
                1 <= i < k ==> (#[trigger] ls[i]).len() == 0 || print_spec::starts_with_space_or_tab(
                    ls[i],
                )),
        decreases lines.len() - k,
    {
        assert(ls[k as int] == lines@[k as int]@);
        if !(lines[k].len() == 0 || starts_with_space_or_tab(&lines[k])) {
            all_indented = false;
        }
        k += 1;
    }
    let force_leading_newline = lines.len() > 1 && all_indented;
    let n = escaped.len();
    let has_trailing_triple_quotes = n >= 4 && escaped[n - 4] == '\\' && escaped[n - 3] == '"'
        && escaped[n - 2] == '"' && escaped[n - 1] == '"';
    proof {
        let t = seq!['\\', '"', '"', '"'];
        if n >= 4 {
            let tail = escaped@.skip(n - 4);
            assert(tail[0] == escaped@[n - 4] && tail[1] == escaped@[n - 3] && tail[2]
                == escaped@[n - 2] && tail[3] == escaped@[n - 1]);
            if has_trailing_triple_quotes {
                assert(tail =~= t);
            } else {
                assert(tail != t) by {
                    if tail == t {
                        assert(tail[0] == t[0] && tail[1] == t[1] && tail[2] == t[2] && tail[3] == t[3]);
                    }
                }
            }
        }
    }
    let m = value.len();
    let has_trailing_quote = m > 0 && value[m - 1] == '"' && !has_trailing_triple_quotes;
    let has_trailing_slash = m > 0 && value[m - 1] == '\\';
    let force_trailing_newline = has_trailing_quote || has_trailing_slash;
    let print_as_multiple_lines = !is_single_line || utf16_len_exceeds(value, 70)
        || force_trailing_newline || force_leading_newline || has_trailing_triple_quotes;
    let skip_leading_newline = is_single_line && starts_with_space_or_tab(value);
    let mut out = vec!['"', '"', '"'];
    if (print_as_multiple_lines && !skip_leading_newline) || force_leading_newline {
        out.push('\n');
    }
    push_all(&mut out, &escaped);
    if print_as_multiple_lines || force_trailing_newline {
        out.push('\n');
    }
    out.push('"');
    out.push('"');
    out.push('"');
    assert(out@ =~= print_spec::print_block_string(value@));
    out
}

/// Print a value.
pub fn print_value(value: &Value) -> (out: Vec<char>)
    ensures
        out@ == print_spec::print_value(value@),
    decreases value,
{
    match value {
        Value::Variable(name) => concat(str_chars("$"), &text(name)),
        Value::Int(t) => text(t),
        Value::Float(t) => text(t),
        Value::String { value, block } => {
            let v = text(value);
            if *block {
                print_block_string(&v)
            } else {
                print_string(&v)
            }
        },
        Value::Boolean(b) => if *b {
            str_chars("true")
        } else {
            str_chars("false")
        },
        Value::Null => str_chars("null"),
        Value::Enum(name) => text(name),
        Value::List(items) => {
            let values = print_value_list(items);
            let mut line = str_chars("[");
            push_all(&mut line, &join_str(&values, ", "));
            push_str(&mut line, "]");
            if utf16_len_exceeds(&line, 80) {
                let mut out = str_chars("[\n");
                push_all(&mut out, &indent_exec(&join_str(&values, "\n")));
                push_str(&mut out, "\n]");
                out
            } else {
                line
            }
        },
        Value::Object(fields) => {
            let entries = print_object_field_list(fields);
            let mut line = str_chars("{ ");
            push_all(&mut line, &join_str(&entries, ", "));
            push_str(&mut line, " }");
            if utf16_len_exceeds(&line, 80) {
                block_exec(&entries)
            } else {
                line
            }
        },
    }
}

/// Print each value of a list.
fn print_value_list(items: &Vec<Value>) -> (out: Vec<Vec<char>>)
    ensures
        lines_view(out@) == print_spec::print_values(values_view(items@)),
    decreases items,
{
    let ghost vs = values_view(items@);
    proof {
        lemma_values_view(items@);
        lemma_print_values(vs);
    }
    let mut out: Vec<Vec<char>> = Vec::new();
    let mut i: usize = 0;
    while i < items.len()
        invariant
            i <= items.len(),
            vs == values_view(items@),
            vs.len() == items.len(),
            print_spec::print_values(vs).len() == vs.len(),
            forall|j: int| 0 <= j < vs.len() ==> #[trigger] vs[j] == items@[j]@,
            forall|j: int| 0 <= j < vs.len() ==> #[trigger] print_spec::print_values(vs)[j]
                == print_spec::print_value(vs[j]),
            lines_view(out@) == print_spec::print_values(vs).take(i as int),
        decreases items.len() - i,
    {
        let p = print_value(&items[i]);
        let ghost before = lines_view(out@);
        out.push(p);
        assert(lines_view(out@) =~= before.push(p@));
        assert(print_spec::print_values(vs).take(i + 1) =~= print_spec::print_values(vs).take(
            i as int,
        ).push(print_spec::print_values(vs)[i as int]));
        i += 1;
    }
    assert(print_spec::print_values(vs).take(items.len() as int) =~= print_spec::print_values(vs));
    out
}

/// Print each `name: value` entry of an object.
fn print_object_field_list(fields: &Vec<ObjectField>) -> (out: Vec<Vec<char>>)
    ensures
        lines_view(out@) == print_spec::print_object_fields(object_fields_view(fields@)),
    decreases fields,
{
    let ghost fs = object_fields_view(fields@);
    proof {
        lemma_object_fields_view(fields@);
        lemma_print_object_fields(fs);
    }
    let mut out: Vec<Vec<char>> = Vec::new();
    let mut i: usize = 0;
    while i < fields.len()
        invariant
            i <= fields.len(),
            fs == object_fields_view(fields@),
            fs.len() == fields.len(),
            print_spec::print_object_fields(fs).len() == fs.len(),
            forall|j: int| 0 <= j < fs.len() ==> #[trigger] fs[j] == fields@[j]@,
            forall|j: int| 0 <= j < fs.len() ==> #[trigger] print_spec::print_object_fields(fs)[j]
                == fs[j].0 + ": "@ + print_spec::print_value(fs[j].1),
            lines_view(out@) == print_spec::print_object_fields(fs).take(i as int),
        decreases fields.len() - i,
    {
        let mut entry = text(&fields[i].name);
        push_str(&mut entry, ": ");
        push_all(&mut entry, &print_value(&fields[i].value));
        let ghost before = lines_view(out@);
        out.push(entry);
        assert(lines_view(out@) =~= before.push(entry@));
        assert(print_spec::print_object_fields(fs).take(i + 1) =~= print_spec::print_object_fields(
            fs,
        ).take(i as int).push(print_spec::print_object_fields(fs)[i as int]));
        i += 1;
    }
    assert(print_spec::print_object_fields(fs).take(fields.len() as int)
        =~= print_spec::print_object_fields(fs));
    out
}

fn print_argument(arg: &Argument) -> (out: Vec<char>)
    ensures
        out@ == print_spec::print_argument(arg@),
{
    let mut out = text(&arg.name);
    push_str(&mut out, ": ");
    push_all(&mut out, &print_value(&arg.value));
    out
}

fn print_argument_list(args: &Vec<Argument>) -> (out: Vec<Vec<char>>)
    ensures
        lines_view(out@) == print_spec::print_arguments(arguments_view(args@)),
{
    let mut out: Vec<Vec<char>> = Vec::new();
    let mut i: usize = 0;
    while i < args.len()
        invariant
            i <= args.len(),
            lines_view(out@) == print_spec::print_arguments(arguments_view(args@.take(i as int))),
        decreases args.len() - i,
    {
        let p = print_argument(&args[i]);
        let ghost before = lines_view(out@);
        out.push(p);
        assert(lines_view(out@) =~= before.push(p@));
        assert(print_spec::print_arguments(arguments_view(args@.take(i + 1))) =~= before.push(p@));
        i += 1;
    }
    assert(args@.take(args.len() as int) =~= args@);
    out
}

/// Print a directive `@name(args)`; directive arguments never wrap.
fn print_directive(d: &Directive) -> (out: Vec<char>)
    ensures
        out@ == print_spec::print_directive(d@),
{
    let mut out = str_chars("@");
    push_all(&mut out, &text(&d.name));
    let args = join_str(&print_argument_list(&d.arguments), ", ");
    push_all(&mut out, &wrap_exec("(", &args, ")"));
    out
}

/// Print a directive list joined by spaces.
fn print_directives(ds: &Vec<Directive>) -> (out: Vec<char>)
    ensures
        out@ == print_spec::print_directives(directives_view(ds@)),
{
    let mut parts: Vec<Vec<char>> = Vec::new();
    let mut i: usize = 0;
    while i < ds.len()
        invariant
            i <= ds.len(),
            lines_view(parts@) == directives_view(ds@.take(i as int)).map_values(
                |d: crate::model::SpecDirective| print_spec::print_directive(d),
            ),
        decreases ds.len() - i,
    {
        let p = print_directive(&ds[i]);
        let ghost before = lines_view(parts@);
        parts.push(p);
        assert(lines_view(parts@) =~= before.push(p@));
        assert(directives_view(ds@.take(i + 1)).map_values(
            |d: crate::model::SpecDirective| print_spec::print_directive(d),
        ) =~= before.push(p@));
        i += 1;
    }
    assert(ds@.take(ds.len() as int) =~= ds@);
    join_filtered_str(&parts, " ")
}

fn print_variable_definition(def: &VariableDefinition) -> (out: Vec<char>)
    ensures
        out@ == print_spec::print_variable_definition(def@),
{
    let mut out = str_chars("$");
    push_all(&mut out, &text(&def.variable));
    push_str(&mut out, ": ");
    push_all(&mut out, &print_type(&def.ty));
    match &def.default_value {
        Some(v) => {
            push_str(&mut out, " = ");
            push_all(&mut out, &print_value(v));
        },
        None => {},
    }
    push_all(&mut out, &wrap_exec(" ", &print_directives(&def.directives), ""));
    proof {
        reveal_strlit("");
        assert(""@ =~= Seq::<char>::empty());
    }
    assert(out@ =~= print_spec::print_variable_definition(def@));
    out
}

fn print_variable_definition_list(defs: &Vec<VariableDefinition>) -> (out: Vec<Vec<char>>)
    ensures
        lines_view(out@) == print_spec::print_variable_definition_parts(
            variable_definitions_view(defs@),
        ),
{
    let mut out: Vec<Vec<char>> = Vec::new();
    let mut i: usize = 0;
    while i < defs.len()
        invariant
            i <= defs.len(),
            lines_view(out@) == print_spec::print_variable_definition_parts(
                variable_definitions_view(defs@.take(i as int)),
            ),
        decreases defs.len() - i,
    {
        let p = print_variable_definition(&defs[i]);
        let ghost before = lines_view(out@);
        out.push(p);
        assert(lines_view(out@) =~= before.push(p@));
        assert(print_spec::print_variable_definition_parts(
            variable_definitions_view(defs@.take(i + 1)),
        ) =~= before.push(p@));
        i += 1;
    }
    assert(defs@.take(defs.len() as int) =~= defs@);
    out
}

fn contains_newline(s: &Vec<char>) -> (b: bool)
    ensures
        b == s@.contains('\n'),
{
    let mut i: usize = 0;
    while i < s.len()
        invariant
            i <= s.len(),
            forall|j: int| 0 <= j < i ==> s@[j] != '\n',
        decreases s.len() - i,
    {
        if s[i] == '\n' {
            return true;
        }
        i += 1;
    }
    false
}

/// Print operation variable definitions. Multi-line if any printed
/// definition already spans lines.
fn print_operation_variable_definitions(defs: &Vec<VariableDefinition>) -> (out: Vec<char>)
    ensures
        out@ == print_spec::print_operation_variable_definitions(variable_definitions_view(defs@)),
{
    if defs.len() == 0 {
        return Vec::new();
    }
    let parts = print_variable_definition_list(defs);
    let ghost ps = lines_view(parts@);
    let mut multiline = false;
    let mut i: usize = 0;
    while i < parts.len()
        invariant
            i <= parts.len(),
            ps == lines_view(parts@),
            ps.len() == parts.len(),
            multiline == (exists|j: int| 0 <= j < i && (#[trigger] ps[j]).contains('\n')),
        decreases parts.len() - i,
    {
        assert(ps[i as int] == parts@[i as int]@);
        if contains_newline(&parts[i]) {
            multiline = true;
        }
        i += 1;
    }
    if multiline {
        let mut out = str_chars("(\n");
        push_all(&mut out, &join_str(&parts, "\n"));
        push_str(&mut out, "\n)");
        out
    } else {
        let mut out = str_chars("(");
        push_all(&mut out, &join_str(&parts, ", "));
        push_str(&mut out, ")");
        out
    }
}

/// A field or spread head, wrapping arguments onto multiple lines when the
/// single-line form exceeds the maximum width.
fn wrapped_line_and_args(prefix: &Vec<char>, args: &Vec<Vec<char>>) -> (out: Vec<char>)
    ensures
        out@ == print_spec::wrapped_line_and_args(prefix@, lines_view(args@)),
{
    let mut one_line = concat(Vec::new(), prefix);
    push_all(&mut one_line, &wrap_exec("(", &join_str(args, ", "), ")"));
    assert(one_line@ =~= prefix@ + wrap("("@, join(lines_view(args@), ", "@), ")"@));
    if utf16_len_exceeds(&one_line, 80) {
        let mut out = concat(Vec::new(), prefix);
        push_all(&mut out, &wrap_exec("(\n", &indent_exec(&join_str(args, "\n")), "\n)"));
        assert(out@ =~= print_spec::wrapped_line_and_args(prefix@, lines_view(args@)));
        out
    } else {
        one_line
    }
}

/// Print a single selection node.
pub fn print_selection_chars(selection: &Selection) -> (out: Vec<char>)
    ensures
        out@ == print_spec::print_selection(selection@),
    decreases selection,
{
    match selection {
        Selection::Field(field) => {
            let mut prefix: Vec<char> = Vec::new();
            match &field.alias {
                Some(alias) => {
                    push_all(&mut prefix, &text(alias));
                    push_str(&mut prefix, ": ");
                },
                None => {},
            }
            push_all(&mut prefix, &text(&field.name));
            let head = wrapped_line_and_args(&prefix, &print_argument_list(&field.arguments));
            let directives = print_directives(&field.directives);
            let set = match &field.selection_set {
                Some(set) => block_exec(&print_selection_list(&set.selections)),
                None => Vec::new(),
            };
            let parts = vec![head, wrap_exec(" ", &directives, ""), wrap_exec(" ", &set, "")];
            proof {
                reveal_strlit("");
                assert(""@ =~= Seq::<char>::empty());
            }
            let ghost expected_parts = seq![
                parts@[0]@,
                wrap(" "@, directives@, Seq::empty()),
                wrap(" "@, set@, Seq::empty()),
            ];
            assert(lines_view(parts@) =~= expected_parts);
            let out = join_filtered_str(&parts, "");
            assert(out@ =~= print_spec::print_selection(selection@));
            out
        },
        Selection::FragmentSpread(spread) => {
            let mut out = str_chars("...");
            push_all(&mut out, &text(&spread.name));
            push_all(&mut out, &wrap_exec(" ", &print_directives(&spread.directives), ""));
            proof {
                reveal_strlit("");
                assert(""@ =~= Seq::<char>::empty());
            }
            assert(out@ =~= print_spec::print_selection(selection@));
            out
        },
        Selection::InlineFragment(inline) => {
            let type_part = match &inline.type_condition {
                Some(tc) => concat(str_chars("on "), &text(tc)),
                None => Vec::new(),
            };
            let directives = print_directives(&inline.directives);
            let set = block_exec(&print_selection_list(&inline.selection_set.selections));
            let parts = vec![str_chars("..."), type_part, directives, set];
            let out = join_filtered_str(&parts, " ");
            assert(lines_view(parts@) =~= seq![
                "..."@,
                parts@[1]@,
                parts@[2]@,
                parts@[3]@,
            ]);
            assert(out@ =~= print_spec::print_selection(selection@));
            out
        },
    }
}

/// Print each selection of a list.
fn print_selection_list(sels: &Vec<Selection>) -> (out: Vec<Vec<char>>)
    ensures
        lines_view(out@) == print_spec::print_selections(selections_view(sels@)),
    decreases sels,
{
    let ghost ss = selections_view(sels@);
    proof {
        lemma_selections_view(sels@);
        lemma_print_selections(ss);
    }
    let mut out: Vec<Vec<char>> = Vec::new();
    let mut i: usize = 0;
    while i < sels.len()
        invariant
            i <= sels.len(),
            ss == selections_view(sels@),
            ss.len() == sels.len(),
            print_spec::print_selections(ss).len() == ss.len(),
            forall|j: int| 0 <= j < ss.len() ==> #[trigger] ss[j] == sels@[j]@,
            forall|j: int| 0 <= j < ss.len() ==> #[trigger] print_spec::print_selections(ss)[j]
                == print_spec::print_selection(ss[j]),
            lines_view(out@) == print_spec::print_selections(ss).take(i as int),
        decreases sels.len() - i,
    {
        let p = print_selection_chars(&sels[i]);
        let ghost before = lines_view(out@);
        out.push(p);
        assert(lines_view(out@) =~= before.push(p@));
        assert(print_spec::print_selections(ss).take(i + 1) =~= print_spec::print_selections(
            ss,
        ).take(i as int).push(print_spec::print_selections(ss)[i as int]));
        i += 1;
    }
    assert(print_spec::print_selections(ss).take(sels.len() as int) =~= print_spec::print_selections(
        ss,
    ));
    out
}

/// Print a selection set as a brace block.
fn print_selection_set(set: &SelectionSet) -> (out: Vec<char>)
    ensures
        out@ == print_spec::print_selection_set(set@),
{
    block_exec(&print_selection_list(&set.selections))
}

/// The keyword used when printing an operation type.
fn operation_keyword(operation: OperationType) -> (out: Vec<char>)
    ensures
        out@ == print_spec::operation_keyword(operation),
{
    match operation {
        OperationType::Query => str_chars("query"),
        OperationType::Mutation => str_chars("mutation"),
        OperationType::Subscription => str_chars("subscription"),
    }
}

fn print_operation(op: &OperationDefinition) -> (out: Vec<char>)
    ensures
        out@ == print_spec::print_operation(op@),
{
    let var_defs = print_operation_variable_definitions(&op.variable_definitions);
    let directives = print_directives(&op.directives);
    let selection_set = print_selection_set(&op.selection_set);
    let name = match &op.name {
        Some(n) => text(n),
        None => Vec::new(),
    };
    let name_parts = vec![name, var_defs];
    assert(lines_view(name_parts@) =~= seq![name_parts@[0]@, name_parts@[1]@]);
    let name_with_vars = join_filtered_str(&name_parts, "");
    proof {
        reveal_strlit("");
        assert(""@ =~= Seq::<char>::empty());
    }
    assert(name_with_vars@ == join_filtered(seq![name_parts@[0]@, name_parts@[1]@], Seq::empty()));
    let prefix_parts = vec![operation_keyword(op.operation), name_with_vars, directives];
    assert(lines_view(prefix_parts@) =~= seq![
        prefix_parts@[0]@,
        prefix_parts@[1]@,
        prefix_parts@[2]@,
    ]);
    let prefix = join_filtered_str(&prefix_parts, " ");
    if crate::text::chars_eq_str(&prefix, "query") {
        selection_set
    } else {
        let mut out = prefix;
        push_str(&mut out, " ");
        push_all(&mut out, &selection_set);
        out
    }
}

fn print_fragment_definition(frag: &FragmentDefinition) -> (out: Vec<char>)
    ensures
        out@ == print_spec::print_fragment_definition(frag@),
{
    let parts = print_variable_definition_list(&frag.variable_definitions);
    let var_defs = wrap_exec("(", &join_filtered_str(&parts, ", "), ")");
    let directives = print_directives(&frag.directives);
    let selection_set = print_selection_set(&frag.selection_set);
    let mut out = str_chars("fragment ");
    push_all(&mut out, &text(&frag.name));
    push_all(&mut out, &var_defs);
    push_str(&mut out, " on ");
    push_all(&mut out, &text(&frag.type_condition));
    push_str(&mut out, " ");
    push_all(&mut out, &wrap_exec("", &directives, " "));
    push_all(&mut out, &selection_set);
    proof {
        reveal_strlit("");
        assert(""@ =~= Seq::<char>::empty());
    }
    assert(out@ =~= print_spec::print_fragment_definition(frag@));
    out
}

fn print_definition(d: &Definition) -> (out: Vec<char>)
    ensures
        out@ == print_spec::print_definition(d@),
{
    match d {
        Definition::Operation(op) => print_operation(op),
        Definition::Fragment(frag) => print_fragment_definition(frag),
    }
}

/// Print a whole document in canonical multi-line form.
pub fn print_chars(document: &Document) -> (out: Vec<char>)
    ensures
        out@ == print_spec::print_document(document@),
{
    let mut parts: Vec<Vec<char>> = Vec::new();
    let ghost defs = definitions_view(document.definitions@);
    let mut i: usize = 0;
    while i < document.definitions.len()
        invariant
            i <= document.definitions.len(),
            defs == definitions_view(document.definitions@),
            lines_view(parts@) == defs.take(i as int).map_values(
                |d: crate::model::SpecDefinition| print_spec::print_definition(d),
            ),
        decreases document.definitions.len() - i,
    {
        let p = print_definition(&document.definitions[i]);
        let ghost before = lines_view(parts@);
        parts.push(p);
        assert(lines_view(parts@) =~= before.push(p@));
        assert(defs.take(i + 1).map_values(
            |d: crate::model::SpecDefinition| print_spec::print_definition(d),
        ) =~= before.push(p@));
        i += 1;
    }
    assert(defs.take(document.definitions.len() as int) =~= defs);
    join_str(&parts, "\n\n")
}

/// Print a whole document in canonical multi-line form.
pub fn print(document: &Document) -> (out: String)
    ensures
        out@ == print_spec::print_document(document@),
{
    string_from_chars(&print_chars(document))
}

/// Print a single selection node. Used to build inline-fragment sort keys.
pub fn print_selection(selection: &Selection) -> (out: String)
    ensures
        out@ == print_spec::print_selection(selection@),
{
    string_from_chars(&print_selection_chars(selection))
}

} // verus!
