//! The meaning of the printer: the text each node prints as.
//!
//! The layout follows the canonical GraphQL printer: two-space indent, blank
//! lines between top-level definitions, and a line-length rule that wraps
//! long argument, list, and object lists across lines.
use vstd::prelude::*;
use crate::ast::OperationType;
use crate::model::{
    SpecArgument, SpecDefinition, SpecDirective, SpecDocument, SpecFragment, SpecOperation,
    SpecSelection, SpecType, SpecValue, SpecVariableDefinition,
};
use crate::text::{join, split_lines, is_space_or_tab};

verus! {

// --- layout helpers ---

/// The parts that are not empty, in order.
pub open spec fn nonempty_parts(parts: Seq<Seq<char>>) -> Seq<Seq<char>>
    decreases parts.len(),
{
    if parts.len() == 0 {
        Seq::empty()
    } else if parts.last().len() == 0 {
        nonempty_parts(parts.drop_last())
    } else {
        nonempty_parts(parts.drop_last()).push(parts.last())
    }
}

/// Join the non-empty parts with `sep`.
pub open spec fn join_filtered(parts: Seq<Seq<char>>, sep: Seq<char>) -> Seq<char> {
    join(nonempty_parts(parts), sep)
}

/// `start + body + end` when `body` is non-empty, else empty.
pub open spec fn wrap(start: Seq<char>, body: Seq<char>, end: Seq<char>) -> Seq<char> {
    if body.len() == 0 {
        Seq::empty()
    } else {
        start + body + end
    }
}

/// `s` with two spaces inserted after every line feed.
pub open spec fn indent_after_newlines(s: Seq<char>) -> Seq<char>
    decreases s.len(),
{
    if s.len() == 0 {
        Seq::empty()
    } else if s.last() == '\n' {
        indent_after_newlines(s.drop_last()) + seq!['\n', ' ', ' ']
    } else {
        indent_after_newlines(s.drop_last()).push(s.last())
    }
}

/// Every line of `s` indented by two spaces. An empty string stays empty.
pub open spec fn indent(s: Seq<char>) -> Seq<char> {
    if s.len() == 0 {
        Seq::empty()
    } else {
        seq![' ', ' '] + indent_after_newlines(s)
    }
}

/// A brace block with each entry on its own indented line; empty when no
/// entry is non-empty.
pub open spec fn block(parts: Seq<Seq<char>>) -> Seq<char> {
    wrap("{\n"@, indent(join_filtered(parts, "\n"@)), "\n}"@)
}

/// The number of UTF-16 code units of `s`.
pub open spec fn utf16_len(s: Seq<char>) -> nat
    decreases s.len(),
{
    if s.len() == 0 {
        0
    } else {
        utf16_len(s.drop_last()) + (if (s.last() as u32) >= 0x10000 {
            2nat
        } else {
            1nat
        })
    }
}

/// Lists wrap onto several lines past this width.
pub open spec fn max_line_length() -> nat {
    80
}

// --- types and values ---

pub open spec fn print_type(t: SpecType) -> Seq<char>
    decreases t,
{
    match t {
        SpecType::Named(n) => n,
        SpecType::List(inner) => "["@ + print_type(*inner) + "]"@,
        SpecType::NonNull(inner) => print_type(*inner) + "!"@,
    }
}

/// The uppercase hexadecimal digit for `d < 16`.
pub open spec fn hex_upper(d: nat) -> char {
    if d < 10 {
        ((48 + d) as u32) as char
    } else {
        ((55 + d) as u32) as char
    }
}

/// A character of a quoted string as the canonical printer writes it: named
/// escapes for backspace, form feed, newline, carriage return, tab, quote and
/// backslash; `\uXXXX` with uppercase hex for the other characters below
/// U+0020 and for U+007F through U+009F; any other character as itself.
pub open spec fn escape_char(c: char) -> Seq<char> {
    if c == '"' {
        seq!['\\', '"']
    } else if c == '\\' {
        seq!['\\', '\\']
    } else if c == '\u{8}' {
        seq!['\\', 'b']
    } else if c == '\u{c}' {
        seq!['\\', 'f']
    } else if c == '\n' {
        seq!['\\', 'n']
    } else if c == '\r' {
        seq!['\\', 'r']
    } else if c == '\t' {
        seq!['\\', 't']
    } else if (c as u32) < 0x20 || (0x7F <= (c as u32) && (c as u32) <= 0x9F) {
        let v = c as nat;
        seq!['\\', 'u', hex_upper(v / 4096), hex_upper((v / 256) % 16), hex_upper((v / 16) % 16), hex_upper(v % 16)]
    } else {
        seq![c]
    }
}

/// Every character of `s` escaped.
pub open spec fn escape_string(s: Seq<char>) -> Seq<char>
    decreases s.len(),
{
    if s.len() == 0 {
        Seq::empty()
    } else {
        escape_string(s.drop_last()) + escape_char(s.last())
    }
}

/// A quoted string literal.
pub open spec fn print_string(value: Seq<char>) -> Seq<char> {
    seq!['"'] + escape_string(value) + seq!['"']
}

/// `s` with every `"""`, read left to right, written as `\"""`.
pub open spec fn escape_triple_quotes(s: Seq<char>) -> Seq<char>
    decreases s.len(),
{
    if s.len() >= 3 && s[0] == '"' && s[1] == '"' && s[2] == '"' {
        seq!['\\', '"', '"', '"'] + escape_triple_quotes(s.skip(3))
    } else if s.len() == 0 {
        Seq::empty()
    } else {
        seq![s[0]] + escape_triple_quotes(s.drop_first())
    }
}

pub open spec fn starts_with_space_or_tab(line: Seq<char>) -> bool {
    line.len() > 0 && is_space_or_tab(line[0])
}

/// A block string with `"""` delimiters, as the canonical printer writes it.
pub open spec fn print_block_string(value: Seq<char>) -> Seq<char> {
    let escaped = escape_triple_quotes(value);
    let lines = split_lines(escaped);
    let is_single_line = lines.len() == 1;
    let force_leading_newline = lines.len() > 1 && forall|i: int|
        1 <= i < lines.len() ==> (#[trigger] lines[i]).len() == 0 || starts_with_space_or_tab(lines[i]);
    let has_trailing_triple_quotes = escaped.len() >= 4 && escaped.skip(escaped.len() - 4)
        == seq!['\\', '"', '"', '"'];
    let has_trailing_quote = value.len() > 0 && value.last() == '"' && !has_trailing_triple_quotes;
    let has_trailing_slash = value.len() > 0 && value.last() == '\\';
    let force_trailing_newline = has_trailing_quote || has_trailing_slash;
    let print_as_multiple_lines = !is_single_line || utf16_len(value) > 70 || force_trailing_newline
        || force_leading_newline || has_trailing_triple_quotes;
    let skip_leading_newline = is_single_line && starts_with_space_or_tab(value);
    let lead: Seq<char> = if (print_as_multiple_lines && !skip_leading_newline)
        || force_leading_newline {
        seq!['\n']
    } else {
        Seq::empty()
    };
    let trail: Seq<char> = if print_as_multiple_lines || force_trailing_newline {
        seq!['\n']
    } else {
        Seq::empty()
    };
    seq!['"', '"', '"'] + lead + escaped + trail + seq!['"', '"', '"']
}

pub open spec fn print_value(v: SpecValue) -> Seq<char>
    decreases v,
{
    match v {
        SpecValue::Variable(n) => "$"@ + n,
        SpecValue::Int(t) => t,
        SpecValue::Float(t) => t,
        SpecValue::Str { value, block } => if block {
            print_block_string(value)
        } else {
            print_string(value)
        },
        SpecValue::Boolean(b) => if b {
            "true"@
        } else {
            "false"@
        },
        SpecValue::Null => "null"@,
        SpecValue::Enum(n) => n,
        SpecValue::List(items) => {
            let values = print_values(items);
            let line = "["@ + join(values, ", "@) + "]"@;
            if utf16_len(line) > max_line_length() {
                "[\n"@ + indent(join(values, "\n"@)) + "\n]"@
            } else {
                line
            }
        },
        SpecValue::Object(fields) => {
            let entries = print_object_fields(fields);
            let line = "{ "@ + join(entries, ", "@) + " }"@;
            if utf16_len(line) > max_line_length() {
                block(entries)
            } else {
                line
            }
        },
    }
}

pub open spec fn print_values(vs: Seq<SpecValue>) -> Seq<Seq<char>>
    decreases vs,
{
    if vs.len() == 0 {
        Seq::empty()
    } else {
        seq![print_value(vs[0])] + print_values(vs.drop_first())
    }
}

pub open spec fn print_object_fields(fs: Seq<(Seq<char>, SpecValue)>) -> Seq<Seq<char>>
    decreases fs,
{
    if fs.len() == 0 {
        Seq::empty()
    } else {
        seq![fs[0].0 + ": "@ + print_value(fs[0].1)] + print_object_fields(fs.drop_first())
    }
}

// --- arguments, directives, variable definitions ---

pub open spec fn print_argument(a: SpecArgument) -> Seq<char> {
    a.name + ": "@ + print_value(a.value)
}

pub open spec fn print_arguments(args: Seq<SpecArgument>) -> Seq<Seq<char>> {
    args.map_values(|a: SpecArgument| print_argument(a))
}

/// A directive `@name(args)`; directive arguments never wrap.
pub open spec fn print_directive(d: SpecDirective) -> Seq<char> {
    "@"@ + d.name + wrap("("@, join(print_arguments(d.arguments), ", "@), ")"@)
}

/// A directive list joined by spaces.
pub open spec fn print_directives(ds: Seq<SpecDirective>) -> Seq<char> {
    join_filtered(ds.map_values(|d: SpecDirective| print_directive(d)), " "@)
}

pub open spec fn print_variable_definition(d: SpecVariableDefinition) -> Seq<char> {
    let head = "$"@ + d.variable + ": "@ + print_type(d.ty);
    let with_default = match d.default_value {
        Some(v) => head + " = "@ + print_value(v),
        None => head,
    };
    with_default + wrap(" "@, print_directives(d.directives), Seq::empty())
}

pub open spec fn print_variable_definition_parts(defs: Seq<SpecVariableDefinition>) -> Seq<
    Seq<char>,
> {
    defs.map_values(|d: SpecVariableDefinition| print_variable_definition(d))
}

/// Operation variable definitions: one per line when any of them spans
/// lines, else on one line separated by commas.
pub open spec fn print_operation_variable_definitions(defs: Seq<SpecVariableDefinition>) -> Seq<
    char,
> {
    if defs.len() == 0 {
        Seq::empty()
    } else {
        let parts = print_variable_definition_parts(defs);
        if exists|i: int| 0 <= i < parts.len() && (#[trigger] parts[i]).contains('\n') {
            "(\n"@ + join(parts, "\n"@) + "\n)"@
        } else {
            "("@ + join(parts, ", "@) + ")"@
        }
    }
}

// --- selections ---

/// A field or spread head with arguments, wrapped one per line when the
/// single-line form is longer than the maximum width.
pub open spec fn wrapped_line_and_args(prefix: Seq<char>, args: Seq<Seq<char>>) -> Seq<char> {
    let one_line = prefix + wrap("("@, join(args, ", "@), ")"@);
    if utf16_len(one_line) > max_line_length() {
        prefix + wrap("(\n"@, indent(join(args, "\n"@)), "\n)"@)
    } else {
        one_line
    }
}

pub open spec fn print_selection(sel: SpecSelection) -> Seq<char>
    decreases sel,
{
    match sel {
        SpecSelection::Field { alias, name, arguments, directives, selection_set } => {
            let prefix = match alias {
                Some(a) => a + ": "@ + name,
                None => name,
            };
            let head = wrapped_line_and_args(prefix, print_arguments(arguments));
            let set = match selection_set {
                Some(set) => block(print_selections(set)),
                None => Seq::empty(),
            };
            join_filtered(
                seq![head, wrap(" "@, print_directives(directives), Seq::empty()), wrap(" "@, set, Seq::empty())],
                Seq::empty(),
            )
        },
        SpecSelection::FragmentSpread { name, directives } => "..."@ + name + wrap(
            " "@,
            print_directives(directives),
            Seq::empty(),
        ),
        SpecSelection::InlineFragment { type_condition, directives, selection_set } => {
            let type_part = match type_condition {
                Some(tc) => "on "@ + tc,
                None => Seq::empty(),
            };
            join_filtered(
                seq![
                    "..."@,
                    type_part,
                    print_directives(directives),
                    block(print_selections(selection_set)),
                ],
                " "@,
            )
        },
    }
}

pub open spec fn print_selections(sels: Seq<SpecSelection>) -> Seq<Seq<char>>
    decreases sels,
{
    if sels.len() == 0 {
        Seq::empty()
    } else {
        seq![print_selection(sels[0])] + print_selections(sels.drop_first())
    }
}

/// A selection set as a brace block.
pub open spec fn print_selection_set(set: Seq<SpecSelection>) -> Seq<char> {
    block(print_selections(set))
}

// --- definitions ---

pub open spec fn operation_keyword(o: OperationType) -> Seq<char> {
    match o {
        OperationType::Query => "query"@,
        OperationType::Mutation => "mutation"@,
        OperationType::Subscription => "subscription"@,
    }
}

/// An operation. An anonymous query with no variables and no directives
/// prints as its selection set alone.
pub open spec fn print_operation(op: SpecOperation) -> Seq<char> {
    let var_defs = print_operation_variable_definitions(op.variable_definitions);
    let directives = print_directives(op.directives);
    let selection_set = print_selection_set(op.selection_set);
    let name = match op.name {
        Some(n) => n,
        None => Seq::empty(),
    };
    let name_with_vars = join_filtered(seq![name, var_defs], Seq::empty());
    let prefix = join_filtered(
        seq![operation_keyword(op.operation), name_with_vars, directives],
        " "@,
    );
    if prefix == "query"@ {
        selection_set
    } else {
        prefix + " "@ + selection_set
    }
}

pub open spec fn print_fragment_definition(f: SpecFragment) -> Seq<char> {
    let var_defs = wrap(
        "("@,
        join_filtered(print_variable_definition_parts(f.variable_definitions), ", "@),
        ")"@,
    );
    "fragment "@ + f.name + var_defs + " on "@ + f.type_condition + " "@ + wrap(
        Seq::empty(),
        print_directives(f.directives),
        " "@,
    ) + print_selection_set(f.selection_set)
}

pub open spec fn print_definition(d: SpecDefinition) -> Seq<char> {
    match d {
        SpecDefinition::Operation(op) => print_operation(op),
        SpecDefinition::Fragment(f) => print_fragment_definition(f),
    }
}

/// A whole document: definitions separated by a blank line.
pub open spec fn print_document(doc: SpecDocument) -> Seq<char> {
    join(doc.definitions.map_values(|d: SpecDefinition| print_definition(d)), "\n\n"@)
}

/// The recursive list printers agree elementwise with the element printers.
pub proof fn lemma_print_values(vs: Seq<SpecValue>)
    ensures
        print_values(vs).len() == vs.len(),
        forall|i: int| 0 <= i < vs.len() ==> #[trigger] print_values(vs)[i] == print_value(vs[i]),
    decreases vs.len(),
{
    if vs.len() > 0 {
        lemma_print_values(vs.drop_first());
        assert forall|i: int| 0 <= i < vs.len() implies #[trigger] print_values(vs)[i]
            == print_value(vs[i]) by {
            if i > 0 {
                assert(vs.drop_first()[i - 1] == vs[i]);
            }
        }
    }
}

pub proof fn lemma_print_object_fields(fs: Seq<(Seq<char>, SpecValue)>)
    ensures
        print_object_fields(fs).len() == fs.len(),
        forall|i: int| 0 <= i < fs.len() ==> #[trigger] print_object_fields(fs)[i] == fs[i].0
            + ": "@ + print_value(fs[i].1),
    decreases fs.len(),
{
    if fs.len() > 0 {
        lemma_print_object_fields(fs.drop_first());
        assert forall|i: int| 0 <= i < fs.len() implies #[trigger] print_object_fields(fs)[i]
            == fs[i].0 + ": "@ + print_value(fs[i].1) by {
            if i > 0 {
                assert(fs.drop_first()[i - 1] == fs[i]);
            }
        }
    }
}

pub proof fn lemma_print_selections(sels: Seq<SpecSelection>)
    ensures
        print_selections(sels).len() == sels.len(),
        forall|i: int| 0 <= i < sels.len() ==> #[trigger] print_selections(sels)[i]
            == print_selection(sels[i]),
    decreases sels.len(),
{
    if sels.len() > 0 {
        lemma_print_selections(sels.drop_first());
        assert forall|i: int| 0 <= i < sels.len() implies #[trigger] print_selections(sels)[i]
            == print_selection(sels[i]) by {
            if i > 0 {
                assert(sels.drop_first()[i - 1] == sels[i]);
            }
        }
    }
}

} // verus!
