//! GraphQL executable document AST.
//!
//! The node types cover the executable subset of the GraphQL grammar:
//! operations, fragments, selection sets, arguments, directives, variable
//! definitions, type references, and values.
use vstd::prelude::*;
use crate::model::{
    arguments_view, directives_view, lemma_object_fields_view, lemma_selections_view,
    lemma_values_view, object_fields_view, opt_text_view, selections_view, values_view,
    variable_definitions_view, definitions_view,
};

verus! {

/// A parsed GraphQL document. Holds the top-level definitions in source order.
#[derive(Debug, PartialEq)]
pub struct Document {
    /// Top-level definitions: operations and fragment definitions.
    pub definitions: Vec<Definition>,
}

/// A top-level definition in a document.
#[derive(Debug, PartialEq)]
#[non_exhaustive]
pub enum Definition {
    /// An operation: query, mutation, or subscription.
    Operation(OperationDefinition),
    /// A fragment definition.
    Fragment(FragmentDefinition),
}

/// The three operation types.
#[derive(Debug, Clone, Copy, PartialEq, Eq, Structural)]
pub enum OperationType {
    /// A read operation.
    Query,
    /// A write operation. Its top-level selections keep source order.
    Mutation,
    /// A long-lived event stream.
    Subscription,
}

impl OperationType {
    /// The keyword used when printing this operation type.
    pub fn keyword(self) -> (k: &'static str)
        ensures
            k@ == crate::print_spec::operation_keyword(self),
    {
        match self {
            OperationType::Query => "query",
            OperationType::Mutation => "mutation",
            OperationType::Subscription => "subscription",
        }
    }
}

/// An operation definition.
#[derive(Debug, PartialEq)]
pub struct OperationDefinition {
    /// query, mutation, or subscription.
    pub operation: OperationType,
    /// The operation name, if any. Anonymous operations have `None`.
    pub name: Option<String>,
    /// Variable definitions declared on the operation.
    pub variable_definitions: Vec<VariableDefinition>,
    /// Directives applied to the operation.
    pub directives: Vec<Directive>,
    /// The root selection set.
    pub selection_set: SelectionSet,
}

/// A fragment definition.
#[derive(Debug, PartialEq)]
pub struct FragmentDefinition {
    /// The fragment name.
    pub name: String,
    /// Variable definitions declared on the fragment.
    pub variable_definitions: Vec<VariableDefinition>,
    /// The type the fragment applies to.
    pub type_condition: String,
    /// Directives applied to the fragment.
    pub directives: Vec<Directive>,
    /// The fragment body.
    pub selection_set: SelectionSet,
}

/// A variable definition: `$name: Type = default @directives`.
#[derive(Debug, PartialEq)]
pub struct VariableDefinition {
    /// The variable name without the leading `$`.
    pub variable: String,
    /// The declared type.
    pub ty: Type,
    /// The default value, if any.
    pub default_value: Option<Value>,
    /// Directives applied to the variable definition.
    pub directives: Vec<Directive>,
}

/// A type reference: named, list, or non-null.
#[derive(Debug, PartialEq)]
#[non_exhaustive]
pub enum Type {
    /// A named type like `Int`.
    Named(String),
    /// A list type like `[Int]`.
    List(Box<Type>),
    /// A non-null type like `Int!`.
    NonNull(Box<Type>),
}

/// A set of selections enclosed in braces.
#[derive(Debug, PartialEq)]
pub struct SelectionSet {
    /// The selections in this set.
    pub selections: Vec<Selection>,
}

/// One member of a selection set.
#[derive(Debug, PartialEq)]
#[non_exhaustive]
pub enum Selection {
    /// A field selection.
    Field(Field),
    /// A fragment spread `...Name`.
    FragmentSpread(FragmentSpread),
    /// An inline fragment `... on Type { ... }`.
    InlineFragment(InlineFragment),
}

/// A field selection: `alias: name(args) @directives { ... }`.
#[derive(Debug, PartialEq)]
pub struct Field {
    /// The field alias, if any.
    pub alias: Option<String>,
    /// The field name.
    pub name: String,
    /// Field arguments. These are never sorted.
    pub arguments: Vec<Argument>,
    /// Directives applied to the field.
    pub directives: Vec<Directive>,
    /// The nested selection set, if any.
    pub selection_set: Option<SelectionSet>,
}

/// A fragment spread: `...Name @directives`.
#[derive(Debug, PartialEq)]
pub struct FragmentSpread {
    /// The referenced fragment name.
    pub name: String,
    /// Directives applied to the spread.
    pub directives: Vec<Directive>,
}

/// An inline fragment: `... on Type @directives { ... }`.
#[derive(Debug, PartialEq)]
pub struct InlineFragment {
    /// The type condition, if `on Type` is present.
    pub type_condition: Option<String>,
    /// Directives applied to the inline fragment.
    pub directives: Vec<Directive>,
    /// The fragment body.
    pub selection_set: SelectionSet,
}

/// An argument: `name: value`.
#[derive(Debug, PartialEq)]
pub struct Argument {
    /// The argument name.
    pub name: String,
    /// The argument value.
    pub value: Value,
}

/// A directive: `@name(args)`.
#[derive(Debug, PartialEq)]
pub struct Directive {
    /// The directive name without the leading `@`.
    pub name: String,
    /// Directive arguments. These are sorted by name.
    pub arguments: Vec<Argument>,
}

/// A GraphQL value.
#[derive(Debug, PartialEq)]
#[non_exhaustive]
pub enum Value {
    /// A variable reference `$name`.
    Variable(String),
    /// An integer literal, kept as written.
    Int(String),
    /// A float literal, kept as written.
    Float(String),
    /// A string literal. The flag marks a block string.
    String {
        /// The decoded string content.
        value: String,
        /// True if this was written as a `"""..."""` block string.
        block: bool,
    },
    /// A boolean literal.
    Boolean(bool),
    /// The null literal.
    Null,
    /// An enum value.
    Enum(String),
    /// A list value `[ ... ]`.
    List(Vec<Value>),
    /// An object value `{ name: value, ... }`.
    Object(Vec<ObjectField>),
}

/// One entry in an object value.
#[derive(Debug, PartialEq)]
pub struct ObjectField {
    /// The field name.
    pub name: String,
    /// The field value.
    pub value: Value,
}

// --- copies that keep the view ---

/// A copy of an optional string.
pub fn clone_opt_string(s: &Option<String>) -> (r: Option<String>)
    ensures
        opt_text_view(r) == opt_text_view(*s),
{
    match s {
        Some(t) => Some(t.clone()),
        None => None,
    }
}

/// A copy of a type reference.
pub fn clone_type(t: &Type) -> (r: Type)
    ensures
        r@ == t@,
    decreases t,
{
    match t {
        Type::Named(n) => Type::Named(n.clone()),
        Type::List(inner) => {
            let c = clone_type(inner);
            let r = Type::List(Box::new(c));
            assert(r@ == crate::model::SpecType::List(Box::new(c@)));
            r
        },
        Type::NonNull(inner) => {
            let c = clone_type(inner);
            let r = Type::NonNull(Box::new(c));
            assert(r@ == crate::model::SpecType::NonNull(Box::new(c@)));
            r
        },
    }
}

/// A copy of a value.
pub fn clone_value(v: &Value) -> (r: Value)
    ensures
        r@ == v@,
    decreases v,
{
    match v {
        Value::Variable(s) => Value::Variable(s.clone()),
        Value::Int(s) => Value::Int(s.clone()),
        Value::Float(s) => Value::Float(s.clone()),
        Value::String { value, block } => Value::String { value: value.clone(), block: *block },
        Value::Boolean(b) => Value::Boolean(*b),
        Value::Null => Value::Null,
        Value::Enum(s) => Value::Enum(s.clone()),
        Value::List(items) => Value::List(clone_values(items)),
        Value::Object(fields) => Value::Object(clone_object_fields(fields)),
    }
}

fn clone_values(items: &Vec<Value>) -> (r: Vec<Value>)
    ensures
        values_view(r@) == values_view(items@),
    decreases items,
{
    let mut out: Vec<Value> = Vec::new();
    let mut i: usize = 0;
    while i < items.len()
        invariant
            i <= items.len(),
            out@.len() == i,
            forall|j: int| 0 <= j < i ==> #[trigger] out@[j]@ == items@[j]@,
        decreases items.len() - i,
    {
        out.push(clone_value(&items[i]));
        i += 1;
    }
    proof {
        lemma_values_view(out@);
        lemma_values_view(items@);
    }
    assert(values_view(out@) =~= values_view(items@));
    out
}

fn clone_object_fields(fields: &Vec<ObjectField>) -> (r: Vec<ObjectField>)
    ensures
        object_fields_view(r@) == object_fields_view(fields@),
    decreases fields,
{
    let mut out: Vec<ObjectField> = Vec::new();
    let mut i: usize = 0;
    while i < fields.len()
        invariant
            i <= fields.len(),
            out@.len() == i,
            forall|j: int| 0 <= j < i ==> #[trigger] out@[j]@ == fields@[j]@,
        decreases fields.len() - i,
    {
        out.push(ObjectField { name: fields[i].name.clone(), value: clone_value(&fields[i].value) });
        i += 1;
    }
    proof {
        lemma_object_fields_view(out@);
        lemma_object_fields_view(fields@);
    }
    assert(object_fields_view(out@) =~= object_fields_view(fields@));
    out
}

/// A copy of an argument.
pub fn clone_argument(a: &Argument) -> (r: Argument)
    ensures
        r@ == a@,
{
    Argument { name: a.name.clone(), value: clone_value(&a.value) }
}

/// A copy of an argument list.
pub fn clone_arguments(args: &Vec<Argument>) -> (r: Vec<Argument>)
    ensures
        arguments_view(r@) == arguments_view(args@),
{
    let mut out: Vec<Argument> = Vec::new();
    let mut i: usize = 0;
    while i < args.len()
        invariant
            i <= args.len(),
            out@.len() == i,
            forall|j: int| 0 <= j < i ==> #[trigger] out@[j]@ == args@[j]@,
        decreases args.len() - i,
    {
        out.push(clone_argument(&args[i]));
        i += 1;
    }
    assert(arguments_view(out@) =~= arguments_view(args@));
    out
}

/// A copy of an optional value.
pub fn clone_opt_value(v: &Option<Value>) -> (r: Option<Value>)
    ensures
        match (r, *v) {
            (Some(a), Some(b)) => a@ == b@,
            (None, None) => true,
            _ => false,
        },
{
    match v {
        Some(x) => Some(clone_value(x)),
        None => None,
    }
}

impl Clone for Value {
    fn clone(&self) -> (r: Self)
        ensures
            r@ == self@,
    {
        clone_value(self)
    }
}

impl Clone for Type {
    fn clone(&self) -> (r: Self)
        ensures
            r@ == self@,
    {
        clone_type(self)
    }
}

/// A copy of a directive.
pub fn clone_directive(d: &Directive) -> (r: Directive)
    ensures
        r@ == d@,
{
    Directive { name: d.name.clone(), arguments: clone_arguments(&d.arguments) }
}

/// A copy of a directive list.
pub fn clone_directives(ds: &Vec<Directive>) -> (r: Vec<Directive>)
    ensures
        directives_view(r@) == directives_view(ds@),
{
    let mut out: Vec<Directive> = Vec::new();
    let mut i: usize = 0;
    while i < ds.len()
        invariant
            i <= ds.len(),
            out@.len() == i,
            forall|j: int| 0 <= j < i ==> #[trigger] out@[j]@ == ds@[j]@,
        decreases ds.len() - i,
    {
        out.push(clone_directive(&ds[i]));
        i += 1;
    }
    assert(directives_view(out@) =~= directives_view(ds@));
    out
}

/// A copy of a variable definition.
pub fn clone_variable_definition(d: &VariableDefinition) -> (r: VariableDefinition)
    ensures
        r@ == d@,
{
    VariableDefinition {
        variable: d.variable.clone(),
        ty: clone_type(&d.ty),
        default_value: clone_opt_value(&d.default_value),
        directives: clone_directives(&d.directives),
    }
}

/// A copy of a list of variable definitions.
pub fn clone_variable_definitions(ds: &Vec<VariableDefinition>) -> (r: Vec<VariableDefinition>)
    ensures
        variable_definitions_view(r@) == variable_definitions_view(ds@),
{
    let mut out: Vec<VariableDefinition> = Vec::new();
    let mut i: usize = 0;
    while i < ds.len()
        invariant
            i <= ds.len(),
            out@.len() == i,
            forall|j: int| 0 <= j < i ==> #[trigger] out@[j]@ == ds@[j]@,
        decreases ds.len() - i,
    {
        out.push(clone_variable_definition(&ds[i]));
        i += 1;
    }
    assert(variable_definitions_view(out@) =~= variable_definitions_view(ds@));
    out
}

/// A copy of a selection.
pub fn clone_selection(s: &Selection) -> (r: Selection)
    ensures
        r@ == s@,
    decreases s,
{
    match s {
        Selection::Field(f) => Selection::Field(
            Field {
                alias: clone_opt_string(&f.alias),
                name: f.name.clone(),
                arguments: clone_arguments(&f.arguments),
                directives: clone_directives(&f.directives),
                selection_set: match &f.selection_set {
                    Some(set) => Some(SelectionSet { selections: clone_selections(&set.selections) }),
                    None => None,
                },
            },
        ),
        Selection::FragmentSpread(sp) => Selection::FragmentSpread(
            FragmentSpread { name: sp.name.clone(), directives: clone_directives(&sp.directives) },
        ),
        Selection::InlineFragment(inl) => Selection::InlineFragment(
            InlineFragment {
                type_condition: clone_opt_string(&inl.type_condition),
                directives: clone_directives(&inl.directives),
                selection_set: SelectionSet {
                    selections: clone_selections(&inl.selection_set.selections),
                },
            },
        ),
    }
}

/// A copy of a selection list.
pub fn clone_selections(sels: &Vec<Selection>) -> (r: Vec<Selection>)
    ensures
        selections_view(r@) == selections_view(sels@),
    decreases sels,
{
    let mut out: Vec<Selection> = Vec::new();
    let mut i: usize = 0;
    while i < sels.len()
        invariant
            i <= sels.len(),
            out@.len() == i,
            forall|j: int| 0 <= j < i ==> #[trigger] out@[j]@ == sels@[j]@,
        decreases sels.len() - i,
    {
        out.push(clone_selection(&sels[i]));
        i += 1;
    }
    proof {
        lemma_selections_view(out@);
        lemma_selections_view(sels@);
    }
    assert(selections_view(out@) =~= selections_view(sels@));
    out
}

/// A copy of a definition.
pub fn clone_definition(d: &Definition) -> (r: Definition)
    ensures
        r@ == d@,
{
    match d {
        Definition::Operation(op) => Definition::Operation(
            OperationDefinition {
                operation: op.operation,
                name: clone_opt_string(&op.name),
                variable_definitions: clone_variable_definitions(&op.variable_definitions),
                directives: clone_directives(&op.directives),
                selection_set: SelectionSet {
                    selections: clone_selections(&op.selection_set.selections),
                },
            },
        ),
        Definition::Fragment(f) => Definition::Fragment(
            FragmentDefinition {
                name: f.name.clone(),
                variable_definitions: clone_variable_definitions(&f.variable_definitions),
                type_condition: f.type_condition.clone(),
                directives: clone_directives(&f.directives),
                selection_set: SelectionSet {
                    selections: clone_selections(&f.selection_set.selections),
                },
            },
        ),
    }
}

/// A copy of a document.
pub fn clone_document(doc: &Document) -> (r: Document)
    ensures
        r@ == doc@,
{
    let mut out: Vec<Definition> = Vec::new();
    let mut i: usize = 0;
    while i < doc.definitions.len()
        invariant
            i <= doc.definitions.len(),
            out@.len() == i,
            forall|j: int| 0 <= j < i ==> #[trigger] out@[j]@ == doc.definitions@[j]@,
        decreases doc.definitions.len() - i,
    {
        out.push(clone_definition(&doc.definitions[i]));
        i += 1;
    }
    assert(definitions_view(out@) =~= definitions_view(doc.definitions@));
    Document { definitions: out }
}

impl Clone for Document {
    fn clone(&self) -> (r: Self)
        ensures
            r@ == self@,
    {
        clone_document(self)
    }
}

impl Clone for Definition {
    fn clone(&self) -> (r: Self)
        ensures
            r@ == self@,
    {
        clone_definition(self)
    }
}

impl Clone for OperationDefinition {
    fn clone(&self) -> (r: Self)
        ensures
            r@ == self@,
    {
        OperationDefinition {
            operation: self.operation,
            name: clone_opt_string(&self.name),
            variable_definitions: clone_variable_definitions(&self.variable_definitions),
            directives: clone_directives(&self.directives),
            selection_set: SelectionSet {
                selections: clone_selections(&self.selection_set.selections),
            },
        }
    }
}

impl Clone for FragmentDefinition {
    fn clone(&self) -> (r: Self)
        ensures
            r@ == self@,
    {
        FragmentDefinition {
            name: self.name.clone(),
            variable_definitions: clone_variable_definitions(&self.variable_definitions),
            type_condition: self.type_condition.clone(),
            directives: clone_directives(&self.directives),
            selection_set: SelectionSet {
                selections: clone_selections(&self.selection_set.selections),
            },
        }
    }
}

impl Clone for VariableDefinition {
    fn clone(&self) -> (r: Self)
        ensures
            r@ == self@,
    {
        clone_variable_definition(self)
    }
}

impl Clone for SelectionSet {
    fn clone(&self) -> (r: Self)
        ensures
            r@ == self@,
    {
        SelectionSet { selections: clone_selections(&self.selections) }
    }
}

impl Clone for Selection {
    fn clone(&self) -> (r: Self)
        ensures
            r@ == self@,
    {
        clone_selection(self)
    }
}

impl Clone for Field {
    fn clone(&self) -> (r: Self)
        ensures
            r@ == self@,
    {
        Field {
            alias: clone_opt_string(&self.alias),
            name: self.name.clone(),
            arguments: clone_arguments(&self.arguments),
            directives: clone_directives(&self.directives),
            selection_set: match &self.selection_set {
                Some(set) => Some(SelectionSet { selections: clone_selections(&set.selections) }),
                None => None,
            },
        }
    }
}

impl Clone for FragmentSpread {
    fn clone(&self) -> (r: Self)
        ensures
            r@ == self@,
    {
        FragmentSpread { name: self.name.clone(), directives: clone_directives(&self.directives) }
    }
}

impl Clone for InlineFragment {
    fn clone(&self) -> (r: Self)
        ensures
            r@ == self@,
    {
        InlineFragment {
            type_condition: clone_opt_string(&self.type_condition),
            directives: clone_directives(&self.directives),
            selection_set: SelectionSet {
                selections: clone_selections(&self.selection_set.selections),
            },
        }
    }
}

impl Clone for Argument {
    fn clone(&self) -> (r: Self)
        ensures
            r@ == self@,
    {
        clone_argument(self)
    }
}

impl Clone for Directive {
    fn clone(&self) -> (r: Self)
        ensures
            r@ == self@,
    {
        clone_directive(self)
    }
}

impl Clone for ObjectField {
    fn clone(&self) -> (r: Self)
        ensures
            r@ == self@,
    {
        ObjectField { name: self.name.clone(), value: clone_value(&self.value) }
    }
}

impl Default for Document {
    fn default() -> (r: Self)
        ensures
            r@.definitions.len() == 0,
    {
        Document { definitions: Vec::new() }
    }
}

impl Default for SelectionSet {
    fn default() -> (r: Self)
        ensures
            r@.len() == 0,
    {
        SelectionSet { selections: Vec::new() }
    }
}

} // verus!
