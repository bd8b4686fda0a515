//! Mathematical model of the AST.
//!
//! Each node type has a view in which text is a `Seq<char>` and lists are
//! `Seq`s of the children's views. Contracts speak of these views.
use vstd::prelude::*;
use crate::ast::{
    Argument, Definition, Directive, Document, Field, FragmentDefinition, FragmentSpread,
    InlineFragment, ObjectField, OperationDefinition, OperationType, Selection, SelectionSet, Type,
    Value, VariableDefinition,
};

verus! {

/// The view of a [`Value`].
pub enum SpecValue {
    Variable(Seq<char>),
    Int(Seq<char>),
    Float(Seq<char>),
    Str { value: Seq<char>, block: bool },
    Boolean(bool),
    Null,
    Enum(Seq<char>),
    List(Seq<SpecValue>),
    /// Object entries as (name, value) pairs in source order.
    Object(Seq<(Seq<char>, SpecValue)>),
}

/// The view of an [`Argument`]: its name and value.
pub struct SpecArgument {
    pub name: Seq<char>,
    pub value: SpecValue,
}

/// The view of a [`Directive`].
pub struct SpecDirective {
    pub name: Seq<char>,
    pub arguments: Seq<SpecArgument>,
}

/// The view of a [`Type`].
pub enum SpecType {
    Named(Seq<char>),
    List(Box<SpecType>),
    NonNull(Box<SpecType>),
}

/// The view of a [`VariableDefinition`].
pub struct SpecVariableDefinition {
    pub variable: Seq<char>,
    pub ty: SpecType,
    pub default_value: Option<SpecValue>,
    pub directives: Seq<SpecDirective>,
}

/// The view of a [`Selection`].
pub enum SpecSelection {
    Field {
        alias: Option<Seq<char>>,
        name: Seq<char>,
        arguments: Seq<SpecArgument>,
        directives: Seq<SpecDirective>,
        selection_set: Option<Seq<SpecSelection>>,
    },
    FragmentSpread { name: Seq<char>, directives: Seq<SpecDirective> },
    InlineFragment {
        type_condition: Option<Seq<char>>,
        directives: Seq<SpecDirective>,
        selection_set: Seq<SpecSelection>,
    },
}

/// The view of an [`OperationDefinition`].
pub struct SpecOperation {
    pub operation: OperationType,
    pub name: Option<Seq<char>>,
    pub variable_definitions: Seq<SpecVariableDefinition>,
    pub directives: Seq<SpecDirective>,
    pub selection_set: Seq<SpecSelection>,
}

/// The view of a [`FragmentDefinition`].
pub struct SpecFragment {
    pub name: Seq<char>,
    pub variable_definitions: Seq<SpecVariableDefinition>,
    pub type_condition: Seq<char>,
    pub directives: Seq<SpecDirective>,
    pub selection_set: Seq<SpecSelection>,
}

/// The view of a [`Definition`].
pub enum SpecDefinition {
    Operation(SpecOperation),
    Fragment(SpecFragment),
}

/// The view of a [`Document`]: its definitions in order.
pub struct SpecDocument {
    pub definitions: Seq<SpecDefinition>,
}

pub open spec fn opt_text_view(o: Option<String>) -> Option<Seq<char>> {
    match o {
        Some(s) => Some(s@),
        None => None,
    }
}

pub open spec fn value_view(v: Value) -> SpecValue
    decreases v,
{
    match v {
        Value::Variable(s) => SpecValue::Variable(s@),
        Value::Int(s) => SpecValue::Int(s@),
        Value::Float(s) => SpecValue::Float(s@),
        Value::String { value, block } => SpecValue::Str { value: value@, block },
        Value::Boolean(b) => SpecValue::Boolean(b),
        Value::Null => SpecValue::Null,
        Value::Enum(s) => SpecValue::Enum(s@),
        Value::List(items) => SpecValue::List(values_view(items@)),
        Value::Object(fields) => SpecValue::Object(object_fields_view(fields@)),
    }
}

pub open spec fn values_view(s: Seq<Value>) -> Seq<SpecValue>
    decreases s,
{
    if s.len() == 0 {
        Seq::empty()
    } else {
        seq![value_view(s[0])] + values_view(s.drop_first())
    }
}

pub open spec fn object_fields_view(s: Seq<ObjectField>) -> Seq<(Seq<char>, SpecValue)>
    decreases s,
{
    if s.len() == 0 {
        Seq::empty()
    } else {
        seq![(s[0].name@, value_view(s[0].value))] + object_fields_view(s.drop_first())
    }
}

pub open spec fn arguments_view(s: Seq<Argument>) -> Seq<SpecArgument> {
    s.map_values(|x: Argument| x@)
}

pub open spec fn directives_view(s: Seq<Directive>) -> Seq<SpecDirective> {
    s.map_values(|x: Directive| x@)
}

pub open spec fn type_view(t: Type) -> SpecType
    decreases t,
{
    match t {
        Type::Named(n) => SpecType::Named(n@),
        Type::List(inner) => SpecType::List(Box::new(type_view(*inner))),
        Type::NonNull(inner) => SpecType::NonNull(Box::new(type_view(*inner))),
    }
}

pub open spec fn variable_definitions_view(s: Seq<VariableDefinition>) -> Seq<
    SpecVariableDefinition,
> {
    s.map_values(|x: VariableDefinition| x@)
}

pub open spec fn selection_view(s: Selection) -> SpecSelection
    decreases s,
{
    match s {
        Selection::Field(f) => SpecSelection::Field {
            alias: opt_text_view(f.alias),
            name: f.name@,
            arguments: arguments_view(f.arguments@),
            directives: directives_view(f.directives@),
            selection_set: match f.selection_set {
                Some(set) => Some(selections_view(set.selections@)),
                None => None,
            },
        },
        Selection::FragmentSpread(sp) => SpecSelection::FragmentSpread {
            name: sp.name@,
            directives: directives_view(sp.directives@),
        },
        Selection::InlineFragment(inl) => SpecSelection::InlineFragment {
            type_condition: opt_text_view(inl.type_condition),
            directives: directives_view(inl.directives@),
            selection_set: selections_view(inl.selection_set.selections@),
        },
    }
}

pub open spec fn selections_view(s: Seq<Selection>) -> Seq<SpecSelection>
    decreases s,
{
    if s.len() == 0 {
        Seq::empty()
    } else {
        seq![selection_view(s[0])] + selections_view(s.drop_first())
    }
}

pub open spec fn definitions_view(s: Seq<Definition>) -> Seq<SpecDefinition> {
    s.map_values(|x: Definition| x@)
}

impl View for Value {
    type V = SpecValue;

    open spec fn view(&self) -> SpecValue {
        value_view(*self)
    }
}

impl View for ObjectField {
    type V = (Seq<char>, SpecValue);

    open spec fn view(&self) -> (Seq<char>, SpecValue) {
        (self.name@, self.value@)
    }
}

impl View for Argument {
    type V = SpecArgument;

    open spec fn view(&self) -> SpecArgument {
        SpecArgument { name: self.name@, value: self.value@ }
    }
}

impl View for Directive {
    type V = SpecDirective;

    open spec fn view(&self) -> SpecDirective {
        SpecDirective { name: self.name@, arguments: arguments_view(self.arguments@) }
    }
}

impl View for Type {
    type V = SpecType;

    open spec fn view(&self) -> SpecType {
        type_view(*self)
    }
}

impl View for VariableDefinition {
    type V = SpecVariableDefinition;

    open spec fn view(&self) -> SpecVariableDefinition {
        SpecVariableDefinition {
            variable: self.variable@,
            ty: self.ty@,
            default_value: match self.default_value {
                Some(v) => Some(v@),
                None => None,
            },
            directives: directives_view(self.directives@),
        }
    }
}

impl View for Selection {
    type V = SpecSelection;

    open spec fn view(&self) -> SpecSelection {
        selection_view(*self)
    }
}

impl View for SelectionSet {
    type V = Seq<SpecSelection>;

    open spec fn view(&self) -> Seq<SpecSelection> {
        selections_view(self.selections@)
    }
}

impl View for Field {
    type V = SpecSelection;

    open spec fn view(&self) -> SpecSelection {
        selection_view(Selection::Field(*self))
    }
}

impl View for FragmentSpread {
    type V = SpecSelection;

    open spec fn view(&self) -> SpecSelection {
        selection_view(Selection::FragmentSpread(*self))
    }
}

impl View for InlineFragment {
    type V = SpecSelection;

    open spec fn view(&self) -> SpecSelection {
        selection_view(Selection::InlineFragment(*self))
    }
}

impl View for OperationDefinition {
    type V = SpecOperation;

    open spec fn view(&self) -> SpecOperation {
        SpecOperation {
            operation: self.operation,
            name: opt_text_view(self.name),
            variable_definitions: variable_definitions_view(self.variable_definitions@),
            directives: directives_view(self.directives@),
            selection_set: self.selection_set@,
        }
    }
}

impl View for FragmentDefinition {
    type V = SpecFragment;

    open spec fn view(&self) -> SpecFragment {
        SpecFragment {
            name: self.name@,
            variable_definitions: variable_definitions_view(self.variable_definitions@),
            type_condition: self.type_condition@,
            directives: directives_view(self.directives@),
            selection_set: self.selection_set@,
        }
    }
}

impl View for Definition {
    type V = SpecDefinition;

    open spec fn view(&self) -> SpecDefinition {
        match self {
            Definition::Operation(op) => SpecDefinition::Operation(op@),
            Definition::Fragment(f) => SpecDefinition::Fragment(f@),
        }
    }
}

impl View for Document {
    type V = SpecDocument;

    open spec fn view(&self) -> SpecDocument {
        SpecDocument { definitions: definitions_view(self.definitions@) }
    }
}

/// The recursive sequence views agree elementwise with the views of the
/// elements.
pub proof fn lemma_values_view(s: Seq<Value>)
    ensures
        values_view(s).len() == s.len(),
        forall|i: int| 0 <= i < s.len() ==> #[trigger] values_view(s)[i] == s[i]@,
    decreases s.len(),
{
    if s.len() > 0 {
        lemma_values_view(s.drop_first());
        assert forall|i: int| 0 <= i < s.len() implies #[trigger] values_view(s)[i] == s[i]@ by {
            if i > 0 {
                assert(s.drop_first()[i - 1] == s[i]);
            }
        }
    }
}

pub proof fn lemma_object_fields_view(s: Seq<ObjectField>)
    ensures
        object_fields_view(s).len() == s.len(),
        forall|i: int| 0 <= i < s.len() ==> #[trigger] object_fields_view(s)[i] == s[i]@,
    decreases s.len(),
{
    if s.len() > 0 {
        lemma_object_fields_view(s.drop_first());
        assert forall|i: int| 0 <= i < s.len() implies #[trigger] object_fields_view(s)[i]
            == s[i]@ by {
            if i > 0 {
                assert(s.drop_first()[i - 1] == s[i]);
            }
        }
    }
}

pub proof fn lemma_selections_view(s: Seq<Selection>)
    ensures
        selections_view(s).len() == s.len(),
        forall|i: int| 0 <= i < s.len() ==> #[trigger] selections_view(s)[i] == s[i]@,
    decreases s.len(),
{
    if s.len() > 0 {
        lemma_selections_view(s.drop_first());
        assert forall|i: int| 0 <= i < s.len() implies #[trigger] selections_view(s)[i]
            == s[i]@ by {
            if i > 0 {
                assert(s.drop_first()[i - 1] == s[i]);
            }
        }
    }
}

/// Appending one element appends its view.
pub proof fn lemma_values_view_push(s: Seq<Value>, x: Value)
    ensures
        values_view(s.push(x)) == values_view(s).push(x@),
{
    lemma_values_view(s);
    lemma_values_view(s.push(x));
    assert(values_view(s.push(x)) =~= values_view(s).push(x@));
}

pub proof fn lemma_object_fields_view_push(s: Seq<ObjectField>, x: ObjectField)
    ensures
        object_fields_view(s.push(x)) == object_fields_view(s).push(x@),
{
    lemma_object_fields_view(s);
    lemma_object_fields_view(s.push(x));
    assert(object_fields_view(s.push(x)) =~= object_fields_view(s).push(x@));
}

pub proof fn lemma_selections_view_push(s: Seq<Selection>, x: Selection)
    ensures
        selections_view(s.push(x)) == selections_view(s).push(x@),
{
    lemma_selections_view(s);
    lemma_selections_view(s.push(x));
    assert(selections_view(s.push(x)) =~= selections_view(s).push(x@));
}

} // verus!
