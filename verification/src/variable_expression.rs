//! Variable expressions.
//!
//! A variable expression is a string enclosed in backticks, such as
//! `` `"./${ASSET}.usd"` `` or `` `if(${HIGH}, "high", "low")` ``, that is
//! evaluated against a set of [`ExpressionVariables`]. Asset paths of
//! sublayers, references and payloads, and variant selections, may be
//! expressions; composition evaluates them with the `expressionVariables`
//! of the layer stack that authors them.
//!
//! The language has:
//!
//! - literals: strings in double or single quotes, 64-bit integers, `True`
//!   and `False` (or `true`, `false`), and `None` (or `none`);
//! - variables: `${NAME}` on its own, and substituted into a quoted string
//!   (`"${NAME}_suffix"`), where a variable whose value is a string
//!   expression is evaluated in turn;
//! - lists of scalars of one type: `["a", "b"]`, `[1, 2]`;
//! - the functions `if`, `eq`, `neq`, `lt`, `leq`, `gt`, `geq`, `and`, `or`,
//!   `not`, `contains`, `at`, `len` and `defined`.
//!
//! `matches_regex` parses but does not evaluate: it reports an error.

use crate::names::{ascending, keys, NameMap, NameSet};
use crate::text::{copy_texts, push_text, text, texts, utf8};
use crate::variable_expression::evaluate::{
    eval, evaluate, lemma_empty_stack, lemma_parsed_faultless, Evaled,
};
use crate::variable_expression::grammar::{parse_expression, said_expression, BACKTICK};
use vstd::prelude::*;

pub mod evaluate;
pub mod functions;
pub mod grammar;
pub mod influence;
pub mod reading;
pub mod suffix;

verus! {

/// Whether a text is an expression: more than two bytes, the first and the
/// last of them a backtick.
pub open spec fn is_expression_text(s: Seq<char>) -> bool {
    let bytes = utf8(s);
    bytes.len() > 2 && bytes[0] == BACKTICK && bytes.last() == BACKTICK
}

/// Returns `true` when `s` is a variable expression: longer than two
/// characters, starting and ending with a backtick.
///
/// A `true` result does not mean the expression is valid.
#[must_use]
pub fn is_expression(s: &str) -> (is: bool)
    ensures
        is == is_expression_text(s@),
{
    let bytes = s.as_bytes();
    bytes.len() > 2 && bytes[0] == BACKTICK && bytes[bytes.len() - 1] == BACKTICK
}

// ── Values ──────────────────────────────────────────────────────────────

/// A value an expression evaluates to, or a variable holds.
///
/// A list holds scalars of one type; an empty list has no element type
/// ([`ExpressionValue::EmptyList`]). "No value" (`None`) is the absence of
/// an `ExpressionValue`.
#[derive(Clone, Debug, PartialEq, Eq, Hash)]
pub enum ExpressionValue {
    /// A string.
    String(String),
    /// A 64-bit integer.
    Int(i64),
    /// A boolean.
    Bool(bool),
    /// A non-empty list of strings.
    StringList(Vec<String>),
    /// A non-empty list of integers.
    IntList(Vec<i64>),
    /// A non-empty list of booleans.
    BoolList(Vec<bool>),
    /// An empty list.
    EmptyList,
}

/// The mathematical value of an [`ExpressionValue`].
pub enum Val {
    Text(Seq<char>),
    Int(i64),
    Bool(bool),
    Texts(Seq<Seq<char>>),
    Ints(Seq<i64>),
    Bools(Seq<bool>),
    EmptyList,
}

impl Val {
    /// The type name used in error messages.
    pub open spec fn type_text(self) -> Seq<char> {
        match self {
            Val::Text(_) => "string"@,
            Val::Int(_) => "int"@,
            Val::Bool(_) => "bool"@,
            _ => "list"@,
        }
    }

    /// Whether two values have the same type, lists of different element types
    /// being different types.
    pub open spec fn same_type(self, other: Val) -> bool {
        match (self, other) {
            (Val::Text(_), Val::Text(_)) => true,
            (Val::Int(_), Val::Int(_)) => true,
            (Val::Bool(_), Val::Bool(_)) => true,
            (Val::Texts(_), Val::Texts(_)) => true,
            (Val::Ints(_), Val::Ints(_)) => true,
            (Val::Bools(_), Val::Bools(_)) => true,
            (Val::EmptyList, Val::EmptyList) => true,
            _ => false,
        }
    }
}

impl ExpressionValue {
    pub open spec fn view(&self) -> Val {
        match self {
            ExpressionValue::String(s) => Val::Text(s@),
            ExpressionValue::Int(n) => Val::Int(*n),
            ExpressionValue::Bool(b) => Val::Bool(*b),
            ExpressionValue::StringList(l) => Val::Texts(texts(l@)),
            ExpressionValue::IntList(l) => Val::Ints(l@),
            ExpressionValue::BoolList(l) => Val::Bools(l@),
            ExpressionValue::EmptyList => Val::EmptyList,
        }
    }

    /// The type name used in error messages: `string`, `int`, `bool` or
    /// `list`.
    #[must_use]
    pub fn type_label(&self) -> (name: &'static str)
        ensures
            name@ == self.view().type_text(),
    {
        match self {
            ExpressionValue::String(_) => "string",
            ExpressionValue::Int(_) => "int",
            ExpressionValue::Bool(_) => "bool",
            _ => "list",
        }
    }

    /// The value as a string, if it is one.
    #[must_use]
    pub fn as_str(&self) -> (s: Option<&str>)
        ensures
            match s {
                Some(s) => self.view() == Val::Text(s@),
                None => !(self.view() is Text),
            },
    {
        match self {
            ExpressionValue::String(s) => Some(s.as_str()),
            _ => None,
        }
    }

    /// Whether `self` and `other` have the same type, lists of different
    /// element types (and the empty list) being different types.
    pub fn same_type(&self, other: &Self) -> (same: bool)
        ensures
            same == self.view().same_type(other.view()),
    {
        match (self, other) {
            (ExpressionValue::String(_), ExpressionValue::String(_)) => true,
            (ExpressionValue::Int(_), ExpressionValue::Int(_)) => true,
            (ExpressionValue::Bool(_), ExpressionValue::Bool(_)) => true,
            (ExpressionValue::StringList(_), ExpressionValue::StringList(_)) => true,
            (ExpressionValue::IntList(_), ExpressionValue::IntList(_)) => true,
            (ExpressionValue::BoolList(_), ExpressionValue::BoolList(_)) => true,
            (ExpressionValue::EmptyList, ExpressionValue::EmptyList) => true,
            _ => false,
        }
    }

    /// A copy of this value.
    pub fn copy(&self) -> (out: Self)
        ensures
            out.view() == self.view(),
    {
        match self {
            ExpressionValue::String(s) => ExpressionValue::String(s.clone()),
            ExpressionValue::Int(n) => ExpressionValue::Int(*n),
            ExpressionValue::Bool(b) => ExpressionValue::Bool(*b),
            ExpressionValue::StringList(l) => ExpressionValue::StringList(copy_texts(l)),
            ExpressionValue::IntList(l) => {
                let list = l.clone();
                assert(list@ =~= l@);
                ExpressionValue::IntList(list)
            },
            ExpressionValue::BoolList(l) => {
                let list = l.clone();
                assert(list@ =~= l@);
                ExpressionValue::BoolList(list)
            },
            ExpressionValue::EmptyList => ExpressionValue::EmptyList,
        }
    }
}

/// The value of one expression variable.
#[derive(Clone, Debug, PartialEq, Eq, Hash)]
pub enum VariableValue {
    /// No value (`None`).
    NoValue,
    /// A value of a supported type. A string that is itself an expression is
    /// evaluated where the variable is used.
    Value(ExpressionValue),
    /// A value of a type expressions do not support, by type name. Using the
    /// variable is an error.
    Unsupported(String),
}

/// The mathematical value of a [`VariableValue`].
pub enum VariableView {
    NoValue,
    Value(Val),
    Unsupported(Seq<char>),
}

impl VariableValue {
    pub open spec fn view(&self) -> VariableView {
        match self {
            VariableValue::NoValue => VariableView::NoValue,
            VariableValue::Value(v) => VariableView::Value(v.view()),
            VariableValue::Unsupported(name) => VariableView::Unsupported(name@),
        }
    }

    /// A copy of this value.
    pub fn copy(&self) -> (out: Self)
        ensures
            out.view() == self.view(),
    {
        match self {
            VariableValue::NoValue => VariableValue::NoValue,
            VariableValue::Value(v) => VariableValue::Value(v.copy()),
            VariableValue::Unsupported(name) => VariableValue::Unsupported(name.clone()),
        }
    }
}

/// A set of expression variables: values by name.
#[derive(Debug)]
pub struct ExpressionVariables {
    values: NameMap<VariableValue>,
}

impl View for ExpressionVariables {
    type V = Map<Seq<char>, VariableView>;

    closed spec fn view(&self) -> Map<Seq<char>, VariableView> {
        self.values@.map_values(|v: VariableValue| v.view())
    }
}

impl Default for ExpressionVariables {
    fn default() -> (variables: Self)
        ensures
            variables@ == Map::<Seq<char>, VariableView>::empty(),
    {
        ExpressionVariables::new()
    }
}

impl ExpressionVariables {
    /// Creates an empty set.
    #[must_use]
    pub fn new() -> (variables: Self)
        ensures
            variables@ == Map::<Seq<char>, VariableView>::empty(),
    {
        let variables = ExpressionVariables { values: NameMap::new() };
        assert(variables@ =~= Map::<Seq<char>, VariableView>::empty());
        variables
    }

    /// Sets the value of `name`, replacing any previous value.
    pub fn insert(&mut self, name: &str, value: VariableValue)
        ensures
            final(self)@ == old(self)@.insert(name@, value.view()),
    {
        let ghost before = self@;
        self.values.insert(name, value);
        assert(self@ =~= before.insert(name@, value.view()));
    }

    /// Returns the value of `name`, if it is set.
    #[must_use]
    pub fn get(&self, name: &str) -> (value: Option<&VariableValue>)
        ensures
            value is Some <==> self@.dom().contains(name@),
            value is Some ==> value->0.view() == self@[name@],
    {
        self.values.get(name)
    }

    /// The number of variables that are set.
    #[must_use]
    pub fn len(&self) -> (len: usize)
        ensures
            self@.dom().finite(),
            len == self@.dom().len(),
    {
        let len = self.values.len();
        assert(self@.dom() =~= self.values@.dom());
        len
    }

    /// Returns `true` when no variable is set.
    #[must_use]
    pub fn is_empty(&self) -> (empty: bool)
        ensures
            empty == self@.dom().is_empty(),
    {
        let len = self.values.len();
        assert(self@.dom() =~= self.values@.dom());
        len == 0
    }

    /// Returns the variables, by name.
    pub fn iter(&self) -> (list: Vec<(&str, &VariableValue)>)
        ensures
            ascending(list@.map_values(|e: (&str, &VariableValue)| e.0@)),
            list@.map_values(|e: (&str, &VariableValue)| e.0@).to_set() == self@.dom(),
            forall|i: int|
                0 <= i < list@.len() ==> self@.dom().contains((#[trigger] list@[i]).0@)
                    && self@[list@[i].0@] == list@[i].1.view(),
    {
        let len = self.values.len();
        let mut list: Vec<(&str, &VariableValue)> = Vec::new();
        let mut i: usize = 0;
        while i < len
            invariant
                i <= len,
                len == self.values.listed().len(),
                list@.len() == i,
                forall|j: int|
                    0 <= j < i ==> (#[trigger] list@[j]).0@ == keys(self.values.listed())[j]
                        && self@.dom().contains(list@[j].0@) && self@[list@[j].0@]
                        == list@[j].1.view(),
            decreases len - i,
        {
            let name = self.values.name_at(i);
            let value = self.values.value_at(i);
            list.push((name, value));
            i = i + 1;
        }
        assert(list@.map_values(|e: (&str, &VariableValue)| e.0@) =~= keys(self.values.listed()));
        assert(self@.dom() =~= self.values@.dom());
        list
    }

    /// Adds every variable of `weaker` that `self` does not set: `self`
    /// composed over `weaker`.
    pub fn compose_over(&mut self, weaker: &Self)
        ensures
            final(self)@ == weaker@.union_prefer_right(old(self)@),
    {
        let len = weaker.values.len();
        let ghost stronger = self@;
        let ghost names = keys(weaker.values.listed());
        let mut i: usize = 0;
        while i < len
            invariant
                i <= len,
                len == weaker.values.listed().len(),
                names == keys(weaker.values.listed()),
                weaker.values@.dom() == names.to_set(),
                stronger == old(self)@,
                forall|n: Seq<char>|
                    #![trigger self@.dom().contains(n)]
                    self@.dom().contains(n) <==> stronger.dom().contains(n) || names.take(
                        i as int,
                    ).contains(n),
                forall|n: Seq<char>|
                    #![trigger self@[n]]
                    self@.dom().contains(n) ==> self@[n] == (if stronger.dom().contains(n) {
                        stronger[n]
                    } else {
                        weaker@[n]
                    }),
            decreases len - i,
        {
            let name = weaker.values.name_at(i);
            let ghost before = self@;
            let ghost some = names.take(i as int);
            let ghost more = names.take(i + 1);
            assert(more =~= some.push(name@));
            assert forall|n: Seq<char>| more.contains(n) <==> some.contains(n) || n == name@ by {
                if some.contains(n) {
                    let j = choose|j: int| 0 <= j < some.len() && some[j] == n;
                    assert(more[j] == n);
                }
                if n == name@ {
                    assert(more[i as int] == n);
                }
                if more.contains(n) {
                    let j = choose|j: int| 0 <= j < more.len() && more[j] == n;
                    if j < i {
                        assert(some[j] == n);
                    }
                }
            }
            if self.get(name).is_none() {
                let value = weaker.values.value_at(i).copy();
                self.insert(name, value);
            }
            i = i + 1;
        }
        assert(names.take(len as int) =~= names);
        assert(weaker@.dom() =~= weaker.values@.dom());
        assert forall|n: Seq<char>| weaker@.dom().contains(n) <==> names.contains(n) by {}
        assert(self@ =~= weaker@.union_prefer_right(stronger));
    }
}

// ── Syntax tree ─────────────────────────────────────────────────────────

/// One literal or variable run of a quoted string.
#[derive(Debug)]
pub enum Part {
    Text(String),
    Variable(String),
}

/// The text of a [`Part`].
pub enum PartView {
    Text(Seq<char>),
    Variable(Seq<char>),
}

impl Part {
    pub open spec fn view(&self) -> PartView {
        match self {
            Part::Text(s) => PartView::Text(s@),
            Part::Variable(s) => PartView::Variable(s@),
        }
    }
}

/// The texts of a list of parts.
pub open spec fn parts_of(parts: Seq<Part>) -> Seq<PartView> {
    parts.map_values(|p: Part| p.view())
}

/// A node of the syntax tree.
#[derive(Debug)]
pub enum Node {
    Text(Vec<Part>),
    Variable(String),
    Int(i64),
    Bool(bool),
    Nothing,
    List(Vec<Node>),
    Call(String, Vec<Node>),
}

/// The mathematical value of a [`Node`].
pub enum NodeView {
    Text(Seq<PartView>),
    Variable(Seq<char>),
    Int(i64),
    Bool(bool),
    Nothing,
    List(Seq<NodeView>),
    Call(Seq<char>, Seq<NodeView>),
}

impl Node {
    pub open spec fn view(&self) -> NodeView
        decreases self,
    {
        match self {
            Node::Text(parts) => NodeView::Text(parts_of(parts@)),
            Node::Variable(name) => NodeView::Variable(name@),
            Node::Int(n) => NodeView::Int(*n),
            Node::Bool(b) => NodeView::Bool(*b),
            Node::Nothing => NodeView::Nothing,
            Node::List(items) => NodeView::List(nodes_of(items@)),
            Node::Call(name, args) => NodeView::Call(name@, nodes_of(args@)),
        }
    }
}

/// The values of a list of nodes.
pub open spec fn nodes_of(nodes: Seq<Node>) -> Seq<NodeView>
    decreases nodes,
{
    if nodes.len() == 0 {
        seq![]
    } else {
        nodes_of(nodes.drop_last()).push(nodes.last().view())
    }
}

// ── Evaluations ─────────────────────────────────────────────────────────

/// The texts between separators.
pub open spec fn join_texts(list: Seq<Seq<char>>, separator: Seq<char>) -> Seq<char>
    decreases list.len(),
{
    if list.len() == 0 {
        seq![]
    } else if list.len() == 1 {
        list[0]
    } else {
        join_texts(list.drop_last(), separator) + separator + list.last()
    }
}

/// Joins texts with a separator.
pub fn join(list: &Vec<String>, separator: &str) -> (out: String)
    ensures
        out@ == join_texts(texts(list@), separator@),
{
    let mut out = String::new();
    if list.len() == 0 {
        assert(out@ =~= join_texts(texts(list@), separator@));
        return out;
    }
    push_text(&mut out, list[0].as_str());
    let mut i: usize = 1;
    assert(texts(list@).take(1)[0] == list@[0]@);
    assert(out@ =~= list@[0]@);
    while i < list.len()
        invariant
            1 <= i <= list.len(),
            out@ == join_texts(texts(list@).take(i as int), separator@),
        decreases list.len() - i,
    {
        assert(texts(list@).take(i + 1).drop_last() =~= texts(list@).take(i as int));
        push_text(&mut out, separator);
        push_text(&mut out, list[i].as_str());
        i = i + 1;
    }
    assert(texts(list@).take(i as int) =~= texts(list@));
    out
}

/// The result of evaluating a [`VariableExpression`].
#[derive(Debug)]
pub struct Evaluation {
    /// The value, or `None` when the expression yields no value or an
    /// error occurred.
    pub value: Option<ExpressionValue>,
    /// The errors found while parsing or evaluating, in order; empty on
    /// success.
    pub errors: Vec<String>,
    /// Every variable the evaluation looked up, including those of
    /// variables whose values are expressions and those `defined` tests.
    pub used_variables: NameSet,
}

/// The mathematical value of an optional value.
pub open spec fn optional(value: Option<ExpressionValue>) -> Option<Val> {
    match value {
        Some(v) => Some(v.view()),
        None => None,
    }
}

/// The view of a result that holds texts.
pub open spec fn text_result(result: Result<Option<String>, String>) -> Result<
    Option<Seq<char>>,
    Seq<char>,
> {
    match result {
        Ok(Some(s)) => Ok(Some(s@)),
        Ok(None) => Ok(None),
        Err(message) => Err(message@),
    }
}

/// The string that an evaluation yields: its errors joined where there are any,
/// and an error for a value of another type.
pub open spec fn string_of_evaluation(value: Option<Val>, errors: Seq<Seq<char>>) -> Result<
    Option<Seq<char>>,
    Seq<char>,
> {
    if errors.len() > 0 {
        Err(join_texts(errors, "; "@))
    } else {
        match value {
            None => Ok(None),
            Some(Val::Text(s)) => Ok(Some(s)),
            Some(other) => Err(
                "Expression evaluated to '"@ + other.type_text() + "' but expected 'string'"@,
            ),
        }
    }
}

impl Evaluation {
    /// The value as a string: `Ok(None)` for no value, an error for a value
    /// of another type or a failed evaluation (the errors, joined).
    ///
    /// Composition takes asset paths and variant selections this way.
    pub fn into_string(self) -> (out: Result<Option<String>, String>)
        ensures
            text_result(out) == string_of_evaluation(optional(self.value), texts(self.errors@)),
    {
        if self.errors.len() > 0 {
            return Err(join(&self.errors, "; "));
        }
        match self.value {
            None => Ok(None),
            Some(ExpressionValue::String(s)) => Ok(Some(s)),
            Some(other) => {
                let mut message = text("Expression evaluated to '");
                push_text(&mut message, other.type_label());
                push_text(&mut message, "' but expected 'string'");
                Err(message)
            },
        }
    }
}

/// A parsed variable expression.
///
/// Parsing never fails outright: an expression that does not parse is kept
/// with its errors ([`VariableExpression::errors`]) and evaluates to them.
#[derive(Debug)]
pub struct VariableExpression {
    source: String,
    root: Result<Node, Vec<String>>,
}

/// What an expression evaluates to.
pub open spec fn expression_value(
    source: Seq<char>,
    variables: Map<Seq<char>, VariableView>,
) -> Evaled {
    match said_expression(utf8(source)) {
        Ok(root) => eval(root, variables, seq![], Set::empty()),
        Err(message) => Evaled { result: Err(seq![message]), used: Set::empty() },
    }
}

impl VariableExpression {
    /// The expression as given to [`VariableExpression::parse`].
    pub closed spec fn spec_source(&self) -> Seq<char> {
        self.source@
    }

    /// The syntax tree, or the errors found while parsing.
    pub closed spec fn spec_root(&self) -> Result<NodeView, Seq<Seq<char>>> {
        match self.root {
            Ok(node) => Ok(node.view()),
            Err(errors) => Err(texts(errors@)),
        }
    }

    /// Whether the tree is that of the source.
    #[verifier::type_invariant]
    spec fn parsed(&self) -> bool {
        self.spec_root() == (match said_expression(utf8(self.source@)) {
            Ok(node) => Ok(node),
            Err(message) => Err(seq![message]),
        })
    }

    /// Parses `expression`, including its enclosing backticks.
    #[must_use]
    pub fn parse(expression: &str) -> (out: Self)
        ensures
            out.spec_source() == expression@,
            out.spec_root() == (match said_expression(utf8(expression@)) {
                Ok(node) => Ok(node),
                Err(message) => Err(seq![message]),
            }),
    {
        let source = text(expression);
        match parse_expression(expression) {
            Ok(node) => VariableExpression { source, root: Ok(node) },
            Err(message) => {
                let mut errors: Vec<String> = Vec::new();
                errors.push(message);
                assert(texts(errors@) =~= seq![message@]);
                VariableExpression { source, root: Err(errors) }
            },
        }
    }

    /// The expression as given to [`VariableExpression::parse`].
    #[must_use]
    pub fn as_str(&self) -> (source: &str)
        ensures
            source@ == self.spec_source(),
    {
        self.source.as_str()
    }

    /// Returns `true` when the expression parsed. A valid expression may
    /// still fail to evaluate.
    #[must_use]
    pub fn is_valid(&self) -> (valid: bool)
        ensures
            valid == (said_expression(utf8(self.spec_source())) is Ok),
            valid == (self.spec_root() is Ok),
    {
        proof {
            use_type_invariant(self);
        }
        match &self.root {
            Ok(_) => true,
            Err(_) => false,
        }
    }

    /// The errors found while parsing; empty for a valid expression.
    #[must_use]
    pub fn errors(&self) -> (errors: Vec<String>)
        ensures
            texts(errors@) == (match said_expression(utf8(self.spec_source())) {
                Ok(_) => seq![],
                Err(message) => seq![message],
            }),
    {
        proof {
            use_type_invariant(self);
        }
        match &self.root {
            Ok(_) => {
                let none: Vec<String> = Vec::new();
                assert(texts(none@) =~= seq![]);
                none
            },
            Err(errors) => copy_texts(errors),
        }
    }

    /// Evaluates the expression with `variables`.
    #[must_use]
    pub fn evaluate(&self, variables: &ExpressionVariables) -> (out: Evaluation)
        ensures
            ({
                let expected = expression_value(self.spec_source(), variables@);
                &&& out.used_variables@ == expected.used
                &&& match expected.result {
                    Ok(value) => optional(out.value) == value && out.errors@.len() == 0,
                    Err(errors) => out.value is None && texts(out.errors@) == errors,
                }
            }),
    {
        let _set: usize = variables.len();
        proof {
            use_type_invariant(self);
            lemma_empty_stack(variables@);
            lemma_parsed_faultless(utf8(self.source@));
        }
        let mut used = NameSet::new();
        match &self.root {
            Err(errors) => {
                Evaluation { value: None, errors: copy_texts(errors), used_variables: used }
            },
            Ok(root) => {
                let stack: Vec<String> = Vec::new();
                assert(texts(stack@) =~= seq![]);
                match evaluate(root, variables, &stack, &mut used) {
                    Ok(value) => Evaluation { value, errors: Vec::new(), used_variables: used },
                    Err(errors) => Evaluation { value: None, errors, used_variables: used },
                }
            },
        }
    }
}

} // verus!
