//! Evaluation of variable expressions.

use crate::names::NameSet;
use crate::order::{compare_bools, compare_text, order_bool, order_int, order_text, Order};
use crate::text::{
    chars_of, copy_texts, decimal, decimal_text, holds_text, lossy_text, push_text, text,
    text_of_bytes, texts, utf8,
};
use crate::variable_expression::grammar::{
    arity_fault, fault, find_function, function_named, last_fault, lemma_nodes_len,
    parse_expression, said_expression, Function,
};
use crate::variable_expression::{
    is_expression, is_expression_text, join, join_texts, nodes_of, optional, parts_of,
    ExpressionValue, ExpressionVariables, Node, NodeView, Part, PartView, Val, VariableValue,
    VariableView,
};
use vstd::prelude::*;

verus! {

/// A value or no value, or errors.
pub type Res = Result<Option<Val>, Seq<Seq<char>>>;

/// The outcome of evaluating a node.
pub type Eval = Result<Option<ExpressionValue>, Vec<String>>;

/// The mathematical value of an outcome.
pub open spec fn outcome(eval: Eval) -> Res {
    match eval {
        Ok(value) => Ok(optional(value)),
        Err(errors) => Err(texts(errors@)),
    }
}

/// The outcome of an evaluation and the variables that it looked up.
pub struct Evaled {
    pub result: Res,
    pub used: Set<Seq<char>>,
}

/// The outcomes of several evaluations and the variables that they looked up.
pub struct EvaledAll {
    pub results: Seq<Res>,
    pub used: Set<Seq<char>>,
}

/// What a variable stands for, if it is set, and the variables looked up.
pub struct Found {
    pub result: Option<Res>,
    pub used: Set<Seq<char>>,
}

/// The type name of an optional value, `None` for no value.
pub open spec fn type_text(value: Option<Val>) -> Seq<char> {
    match value {
        None => "None"@,
        Some(v) => v.type_text(),
    }
}

/// The error that a function reports.
pub open spec fn function_fault(name: Seq<char>, message: Seq<char>) -> Seq<Seq<char>> {
    seq![name + ": "@ + message]
}

/// Names in single quotes.
pub open spec fn quoted_names(names: Seq<Seq<char>>) -> Seq<Seq<char>> {
    names.map_values(|n: Seq<char>| "'"@ + n + "'"@)
}

/// The error for a variable that is being evaluated already.
pub open spec fn circular_fault(stack: Seq<Seq<char>>, name: Seq<char>) -> Seq<char> {
    "Encountered circular variable substitutions: ["@ + join_texts(quoted_names(stack), ", "@)
        + ", '"@ + name + "']"@
}

// ── Pure functions ──────────────────────────────────────────────────────

/// The errors of both outcomes, in order.
pub open spec fn errors_of(a: Res, b: Res) -> Seq<Seq<char>> {
    (match a {
        Ok(_) => seq![],
        Err(errors) => errors,
    }) + (match b {
        Ok(_) => seq![],
        Err(errors) => errors,
    })
}

/// The name of a comparison in messages.
pub open spec fn comparison_name(function: Function) -> Seq<char> {
    match function {
        Function::Eq => "eq"@,
        Function::Neq => "neq"@,
        Function::Lt => "lt"@,
        Function::Leq => "leq"@,
        Function::Gt => "gt"@,
        _ => "geq"@,
    }
}

/// Whether a comparison holds of values in that order.
pub open spec fn comparison_holds(function: Function, order: Order) -> bool {
    match function {
        Function::Eq => order == Order::Equal,
        Function::Neq => order != Order::Equal,
        Function::Lt => order == Order::Less,
        Function::Leq => order != Order::Greater,
        Function::Gt => order == Order::Greater,
        _ => order != Order::Less,
    }
}

/// `eq` and the other comparisons of two scalars of one type, or of two
/// `None`s for `eq` and `neq`.
pub open spec fn compared(function: Function, a: Option<Val>, b: Option<Val>) -> Res {
    let name = comparison_name(function);
    match (a, b) {
        (None, None) => match function {
            Function::Eq => Ok(Some(Val::Bool(true))),
            Function::Neq => Ok(Some(Val::Bool(false))),
            _ => Err(function_fault(name, "Comparison operation not supported for None"@)),
        },
        (Some(Val::Text(x)), Some(Val::Text(y))) => Ok(
            Some(Val::Bool(comparison_holds(function, order_text(x, y)))),
        ),
        (Some(Val::Int(x)), Some(Val::Int(y))) => Ok(
            Some(Val::Bool(comparison_holds(function, order_int(x as int, y as int)))),
        ),
        (Some(Val::Bool(x)), Some(Val::Bool(y))) => Ok(
            Some(Val::Bool(comparison_holds(function, order_bool(x, y)))),
        ),
        (Some(x), Some(y)) => if x.same_type(y) {
            Err(function_fault(name, "Unsupported type for comparison"@))
        } else {
            Err(
                function_fault(
                    name,
                    "Cannot compare values of type "@ + type_text(a) + " and "@ + type_text(b),
                ),
            )
        },
        _ => Err(
            function_fault(
                name,
                "Cannot compare values of type "@ + type_text(a) + " and "@ + type_text(b),
            ),
        ),
    }
}

/// Whether `part` stands somewhere in `whole`.
pub open spec fn has_substring(whole: Seq<char>, part: Seq<char>) -> bool {
    exists|i: int|
        0 <= i <= whole.len() - part.len() && #[trigger] whole.subrange(i, i + part.len()) == part
}

/// `contains(search_in, search_for)`: a substring of a string, or an element
/// of a list.
pub open spec fn contained(search_in: Option<Val>, search_for: Option<Val>) -> Res {
    match (search_in, search_for) {
        (Some(Val::EmptyList), _) => Ok(Some(Val::Bool(false))),
        (Some(Val::Text(s)), Some(Val::Text(t))) => Ok(Some(Val::Bool(has_substring(s, t)))),
        (Some(Val::Texts(l)), Some(Val::Text(t))) => Ok(Some(Val::Bool(l.contains(t)))),
        (Some(Val::Ints(l)), Some(Val::Int(n))) => Ok(Some(Val::Bool(l.contains(n)))),
        (Some(Val::Bools(l)), Some(Val::Bool(b))) => Ok(Some(Val::Bool(l.contains(b)))),
        (Some(Val::Text(_)), _) => Err(function_fault("contains"@, "Invalid search value"@)),
        (Some(Val::Texts(_)), _) => Err(function_fault("contains"@, "Invalid search value"@)),
        (Some(Val::Ints(_)), _) => Err(function_fault("contains"@, "Invalid search value"@)),
        (Some(Val::Bools(_)), _) => Err(function_fault("contains"@, "Invalid search value"@)),
        _ => Err(function_fault("contains"@, "Value to search must be a list or string"@)),
    }
}

/// The place that `index` stands for among `len` items, counted from the end
/// when negative.
pub open spec fn place(len: nat, index: int) -> Option<int> {
    let i = if index < 0 {
        index + len
    } else {
        index
    };
    if len <= i64::MAX && 0 <= i < len {
        Some(i)
    } else {
        None
    }
}

/// `at(source, index)`: the element of a list, or the byte of a string, at
/// `index`.
pub open spec fn item_at(source: Option<Val>, index: Option<Val>) -> Res {
    match index {
        Some(Val::Int(index)) => {
            let len: nat = match source {
                Some(Val::Text(s)) => utf8(s).len(),
                Some(Val::Texts(l)) => l.len(),
                Some(Val::Ints(l)) => l.len(),
                Some(Val::Bools(l)) => l.len(),
                _ => 0,
            };
            match (source, place(len, index as int)) {
                (Some(Val::Text(s)), Some(i)) => Ok(
                    Some(Val::Text(lossy_text(seq![utf8(s)[i]]))),
                ),
                (Some(Val::Texts(l)), Some(i)) => Ok(Some(Val::Text(l[i]))),
                (Some(Val::Ints(l)), Some(i)) => Ok(Some(Val::Int(l[i]))),
                (Some(Val::Bools(l)), Some(i)) => Ok(Some(Val::Bool(l[i]))),
                (Some(Val::Int(_)), _) => Err(
                    function_fault("at"@, "Only supported for lists or strings"@),
                ),
                (Some(Val::Bool(_)), _) => Err(
                    function_fault("at"@, "Only supported for lists or strings"@),
                ),
                (None, _) => Err(function_fault("at"@, "Only supported for lists or strings"@)),
                _ => Err(function_fault("at"@, "Index out of range"@)),
            }
        },
        _ => Err(function_fault("at"@, "Index must be an integer"@)),
    }
}

/// A length as a 64-bit integer, at most the largest one.
pub open spec fn clamp_len(len: nat) -> i64 {
    if len <= i64::MAX {
        len as i64
    } else {
        i64::MAX
    }
}

/// `len(source)`: the bytes of a string or the elements of a list.
pub open spec fn length_of(source: Option<Val>) -> Res {
    match source {
        Some(Val::Text(s)) => Ok(Some(Val::Int(clamp_len(utf8(s).len())))),
        Some(Val::Texts(l)) => Ok(Some(Val::Int(clamp_len(l.len())))),
        Some(Val::Ints(l)) => Ok(Some(Val::Int(clamp_len(l.len())))),
        Some(Val::Bools(l)) => Ok(Some(Val::Int(clamp_len(l.len())))),
        Some(Val::EmptyList) => Ok(Some(Val::Int(0))),
        _ => Err(function_fault("len"@, "Unsupported type"@)),
    }
}

/// The boolean opposite.
pub open spec fn negated(value: Option<Val>) -> Res {
    match value {
        Some(Val::Bool(b)) => Ok(Some(Val::Bool(!b))),
        other => Err(
            function_fault("not"@, "Invalid type "@ + type_text(other) + " for argument"@),
        ),
    }
}

/// The choice of an `if`: both values have been evaluated, and must have the
/// same type unless one is `None`; the chosen one's errors are the result's.
pub open spec fn chosen(condition: bool, value: Res, other: Res) -> Res {
    match (value, other) {
        (Ok(Some(a)), Ok(Some(b))) => if !a.same_type(b) {
            Err(
                function_fault(
                    "if"@,
                    "if-value and else-value must evaluate to the same type or None."@,
                ),
            )
        } else if condition {
            value
        } else {
            other
        },
        _ => if condition {
            value
        } else {
            other
        },
    }
}

/// A list with one more scalar, if it has the type of the others.
pub open spec fn list_push(list: Val, value: Option<Val>) -> Option<Val> {
    match (list, value) {
        (Val::EmptyList, Some(Val::Text(s))) => Some(Val::Texts(seq![s])),
        (Val::EmptyList, Some(Val::Int(n))) => Some(Val::Ints(seq![n])),
        (Val::EmptyList, Some(Val::Bool(b))) => Some(Val::Bools(seq![b])),
        (Val::Texts(l), Some(Val::Text(s))) => Some(Val::Texts(l.push(s))),
        (Val::Ints(l), Some(Val::Int(n))) => Some(Val::Ints(l.push(n))),
        (Val::Bools(l), Some(Val::Bool(b))) => Some(Val::Bools(l.push(b))),
        _ => None,
    }
}

/// The list so far and the errors so far.
pub struct ListSoFar {
    pub list: Val,
    pub errors: Seq<Seq<char>>,
}

/// The list of the elements' values; an element that is no scalar, or is of
/// another type than those before it, is an error.
pub open spec fn listed(results: Seq<Res>) -> ListSoFar
    decreases results.len(),
{
    if results.len() == 0 {
        ListSoFar { list: Val::EmptyList, errors: seq![] }
    } else {
        let before = listed(results.drop_last());
        match results.last() {
            Err(errors) => ListSoFar { list: before.list, errors: before.errors + errors },
            Ok(value) => match list_push(before.list, value) {
                Some(list) => ListSoFar { list, errors: before.errors },
                None => ListSoFar {
                    list: before.list,
                    errors: before.errors.push(
                        "Unexpected value of type "@ + type_text(value) + " in list at element "@
                            + decimal((results.len() - 1) as nat),
                    ),
                },
            },
        }
    }
}

/// A value, unless there are errors.
pub open spec fn unless_errors(errors: Seq<Seq<char>>, value: Val) -> Res {
    if errors.len() == 0 {
        Ok(Some(value))
    } else {
        Err(errors)
    }
}

/// The error for an argument of the wrong type.
pub open spec fn argument_fault(name: Seq<char>, value: Option<Val>, i: nat) -> Seq<Seq<char>> {
    function_fault(name, "Invalid type "@ + type_text(value) + " for argument "@ + decimal(i))
}

// ── The recursive part ──────────────────────────────────────────────────

/// How many variables are not being evaluated.
pub open spec fn room(vars: Map<Seq<char>, VariableView>, stack: Seq<Seq<char>>) -> int {
    vars.dom().len() - stack.len()
}

/// What a node evaluates to.
///
/// `stack` names the variables whose expressions are being evaluated, and
/// `used` those that have been looked up so far.
pub open spec fn eval(
    node: NodeView,
    vars: Map<Seq<char>, VariableView>,
    stack: Seq<Seq<char>>,
    used: Set<Seq<char>>,
) -> Evaled
    decreases room(vars, stack), 3nat, node,
{
    match node {
        NodeView::Int(n) => Evaled { result: Ok(Some(Val::Int(n))), used },
        NodeView::Bool(b) => Evaled { result: Ok(Some(Val::Bool(b))), used },
        NodeView::Nothing => Evaled { result: Ok(None), used },
        NodeView::Text(parts) => eval_parts(parts, seq![], vars, stack, used),
        NodeView::Variable(name) => {
            let found = lookup(name, vars, stack, used);
            Evaled {
                result: match found.result {
                    Some(result) => result,
                    None => Err(seq!["No value for variable '"@ + name + "'"@]),
                },
                used: found.used,
            }
        },
        NodeView::List(items) => {
            let all = eval_each(items, vars, stack, used);
            let made = listed(all.results);
            Evaled { result: unless_errors(made.errors, made.list), used: all.used }
        },
        NodeView::Call(name, args) => match function_named(name) {
            None => Evaled { result: Err(seq![]), used },
            Some(Function::And) => eval_logical("and"@, args, 0, false, seq![], vars, stack, used),
            Some(Function::Or) => eval_logical("or"@, args, 0, true, seq![], vars, stack, used),
            Some(Function::Defined) => eval_defined(args, 0, true, seq![], vars, stack, used),
            Some(Function::If) => if args.len() < 2 {
                Evaled { result: Err(seq![]), used }
            } else {
                let condition = eval(args[0], vars, stack, used);
                match condition.result {
                    Err(errors) => condition,
                    Ok(Some(Val::Bool(b))) => {
                        let value = eval(args[1], vars, stack, condition.used);
                        if args.len() == 2 {
                            Evaled {
                                result: chosen(b, value.result, Ok(None)),
                                used: value.used,
                            }
                        } else {
                            let other = eval(args[2], vars, stack, value.used);
                            Evaled {
                                result: chosen(b, value.result, other.result),
                                used: other.used,
                            }
                        }
                    },
                    Ok(_) => Evaled {
                        result: Err(
                            function_fault("if"@, "Condition must be a boolean value"@),
                        ),
                        used: condition.used,
                    },
                }
            },
            Some(Function::Not) => if args.len() < 1 {
                Evaled { result: Err(seq![]), used }
            } else {
                let arg = eval(args[0], vars, stack, used);
                match arg.result {
                    Err(errors) => arg,
                    Ok(value) => Evaled { result: negated(value), used: arg.used },
                }
            },
            Some(Function::Len) => if args.len() < 1 {
                Evaled { result: Err(seq![]), used }
            } else {
                let arg = eval(args[0], vars, stack, used);
                match arg.result {
                    Err(errors) => arg,
                    Ok(value) => Evaled { result: length_of(value), used: arg.used },
                }
            },
            Some(function) => if args.len() < 2 {
                Evaled { result: Err(seq![]), used }
            } else {
                let a = eval(args[0], vars, stack, used);
                let b = eval(args[1], vars, stack, a.used);
                Evaled { result: binary(function, a.result, b.result), used: b.used }
            },
        },
    }
}

/// The functions of two values, failing with the errors of both.
pub open spec fn binary(function: Function, a: Res, b: Res) -> Res {
    match (a, b) {
        (Ok(a), Ok(b)) => match function {
            Function::Contains => contained(a, b),
            Function::MatchesRegex => Err(
                function_fault("matches_regex"@, "regular expressions are not supported"@),
            ),
            Function::At => item_at(a, b),
            _ => compared(function, a, b),
        },
        _ => Err(errors_of(a, b)),
    }
}

/// The value of a variable, evaluating a string that is an expression; `None`
/// when it is not set.
pub open spec fn lookup(
    name: Seq<char>,
    vars: Map<Seq<char>, VariableView>,
    stack: Seq<Seq<char>>,
    used: Set<Seq<char>>,
) -> Found
    decreases room(vars, stack), 1nat, name,
{
    if stack.contains(name) {
        Found { result: Some(Err(seq![circular_fault(stack, name)])), used }
    } else {
        let looked = used.insert(name);
        if !vars.dom().contains(name) {
            Found { result: None, used: looked }
        } else {
            match vars[name] {
                VariableView::NoValue => Found { result: Some(Ok(None)), used: looked },
                VariableView::Unsupported(type_label) => Found {
                    result: Some(
                        Err(
                            seq![
                                "Variable '"@ + name + "' has unsupported type "@ + type_label,
                            ],
                        ),
                    ),
                    used: looked,
                },
                VariableView::Value(value) => match value {
                    Val::Text(s) => if !is_expression_text(s) {
                        Found { result: Some(Ok(Some(value))), used: looked }
                    } else {
                        match said_expression(utf8(s)) {
                            Err(message) => Found {
                                result: Some(
                                    Err(seq![message + " (in variable '"@ + name + "')"@]),
                                ),
                                used: looked,
                            },
                            Ok(root) => if room(vars, stack) > 0 {
                                let inner = eval(root, vars, stack.push(name), looked);
                                Found { result: Some(inner.result), used: inner.used }
                            } else {
                                Found { result: None, used: looked }
                            },
                        }
                    },
                    _ => Found { result: Some(Ok(Some(value))), used: looked },
                },
            }
        }
    }
}

/// The parts of a quoted string after `out`. A variable that is not set is
/// replaced by its name; one with no value by nothing; one of another type than
/// string is an error.
pub open spec fn eval_parts(
    parts: Seq<PartView>,
    out: Seq<char>,
    vars: Map<Seq<char>, VariableView>,
    stack: Seq<Seq<char>>,
    used: Set<Seq<char>>,
) -> Evaled
    decreases room(vars, stack), 2nat, parts,
{
    if parts.len() == 0 {
        Evaled { result: Ok(Some(Val::Text(out))), used }
    } else {
        let rest = parts.drop_first();
        match parts[0] {
            PartView::Text(run) => eval_parts(rest, out + run, vars, stack, used),
            PartView::Variable(name) => {
                let found = lookup(name, vars, stack, used);
                match found.result {
                    None => eval_parts(rest, out + name, vars, stack, found.used),
                    Some(Err(errors)) => Evaled { result: Err(errors), used: found.used },
                    Some(Ok(None)) => eval_parts(rest, out, vars, stack, found.used),
                    Some(Ok(Some(Val::Text(s)))) => eval_parts(
                        rest,
                        out + s,
                        vars,
                        stack,
                        found.used,
                    ),
                    Some(Ok(Some(other))) => Evaled {
                        result: Err(
                            seq![
                                "String value required for substituting variable '"@ + name
                                    + "', got "@ + other.type_text() + "."@,
                            ],
                        ),
                        used: found.used,
                    },
                }
            },
        }
    }
}

/// Every node's value, in order.
pub open spec fn eval_each(
    nodes: Seq<NodeView>,
    vars: Map<Seq<char>, VariableView>,
    stack: Seq<Seq<char>>,
    used: Set<Seq<char>>,
) -> EvaledAll
    decreases room(vars, stack), 3nat, nodes,
{
    if nodes.len() == 0 {
        EvaledAll { results: seq![], used }
    } else {
        let before = eval_each(nodes.drop_last(), vars, stack, used);
        let last = eval(nodes.last(), vars, stack, before.used);
        EvaledAll { results: before.results.push(last.result), used: last.used }
    }
}

/// `and` (`stop_at` false) and `or` (`stop_at` true) of the arguments from the
/// one numbered `i` on: they must be booleans, and evaluation stops at the
/// first equal to `stop_at`.
pub open spec fn eval_logical(
    name: Seq<char>,
    args: Seq<NodeView>,
    i: nat,
    stop_at: bool,
    errors: Seq<Seq<char>>,
    vars: Map<Seq<char>, VariableView>,
    stack: Seq<Seq<char>>,
    used: Set<Seq<char>>,
) -> Evaled
    decreases room(vars, stack), 3nat, args,
{
    if args.len() == 0 {
        Evaled { result: unless_errors(errors, Val::Bool(!stop_at)), used }
    } else {
        let arg = eval(args[0], vars, stack, used);
        let rest = args.drop_first();
        match arg.result {
            Err(more) => eval_logical(
                name,
                rest,
                i + 1,
                stop_at,
                errors + more,
                vars,
                stack,
                arg.used,
            ),
            Ok(value) => match value {
                Some(Val::Bool(b)) => if b == stop_at {
                    Evaled { result: unless_errors(errors, Val::Bool(b)), used: arg.used }
                } else {
                    eval_logical(name, rest, i + 1, stop_at, errors, vars, stack, arg.used)
                },
                other => eval_logical(
                    name,
                    rest,
                    i + 1,
                    stop_at,
                    errors + argument_fault(name, other, i),
                    vars,
                    stack,
                    arg.used,
                ),
            },
        }
    }
}

/// `defined` of the arguments from the one numbered `i` on: whether every
/// variable that they name is set.
pub open spec fn eval_defined(
    args: Seq<NodeView>,
    i: nat,
    defined: bool,
    errors: Seq<Seq<char>>,
    vars: Map<Seq<char>, VariableView>,
    stack: Seq<Seq<char>>,
    used: Set<Seq<char>>,
) -> Evaled
    decreases room(vars, stack), 3nat, args,
{
    if args.len() == 0 {
        Evaled { result: unless_errors(errors, Val::Bool(defined)), used }
    } else {
        let arg = eval(args[0], vars, stack, used);
        let rest = args.drop_first();
        match arg.result {
            Err(more) => eval_defined(
                rest,
                i + 1,
                defined,
                errors + more,
                vars,
                stack,
                arg.used,
            ),
            Ok(value) => match value {
                Some(Val::Text(name)) => eval_defined(
                    rest,
                    i + 1,
                    defined && vars.dom().contains(name),
                    errors,
                    vars,
                    stack,
                    arg.used.insert(name),
                ),
                other => eval_defined(
                    rest,
                    i + 1,
                    defined,
                    errors + argument_fault("defined"@, other, i),
                    vars,
                    stack,
                    arg.used,
                ),
            },
        }
    }
}

/// Whether a stack can come about: each variable on it is set, and none is on
/// it twice.
pub open spec fn stack_ok(vars: Map<Seq<char>, VariableView>, stack: Seq<Seq<char>>) -> bool {
    &&& stack.no_duplicates()
    &&& forall|i: int| 0 <= i < stack.len() ==> vars.dom().contains(#[trigger] stack[i])
    &&& vars.dom().finite()
    &&& room(vars, stack) >= 0
}

pub proof fn lemma_empty_stack(vars: Map<Seq<char>, VariableView>)
    ensures
        vars.dom().finite() ==> stack_ok(vars, seq![]),
{
}

/// A variable that is set and not being evaluated leaves room for it.
pub proof fn lemma_room(vars: Map<Seq<char>, VariableView>, stack: Seq<Seq<char>>, name: Seq<char>)
    requires
        stack_ok(vars, stack),
        vars.dom().contains(name),
        !stack.contains(name),
    ensures
        room(vars, stack) > 0,
        stack_ok(vars, stack.push(name)),
{
    let more = stack.push(name);
    assert(more.no_duplicates());
    more.unique_seq_to_set();
    assert(more.to_set().subset_of(vars.dom())) by {
        assert forall|n: Seq<char>| more.to_set().contains(n) implies vars.dom().contains(n) by {
            let i = choose|i: int| 0 <= i < more.len() && more[i] == n;
            if i < stack.len() {
                assert(stack[i] == n);
            }
        }
    }
    vstd::set_lib::lemma_len_subset(more.to_set(), vars.dom());
}

/// The arguments of a faultless call are faultless.
proof fn lemma_no_fault(nodes: Seq<NodeView>)
    requires
        last_fault(nodes) is None,
    ensures
        forall|i: int| 0 <= i < nodes.len() ==> fault(#[trigger] nodes[i]) is None,
    decreases nodes.len(),
{
    if nodes.len() > 0 {
        let rest = nodes.drop_last();
        lemma_no_fault(rest);
        assert forall|i: int| 0 <= i < nodes.len() implies fault(#[trigger] nodes[i]) is None by {
            if i < rest.len() {
                assert(rest[i] == nodes[i]);
            }
        }
    }
}

// ── Running ─────────────────────────────────────────────────────────────

fn label(value: &Option<ExpressionValue>) -> (name: &'static str)
    ensures
        name@ == type_text(optional(*value)),
{
    match value {
        None => "None",
        Some(v) => v.type_label(),
    }
}

fn one(message: String) -> (errors: Vec<String>)
    ensures
        texts(errors@) == seq![message@],
{
    let mut errors: Vec<String> = Vec::new();
    errors.push(message);
    assert(texts(errors@) =~= seq![message@]);
    errors
}

fn function_error(name: &str, message: &str) -> (errors: Vec<String>)
    ensures
        texts(errors@) == function_fault(name@, message@),
{
    let mut error = text(name);
    push_text(&mut error, ": ");
    push_text(&mut error, message);
    one(error)
}

fn argument_error(name: &str, value: &Option<ExpressionValue>, i: usize) -> (errors: Vec<String>)
    ensures
        texts(errors@) == argument_fault(name@, optional(*value), i as nat),
{
    let mut message = text("Invalid type ");
    push_text(&mut message, label(value));
    push_text(&mut message, " for argument ");
    let number = decimal_text(i as u64);
    push_text(&mut message, number.as_str());
    function_error(name, message.as_str())
}

/// Appends the texts of `more` to `errors`.
fn extend(errors: &mut Vec<String>, more: &Vec<String>)
    ensures
        texts(final(errors)@) == texts(old(errors)@) + texts(more@),
{
    let ghost before = errors@;
    let mut i: usize = 0;
    assert(texts(more@).take(0) =~= seq![]);
    assert(texts(errors@) =~= texts(before) + texts(more@).take(0));
    while i < more.len()
        invariant
            i <= more.len(),
            texts(errors@) == texts(before) + texts(more@).take(i as int),
        decreases more.len() - i,
    {
        let ghost so_far = errors@;
        errors.push(more[i].clone());
        assert(texts(errors@) =~= texts(so_far).push(more@[i as int]@));
        i = i + 1;
        assert(texts(errors@) =~= texts(before) + texts(more@).take(i as int));
    }
    assert(texts(more@).take(i as int) =~= texts(more@));
}

fn finish(errors: Vec<String>, value: ExpressionValue) -> (out: Eval)
    ensures
        outcome(out) == unless_errors(texts(errors@), value.view()),
{
    if errors.len() == 0 {
        Ok(Some(value))
    } else {
        Err(errors)
    }
}

fn compare_ints(a: i64, b: i64) -> (order: Order)
    ensures
        order == order_int(a as int, b as int),
{
    if a < b {
        Order::Less
    } else if a == b {
        Order::Equal
    } else {
        Order::Greater
    }
}

fn comparison_label(function: Function) -> (name: &'static str)
    ensures
        name@ == comparison_name(function),
{
    match function {
        Function::Eq => "eq",
        Function::Neq => "neq",
        Function::Lt => "lt",
        Function::Leq => "leq",
        Function::Gt => "gt",
        _ => "geq",
    }
}

fn holds(function: Function, order: Order) -> (out: bool)
    ensures
        out == comparison_holds(function, order),
{
    match function {
        Function::Eq => matches!(order, Order::Equal),
        Function::Neq => !matches!(order, Order::Equal),
        Function::Lt => matches!(order, Order::Less),
        Function::Leq => !matches!(order, Order::Greater),
        Function::Gt => matches!(order, Order::Greater),
        _ => !matches!(order, Order::Less),
    }
}

fn compare(
    function: Function,
    a: &Option<ExpressionValue>,
    b: &Option<ExpressionValue>,
) -> (out: Eval)
    ensures
        outcome(out) == compared(function, optional(*a), optional(*b)),
{
    let name = comparison_label(function);
    match (a, b) {
        (None, None) => match function {
            Function::Eq => Ok(Some(ExpressionValue::Bool(true))),
            Function::Neq => Ok(Some(ExpressionValue::Bool(false))),
            _ => Err(function_error(name, "Comparison operation not supported for None")),
        },
        (Some(ExpressionValue::String(x)), Some(ExpressionValue::String(y))) => Ok(
            Some(ExpressionValue::Bool(holds(function, compare_text(x.as_str(), y.as_str())))),
        ),
        (Some(ExpressionValue::Int(x)), Some(ExpressionValue::Int(y))) => Ok(
            Some(ExpressionValue::Bool(holds(function, compare_ints(*x, *y)))),
        ),
        (Some(ExpressionValue::Bool(x)), Some(ExpressionValue::Bool(y))) => Ok(
            Some(ExpressionValue::Bool(holds(function, compare_bools(*x, *y)))),
        ),
        _ => {
            if let (Some(x), Some(y)) = (a, b) {
                if x.same_type(y) {
                    return Err(function_error(name, "Unsupported type for comparison"));
                }
            }
            let mut message = text("Cannot compare values of type ");
            push_text(&mut message, label(a));
            push_text(&mut message, " and ");
            push_text(&mut message, label(b));
            Err(function_error(name, message.as_str()))
        },
    }
}

fn find_substring(whole: &str, part: &str) -> (found: bool)
    ensures
        found == has_substring(whole@, part@),
{
    let s = chars_of(whole);
    let t = chars_of(part);
    if t.len() > s.len() {
        return false;
    }
    let last: usize = s.len() - t.len();
    let mut i: usize = 0;
    while i <= last
        invariant
            s@ == whole@,
            t@ == part@,
            last + t.len() == s.len(),
            i <= last + 1,
            last < usize::MAX || i <= last,
            forall|k: int| 0 <= k < i ==> #[trigger] whole@.subrange(k, k + part@.len()) != part@,
        decreases last + 1 - i,
    {
        let mut j: usize = 0;
        while j < t.len() && s[i + j] == t[j]
            invariant
                s@ == whole@,
                t@ == part@,
                last + t.len() == s.len(),
                i <= last,
                j <= t.len(),
                forall|k: int| 0 <= k < j ==> s@[i + k] == t@[k],
            decreases t.len() - j,
        {
            j = j + 1;
        }
        if j == t.len() {
            assert(whole@.subrange(i as int, i + part@.len()) =~= part@);
            return true;
        }
        assert(whole@.subrange(i as int, i + part@.len())[j as int] != part@[j as int]);
        if i == last {
            return false;
        }
        i = i + 1;
    }
    false
}

fn holds_int(list: &Vec<i64>, n: i64) -> (found: bool)
    ensures
        found == list@.contains(n),
{
    let mut i: usize = 0;
    while i < list.len()
        invariant
            i <= list.len(),
            forall|j: int| 0 <= j < i ==> list@[j] != n,
        decreases list.len() - i,
    {
        if list[i] == n {
            return true;
        }
        i = i + 1;
    }
    false
}

fn holds_bool(list: &Vec<bool>, b: bool) -> (found: bool)
    ensures
        found == list@.contains(b),
{
    let mut i: usize = 0;
    while i < list.len()
        invariant
            i <= list.len(),
            forall|j: int| 0 <= j < i ==> list@[j] != b,
        decreases list.len() - i,
    {
        if list[i] == b {
            return true;
        }
        i = i + 1;
    }
    false
}

fn contains(
    search_in: &Option<ExpressionValue>,
    search_for: &Option<ExpressionValue>,
) -> (out: Eval)
    ensures
        outcome(out) == contained(optional(*search_in), optional(*search_for)),
{
    match (search_in, search_for) {
        (Some(ExpressionValue::EmptyList), _) => Ok(Some(ExpressionValue::Bool(false))),
        (Some(ExpressionValue::String(s)), Some(ExpressionValue::String(t))) => Ok(
            Some(ExpressionValue::Bool(find_substring(s.as_str(), t.as_str()))),
        ),
        (Some(ExpressionValue::StringList(l)), Some(ExpressionValue::String(t))) => Ok(
            Some(ExpressionValue::Bool(holds_text(l, t.as_str()))),
        ),
        (Some(ExpressionValue::IntList(l)), Some(ExpressionValue::Int(n))) => Ok(
            Some(ExpressionValue::Bool(holds_int(l, *n))),
        ),
        (Some(ExpressionValue::BoolList(l)), Some(ExpressionValue::Bool(b))) => Ok(
            Some(ExpressionValue::Bool(holds_bool(l, *b))),
        ),
        (Some(ExpressionValue::String(_)), _) => Err(
            function_error("contains", "Invalid search value"),
        ),
        (Some(ExpressionValue::StringList(_)), _) => Err(
            function_error("contains", "Invalid search value"),
        ),
        (Some(ExpressionValue::IntList(_)), _) => Err(
            function_error("contains", "Invalid search value"),
        ),
        (Some(ExpressionValue::BoolList(_)), _) => Err(
            function_error("contains", "Invalid search value"),
        ),
        _ => Err(function_error("contains", "Value to search must be a list or string")),
    }
}

fn find_place(len: usize, index: i64) -> (at: Option<usize>)
    ensures
        match at {
            Some(i) => place(len as nat, index as int) == Some(i as int),
            None => place(len as nat, index as int) is None,
        },
{
    if len as u128 > 0x7fff_ffff_ffff_ffff {
        return None;
    }
    let signed: i64 = len as i64;
    let i: i64 = if index < 0 {
        index + signed
    } else {
        index
    };
    if 0 <= i && i < signed {
        Some(i as usize)
    } else {
        None
    }
}

fn at(source: &Option<ExpressionValue>, index: &Option<ExpressionValue>) -> (out: Eval)
    ensures
        outcome(out) == item_at(optional(*source), optional(*index)),
{
    let index: i64 = match index {
        Some(ExpressionValue::Int(n)) => *n,
        _ => {
            return Err(function_error("at", "Index must be an integer"));
        },
    };
    match source {
        Some(ExpressionValue::String(s)) => {
            let bytes = s.as_str().as_bytes();
            match find_place(bytes.len(), index) {
                Some(i) => {
                    let mut byte: Vec<u8> = Vec::new();
                    byte.push(bytes[i]);
                    assert(byte@ =~= seq![utf8(s@)[i as int]]);
                    Ok(Some(ExpressionValue::String(text_of_bytes(byte.as_slice()))))
                },
                None => Err(function_error("at", "Index out of range")),
            }
        },
        Some(ExpressionValue::StringList(l)) => match find_place(l.len(), index) {
            Some(i) => Ok(Some(ExpressionValue::String(l[i].clone()))),
            None => Err(function_error("at", "Index out of range")),
        },
        Some(ExpressionValue::IntList(l)) => match find_place(l.len(), index) {
            Some(i) => Ok(Some(ExpressionValue::Int(l[i]))),
            None => Err(function_error("at", "Index out of range")),
        },
        Some(ExpressionValue::BoolList(l)) => match find_place(l.len(), index) {
            Some(i) => Ok(Some(ExpressionValue::Bool(l[i]))),
            None => Err(function_error("at", "Index out of range")),
        },
        Some(ExpressionValue::EmptyList) => Err(function_error("at", "Index out of range")),
        _ => Err(function_error("at", "Only supported for lists or strings")),
    }
}

fn clamped(len: usize) -> (n: i64)
    ensures
        n == clamp_len(len as nat),
{
    if len as u128 > 0x7fff_ffff_ffff_ffff {
        i64::MAX
    } else {
        len as i64
    }
}

fn length(source: &Option<ExpressionValue>) -> (out: Eval)
    ensures
        outcome(out) == length_of(optional(*source)),
{
    match source {
        Some(ExpressionValue::String(s)) => Ok(
            Some(ExpressionValue::Int(clamped(s.as_str().as_bytes().len()))),
        ),
        Some(ExpressionValue::StringList(l)) => Ok(Some(ExpressionValue::Int(clamped(l.len())))),
        Some(ExpressionValue::IntList(l)) => Ok(Some(ExpressionValue::Int(clamped(l.len())))),
        Some(ExpressionValue::BoolList(l)) => Ok(Some(ExpressionValue::Int(clamped(l.len())))),
        Some(ExpressionValue::EmptyList) => Ok(Some(ExpressionValue::Int(0))),
        _ => Err(function_error("len", "Unsupported type")),
    }
}

fn negate(value: &Option<ExpressionValue>) -> (out: Eval)
    ensures
        outcome(out) == negated(optional(*value)),
{
    match value {
        Some(ExpressionValue::Bool(b)) => Ok(Some(ExpressionValue::Bool(!*b))),
        _ => {
            let mut message = text("Invalid type ");
            push_text(&mut message, label(value));
            push_text(&mut message, " for argument");
            Err(function_error("not", message.as_str()))
        },
    }
}

fn choose_value(condition: bool, value: Eval, other: Eval) -> (out: Eval)
    ensures
        outcome(out) == chosen(condition, outcome(value), outcome(other)),
{
    if let (Ok(Some(a)), Ok(Some(b))) = (&value, &other) {
        if !a.same_type(b) {
            return Err(
                function_error(
                    "if",
                    "if-value and else-value must evaluate to the same type or None.",
                ),
            );
        }
    }
    if condition {
        value
    } else {
        other
    }
}

fn apply_binary(function: Function, a: Eval, b: Eval) -> (out: Eval)
    ensures
        outcome(out) == binary(function, outcome(a), outcome(b)),
{
    match (a, b) {
        (Ok(a), Ok(b)) => match function {
            Function::Contains => contains(&a, &b),
            Function::MatchesRegex => Err(
                function_error("matches_regex", "regular expressions are not supported"),
            ),
            Function::At => at(&a, &b),
            _ => compare(function, &a, &b),
        },
        (a, b) => {
            let mut errors: Vec<String> = Vec::new();
            assert(texts(errors@) =~= seq![]);
            if let Err(more) = &a {
                extend(&mut errors, more);
            }
            if let Err(more) = &b {
                extend(&mut errors, more);
            }
            assert(texts(errors@) =~= errors_of(outcome(a), outcome(b)));
            Err(errors)
        },
    }
}

/// Appends a scalar to a list; whether it had the type of the others.
fn push_scalar(list: &mut ExpressionValue, value: Option<ExpressionValue>) -> (pushed: bool)
    ensures
        match list_push(old(list).view(), optional(value)) {
            Some(more) => pushed && final(list).view() == more,
            None => !pushed && final(list).view() == old(list).view(),
        },
{
    let mut held = ExpressionValue::EmptyList;
    std::mem::swap(list, &mut held);
    match (held, value) {
        (ExpressionValue::EmptyList, Some(ExpressionValue::String(s))) => {
            *list = ExpressionValue::StringList(one(s));
            true
        },
        (ExpressionValue::EmptyList, Some(ExpressionValue::Int(n))) => {
            let mut l: Vec<i64> = Vec::new();
            l.push(n);
            assert(l@ =~= seq![n]);
            *list = ExpressionValue::IntList(l);
            true
        },
        (ExpressionValue::EmptyList, Some(ExpressionValue::Bool(b))) => {
            let mut l: Vec<bool> = Vec::new();
            l.push(b);
            assert(l@ =~= seq![b]);
            *list = ExpressionValue::BoolList(l);
            true
        },
        (ExpressionValue::StringList(l), Some(ExpressionValue::String(s))) => {
            let mut l = l;
            let ghost before = l@;
            l.push(s);
            assert(texts(l@) =~= texts(before).push(s@));
            *list = ExpressionValue::StringList(l);
            true
        },
        (ExpressionValue::IntList(l), Some(ExpressionValue::Int(n))) => {
            let mut l = l;
            l.push(n);
            *list = ExpressionValue::IntList(l);
            true
        },
        (ExpressionValue::BoolList(l), Some(ExpressionValue::Bool(b))) => {
            let mut l = l;
            l.push(b);
            *list = ExpressionValue::BoolList(l);
            true
        },
        (held, _) => {
            *list = held;
            false
        },
    }
}

/// The value of a variable, if it is set.
fn variable(
    name: &str,
    vars: &ExpressionVariables,
    stack: &Vec<String>,
    used: &mut NameSet,
) -> (out: Option<Eval>)
    requires
        stack_ok(vars@, texts(stack@)),
    ensures
        ({
            let found = lookup(name@, vars@, texts(stack@), old(used)@);
            &&& final(used)@ == found.used
            &&& match out {
                Some(result) => found.result == Some(outcome(result)),
                None => found.result is None,
            }
        }),
    decreases room(vars@, texts(stack@)), 1nat, name@,
{
    if holds_text(stack, name) {
        let mut quoted: Vec<String> = Vec::new();
        let mut i: usize = 0;
        assert(texts(quoted@) =~= quoted_names(texts(stack@)).take(0));
        while i < stack.len()
            invariant
                i <= stack.len(),
                texts(quoted@) == quoted_names(texts(stack@)).take(i as int),
            decreases stack.len() - i,
        {
            let mut entry = text("'");
            push_text(&mut entry, stack[i].as_str());
            push_text(&mut entry, "'");
            let ghost before = quoted@;
            quoted.push(entry);
            assert(texts(quoted@) =~= texts(before).push(entry@));
            i = i + 1;
            assert(texts(quoted@) =~= quoted_names(texts(stack@)).take(i as int));
        }
        assert(quoted_names(texts(stack@)).take(i as int) =~= quoted_names(texts(stack@)));
        let mut message = text("Encountered circular variable substitutions: [");
        let chain = join(&quoted, ", ");
        push_text(&mut message, chain.as_str());
        push_text(&mut message, ", '");
        push_text(&mut message, name);
        push_text(&mut message, "']");
        return Some(Err(one(message)));
    }
    used.insert(name);
    match vars.get(name) {
        None => None,
        Some(VariableValue::NoValue) => Some(Ok(None)),
        Some(VariableValue::Unsupported(label)) => {
            let mut message = text("Variable '");
            push_text(&mut message, name);
            push_text(&mut message, "' has unsupported type ");
            push_text(&mut message, label.as_str());
            Some(Err(one(message)))
        },
        Some(VariableValue::Value(value)) => {
            if let ExpressionValue::String(s) = value {
                if is_expression(s.as_str()) {
                    return match parse_expression(s.as_str()) {
                        Err(error) => {
                            let mut message = error;
                            push_text(&mut message, " (in variable '");
                            push_text(&mut message, name);
                            push_text(&mut message, "')");
                            Some(Err(one(message)))
                        },
                        Ok(root) => {
                            let mut inner = copy_texts(stack);
                            let ghost before = inner@;
                            inner.push(text(name));
                            proof {
                                assert(texts(inner@) =~= texts(stack@).push(name@));
                                lemma_room(vars@, texts(stack@), name@);
                                lemma_parsed_faultless(utf8(s@));
                            }
                            Some(evaluate(&root, vars, &inner, used))
                        },
                    };
                }
            }
            Some(Ok(Some(value.copy())))
        },
    }
}

/// What parses has no fault.
pub proof fn lemma_parsed_faultless(s: Seq<u8>)
    ensures
        said_expression(s) is Ok ==> fault(said_expression(s)->Ok_0) is None,
{
}

fn evaluate_parts(
    parts: &Vec<Part>,
    vars: &ExpressionVariables,
    stack: &Vec<String>,
    used: &mut NameSet,
) -> (out: Eval)
    requires
        stack_ok(vars@, texts(stack@)),
    ensures
        ({
            let expected = eval_parts(
                parts_of(parts@),
                seq![],
                vars@,
                texts(stack@),
                old(used)@,
            );
            outcome(out) == expected.result && final(used)@ == expected.used
        }),
    decreases room(vars@, texts(stack@)), 2nat, parts,
{
    let ghost all = parts_of(parts@);
    let ghost expected = eval_parts(all, seq![], vars@, texts(stack@), used@);
    let mut result = String::new();
    let mut i: usize = 0;
    assert(all.skip(0) =~= all);
    while i < parts.len()
        invariant
            i <= parts.len(),
            all == parts_of(parts@),
            stack_ok(vars@, texts(stack@)),
            expected == eval_parts(all, seq![], vars@, texts(stack@), old(used)@),
            expected == eval_parts(all.skip(i as int), result@, vars@, texts(stack@), used@),
        decreases parts.len() - i,
    {
        assert(all.skip(i as int).drop_first() =~= all.skip(i + 1));
        assert(all.skip(i as int)[0] == parts@[i as int].view());
        match &parts[i] {
            Part::Text(run) => {
                push_text(&mut result, run.as_str());
            },
            Part::Variable(name) => match variable(name.as_str(), vars, stack, used) {
                None => {
                    push_text(&mut result, name.as_str());
                },
                Some(Err(errors)) => {
                    return Err(errors);
                },
                Some(Ok(None)) => {},
                Some(Ok(Some(ExpressionValue::String(s)))) => {
                    push_text(&mut result, s.as_str());
                },
                Some(Ok(Some(other))) => {
                    let mut message = text("String value required for substituting variable '");
                    push_text(&mut message, name.as_str());
                    push_text(&mut message, "', got ");
                    push_text(&mut message, other.type_label());
                    push_text(&mut message, ".");
                    return Err(one(message));
                },
            },
        }
        i = i + 1;
    }
    Ok(Some(ExpressionValue::String(result)))
}

fn evaluate_list(
    items: &Vec<Node>,
    vars: &ExpressionVariables,
    stack: &Vec<String>,
    used: &mut NameSet,
) -> (out: Eval)
    requires
        stack_ok(vars@, texts(stack@)),
        last_fault(nodes_of(items@)) is None,
    ensures
        ({
            let all = eval_each(nodes_of(items@), vars@, texts(stack@), old(used)@);
            let made = listed(all.results);
            outcome(out) == unless_errors(made.errors, made.list) && final(used)@ == all.used
        }),
    decreases room(vars@, texts(stack@)), 3nat, items,
{
    let ghost nodes = nodes_of(items@);
    let ghost first = used@;
    proof {
        lemma_nodes_len(items@);
        lemma_no_fault(nodes);
    }
    let mut list = ExpressionValue::EmptyList;
    let mut errors: Vec<String> = Vec::new();
    let mut i: usize = 0;
    assert(texts(errors@) =~= seq![]);
    assert(nodes.take(0) =~= seq![]);
    while i < items.len()
        invariant
            i <= items.len(),
            nodes == nodes_of(items@),
            nodes.len() == items@.len(),
            forall|j: int|
                0 <= j < items@.len() ==> #[trigger] nodes[j] == items@[j].view() && fault(
                    nodes[j],
                ) is None,
            stack_ok(vars@, texts(stack@)),
            ({
                let all = eval_each(nodes.take(i as int), vars@, texts(stack@), first);
                let made = listed(all.results);
                &&& all.results.len() == i
                &&& used@ == all.used
                &&& list.view() == made.list
                &&& texts(errors@) == made.errors
            }),
        decreases items.len() - i,
    {
        let ghost before = eval_each(nodes.take(i as int), vars@, texts(stack@), first);
        let ghost after = eval_each(nodes.take(i + 1), vars@, texts(stack@), first);
        let ghost so_far = errors@;
        assert(nodes.take(i + 1).drop_last() =~= nodes.take(i as int));
        assert(nodes.take(i + 1).last() == nodes[i as int]);
        match evaluate(&items[i], vars, stack, used) {
            Err(more) => {
                assert(after.results.drop_last() =~= before.results);
                extend(&mut errors, &more);
            },
            Ok(value) => {
                assert(after.results.drop_last() =~= before.results);
                let found = label(&value);
                if !push_scalar(&mut list, value) {
                    let mut message = text("Unexpected value of type ");
                    push_text(&mut message, found);
                    push_text(&mut message, " in list at element ");
                    let number = decimal_text(i as u64);
                    push_text(&mut message, number.as_str());
                    errors.push(message);
                    assert(texts(errors@) =~= texts(so_far).push(message@));
                }
            },
        }
        i = i + 1;
    }
    assert(nodes.take(i as int) =~= nodes);
    finish(errors, list)
}

fn evaluate_logical(
    name: &str,
    args: &Vec<Node>,
    stop_at: bool,
    vars: &ExpressionVariables,
    stack: &Vec<String>,
    used: &mut NameSet,
) -> (out: Eval)
    requires
        stack_ok(vars@, texts(stack@)),
        last_fault(nodes_of(args@)) is None,
    ensures
        ({
            let expected = eval_logical(
                name@,
                nodes_of(args@),
                0,
                stop_at,
                seq![],
                vars@,
                texts(stack@),
                old(used)@,
            );
            outcome(out) == expected.result && final(used)@ == expected.used
        }),
    decreases room(vars@, texts(stack@)), 3nat, args,
{
    let ghost nodes = nodes_of(args@);
    let ghost expected = eval_logical(
        name@,
        nodes,
        0,
        stop_at,
        seq![],
        vars@,
        texts(stack@),
        used@,
    );
    proof {
        lemma_nodes_len(args@);
        lemma_no_fault(nodes);
    }
    let mut errors: Vec<String> = Vec::new();
    let mut i: usize = 0;
    assert(texts(errors@) =~= seq![]);
    assert(nodes.skip(0) =~= nodes);
    while i < args.len()
        invariant
            i <= args.len(),
            nodes == nodes_of(args@),
            nodes.len() == args@.len(),
            forall|j: int|
                0 <= j < args@.len() ==> #[trigger] nodes[j] == args@[j].view() && fault(
                    nodes[j],
                ) is None,
            stack_ok(vars@, texts(stack@)),
            expected == eval_logical(
                name@,
                nodes,
                0,
                stop_at,
                seq![],
                vars@,
                texts(stack@),
                old(used)@,
            ),
            expected == eval_logical(
                name@,
                nodes.skip(i as int),
                i as nat,
                stop_at,
                texts(errors@),
                vars@,
                texts(stack@),
                used@,
            ),
        decreases args.len() - i,
    {
        assert(nodes.skip(i as int).drop_first() =~= nodes.skip(i + 1));
        assert(nodes.skip(i as int)[0] == nodes[i as int]);
        match evaluate(&args[i], vars, stack, used) {
            Err(more) => {
                extend(&mut errors, &more);
            },
            Ok(value) => {
                if let Some(ExpressionValue::Bool(b)) = &value {
                    if *b == stop_at {
                        return finish(errors, ExpressionValue::Bool(*b));
                    }
                } else {
                    let more = argument_error(name, &value, i);
                    extend(&mut errors, &more);
                }
            },
        }
        i = i + 1;
    }
    finish(errors, ExpressionValue::Bool(!stop_at))
}

fn evaluate_defined(
    args: &Vec<Node>,
    vars: &ExpressionVariables,
    stack: &Vec<String>,
    used: &mut NameSet,
) -> (out: Eval)
    requires
        stack_ok(vars@, texts(stack@)),
        last_fault(nodes_of(args@)) is None,
    ensures
        ({
            let expected = eval_defined(
                nodes_of(args@),
                0,
                true,
                seq![],
                vars@,
                texts(stack@),
                old(used)@,
            );
            outcome(out) == expected.result && final(used)@ == expected.used
        }),
    decreases room(vars@, texts(stack@)), 3nat, args,
{
    let ghost nodes = nodes_of(args@);
    let ghost expected = eval_defined(nodes, 0, true, seq![], vars@, texts(stack@), used@);
    proof {
        lemma_nodes_len(args@);
        lemma_no_fault(nodes);
    }
    let mut defined = true;
    let mut errors: Vec<String> = Vec::new();
    let mut i: usize = 0;
    assert(texts(errors@) =~= seq![]);
    assert(nodes.skip(0) =~= nodes);
    while i < args.len()
        invariant
            i <= args.len(),
            nodes == nodes_of(args@),
            nodes.len() == args@.len(),
            forall|j: int|
                0 <= j < args@.len() ==> #[trigger] nodes[j] == args@[j].view() && fault(
                    nodes[j],
                ) is None,
            stack_ok(vars@, texts(stack@)),
            expected == eval_defined(
                nodes.skip(i as int),
                i as nat,
                defined,
                texts(errors@),
                vars@,
                texts(stack@),
                used@,
            ),
        decreases args.len() - i,
    {
        assert(nodes.skip(i as int).drop_first() =~= nodes.skip(i + 1));
        assert(nodes.skip(i as int)[0] == nodes[i as int]);
        match evaluate(&args[i], vars, stack, used) {
            Err(more) => {
                extend(&mut errors, &more);
            },
            Ok(value) => {
                if let Some(ExpressionValue::String(name)) = &value {
                    used.insert(name.as_str());
                    if vars.get(name.as_str()).is_none() {
                        defined = false;
                    }
                } else {
                    let more = argument_error("defined", &value, i);
                    extend(&mut errors, &more);
                }
            },
        }
        i = i + 1;
    }
    finish(errors, ExpressionValue::Bool(defined))
}

fn evaluate_if(
    args: &Vec<Node>,
    vars: &ExpressionVariables,
    stack: &Vec<String>,
    used: &mut NameSet,
) -> (out: Eval)
    requires
        stack_ok(vars@, texts(stack@)),
        last_fault(nodes_of(args@)) is None,
        args@.len() == 2 || args@.len() == 3,
    ensures
        ({
            let expected = eval(
                NodeView::Call("if"@, nodes_of(args@)),
                vars@,
                texts(stack@),
                old(used)@,
            );
            outcome(out) == expected.result && final(used)@ == expected.used
        }),
    decreases room(vars@, texts(stack@)), 3nat, args,
{
    let ghost nodes = nodes_of(args@);
    proof {
        lemma_nodes_len(args@);
        lemma_no_fault(nodes);
        assert(nodes[0] == args@[0].view());
        assert(nodes[1] == args@[1].view());
    }
    match evaluate(&args[0], vars, stack, used) {
        Err(errors) => Err(errors),
        Ok(condition) => {
            if let Some(ExpressionValue::Bool(condition)) = condition {
                let value = evaluate(&args[1], vars, stack, used);
                if args.len() == 3 {
                    assert(nodes[2] == args@[2].view());
                    let other = evaluate(&args[2], vars, stack, used);
                    choose_value(condition, value, other)
                } else {
                    choose_value(condition, value, Ok(None))
                }
            } else {
                Err(function_error("if", "Condition must be a boolean value"))
            }
        },
    }
}

/// Evaluates a node; `stack` names the variables being evaluated.
pub fn evaluate(
    node: &Node,
    vars: &ExpressionVariables,
    stack: &Vec<String>,
    used: &mut NameSet,
) -> (out: Eval)
    requires
        fault(node.view()) is None,
        stack_ok(vars@, texts(stack@)),
    ensures
        ({
            let expected = eval(node.view(), vars@, texts(stack@), old(used)@);
            outcome(out) == expected.result && final(used)@ == expected.used
        }),
    decreases room(vars@, texts(stack@)), 3nat, node,
{
    match node {
        Node::Int(n) => Ok(Some(ExpressionValue::Int(*n))),
        Node::Bool(b) => Ok(Some(ExpressionValue::Bool(*b))),
        Node::Nothing => Ok(None),
        Node::Text(parts) => evaluate_parts(parts, vars, stack, used),
        Node::Variable(name) => match variable(name.as_str(), vars, stack, used) {
            Some(result) => result,
            None => {
                let mut message = text("No value for variable '");
                push_text(&mut message, name.as_str());
                push_text(&mut message, "'");
                Err(one(message))
            },
        },
        Node::List(items) => evaluate_list(items, vars, stack, used),
        Node::Call(name, args) => {
            let ghost nodes = nodes_of(args@);
            proof {
                lemma_nodes_len(args@);
                lemma_no_fault(nodes);
            }
            let function = match find_function(name.as_str()) {
                Some(function) => function,
                None => {
                    return Err(Vec::new());
                },
            };
            assert(arity_fault(name@, function, nodes.len()) is None);
            match function {
                Function::And => evaluate_logical("and", args, false, vars, stack, used),
                Function::Or => evaluate_logical("or", args, true, vars, stack, used),
                Function::Defined => evaluate_defined(args, vars, stack, used),
                Function::If => evaluate_if(args, vars, stack, used),
                Function::Not => {
                    assert(nodes[0] == args@[0].view());
                    match evaluate(&args[0], vars, stack, used) {
                        Err(errors) => Err(errors),
                        Ok(value) => negate(&value),
                    }
                },
                Function::Len => {
                    assert(nodes[0] == args@[0].view());
                    match evaluate(&args[0], vars, stack, used) {
                        Err(errors) => Err(errors),
                        Ok(value) => length(&value),
                    }
                },
                _ => {
                    assert(nodes[0] == args@[0].view());
                    assert(nodes[1] == args@[1].view());
                    let a = evaluate(&args[0], vars, stack, used);
                    let b = evaluate(&args[1], vars, stack, used);
                    apply_binary(function, a, b)
                },
            }
        },
    }
}

} // verus!
