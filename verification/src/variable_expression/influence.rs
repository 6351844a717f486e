//! Which variables can influence an expression.

use crate::text::utf8;
use crate::variable_expression::evaluate::{
    argument_fault, eval, eval_defined, eval_each, eval_logical, eval_parts, lemma_empty_stack,
    lemma_room, lookup, room, stack_ok,
};
use crate::variable_expression::grammar::{function_named, said_expression, Function};
use crate::variable_expression::{
    expression_value, is_expression_text, NodeView, PartView, Val, VariableView,
};
use vstd::prelude::*;

verus! {

/// Whether two sets of variables agree on some names.
pub open spec fn agree(
    a: Map<Seq<char>, VariableView>,
    b: Map<Seq<char>, VariableView>,
    names: Set<Seq<char>>,
) -> bool {
    forall|name: Seq<char>| #[trigger]
        names.contains(name) ==> {
            &&& a.dom().contains(name) == b.dom().contains(name)
            &&& a.dom().contains(name) ==> a[name] == b[name]
        }
}

proof fn lemma_eval(
    node: NodeView,
    a: Map<Seq<char>, VariableView>,
    b: Map<Seq<char>, VariableView>,
    stack: Seq<Seq<char>>,
    used: Set<Seq<char>>,
)
    requires
        stack_ok(a, stack),
        stack_ok(b, stack),
    ensures
        used.subset_of(eval(node, a, stack, used).used),
        agree(a, b, eval(node, a, stack, used).used) ==> eval(node, b, stack, used) == eval(
            node,
            a,
            stack,
            used,
        ),
    decreases room(a, stack), 3nat, node,
{
    match node {
        NodeView::Int(n) => {},
        NodeView::Bool(b) => {},
        NodeView::Nothing => {},
        NodeView::Text(parts) => {
            lemma_parts(parts, seq![], a, b, stack, used);
        },
        NodeView::Variable(name) => {
            lemma_lookup(name, a, b, stack, used);
        },
        NodeView::List(items) => {
            lemma_each(items, a, b, stack, used);
        },
        NodeView::Call(name, args) => match function_named(name) {
            None => {},
            Some(Function::And) => {
                lemma_logical("and"@, args, 0, false, seq![], a, b, stack, used);
            },
            Some(Function::Or) => {
                lemma_logical("or"@, args, 0, true, seq![], a, b, stack, used);
            },
            Some(Function::Defined) => {
                lemma_defined(args, 0, true, seq![], a, b, stack, used);
            },
            Some(Function::If) => {
                if args.len() >= 2 {
                    let condition = eval(args[0], a, stack, used);
                    lemma_eval(args[0], a, b, stack, used);
                    lemma_eval(args[1], a, b, stack, condition.used);
                    if args.len() > 2 {
                        let value = eval(args[1], a, stack, condition.used);
                        lemma_eval(args[2], a, b, stack, value.used);
                    }
                }
            },
            Some(Function::Not) => {
                if args.len() >= 1 {
                    lemma_eval(args[0], a, b, stack, used);
                }
            },
            Some(Function::Len) => {
                if args.len() >= 1 {
                    lemma_eval(args[0], a, b, stack, used);
                }
            },
            Some(function) => {
                if args.len() >= 2 {
                    lemma_eval(args[0], a, b, stack, used);
                    lemma_eval(args[1], a, b, stack, eval(args[0], a, stack, used).used);
                }
            },
        },
    }
}

proof fn lemma_lookup(
    name: Seq<char>,
    a: Map<Seq<char>, VariableView>,
    b: Map<Seq<char>, VariableView>,
    stack: Seq<Seq<char>>,
    used: Set<Seq<char>>,
)
    requires
        stack_ok(a, stack),
        stack_ok(b, stack),
    ensures
        used.subset_of(lookup(name, a, stack, used).used),
        agree(a, b, lookup(name, a, stack, used).used) ==> lookup(name, b, stack, used) == lookup(
            name,
            a,
            stack,
            used,
        ),
    decreases room(a, stack), 1nat, name,
{
    let found = lookup(name, a, stack, used);
    let looked = used.insert(name);
    if !stack.contains(name) && a.dom().contains(name) {
        lemma_room(a, stack, name);
        match a[name] {
            VariableView::Value(Val::Text(s)) => {
                if is_expression_text(s) {
                    match said_expression(utf8(s)) {
                        Ok(root) => {
                            let more = stack.push(name);
                            if b.dom().contains(name) {
                                lemma_room(b, stack, name);
                                lemma_eval(root, a, b, more, looked);
                            } else {
                                lemma_eval(root, a, a, more, looked);
                            }
                            assert(found.used.contains(name)) by {
                                assert(looked.contains(name));
                            }
                        },
                        Err(_) => {},
                    }
                }
            },
            _ => {},
        }
    }
    if !stack.contains(name) {
        assert(looked.contains(name));
        assert(found.used.contains(name));
    }
}

proof fn lemma_parts(
    parts: Seq<PartView>,
    out: Seq<char>,
    a: Map<Seq<char>, VariableView>,
    b: Map<Seq<char>, VariableView>,
    stack: Seq<Seq<char>>,
    used: Set<Seq<char>>,
)
    requires
        stack_ok(a, stack),
        stack_ok(b, stack),
    ensures
        used.subset_of(eval_parts(parts, out, a, stack, used).used),
        agree(a, b, eval_parts(parts, out, a, stack, used).used) ==> eval_parts(
            parts,
            out,
            b,
            stack,
            used,
        ) == eval_parts(parts, out, a, stack, used),
    decreases room(a, stack), 2nat, parts,
{
    if parts.len() > 0 {
        let rest = parts.drop_first();
        match parts[0] {
            PartView::Text(run) => {
                lemma_parts(rest, out + run, a, b, stack, used);
            },
            PartView::Variable(name) => {
                let found = lookup(name, a, stack, used);
                lemma_lookup(name, a, b, stack, used);
                match found.result {
                    None => {
                        lemma_parts(rest, out + name, a, b, stack, found.used);
                    },
                    Some(Ok(None)) => {
                        lemma_parts(rest, out, a, b, stack, found.used);
                    },
                    Some(Ok(Some(Val::Text(s)))) => {
                        lemma_parts(rest, out + s, a, b, stack, found.used);
                    },
                    _ => {},
                }
            },
        }
    }
}

proof fn lemma_each(
    nodes: Seq<NodeView>,
    a: Map<Seq<char>, VariableView>,
    b: Map<Seq<char>, VariableView>,
    stack: Seq<Seq<char>>,
    used: Set<Seq<char>>,
)
    requires
        stack_ok(a, stack),
        stack_ok(b, stack),
    ensures
        used.subset_of(eval_each(nodes, a, stack, used).used),
        agree(a, b, eval_each(nodes, a, stack, used).used) ==> eval_each(nodes, b, stack, used)
            == eval_each(nodes, a, stack, used),
    decreases room(a, stack), 3nat, nodes,
{
    if nodes.len() > 0 {
        let before = eval_each(nodes.drop_last(), a, stack, used);
        lemma_each(nodes.drop_last(), a, b, stack, used);
        lemma_eval(nodes.last(), a, b, stack, before.used);
    }
}

proof fn lemma_logical(
    name: Seq<char>,
    args: Seq<NodeView>,
    i: nat,
    stop_at: bool,
    errors: Seq<Seq<char>>,
    a: Map<Seq<char>, VariableView>,
    b: Map<Seq<char>, VariableView>,
    stack: Seq<Seq<char>>,
    used: Set<Seq<char>>,
)
    requires
        stack_ok(a, stack),
        stack_ok(b, stack),
    ensures
        used.subset_of(eval_logical(name, args, i, stop_at, errors, a, stack, used).used),
        agree(a, b, eval_logical(name, args, i, stop_at, errors, a, stack, used).used)
            ==> eval_logical(name, args, i, stop_at, errors, b, stack, used) == eval_logical(
            name,
            args,
            i,
            stop_at,
            errors,
            a,
            stack,
            used,
        ),
    decreases room(a, stack), 3nat, args,
{
    if args.len() > 0 {
        let arg = eval(args[0], a, stack, used);
        let rest = args.drop_first();
        lemma_eval(args[0], a, b, stack, used);
        match arg.result {
            Err(more) => {
                lemma_logical(name, rest, i + 1, stop_at, errors + more, a, b, stack, arg.used);
            },
            Ok(value) => match value {
                Some(Val::Bool(_)) => {
                    lemma_logical(name, rest, i + 1, stop_at, errors, a, b, stack, arg.used);
                },
                other => {
                    let more = errors + argument_fault(name, other, i);
                    lemma_logical(name, rest, i + 1, stop_at, more, a, b, stack, arg.used);
                },
            },
        }
    }
}

proof fn lemma_defined(
    args: Seq<NodeView>,
    i: nat,
    defined: bool,
    errors: Seq<Seq<char>>,
    a: Map<Seq<char>, VariableView>,
    b: Map<Seq<char>, VariableView>,
    stack: Seq<Seq<char>>,
    used: Set<Seq<char>>,
)
    requires
        stack_ok(a, stack),
        stack_ok(b, stack),
    ensures
        used.subset_of(eval_defined(args, i, defined, errors, a, stack, used).used),
        agree(a, b, eval_defined(args, i, defined, errors, a, stack, used).used) ==> eval_defined(
            args,
            i,
            defined,
            errors,
            b,
            stack,
            used,
        ) == eval_defined(args, i, defined, errors, a, stack, used),
    decreases room(a, stack), 3nat, args,
{
    if args.len() > 0 {
        let all = eval_defined(args, i, defined, errors, a, stack, used);
        let arg = eval(args[0], a, stack, used);
        let rest = args.drop_first();
        lemma_eval(args[0], a, b, stack, used);
        match arg.result {
            Err(more) => {
                lemma_defined(rest, i + 1, defined, errors + more, a, b, stack, arg.used);
            },
            Ok(value) => match value {
                Some(Val::Text(name)) => {
                    let known = defined && a.dom().contains(name);
                    let looked = arg.used.insert(name);
                    lemma_defined(rest, i + 1, known, errors, a, b, stack, looked);
                    assert(looked.contains(name));
                    assert(all.used.contains(name));
                    if agree(a, b, all.used) {
                        assert(arg.used.subset_of(looked));
                        assert(agree(a, b, arg.used));
                        assert(known == (defined && b.dom().contains(name)));
                    }
                },
                other => {
                    let more = errors + argument_fault("defined"@, other, i);
                    lemma_defined(rest, i + 1, defined, more, a, b, stack, arg.used);
                },
            },
        }
    }
}

/// Only the variables that an evaluation reports as used can influence it:
/// variables that agree on these give the same value, the same errors and the
/// same used variables.
pub proof fn law_only_used_variables_matter(
    source: Seq<char>,
    a: Map<Seq<char>, VariableView>,
    b: Map<Seq<char>, VariableView>,
)
    requires
        a.dom().finite(),
        b.dom().finite(),
        agree(a, b, expression_value(source, a).used),
    ensures
        expression_value(source, b) == expression_value(source, a),
{
    match said_expression(utf8(source)) {
        Ok(root) => {
            lemma_empty_stack(a);
            lemma_empty_stack(b);
            lemma_eval(root, a, b, seq![], Set::empty());
        },
        Err(_) => {},
    }
}

} // verus!
