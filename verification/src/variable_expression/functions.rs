//! What the functions and the texts of expressions come to.

use crate::text::utf8;
use crate::variable_expression::evaluate::{
    eval, eval_defined, eval_each, eval_logical, eval_parts, listed, lookup, Evaled,
};
use crate::variable_expression::grammar::{function_named, Function};
use crate::variable_expression::{is_expression_text, NodeView, PartView, Val, VariableView};
use crate::order::law_texts_order_by_their_first_difference;
use vstd::prelude::*;

verus! {

/// Each function is called by its name.
pub proof fn law_functions_have_their_names()
    ensures
        function_named("if"@) == Some(Function::If),
        function_named("eq"@) == Some(Function::Eq),
        function_named("neq"@) == Some(Function::Neq),
        function_named("lt"@) == Some(Function::Lt),
        function_named("leq"@) == Some(Function::Leq),
        function_named("gt"@) == Some(Function::Gt),
        function_named("geq"@) == Some(Function::Geq),
        function_named("contains"@) == Some(Function::Contains),
        function_named("matches_regex"@) == Some(Function::MatchesRegex),
        function_named("at"@) == Some(Function::At),
        function_named("not"@) == Some(Function::Not),
        function_named("len"@) == Some(Function::Len),
        function_named("and"@) == Some(Function::And),
        function_named("or"@) == Some(Function::Or),
        function_named("defined"@) == Some(Function::Defined),
{
    reveal_strlit("if");
    reveal_strlit("eq");
    reveal_strlit("neq");
    reveal_strlit("lt");
    reveal_strlit("leq");
    reveal_strlit("gt");
    reveal_strlit("geq");
    reveal_strlit("contains");
    reveal_strlit("matches_regex");
    reveal_strlit("at");
    reveal_strlit("not");
    reveal_strlit("len");
    reveal_strlit("and");
    reveal_strlit("or");
    reveal_strlit("defined");
    assert("if"@.len() == 2 && "eq"@.len() == 2 && "neq"@.len() == 3 && "lt"@.len() == 2 && "leq"@.len() == 3 && "gt"@.len() == 2 && "geq"@.len() == 3 && "contains"@.len() == 8 && "matches_regex"@.len() == 13 && "at"@.len() == 2 && "not"@.len() == 3 && "len"@.len() == 3 && "and"@.len() == 3 && "or"@.len() == 2 && "defined"@.len() == 7);
    assert("if"@[0] == 'i' && "eq"@[0] == 'e' && "lt"@[0] == 'l' && "gt"@[0] == 'g' && "at"@[0] == 'a' && "or"@[0] == 'o');
    assert("neq"@[0] == 'n' && "leq"@[0] == 'l' && "geq"@[0] == 'g' && "not"@[0] == 'n' && "len"@[0] == 'l' && "and"@[0] == 'a');
    assert("neq"@[1] == 'e' && "leq"@[1] == 'e' && "geq"@[1] == 'e' && "not"@[1] == 'o' && "len"@[1] == 'e' && "and"@[1] == 'n');
    assert("neq"@[2] == 'q' && "leq"@[2] == 'q' && "geq"@[2] == 'q' && "not"@[2] == 't' && "len"@[2] == 'n' && "and"@[2] == 'd');
}

// ── Functions ───────────────────────────────────────────────────────────

/// `not` of a truth value is the other one.
pub proof fn law_not_is_the_other_truth_value(
    args: Seq<NodeView>,
    vars: Map<Seq<char>, VariableView>,
    stack: Seq<Seq<char>>,
    used: Set<Seq<char>>,
    b: bool,
)
    requires
        args.len() == 1,
        eval(args[0], vars, stack, used).result == Ok::<Option<Val>, Seq<Seq<char>>>(
            Some(Val::Bool(b)),
        ),
    ensures
        eval(NodeView::Call("not"@, args), vars, stack, used).result == Ok::<
            Option<Val>,
            Seq<Seq<char>>,
        >(Some(Val::Bool(!b))),
{
    law_functions_have_their_names();
}

/// `if` comes to its second argument where the first is true, and else to the
/// third, or to nothing where there is none; the two are of one type, or one is
/// nothing.
pub proof fn law_if_chooses(
    args: Seq<NodeView>,
    vars: Map<Seq<char>, VariableView>,
    stack: Seq<Seq<char>>,
    used: Set<Seq<char>>,
    b: bool,
    value: Option<Val>,
    other: Option<Val>,
)
    requires
        args.len() == 3,
        eval(args[0], vars, stack, used).result == Ok::<Option<Val>, Seq<Seq<char>>>(
            Some(Val::Bool(b)),
        ),
        ({
            let first = eval(args[0], vars, stack, used);
            let second = eval(args[1], vars, stack, first.used);
            let third = eval(args[2], vars, stack, second.used);
            &&& second.result == Ok::<Option<Val>, Seq<Seq<char>>>(value)
            &&& third.result == Ok::<Option<Val>, Seq<Seq<char>>>(other)
        }),
        value is Some && other is Some ==> {
            ||| value->0 is Text && other->0 is Text
            ||| value->0 is Int && other->0 is Int
            ||| value->0 is Bool && other->0 is Bool
            ||| value->0 is Texts && other->0 is Texts
            ||| value->0 is Ints && other->0 is Ints
            ||| value->0 is Bools && other->0 is Bools
        },
    ensures
        eval(NodeView::Call("if"@, args), vars, stack, used).result == Ok::<
            Option<Val>,
            Seq<Seq<char>>,
        >(
            if b {
                value
            } else {
                other
            },
        ),
        eval(NodeView::Call("if"@, args.take(2)), vars, stack, used).result == Ok::<
            Option<Val>,
            Seq<Seq<char>>,
        >(
            if b {
                value
            } else {
                None
            },
        ),
{
    law_functions_have_their_names();
    assert(args.take(2)[0] == args[0]);
    assert(args.take(2)[1] == args[1]);
}

/// Integers compare as integers do.
pub proof fn law_integers_compare(
    args: Seq<NodeView>,
    vars: Map<Seq<char>, VariableView>,
    stack: Seq<Seq<char>>,
    used: Set<Seq<char>>,
    x: i64,
    y: i64,
)
    requires
        args.len() == 2,
        eval(args[0], vars, stack, used).result == Ok::<Option<Val>, Seq<Seq<char>>>(
            Some(Val::Int(x)),
        ),
        eval(args[1], vars, stack, eval(args[0], vars, stack, used).used).result == Ok::<
            Option<Val>,
            Seq<Seq<char>>,
        >(Some(Val::Int(y))),
    ensures
        comes_to_bool(eval(NodeView::Call("eq"@, args), vars, stack, used), x == y),
        comes_to_bool(eval(NodeView::Call("neq"@, args), vars, stack, used), x != y),
        comes_to_bool(eval(NodeView::Call("lt"@, args), vars, stack, used), x < y),
        comes_to_bool(eval(NodeView::Call("leq"@, args), vars, stack, used), x <= y),
        comes_to_bool(eval(NodeView::Call("gt"@, args), vars, stack, used), x > y),
        comes_to_bool(eval(NodeView::Call("geq"@, args), vars, stack, used), x >= y),
{
    law_functions_have_their_names();
}

/// Whether an evaluation comes to a truth value.
pub open spec fn comes_to_bool(eval: Evaled, b: bool) -> bool {
    eval.result == Ok::<Option<Val>, Seq<Seq<char>>>(Some(Val::Bool(b)))
}

/// Truth values compare with false before true.
pub proof fn law_truth_values_compare(
    args: Seq<NodeView>,
    vars: Map<Seq<char>, VariableView>,
    stack: Seq<Seq<char>>,
    used: Set<Seq<char>>,
    x: bool,
    y: bool,
)
    requires
        args.len() == 2,
        comes_to_bool(eval(args[0], vars, stack, used), x),
        comes_to_bool(eval(args[1], vars, stack, eval(args[0], vars, stack, used).used), y),
    ensures
        comes_to_bool(eval(NodeView::Call("eq"@, args), vars, stack, used), x == y),
        comes_to_bool(eval(NodeView::Call("neq"@, args), vars, stack, used), x != y),
        comes_to_bool(eval(NodeView::Call("lt"@, args), vars, stack, used), !x && y),
        comes_to_bool(eval(NodeView::Call("leq"@, args), vars, stack, used), !x || y),
        comes_to_bool(eval(NodeView::Call("gt"@, args), vars, stack, used), x && !y),
        comes_to_bool(eval(NodeView::Call("geq"@, args), vars, stack, used), x || !y),
{
    law_functions_have_their_names();
}

/// Texts compare by the first place at which they differ, a text before those
/// that go on from it.
pub proof fn law_texts_compare(
    args: Seq<NodeView>,
    vars: Map<Seq<char>, VariableView>,
    stack: Seq<Seq<char>>,
    used: Set<Seq<char>>,
    x: Seq<char>,
    y: Seq<char>,
    k: int,
)
    requires
        args.len() == 2,
        eval(args[0], vars, stack, used).result == Ok::<Option<Val>, Seq<Seq<char>>>(
            Some(Val::Text(x)),
        ),
        eval(args[1], vars, stack, eval(args[0], vars, stack, used).used).result == Ok::<
            Option<Val>,
            Seq<Seq<char>>,
        >(Some(Val::Text(y))),
        0 <= k <= x.len(),
        k <= y.len(),
        forall|i: int| 0 <= i < k ==> x[i] == y[i],
        k == x.len() || k == y.len() || x[k] != y[k],
    ensures
        ({
            let less = k < y.len() && (k == x.len() || x[k] < y[k]);
            let same = k == x.len() && k == y.len();
            &&& comes_to_bool(eval(NodeView::Call("eq"@, args), vars, stack, used), same)
            &&& comes_to_bool(eval(NodeView::Call("neq"@, args), vars, stack, used), !same)
            &&& comes_to_bool(eval(NodeView::Call("lt"@, args), vars, stack, used), less)
            &&& comes_to_bool(eval(NodeView::Call("leq"@, args), vars, stack, used), less || same)
            &&& comes_to_bool(
                eval(NodeView::Call("gt"@, args), vars, stack, used),
                !less && !same,
            )
            &&& comes_to_bool(eval(NodeView::Call("geq"@, args), vars, stack, used), !less)
        }),
{
    law_functions_have_their_names();
    law_texts_order_by_their_first_difference(x, y, k);
}

/// Only nothing equals nothing, and values of different types do not compare.
pub proof fn law_other_pairs_do_not_compare(
    args: Seq<NodeView>,
    vars: Map<Seq<char>, VariableView>,
    stack: Seq<Seq<char>>,
    used: Set<Seq<char>>,
    x: Option<Val>,
    y: Option<Val>,
)
    requires
        args.len() == 2,
        eval(args[0], vars, stack, used).result == Ok::<Option<Val>, Seq<Seq<char>>>(x),
        eval(args[1], vars, stack, eval(args[0], vars, stack, used).used).result == Ok::<
            Option<Val>,
            Seq<Seq<char>>,
        >(y),
        !(x is Some && y is Some && (x->0 is Text && y->0 is Text || x->0 is Int && y->0 is Int
            || x->0 is Bool && y->0 is Bool)),
    ensures
        x is None && y is None ==> {
            &&& comes_to_bool(eval(NodeView::Call("eq"@, args), vars, stack, used), true)
            &&& comes_to_bool(eval(NodeView::Call("neq"@, args), vars, stack, used), false)
        },
        x is Some || y is Some ==> {
            &&& eval(NodeView::Call("eq"@, args), vars, stack, used).result is Err
            &&& eval(NodeView::Call("neq"@, args), vars, stack, used).result is Err
        },
        eval(NodeView::Call("lt"@, args), vars, stack, used).result is Err,
        eval(NodeView::Call("leq"@, args), vars, stack, used).result is Err,
        eval(NodeView::Call("gt"@, args), vars, stack, used).result is Err,
        eval(NodeView::Call("geq"@, args), vars, stack, used).result is Err,
{
    law_functions_have_their_names();
}

/// `contains` finds a text within a text, and an item of its type in a list;
/// the empty list contains nothing.
pub proof fn law_contains_finds_what_is_there(
    args: Seq<NodeView>,
    vars: Map<Seq<char>, VariableView>,
    stack: Seq<Seq<char>>,
    used: Set<Seq<char>>,
    whole: Val,
    part: Val,
)
    requires
        args.len() == 2,
        eval(args[0], vars, stack, used).result == Ok::<Option<Val>, Seq<Seq<char>>>(Some(whole)),
        eval(args[1], vars, stack, eval(args[0], vars, stack, used).used).result == Ok::<
            Option<Val>,
            Seq<Seq<char>>,
        >(Some(part)),
    ensures
        ({
            let found = eval(NodeView::Call("contains"@, args), vars, stack, used);
            match (whole, part) {
                (Val::Text(s), Val::Text(t)) => comes_to_bool(
                    found,
                    exists|i: int|
                        0 <= i <= s.len() - t.len() && #[trigger] s.subrange(i, i + t.len()) == t,
                ),
                (Val::Texts(l), Val::Text(t)) => comes_to_bool(
                    found,
                    exists|i: int| 0 <= i < l.len() && #[trigger] l[i] == t,
                ),
                (Val::Ints(l), Val::Int(n)) => comes_to_bool(
                    found,
                    exists|i: int| 0 <= i < l.len() && #[trigger] l[i] == n,
                ),
                (Val::Bools(l), Val::Bool(b)) => comes_to_bool(
                    found,
                    exists|i: int| 0 <= i < l.len() && #[trigger] l[i] == b,
                ),
                (Val::EmptyList, _) => comes_to_bool(found, false),
                _ => found.result is Err,
            }
        }),
{
    law_functions_have_their_names();
}

/// `at` reads the item at a place, counted from the end where it is negative,
/// and no item where there is none.
pub proof fn law_at_reads_the_item(
    args: Seq<NodeView>,
    vars: Map<Seq<char>, VariableView>,
    stack: Seq<Seq<char>>,
    used: Set<Seq<char>>,
    items: Seq<i64>,
    index: i64,
)
    requires
        args.len() == 2,
        items.len() <= i64::MAX,
        eval(args[0], vars, stack, used).result == Ok::<Option<Val>, Seq<Seq<char>>>(
            Some(Val::Ints(items)),
        ),
        eval(args[1], vars, stack, eval(args[0], vars, stack, used).used).result == Ok::<
            Option<Val>,
            Seq<Seq<char>>,
        >(Some(Val::Int(index))),
    ensures
        ({
            let found = eval(NodeView::Call("at"@, args), vars, stack, used).result;
            &&& 0 <= index < items.len() ==> found == Ok::<Option<Val>, Seq<Seq<char>>>(
                Some(Val::Int(items[index as int])),
            )
            &&& -items.len() <= index < 0 ==> found == Ok::<Option<Val>, Seq<Seq<char>>>(
                Some(Val::Int(items[items.len() + index])),
            )
            &&& index >= items.len() || index < -items.len() ==> found is Err
        }),
{
    law_functions_have_their_names();
}

/// `at` reads the texts and the truth values of lists as it reads integers.
pub proof fn law_at_reads_other_items(
    args: Seq<NodeView>,
    vars: Map<Seq<char>, VariableView>,
    stack: Seq<Seq<char>>,
    used: Set<Seq<char>>,
    list: Val,
    index: i64,
)
    requires
        args.len() == 2,
        list is Texts || list is Bools,
        list is Texts ==> list->Texts_0.len() <= i64::MAX,
        list is Bools ==> list->Bools_0.len() <= i64::MAX,
        eval(args[0], vars, stack, used).result == Ok::<Option<Val>, Seq<Seq<char>>>(Some(list)),
        eval(args[1], vars, stack, eval(args[0], vars, stack, used).used).result == Ok::<
            Option<Val>,
            Seq<Seq<char>>,
        >(Some(Val::Int(index))),
    ensures
        ({
            let found = eval(NodeView::Call("at"@, args), vars, stack, used).result;
            let n = if list is Texts {
                list->Texts_0.len() as int
            } else {
                list->Bools_0.len() as int
            };
            let at = if index < 0 {
                n + index
            } else {
                index as int
            };
            &&& 0 <= at < n && list is Texts ==> found == Ok::<Option<Val>, Seq<Seq<char>>>(
                Some(Val::Text(list->Texts_0[at])),
            )
            &&& 0 <= at < n && list is Bools ==> found == Ok::<Option<Val>, Seq<Seq<char>>>(
                Some(Val::Bool(list->Bools_0[at])),
            )
            &&& !(0 <= at < n) ==> found is Err
        }),
{
    law_functions_have_their_names();
}

/// `len` counts the bytes of a text and the items of a list.
pub proof fn law_len_counts(
    args: Seq<NodeView>,
    vars: Map<Seq<char>, VariableView>,
    stack: Seq<Seq<char>>,
    used: Set<Seq<char>>,
    value: Val,
)
    requires
        args.len() == 1,
        eval(args[0], vars, stack, used).result == Ok::<Option<Val>, Seq<Seq<char>>>(Some(value)),
    ensures
        ({
            let found = eval(NodeView::Call("len"@, args), vars, stack, used).result;
            let n: int = match value {
                Val::Text(s) => utf8(s).len() as int,
                Val::Texts(l) => l.len() as int,
                Val::Ints(l) => l.len() as int,
                Val::Bools(l) => l.len() as int,
                Val::EmptyList => 0,
                _ => -1,
            };
            &&& 0 <= n <= i64::MAX ==> found == Ok::<Option<Val>, Seq<Seq<char>>>(
                Some(Val::Int(n as i64)),
            )
            &&& n < 0 ==> found is Err
        }),
{
    law_functions_have_their_names();
}

// ── Any number of arguments ─────────────────────────────────────────────

proof fn lemma_logical(
    name: Seq<char>,
    args: Seq<NodeView>,
    i: nat,
    stop_at: bool,
    vars: Map<Seq<char>, VariableView>,
    stack: Seq<Seq<char>>,
    used: Set<Seq<char>>,
    bits: Seq<bool>,
)
    requires
        bits.len() == args.len(),
        forall|k: int, u: Set<Seq<char>>|
            0 <= k < args.len() ==> comes_to_bool(#[trigger] eval(args[k], vars, stack, u), bits[k]),
    ensures
        comes_to_bool(
            eval_logical(name, args, i, stop_at, seq![], vars, stack, used),
            if exists|k: int| 0 <= k < bits.len() && #[trigger] bits[k] == stop_at {
                stop_at
            } else {
                !stop_at
            },
        ),
    decreases args.len(),
{
    if args.len() > 0 {
        let arg = eval(args[0], vars, stack, used);
        assert(comes_to_bool(eval(args[0], vars, stack, used), bits[0]));
        if bits[0] != stop_at {
            let rest = args.drop_first();
            let others = bits.drop_first();
            assert forall|k: int, u: Set<Seq<char>>| 0 <= k < rest.len() implies comes_to_bool(
                #[trigger] eval(rest[k], vars, stack, u),
                others[k],
            ) by {
                assert(rest[k] == args[k + 1]);
                assert(comes_to_bool(eval(args[k + 1], vars, stack, u), bits[k + 1]));
            }
            lemma_logical(name, rest, i + 1, stop_at, vars, stack, arg.used, others);
            if exists|k: int| 0 <= k < bits.len() && #[trigger] bits[k] == stop_at {
                let k = choose|k: int| 0 <= k < bits.len() && #[trigger] bits[k] == stop_at;
                assert(others[k - 1] == stop_at);
            }
            if exists|k: int| 0 <= k < others.len() && #[trigger] others[k] == stop_at {
                let k = choose|k: int| 0 <= k < others.len() && #[trigger] others[k] == stop_at;
                assert(bits[k + 1] == stop_at);
            }
        }
    }
}

/// `and` is true where every argument is, and `or` where some argument is,
/// whatever the number of arguments.
pub proof fn law_and_or(
    args: Seq<NodeView>,
    vars: Map<Seq<char>, VariableView>,
    stack: Seq<Seq<char>>,
    used: Set<Seq<char>>,
    bits: Seq<bool>,
)
    requires
        bits.len() == args.len(),
        forall|k: int, u: Set<Seq<char>>|
            0 <= k < args.len() ==> comes_to_bool(#[trigger] eval(args[k], vars, stack, u), bits[k]),
    ensures
        comes_to_bool(
            eval(NodeView::Call("and"@, args), vars, stack, used),
            forall|k: int| 0 <= k < bits.len() ==> #[trigger] bits[k],
        ),
        comes_to_bool(
            eval(NodeView::Call("or"@, args), vars, stack, used),
            exists|k: int| 0 <= k < bits.len() && #[trigger] bits[k],
        ),
{
    law_functions_have_their_names();
    lemma_logical("and"@, args, 0, false, vars, stack, used, bits);
    lemma_logical("or"@, args, 0, true, vars, stack, used, bits);
    let all = forall|k: int| 0 <= k < bits.len() ==> #[trigger] bits[k];
    if all {
        assert(!exists|k: int| 0 <= k < bits.len() && #[trigger] bits[k] == false);
    } else {
        let k = choose|k: int| 0 <= k < bits.len() && !(#[trigger] bits[k]);
        assert(bits[k] == false);
    }
    if exists|k: int| 0 <= k < bits.len() && #[trigger] bits[k] {
        let k = choose|k: int| 0 <= k < bits.len() && #[trigger] bits[k];
        assert(bits[k] == true);
    } else {
        assert(!exists|k: int| 0 <= k < bits.len() && #[trigger] bits[k] == true);
    }
}

proof fn lemma_defined(
    args: Seq<NodeView>,
    i: nat,
    so_far: bool,
    vars: Map<Seq<char>, VariableView>,
    stack: Seq<Seq<char>>,
    used: Set<Seq<char>>,
    names: Seq<Seq<char>>,
)
    requires
        names.len() == args.len(),
        forall|k: int, u: Set<Seq<char>>|
            0 <= k < args.len() ==> (#[trigger] eval(args[k], vars, stack, u)).result == Ok::<
                Option<Val>,
                Seq<Seq<char>>,
            >(Some(Val::Text(names[k]))),
    ensures
        comes_to_bool(
            eval_defined(args, i, so_far, seq![], vars, stack, used),
            so_far && forall|k: int|
                0 <= k < names.len() ==> vars.dom().contains(#[trigger] names[k]),
        ),
    decreases args.len(),
{
    if args.len() > 0 {
        let arg = eval(args[0], vars, stack, used);
        assert(eval(args[0], vars, stack, used).result == Ok::<Option<Val>, Seq<Seq<char>>>(
            Some(Val::Text(names[0])),
        ));
        let rest = args.drop_first();
        let others = names.drop_first();
        let next = so_far && vars.dom().contains(names[0]);
        assert forall|k: int, u: Set<Seq<char>>| 0 <= k < rest.len() implies (
        #[trigger] eval(rest[k], vars, stack, u)).result == Ok::<Option<Val>, Seq<Seq<char>>>(
            Some(Val::Text(others[k])),
        ) by {
            assert(rest[k] == args[k + 1]);
            assert(eval(args[k + 1], vars, stack, u).result == Ok::<Option<Val>, Seq<Seq<char>>>(
                Some(Val::Text(names[k + 1])),
            ));
        }
        lemma_defined(rest, i + 1, next, vars, stack, arg.used.insert(names[0]), others);
        let all = forall|k: int| 0 <= k < names.len() ==> vars.dom().contains(#[trigger] names[k]);
        let tail = forall|k: int|
            0 <= k < others.len() ==> vars.dom().contains(#[trigger] others[k]);
        if all {
            assert forall|k: int| 0 <= k < others.len() implies vars.dom().contains(
                #[trigger] others[k],
            ) by {
                assert(names[k + 1] == others[k]);
            }
            assert(vars.dom().contains(names[0]));
        }
        if tail && vars.dom().contains(names[0]) {
            assert forall|k: int| 0 <= k < names.len() implies vars.dom().contains(
                #[trigger] names[k],
            ) by {
                if k > 0 {
                    assert(others[k - 1] == names[k]);
                }
            }
        }
    }
}

/// `defined` is true where every name is that of a variable.
pub proof fn law_defined_asks_for_every_name(
    args: Seq<NodeView>,
    vars: Map<Seq<char>, VariableView>,
    stack: Seq<Seq<char>>,
    used: Set<Seq<char>>,
    names: Seq<Seq<char>>,
)
    requires
        names.len() == args.len(),
        forall|k: int, u: Set<Seq<char>>|
            0 <= k < args.len() ==> (#[trigger] eval(args[k], vars, stack, u)).result == Ok::<
                Option<Val>,
                Seq<Seq<char>>,
            >(Some(Val::Text(names[k]))),
    ensures
        comes_to_bool(
            eval(NodeView::Call("defined"@, args), vars, stack, used),
            forall|k: int| 0 <= k < names.len() ==> vars.dom().contains(#[trigger] names[k]),
        ),
{
    law_functions_have_their_names();
    lemma_defined(args, 0, true, vars, stack, used, names);
}

// ── Lists ───────────────────────────────────────────────────────────────

proof fn lemma_ints(
    items: Seq<NodeView>,
    vars: Map<Seq<char>, VariableView>,
    stack: Seq<Seq<char>>,
    used: Set<Seq<char>>,
    values: Seq<i64>,
)
    requires
        values.len() == items.len(),
        forall|k: int, u: Set<Seq<char>>|
            0 <= k < items.len() ==> (#[trigger] eval(items[k], vars, stack, u)).result == Ok::<
                Option<Val>,
                Seq<Seq<char>>,
            >(Some(Val::Int(values[k]))),
    ensures
        ({
            let made = listed(eval_each(items, vars, stack, used).results);
            &&& made.errors.len() == 0
            &&& made.list == (if items.len() == 0 {
                Val::EmptyList
            } else {
                Val::Ints(values)
            })
        }),
    decreases items.len(),
{
    if items.len() > 0 {
        let rest = items.drop_last();
        let others = values.drop_last();
        assert forall|k: int, u: Set<Seq<char>>| 0 <= k < rest.len() implies (
        #[trigger] eval(rest[k], vars, stack, u)).result == Ok::<Option<Val>, Seq<Seq<char>>>(
            Some(Val::Int(others[k])),
        ) by {
            assert(rest[k] == items[k]);
            assert(eval(items[k], vars, stack, u).result == Ok::<Option<Val>, Seq<Seq<char>>>(
                Some(Val::Int(values[k])),
            ));
        }
        lemma_ints(rest, vars, stack, used, others);
        let before = eval_each(rest, vars, stack, used);
        let n = items.len() - 1;
        assert(eval(items[n], vars, stack, before.used).result == Ok::<
            Option<Val>,
            Seq<Seq<char>>,
        >(Some(Val::Int(values[n]))));
        let all = eval_each(items, vars, stack, used).results;
        assert(all.drop_last() =~= before.results);
        assert(others.push(values[n]) =~= values);
        if n == 0 {
            assert(seq![values[n]] =~= values);
        }
    }
}

proof fn lemma_texts(
    items: Seq<NodeView>,
    vars: Map<Seq<char>, VariableView>,
    stack: Seq<Seq<char>>,
    used: Set<Seq<char>>,
    values: Seq<Seq<char>>,
)
    requires
        values.len() == items.len(),
        forall|k: int, u: Set<Seq<char>>|
            0 <= k < items.len() ==> (#[trigger] eval(items[k], vars, stack, u)).result == Ok::<
                Option<Val>,
                Seq<Seq<char>>,
            >(Some(Val::Text(values[k]))),
    ensures
        ({
            let made = listed(eval_each(items, vars, stack, used).results);
            &&& made.errors.len() == 0
            &&& made.list == (if items.len() == 0 {
                Val::EmptyList
            } else {
                Val::Texts(values)
            })
        }),
    decreases items.len(),
{
    if items.len() > 0 {
        let rest = items.drop_last();
        let others = values.drop_last();
        assert forall|k: int, u: Set<Seq<char>>| 0 <= k < rest.len() implies (
        #[trigger] eval(rest[k], vars, stack, u)).result == Ok::<Option<Val>, Seq<Seq<char>>>(
            Some(Val::Text(others[k])),
        ) by {
            assert(rest[k] == items[k]);
            assert(eval(items[k], vars, stack, u).result == Ok::<Option<Val>, Seq<Seq<char>>>(
                Some(Val::Text(values[k])),
            ));
        }
        lemma_texts(rest, vars, stack, used, others);
        let before = eval_each(rest, vars, stack, used);
        let n = items.len() - 1;
        assert(eval(items[n], vars, stack, before.used).result == Ok::<
            Option<Val>,
            Seq<Seq<char>>,
        >(Some(Val::Text(values[n]))));
        let all = eval_each(items, vars, stack, used).results;
        assert(all.drop_last() =~= before.results);
        assert(others.push(values[n]) =~= values);
        if n == 0 {
            assert(seq![values[n]] =~= values);
        }
    }
}

/// A list of integers comes to its integers, and a list of texts to its texts,
/// in order; a list without items to the empty list.
pub proof fn law_lists_hold_their_items(
    items: Seq<NodeView>,
    vars: Map<Seq<char>, VariableView>,
    stack: Seq<Seq<char>>,
    used: Set<Seq<char>>,
    ints: Seq<i64>,
    texts: Seq<Seq<char>>,
)
    ensures
        items.len() > 0 && ints.len() == items.len() && (forall|k: int, u: Set<Seq<char>>|
            0 <= k < items.len() ==> (#[trigger] eval(items[k], vars, stack, u)).result == Ok::<
                Option<Val>,
                Seq<Seq<char>>,
            >(Some(Val::Int(ints[k])))) ==> eval(
            NodeView::List(items),
            vars,
            stack,
            used,
        ).result == Ok::<Option<Val>, Seq<Seq<char>>>(Some(Val::Ints(ints))),
        items.len() > 0 && texts.len() == items.len() && (forall|k: int, u: Set<Seq<char>>|
            0 <= k < items.len() ==> (#[trigger] eval(items[k], vars, stack, u)).result == Ok::<
                Option<Val>,
                Seq<Seq<char>>,
            >(Some(Val::Text(texts[k])))) ==> eval(
            NodeView::List(items),
            vars,
            stack,
            used,
        ).result == Ok::<Option<Val>, Seq<Seq<char>>>(Some(Val::Texts(texts))),
        items.len() == 0 ==> eval(NodeView::List(items), vars, stack, used).result == Ok::<
            Option<Val>,
            Seq<Seq<char>>,
        >(Some(Val::EmptyList)),
{
    if ints.len() == items.len() && (forall|k: int, u: Set<Seq<char>>|
        0 <= k < items.len() ==> (#[trigger] eval(items[k], vars, stack, u)).result == Ok::<
            Option<Val>,
            Seq<Seq<char>>,
        >(Some(Val::Int(ints[k])))) {
        lemma_ints(items, vars, stack, used, ints);
    }
    if texts.len() == items.len() && (forall|k: int, u: Set<Seq<char>>|
        0 <= k < items.len() ==> (#[trigger] eval(items[k], vars, stack, u)).result == Ok::<
            Option<Val>,
            Seq<Seq<char>>,
        >(Some(Val::Text(texts[k])))) {
        lemma_texts(items, vars, stack, used, texts);
    }
    if items.len() == 0 {
        let none = eval_each(items, vars, stack, used).results;
        assert(none.len() == 0);
        assert(listed(none).list == Val::EmptyList);
    }
}

// ── Texts and variables ─────────────────────────────────────────────────

proof fn lemma_parts_behind(
    parts: Seq<PartView>,
    out: Seq<char>,
    vars: Map<Seq<char>, VariableView>,
    stack: Seq<Seq<char>>,
    used: Set<Seq<char>>,
    more: Seq<char>,
)
    ensures
        eval_parts(parts, out + more, vars, stack, used).result == (match eval_parts(
            parts,
            more,
            vars,
            stack,
            used,
        ).result {
            Ok(Some(Val::Text(t))) => Ok(Some(Val::Text(out + t))),
            other => other,
        }),
    decreases parts.len(),
{
    if parts.len() > 0 {
        let rest = parts.drop_first();
        match parts[0] {
            PartView::Text(run) => {
                assert((out + more) + run =~= out + (more + run));
                lemma_parts_behind(rest, out, vars, stack, used, more + run);
            },
            PartView::Variable(name) => {
                let found = lookup(name, vars, stack, used);
                match found.result {
                    None => {
                        assert((out + more) + name =~= out + (more + name));
                        lemma_parts_behind(rest, out, vars, stack, found.used, more + name);
                    },
                    Some(Ok(None)) => {
                        lemma_parts_behind(rest, out, vars, stack, found.used, more);
                    },
                    Some(Ok(Some(Val::Text(s)))) => {
                        assert((out + more) + s =~= out + (more + s));
                        lemma_parts_behind(rest, out, vars, stack, found.used, more + s);
                    },
                    _ => {},
                }
            },
        }
    }
}

/// A text is its parts one after another: a run stands for itself, and a
/// variable for the text that it stands for.
pub proof fn law_a_text_is_its_parts(
    first: PartView,
    rest: Seq<PartView>,
    vars: Map<Seq<char>, VariableView>,
    stack: Seq<Seq<char>>,
    used: Set<Seq<char>>,
    head: Seq<char>,
    tail: Seq<char>,
)
    requires
        match first {
            PartView::Text(run) => run == head && eval(
                NodeView::Text(rest),
                vars,
                stack,
                used,
            ).result == Ok::<Option<Val>, Seq<Seq<char>>>(Some(Val::Text(tail))),
            PartView::Variable(name) => {
                &&& lookup(name, vars, stack, used).result == Some(
                    Ok::<Option<Val>, Seq<Seq<char>>>(Some(Val::Text(head))),
                )
                &&& eval(
                    NodeView::Text(rest),
                    vars,
                    stack,
                    lookup(name, vars, stack, used).used,
                ).result == Ok::<Option<Val>, Seq<Seq<char>>>(Some(Val::Text(tail)))
            },
        },
    ensures
        eval(NodeView::Text(seq![first] + rest), vars, stack, used).result == Ok::<
            Option<Val>,
            Seq<Seq<char>>,
        >(Some(Val::Text(head + tail))),
        eval(NodeView::Text(seq![]), vars, stack, used).result == Ok::<
            Option<Val>,
            Seq<Seq<char>>,
        >(Some(Val::Text(seq![]))),
{
    let parts = seq![first] + rest;
    assert(parts.drop_first() =~= rest);
    assert(parts[0] == first);
    assert(seq![] + head =~= head);
    assert(head + seq![] =~= head);
    let next = match first {
        PartView::Text(_) => used,
        PartView::Variable(name) => lookup(name, vars, stack, used).used,
    };
    lemma_parts_behind(rest, head, vars, stack, next, seq![]);
    assert(eval(NodeView::Text(rest), vars, stack, next) == eval_parts(
        rest,
        seq![],
        vars,
        stack,
        next,
    ));
    assert(eval_parts(parts, seq![], vars, stack, used) == eval_parts(
        rest,
        head,
        vars,
        stack,
        next,
    ));
    assert(eval_parts(seq![], seq![], vars, stack, used).result == Ok::<
        Option<Val>,
        Seq<Seq<char>>,
    >(Some(Val::Text(seq![]))));
}

/// A variable comes to its value, unless that is itself an expression; one
/// without a value to nothing; one that is not set, or that is being looked up,
/// to an error.
pub proof fn law_a_variable_comes_to_its_value(
    name: Seq<char>,
    vars: Map<Seq<char>, VariableView>,
    stack: Seq<Seq<char>>,
    used: Set<Seq<char>>,
)
    ensures
        ({
            let found = eval(NodeView::Variable(name), vars, stack, used);
            &&& stack.contains(name) || !vars.dom().contains(name) ==> found.result is Err
            &&& !stack.contains(name) && vars.dom().contains(name) ==> {
                &&& vars[name] matches VariableView::Value(value) ==> (!(value is Text)
                    || !is_expression_text(value->Text_0)) ==> found.result == Ok::<
                    Option<Val>,
                    Seq<Seq<char>>,
                >(Some(value))
                &&& vars[name] is NoValue ==> found.result == Ok::<Option<Val>, Seq<Seq<char>>>(
                    None,
                )
                &&& vars[name] is Unsupported ==> found.result is Err
            }
        }),
{
    let looked = lookup(name, vars, stack, used);
    assert(eval(NodeView::Variable(name), vars, stack, used).used == looked.used);
}

} // verus!
