//! Rewriting the leaves of a value.
//!
//! The leaves of a value are what it holds besides arrays, dictionaries and
//! sparse array edits: the value itself, or what stands in its items, its
//! entries and the literals of its edits, at any depth.

use crate::doc::{
    entries_view, lemma_entries_push, lemma_ops_push, lemma_values_push, ops_view, value_option,
    values_view, ArrayEdit, EditOp, EditOperand, OpView, OperandView, Value, ValueView,
};
use vstd::prelude::*;

verus! {

// ── Leaves ──────────────────────────────────────────────────────────────

/// Whether a leaf of a value is hit.
pub open spec fn any_leaf(value: ValueView, hit: spec_fn(ValueView) -> bool) -> bool
    decreases value,
{
    match value {
        ValueView::Array(items) => any_item(items, hit),
        ValueView::Dictionary(entries) => any_entry(entries, hit),
        ValueView::ArrayEdit(ops) => any_op(ops, hit),
        _ => hit(value),
    }
}

/// Whether a leaf of a list of values is hit.
pub open spec fn any_item(items: Seq<ValueView>, hit: spec_fn(ValueView) -> bool) -> bool
    decreases items,
{
    items.len() > 0 && (any_item(items.drop_last(), hit) || any_leaf(items.last(), hit))
}

/// Whether a leaf of a list of entries is hit.
pub open spec fn any_entry(
    entries: Seq<(Seq<char>, ValueView)>,
    hit: spec_fn(ValueView) -> bool,
) -> bool
    decreases entries,
{
    entries.len() > 0 && (any_entry(entries.drop_last(), hit) || any_leaf(entries.last().1, hit))
}

/// Whether a leaf of an operand is hit.
pub open spec fn operand_leaf(src: OperandView, hit: spec_fn(ValueView) -> bool) -> bool
    decreases src,
{
    match src {
        OperandView::Literal(value) => any_leaf(value, hit),
        OperandView::CopyFrom(_) => false,
    }
}

/// Whether a leaf of an instruction is hit.
pub open spec fn op_leaf(op: OpView, hit: spec_fn(ValueView) -> bool) -> bool
    decreases op,
{
    match op {
        OpView::Write { src, .. } => operand_leaf(src, hit),
        OpView::Insert { src, .. } => operand_leaf(src, hit),
        OpView::MinSizeFill { fill, .. } => any_leaf(fill, hit),
        OpView::ResizeFill { fill, .. } => any_leaf(fill, hit),
        _ => false,
    }
}

/// Whether a leaf of a program is hit.
pub open spec fn any_op(ops: Seq<OpView>, hit: spec_fn(ValueView) -> bool) -> bool
    decreases ops,
{
    ops.len() > 0 && (any_op(ops.drop_last(), hit) || op_leaf(ops.last(), hit))
}

/// The leaves that a rule rewrites.
pub open spec fn rewritten_by(rule: spec_fn(ValueView) -> Option<ValueView>) -> spec_fn(
    ValueView,
) -> bool {
    |value: ValueView| rule(value) is Some
}

/// A value with its leaves rewritten; a leaf for which the rule has nothing
/// stays as it is.
pub open spec fn rewritten(
    value: ValueView,
    rule: spec_fn(ValueView) -> Option<ValueView>,
) -> ValueView
    decreases value,
{
    match value {
        ValueView::Array(items) => ValueView::Array(items_rewritten(items, rule)),
        ValueView::Dictionary(entries) => ValueView::Dictionary(entries_rewritten(entries, rule)),
        ValueView::ArrayEdit(ops) => ValueView::ArrayEdit(ops_rewritten(ops, rule)),
        _ => match rule(value) {
            Some(leaf) => leaf,
            None => value,
        },
    }
}

/// A list of values with their leaves rewritten.
pub open spec fn items_rewritten(
    items: Seq<ValueView>,
    rule: spec_fn(ValueView) -> Option<ValueView>,
) -> Seq<ValueView>
    decreases items,
{
    if items.len() == 0 {
        seq![]
    } else {
        items_rewritten(items.drop_last(), rule).push(rewritten(items.last(), rule))
    }
}

/// A list of entries with their leaves rewritten.
pub open spec fn entries_rewritten(
    entries: Seq<(Seq<char>, ValueView)>,
    rule: spec_fn(ValueView) -> Option<ValueView>,
) -> Seq<(Seq<char>, ValueView)>
    decreases entries,
{
    if entries.len() == 0 {
        seq![]
    } else {
        entries_rewritten(entries.drop_last(), rule).push(
            (entries.last().0, rewritten(entries.last().1, rule)),
        )
    }
}

/// An operand with its leaves rewritten.
pub open spec fn operand_rewritten(
    src: OperandView,
    rule: spec_fn(ValueView) -> Option<ValueView>,
) -> OperandView
    decreases src,
{
    match src {
        OperandView::Literal(value) => OperandView::Literal(rewritten(value, rule)),
        OperandView::CopyFrom(index) => OperandView::CopyFrom(index),
    }
}

/// An instruction with its leaves rewritten.
pub open spec fn op_rewritten(
    op: OpView,
    rule: spec_fn(ValueView) -> Option<ValueView>,
) -> OpView
    decreases op,
{
    match op {
        OpView::Write { src, index } => OpView::Write { src: operand_rewritten(src, rule), index },
        OpView::Insert { src, index } => OpView::Insert {
            src: operand_rewritten(src, rule),
            index,
        },
        OpView::MinSizeFill { len, fill } => OpView::MinSizeFill {
            len,
            fill: rewritten(fill, rule),
        },
        OpView::ResizeFill { len, fill } => OpView::ResizeFill {
            len,
            fill: rewritten(fill, rule),
        },
        _ => op,
    }
}

/// A program with its leaves rewritten.
pub open spec fn ops_rewritten(
    ops: Seq<OpView>,
    rule: spec_fn(ValueView) -> Option<ValueView>,
) -> Seq<OpView>
    decreases ops,
{
    if ops.len() == 0 {
        seq![]
    } else {
        ops_rewritten(ops.drop_last(), rule).push(op_rewritten(ops.last(), rule))
    }
}

// ── What stays ──────────────────────────────────────────────────────────

/// A value none of whose leaves a rule rewrites stays as it is.
pub proof fn lemma_unwritten(value: ValueView, rule: spec_fn(ValueView) -> Option<ValueView>)
    ensures
        any_leaf(value, rewritten_by(rule)) || rewritten(value, rule) == value,
        any_leaf(value, rewritten_by(rule)) ==> exists|leaf: ValueView| #[trigger]
            rule(leaf) is Some,
    decreases value,
{
    match value {
        ValueView::Array(items) => {
            lemma_items_unwritten(items, rule);
        },
        ValueView::Dictionary(entries) => {
            lemma_entries_unwritten(entries, rule);
        },
        ValueView::ArrayEdit(ops) => {
            lemma_ops_unwritten(ops, rule);
        },
        _ => {},
    }
}

proof fn lemma_items_unwritten(
    items: Seq<ValueView>,
    rule: spec_fn(ValueView) -> Option<ValueView>,
)
    ensures
        any_item(items, rewritten_by(rule)) || items_rewritten(items, rule) == items,
        any_item(items, rewritten_by(rule)) ==> exists|leaf: ValueView| #[trigger]
            rule(leaf) is Some,
    decreases items,
{
    if items.len() > 0 {
        lemma_items_unwritten(items.drop_last(), rule);
        lemma_unwritten(items.last(), rule);
        assert(items.drop_last().push(items.last()) =~= items);
    } else {
        assert(items_rewritten(items, rule) =~= items);
    }
}

proof fn lemma_entries_unwritten(
    entries: Seq<(Seq<char>, ValueView)>,
    rule: spec_fn(ValueView) -> Option<ValueView>,
)
    ensures
        any_entry(entries, rewritten_by(rule)) || entries_rewritten(entries, rule) == entries,
        any_entry(entries, rewritten_by(rule)) ==> exists|leaf: ValueView| #[trigger]
            rule(leaf) is Some,
    decreases entries,
{
    if entries.len() > 0 {
        lemma_entries_unwritten(entries.drop_last(), rule);
        lemma_unwritten(entries.last().1, rule);
        assert(entries.drop_last().push(entries.last()) =~= entries);
    } else {
        assert(entries_rewritten(entries, rule) =~= entries);
    }
}

proof fn lemma_operand_unwritten(src: OperandView, rule: spec_fn(ValueView) -> Option<ValueView>)
    ensures
        operand_leaf(src, rewritten_by(rule)) || operand_rewritten(src, rule) == src,
        operand_leaf(src, rewritten_by(rule)) ==> exists|leaf: ValueView| #[trigger]
            rule(leaf) is Some,
    decreases src,
{
    match src {
        OperandView::Literal(value) => {
            lemma_unwritten(value, rule);
        },
        OperandView::CopyFrom(_) => {},
    }
}

proof fn lemma_op_unwritten(op: OpView, rule: spec_fn(ValueView) -> Option<ValueView>)
    ensures
        op_leaf(op, rewritten_by(rule)) || op_rewritten(op, rule) == op,
        op_leaf(op, rewritten_by(rule)) ==> exists|leaf: ValueView| #[trigger]
            rule(leaf) is Some,
    decreases op,
{
    match op {
        OpView::Write { src, .. } => {
            lemma_operand_unwritten(src, rule);
        },
        OpView::Insert { src, .. } => {
            lemma_operand_unwritten(src, rule);
        },
        OpView::MinSizeFill { fill, .. } => {
            lemma_unwritten(fill, rule);
        },
        OpView::ResizeFill { fill, .. } => {
            lemma_unwritten(fill, rule);
        },
        _ => {},
    }
}

proof fn lemma_ops_unwritten(ops: Seq<OpView>, rule: spec_fn(ValueView) -> Option<ValueView>)
    ensures
        any_op(ops, rewritten_by(rule)) || ops_rewritten(ops, rule) == ops,
        any_op(ops, rewritten_by(rule)) ==> exists|leaf: ValueView| #[trigger]
            rule(leaf) is Some,
    decreases ops,
{
    if ops.len() > 0 {
        lemma_ops_unwritten(ops.drop_last(), rule);
        lemma_op_unwritten(ops.last(), rule);
        assert(ops.drop_last().push(ops.last()) =~= ops);
    } else {
        assert(ops_rewritten(ops, rule) =~= ops);
    }
}

// ── Rewriting ───────────────────────────────────────────────────────────

/// Whether a function rewrites a leaf as a rule says.
pub open spec fn follows<F: Fn(&Value) -> Option<Value>>(
    leaf: F,
    rule: spec_fn(ValueView) -> Option<ValueView>,
) -> bool {
    &&& forall|value: &Value| #[trigger] call_requires(leaf, (value,))
    &&& forall|value: &Value, out: Option<Value>| #[trigger]
        call_ensures(leaf, (value,), out) ==> value_option(out) == rule(value.view())
}

/// Rewrites the leaves of a value; nothing where none is rewritten.
pub fn map_leaves<F: Fn(&Value) -> Option<Value>>(
    value: &Value,
    leaf: &F,
    Ghost(rule): Ghost<spec_fn(ValueView) -> Option<ValueView>>,
) -> (out: Option<Value>)
    requires
        follows(*leaf, rule),
    ensures
        value_option(out) == (if any_leaf(value.view(), rewritten_by(rule)) {
            Some(rewritten(value.view(), rule))
        } else {
            None
        }),
    decreases value, 0nat,
{
    match value {
        Value::Array(items) => match map_items(items, leaf, Ghost(rule)) {
            Some(items) => Some(Value::Array(items)),
            None => None,
        },
        Value::Dictionary(entries) => match map_entries(entries, leaf, Ghost(rule)) {
            Some(entries) => Some(Value::Dictionary(entries)),
            None => None,
        },
        Value::ArrayEdit(edit) => match map_ops(&edit.ops, leaf, Ghost(rule)) {
            Some(ops) => Some(Value::ArrayEdit(ArrayEdit { ops })),
            None => None,
        },
        _ => leaf(value),
    }
}

/// A value with its leaves rewritten, and whether one was.
pub fn map_value<F: Fn(&Value) -> Option<Value>>(
    value: &Value,
    leaf: &F,
    Ghost(rule): Ghost<spec_fn(ValueView) -> Option<ValueView>>,
) -> (out: (Value, bool))
    requires
        follows(*leaf, rule),
    ensures
        out.0.view() == rewritten(value.view(), rule),
        out.1 == any_leaf(value.view(), rewritten_by(rule)),
    decreases value, 1nat,
{
    match map_leaves(value, leaf, Ghost(rule)) {
        Some(value) => (value, true),
        None => {
            proof {
                lemma_unwritten(value.view(), rule);
            }
            (value.copy(), false)
        },
    }
}

fn map_items<F: Fn(&Value) -> Option<Value>>(
    items: &Vec<Value>,
    leaf: &F,
    Ghost(rule): Ghost<spec_fn(ValueView) -> Option<ValueView>>,
) -> (out: Option<Vec<Value>>)
    requires
        follows(*leaf, rule),
    ensures
        match out {
            Some(out) => any_item(values_view(items@), rewritten_by(rule)) && values_view(out@)
                == items_rewritten(values_view(items@), rule),
            None => !any_item(values_view(items@), rewritten_by(rule)),
        },
    decreases items, 0nat,
{
    let mut out: Vec<Value> = Vec::new();
    let mut changed = false;
    let mut i: usize = 0;
    assert(items@.take(0) =~= seq![]);
    while i < items.len()
        invariant
            i <= items@.len(),
            follows(*leaf, rule),
            changed == any_item(values_view(items@.take(i as int)), rewritten_by(rule)),
            values_view(out@) == items_rewritten(values_view(items@.take(i as int)), rule),
        decreases items@.len() - i,
    {
        proof {
            assert(items@.take(i + 1) =~= items@.take(i as int).push(items@[i as int]));
            lemma_values_push(items@.take(i as int), items@[i as int]);
            let next = values_view(items@.take(i + 1));
            assert(next.drop_last() =~= values_view(items@.take(i as int)));
        }
        let (item, moves) = map_value(&items[i], leaf, Ghost(rule));
        changed = changed || moves;
        proof {
            lemma_values_push(out@, item);
        }
        out.push(item);
        i = i + 1;
    }
    assert(items@.take(i as int) =~= items@);
    if changed {
        Some(out)
    } else {
        None
    }
}

fn map_entries<F: Fn(&Value) -> Option<Value>>(
    entries: &Vec<(String, Value)>,
    leaf: &F,
    Ghost(rule): Ghost<spec_fn(ValueView) -> Option<ValueView>>,
) -> (out: Option<Vec<(String, Value)>>)
    requires
        follows(*leaf, rule),
    ensures
        match out {
            Some(out) => any_entry(entries_view(entries@), rewritten_by(rule)) && entries_view(
                out@,
            ) == entries_rewritten(entries_view(entries@), rule),
            None => !any_entry(entries_view(entries@), rewritten_by(rule)),
        },
    decreases entries, 0nat,
{
    let mut out: Vec<(String, Value)> = Vec::new();
    let mut changed = false;
    let mut i: usize = 0;
    assert(entries@.take(0) =~= seq![]);
    while i < entries.len()
        invariant
            i <= entries@.len(),
            follows(*leaf, rule),
            changed == any_entry(entries_view(entries@.take(i as int)), rewritten_by(rule)),
            entries_view(out@) == entries_rewritten(entries_view(entries@.take(i as int)), rule),
        decreases entries@.len() - i,
    {
        proof {
            assert(entries@.take(i + 1) =~= entries@.take(i as int).push(entries@[i as int]));
            lemma_entries_push(entries@.take(i as int), entries@[i as int]);
            let next = entries_view(entries@.take(i + 1));
            assert(next.drop_last() =~= entries_view(entries@.take(i as int)));
        }
        let (value, moves) = map_value(&entries[i].1, leaf, Ghost(rule));
        changed = changed || moves;
        let entry = (entries[i].0.clone(), value);
        proof {
            lemma_entries_push(out@, entry);
        }
        out.push(entry);
        i = i + 1;
    }
    assert(entries@.take(i as int) =~= entries@);
    if changed {
        Some(out)
    } else {
        None
    }
}

fn map_operand<F: Fn(&Value) -> Option<Value>>(
    src: &EditOperand,
    leaf: &F,
    Ghost(rule): Ghost<spec_fn(ValueView) -> Option<ValueView>>,
) -> (out: (EditOperand, bool))
    requires
        follows(*leaf, rule),
    ensures
        out.0.view() == operand_rewritten(src.view(), rule),
        out.1 == operand_leaf(src.view(), rewritten_by(rule)),
    decreases src, 0nat,
{
    match src {
        EditOperand::Literal(value) => {
            let (value, changed) = map_value(value, leaf, Ghost(rule));
            (EditOperand::Literal(value), changed)
        },
        EditOperand::CopyFrom(index) => (EditOperand::CopyFrom(*index), false),
    }
}

fn map_op<F: Fn(&Value) -> Option<Value>>(
    op: &EditOp,
    leaf: &F,
    Ghost(rule): Ghost<spec_fn(ValueView) -> Option<ValueView>>,
) -> (out: (EditOp, bool))
    requires
        follows(*leaf, rule),
    ensures
        out.0.view() == op_rewritten(op.view(), rule),
        out.1 == op_leaf(op.view(), rewritten_by(rule)),
    decreases op, 0nat,
{
    match op {
        EditOp::Write { src, index } => {
            let (src, changed) = map_operand(src, leaf, Ghost(rule));
            (EditOp::Write { src, index: *index }, changed)
        },
        EditOp::Insert { src, index } => {
            let (src, changed) = map_operand(src, leaf, Ghost(rule));
            (EditOp::Insert { src, index: *index }, changed)
        },
        EditOp::MinSizeFill { len, fill } => {
            let (fill, changed) = map_value(fill, leaf, Ghost(rule));
            (EditOp::MinSizeFill { len: *len, fill }, changed)
        },
        EditOp::ResizeFill { len, fill } => {
            let (fill, changed) = map_value(fill, leaf, Ghost(rule));
            (EditOp::ResizeFill { len: *len, fill }, changed)
        },
        _ => (op.copy(), false),
    }
}

fn map_ops<F: Fn(&Value) -> Option<Value>>(
    ops: &Vec<EditOp>,
    leaf: &F,
    Ghost(rule): Ghost<spec_fn(ValueView) -> Option<ValueView>>,
) -> (out: Option<Vec<EditOp>>)
    requires
        follows(*leaf, rule),
    ensures
        match out {
            Some(out) => any_op(ops_view(ops@), rewritten_by(rule)) && ops_view(out@)
                == ops_rewritten(ops_view(ops@), rule),
            None => !any_op(ops_view(ops@), rewritten_by(rule)),
        },
    decreases ops, 0nat,
{
    let mut out: Vec<EditOp> = Vec::new();
    let mut changed = false;
    let mut i: usize = 0;
    assert(ops@.take(0) =~= seq![]);
    while i < ops.len()
        invariant
            i <= ops@.len(),
            follows(*leaf, rule),
            changed == any_op(ops_view(ops@.take(i as int)), rewritten_by(rule)),
            ops_view(out@) == ops_rewritten(ops_view(ops@.take(i as int)), rule),
        decreases ops@.len() - i,
    {
        proof {
            assert(ops@.take(i + 1) =~= ops@.take(i as int).push(ops@[i as int]));
            lemma_ops_push(ops@.take(i as int), ops@[i as int]);
            let next = ops_view(ops@.take(i + 1));
            assert(next.drop_last() =~= ops_view(ops@.take(i as int)));
        }
        let (op, moves) = map_op(&ops[i], leaf, Ghost(rule));
        changed = changed || moves;
        proof {
            lemma_ops_push(out@, op);
        }
        out.push(op);
        i = i + 1;
    }
    assert(ops@.take(i as int) =~= ops@);
    if changed {
        Some(out)
    } else {
        None
    }
}

// ── Laws ────────────────────────────────────────────────────────────────

/// Rewriting an array rewrites each of its items, in place.
pub proof fn law_arrays_are_rewritten_item_by_item(
    items: Seq<ValueView>,
    rule: spec_fn(ValueView) -> Option<ValueView>,
)
    ensures
        rewritten(ValueView::Array(items), rule) matches ValueView::Array(out) && {
            &&& out.len() == items.len()
            &&& forall|i: int|
                0 <= i < items.len() ==> #[trigger] out[i] == rewritten(items[i], rule)
        },
    decreases items.len(),
{
    if items.len() > 0 {
        let rest = items.drop_last();
        law_arrays_are_rewritten_item_by_item(rest, rule);
        let out = items_rewritten(items, rule);
        let before = items_rewritten(rest, rule);
        assert forall|i: int| 0 <= i < items.len() implies #[trigger] out[i] == rewritten(
            items[i],
            rule,
        ) by {
            if i < rest.len() {
                assert(out[i] == before[i]);
                assert(rest[i] == items[i]);
            }
        }
    }
}

/// Rewriting a dictionary rewrites the value of each of its entries, and keeps
/// the keys.
pub proof fn law_dictionaries_are_rewritten_entry_by_entry(
    entries: Seq<(Seq<char>, ValueView)>,
    rule: spec_fn(ValueView) -> Option<ValueView>,
)
    ensures
        rewritten(ValueView::Dictionary(entries), rule) matches ValueView::Dictionary(out) && {
            &&& out.len() == entries.len()
            &&& forall|i: int|
                0 <= i < entries.len() ==> #[trigger] out[i] == (
                    entries[i].0,
                    rewritten(entries[i].1, rule),
                )
        },
    decreases entries.len(),
{
    if entries.len() > 0 {
        let rest = entries.drop_last();
        law_dictionaries_are_rewritten_entry_by_entry(rest, rule);
        let out = entries_rewritten(entries, rule);
        let before = entries_rewritten(rest, rule);
        assert forall|i: int| 0 <= i < entries.len() implies #[trigger] out[i] == (
            entries[i].0,
            rewritten(entries[i].1, rule),
        ) by {
            if i < rest.len() {
                assert(out[i] == before[i]);
                assert(rest[i] == entries[i]);
            }
        }
    }
}

/// Rewriting an edit rewrites each of its instructions, in place.
pub proof fn law_edits_are_rewritten_instruction_by_instruction(
    ops: Seq<OpView>,
    rule: spec_fn(ValueView) -> Option<ValueView>,
)
    ensures
        rewritten(ValueView::ArrayEdit(ops), rule) matches ValueView::ArrayEdit(out) && {
            &&& out.len() == ops.len()
            &&& forall|i: int|
                0 <= i < ops.len() ==> #[trigger] out[i] == op_rewritten(ops[i], rule)
        },
    decreases ops.len(),
{
    if ops.len() > 0 {
        let rest = ops.drop_last();
        law_edits_are_rewritten_instruction_by_instruction(rest, rule);
        let out = ops_rewritten(ops, rule);
        let before = ops_rewritten(rest, rule);
        assert forall|i: int| 0 <= i < ops.len() implies #[trigger] out[i] == op_rewritten(
            ops[i],
            rule,
        ) by {
            if i < rest.len() {
                assert(out[i] == before[i]);
                assert(rest[i] == ops[i]);
            }
        }
    }
}

/// Rewriting an instruction rewrites what it carries, and keeps what it does,
/// its place and its size.
pub proof fn law_an_instruction_is_rewritten_in_what_it_carries(
    op: OpView,
    rule: spec_fn(ValueView) -> Option<ValueView>,
)
    ensures
        match op {
            OpView::Write { src: OperandView::Literal(value), index } => op_rewritten(op, rule) == (
            OpView::Write { src: OperandView::Literal(rewritten(value, rule)), index }),
            OpView::Insert { src: OperandView::Literal(value), index } => op_rewritten(op, rule)
                == (OpView::Insert { src: OperandView::Literal(rewritten(value, rule)), index }),
            OpView::MinSizeFill { len, fill } => op_rewritten(op, rule) == (OpView::MinSizeFill {
                len,
                fill: rewritten(fill, rule),
            }),
            OpView::ResizeFill { len, fill } => op_rewritten(op, rule) == (OpView::ResizeFill {
                len,
                fill: rewritten(fill, rule),
            }),
            _ => op_rewritten(op, rule) == op,
        },
{
}

/// Any other value is rewritten as the rule says, and stays where it says
/// nothing.
pub proof fn law_leaves_are_rewritten_by_the_rule(
    value: ValueView,
    rule: spec_fn(ValueView) -> Option<ValueView>,
)
    requires
        !(value is Array || value is Dictionary || value is ArrayEdit),
    ensures
        rule(value) matches Some(leaf) ==> rewritten(value, rule) == leaf,
        rule(value) is None ==> rewritten(value, rule) == value,
{
}

/// A value holds what is looked for where one of its items, of the values of
/// its entries or of what its instructions carry does.
pub proof fn law_leaves_are_looked_for_everywhere(
    value: ValueView,
    hit: spec_fn(ValueView) -> bool,
    i: int,
)
    ensures
        value matches ValueView::Array(items) ==> 0 <= i < items.len() ==> any_leaf(items[i], hit)
            ==> any_leaf(value, hit),
        value matches ValueView::Dictionary(entries) ==> 0 <= i < entries.len() ==> any_leaf(
            entries[i].1,
            hit,
        ) ==> any_leaf(value, hit),
        value matches ValueView::ArrayEdit(ops) ==> 0 <= i < ops.len() ==> (match ops[i] {
            OpView::Write { src: OperandView::Literal(v), .. } => any_leaf(v, hit),
            OpView::Insert { src: OperandView::Literal(v), .. } => any_leaf(v, hit),
            OpView::MinSizeFill { fill, .. } => any_leaf(fill, hit),
            OpView::ResizeFill { fill, .. } => any_leaf(fill, hit),
            _ => false,
        }) ==> any_leaf(value, hit),
        !(value is Array || value is Dictionary || value is ArrayEdit) ==> (any_leaf(value, hit)
            <==> hit(value)),
{
    match value {
        ValueView::Array(items) => if 0 <= i < items.len() && any_leaf(items[i], hit) {
            lemma_item_hit(items, hit, i);
        },
        ValueView::Dictionary(entries) => if 0 <= i < entries.len() && any_leaf(
            entries[i].1,
            hit,
        ) {
            lemma_entry_hit(entries, hit, i);
        },
        ValueView::ArrayEdit(ops) => if 0 <= i < ops.len() && op_leaf(ops[i], hit) {
            lemma_op_hit(ops, hit, i);
        },
        _ => {},
    }
}

proof fn lemma_item_hit(items: Seq<ValueView>, hit: spec_fn(ValueView) -> bool, i: int)
    requires
        0 <= i < items.len(),
        any_leaf(items[i], hit),
    ensures
        any_item(items, hit),
    decreases items.len(),
{
    if i < items.len() - 1 {
        assert(items.drop_last()[i] == items[i]);
        lemma_item_hit(items.drop_last(), hit, i);
    }
}

proof fn lemma_entry_hit(
    entries: Seq<(Seq<char>, ValueView)>,
    hit: spec_fn(ValueView) -> bool,
    i: int,
)
    requires
        0 <= i < entries.len(),
        any_leaf(entries[i].1, hit),
    ensures
        any_entry(entries, hit),
    decreases entries.len(),
{
    if i < entries.len() - 1 {
        assert(entries.drop_last()[i] == entries[i]);
        lemma_entry_hit(entries.drop_last(), hit, i);
    }
}

proof fn lemma_op_hit(ops: Seq<OpView>, hit: spec_fn(ValueView) -> bool, i: int)
    requires
        0 <= i < ops.len(),
        op_leaf(ops[i], hit),
    ensures
        any_op(ops, hit),
    decreases ops.len(),
{
    if i < ops.len() - 1 {
        assert(ops.drop_last()[i] == ops[i]);
        lemma_op_hit(ops.drop_last(), hit, i);
    }
}

} // verus!
