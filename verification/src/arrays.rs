//! Array values composed from sparse edits.
//!
//! A chain of values is folded from the strongest on: edits accumulate until a
//! dense array or a block ends the fold, and then apply, weakest first.

use crate::array_edits::{
    at_hand, edit_ids, edited_ids, program_growth, size_limit, IdEditOp, IdOperand,
};
use crate::doc::{
    copy_values, lemma_ops_view, lemma_values_push, lemma_values_view, ops_view, values_view,
    EditOp, EditOperand, OpView, OperandView, Value, ValueView,
};
use crate::property::{PropertyType, TypeView};
use vstd::prelude::*;

verus! {

/// What an operand carries, as a number, if it carries anything.
pub open spec fn id_operand(src: OperandView, id: usize) -> IdOperand {
    match src {
        OperandView::Literal(_) => IdOperand::Literal(id),
        OperandView::CopyFrom(index) => IdOperand::CopyFrom(index),
    }
}

/// An instruction, with `id` for the value that it carries.
pub open spec fn id_op(op: OpView, id: usize) -> IdEditOp {
    match op {
        OpView::Write { src, index } => IdEditOp::Write { src: id_operand(src, id), index },
        OpView::Insert { src, index } => IdEditOp::Insert { src: id_operand(src, id), index },
        OpView::Erase { index } => IdEditOp::Erase { index },
        OpView::MinSize { len } => IdEditOp::MinSize { len },
        OpView::MinSizeFill { len, .. } => IdEditOp::MinSizeFill { len, fill: id },
        OpView::MaxSize { len } => IdEditOp::MaxSize { len },
        OpView::Resize { len } => IdEditOp::Resize { len },
        OpView::ResizeFill { len, .. } => IdEditOp::ResizeFill { len, fill: id },
    }
}

/// The value that an instruction carries; a block where it carries none.
pub open spec fn carried(op: OpView) -> ValueView {
    match op {
        OpView::Write { src: OperandView::Literal(value), .. } => value,
        OpView::Insert { src: OperandView::Literal(value), .. } => value,
        OpView::MinSizeFill { fill, .. } => fill,
        OpView::ResizeFill { fill, .. } => fill,
        _ => ValueView::Blocked,
    }
}

/// A program over numbers: the items of the array come first, then one for
/// each instruction.
pub open spec fn id_program(ops: Seq<OpView>, base: nat) -> Seq<IdEditOp> {
    Seq::new(ops.len(), |i: int| id_op(ops[i], (base + i) as usize))
}

/// The first `count` numbers.
pub open spec fn counting(count: nat) -> Seq<usize> {
    Seq::new(count, |i: int| i as usize)
}

/// The values that the numbers stand for: the items of the array, what the
/// instructions carry, and the fill.
pub open spec fn pool(
    base: Seq<ValueView>,
    ops: Seq<OpView>,
    fill: Option<ValueView>,
) -> Seq<ValueView> {
    base + Seq::new(ops.len(), |i: int| carried(ops[i])) + seq![
        match fill {
            Some(fill) => fill,
            None => ValueView::Blocked,
        },
    ]
}

/// The number of the fill.
pub open spec fn fill_id(base: nat, ops: nat, fill: Option<ValueView>) -> Option<usize> {
    match fill {
        Some(_) => Some((base + ops) as usize),
        None => None,
    }
}

/// What a program of instructions makes of an array.
pub open spec fn applied(
    base: Seq<ValueView>,
    ops: Seq<OpView>,
    fill: Option<ValueView>,
) -> Seq<ValueView> {
    edited_ids(
        id_program(ops, base.len()),
        counting(base.len()),
        fill_id(base.len(), ops.len(), fill),
    ).map_values(|id: usize| pool(base, ops, fill)[id as int])
}

/// How many items an instruction can add, at most. Without a fill, one that
/// carries no item of its own adds none.
pub open spec fn op_growth(op: OpView, filled: bool) -> nat {
    match op {
        OpView::Insert { .. } => 1,
        OpView::MinSize { len } => if filled {
            len as nat
        } else {
            0
        },
        OpView::MinSizeFill { len, .. } => len as nat,
        OpView::Resize { len } => if filled {
            len as nat
        } else {
            0
        },
        OpView::ResizeFill { len, .. } => len as nat,
        _ => 0,
    }
}

/// The room that a program needs: its instructions, and the items that they
/// can add.
pub open spec fn ops_load(ops: Seq<OpView>, filled: bool) -> nat
    decreases ops.len(),
{
    if ops.len() == 0 {
        0
    } else {
        ops_load(ops.drop_last(), filled) + 1 + op_growth(ops.last(), filled)
    }
}

proof fn lemma_load(ops: Seq<OpView>, base: nat, filled: bool)
    ensures
        ops.len() + program_growth(id_program(ops, base), filled) == ops_load(ops, filled),
    decreases ops.len(),
{
    if ops.len() > 0 {
        lemma_load(ops.drop_last(), base, filled);
        assert(id_program(ops, base).drop_last() =~= id_program(ops.drop_last(), base));
    } else {
        assert(id_program(ops, base).len() == 0);
    }
}

pub proof fn lemma_load_joined(a: Seq<OpView>, b: Seq<OpView>, filled: bool)
    ensures
        ops_load(a + b, filled) == ops_load(a, filled) + ops_load(b, filled),
    decreases b.len(),
{
    if b.len() == 0 {
        assert(a + b =~= a);
    } else {
        lemma_load_joined(a, b.drop_last(), filled);
        assert((a + b).drop_last() =~= a + b.drop_last());
    }
}

/// An operand over numbers.
fn number_operand(src: &EditOperand, id: usize) -> (out: IdOperand)
    ensures
        out == id_operand(src.view(), id),
{
    match src {
        EditOperand::Literal(_) => IdOperand::Literal(id),
        EditOperand::CopyFrom(index) => IdOperand::CopyFrom(*index),
    }
}

/// An instruction over numbers.
fn number_op(op: &EditOp, id: usize) -> (out: IdEditOp)
    ensures
        out == id_op(op.view(), id),
{
    match op {
        EditOp::Write { src, index } => IdEditOp::Write {
            src: number_operand(src, id),
            index: *index,
        },
        EditOp::Insert { src, index } => IdEditOp::Insert {
            src: number_operand(src, id),
            index: *index,
        },
        EditOp::Erase { index } => IdEditOp::Erase { index: *index },
        EditOp::MinSize { len } => IdEditOp::MinSize { len: *len },
        EditOp::MinSizeFill { len, .. } => IdEditOp::MinSizeFill { len: *len, fill: id },
        EditOp::MaxSize { len } => IdEditOp::MaxSize { len: *len },
        EditOp::Resize { len } => IdEditOp::Resize { len: *len },
        EditOp::ResizeFill { len, .. } => IdEditOp::ResizeFill { len: *len, fill: id },
    }
}

/// The value that an instruction carries.
fn carried_value(op: &EditOp) -> (out: Value)
    ensures
        out.view() == carried(op.view()),
{
    match op {
        EditOp::Write { src: EditOperand::Literal(value), .. } => value.copy(),
        EditOp::Insert { src: EditOperand::Literal(value), .. } => value.copy(),
        EditOp::MinSizeFill { fill, .. } => fill.copy(),
        EditOp::ResizeFill { fill, .. } => fill.copy(),
        _ => Value::Blocked,
    }
}

/// Applies a program of instructions to an array.
pub fn apply_to_array(base: &Vec<Value>, ops: &Vec<EditOp>, fill: &Option<Value>) -> (out: Vec<
    Value,
>)
    requires
        base@.len() + ops_load(ops_view(ops@), fill is Some) <= size_limit(),
    ensures
        values_view(out@) == applied(
            values_view(base@),
            ops_view(ops@),
            crate::doc::value_option(*fill),
        ),
        out@.len() <= base@.len() + ops_load(ops_view(ops@), fill is Some),
{
    let ghost shown_base = values_view(base@);
    let ghost shown_ops = ops_view(ops@);
    let ghost shown_fill = crate::doc::value_option(*fill);
    let ghost all = pool(shown_base, shown_ops, shown_fill);
    proof {
        lemma_values_view(base@);
        lemma_ops_view(ops@);
        lemma_load(shown_ops, shown_base.len(), fill is Some);
    }
    let mut ids: Vec<usize> = Vec::new();
    let mut i: usize = 0;
    while i < base.len()
        invariant
            i <= base@.len(),
            ids@ == counting(base@.len()).take(i as int),
        decreases base@.len() - i,
    {
        ids.push(i);
        i = i + 1;
        assert(ids@ =~= counting(base@.len()).take(i as int));
    }
    assert(ids@ =~= counting(base@.len()));
    let mut values = copy_values(base);
    let mut program: Vec<IdEditOp> = Vec::new();
    let mut k: usize = 0;
    proof {
        lemma_values_view(values@);
        assert(all.take(shown_base.len() as int) =~= shown_base);
        assert(values_view(values@) =~= all.take((shown_base.len() + k) as int));
    }
    while k < ops.len()
        invariant
            k <= ops@.len(),
            shown_base.len() == base@.len(),
            shown_ops == ops_view(ops@),
            shown_ops.len() == ops@.len(),
            forall|i: int| 0 <= i < ops@.len() ==> #[trigger] shown_ops[i] == ops@[i].view(),
            base@.len() + ops@.len() <= usize::MAX,
            all == pool(shown_base, shown_ops, shown_fill),
            program@ == id_program(shown_ops, base@.len()).take(k as int),
            values_view(values@) == all.take((shown_base.len() + k) as int),
        decreases ops@.len() - k,
    {
        let op = &ops[k];
        let value = carried_value(op);
        proof {
            assert(shown_ops[k as int] == op.view());
            lemma_values_push(values@, value);
            assert(all[(shown_base.len() + k) as int] == value.view());
            assert(all.take((shown_base.len() + k + 1) as int) =~= all.take(
                (shown_base.len() + k) as int,
            ).push(value.view()));
        }
        values.push(value);
        program.push(number_op(op, base.len() + k));
        k = k + 1;
        assert(program@ =~= id_program(shown_ops, base@.len()).take(k as int));
    }
    assert(program@ =~= id_program(shown_ops, base@.len()));
    let last = match fill {
        Some(fill) => fill.copy(),
        None => Value::Blocked,
    };
    let number = match fill {
        Some(_) => Some(base.len() + ops.len()),
        None => None,
    };
    proof {
        lemma_values_push(values@, last);
        assert(all =~= all.take((shown_base.len() + shown_ops.len()) as int).push(last.view()));
    }
    values.push(last);
    proof {
        lemma_values_view(values@);
    }
    let numbers = edit_ids(program, &ids, number);
    let ghost expected = applied(shown_base, shown_ops, shown_fill);
    let mut out: Vec<Value> = Vec::new();
    let mut n: usize = 0;
    assert(values_view(out@) =~= expected.take(0));
    while n < numbers.len()
        invariant
            n <= numbers@.len(),
            expected == applied(shown_base, shown_ops, shown_fill),
            all == pool(shown_base, shown_ops, shown_fill),
            values_view(values@) == all,
            values@.len() == all.len(),
            forall|i: int| 0 <= i < values@.len() ==> #[trigger] all[i] == values@[i].view(),
            shown_base.len() == base@.len(),
            base@.len() + shown_ops.len() < usize::MAX,
            ids@ == counting(base@.len()),
            program@ == id_program(shown_ops, base@.len()),
            number == fill_id(shown_base.len(), shown_ops.len(), shown_fill),
            numbers@ == edited_ids(program@, ids@, number),
            forall|i: int|
                0 <= i < numbers@.len() ==> at_hand(program@, ids@, number, #[trigger] numbers@[i]),
            values_view(out@) == expected.take(n as int),
            out@.len() == n,
        decreases numbers@.len() - n,
    {
        let id = numbers[n];
        proof {
            assert(at_hand(program@, ids@, number, numbers@[n as int]));
            if ids@.contains(id) {
                let i = choose|i: int| 0 <= i < ids@.len() && ids@[i] == id;
                assert(id == i);
            } else if number != Some(id) {
                let i = choose|i: int|
                    0 <= i < program@.len() && (#[trigger] program@[i]).literal() == Some(id);
                assert(id == base@.len() + i);
            }
        }
        let value = values[id].copy();
        proof {
            lemma_values_push(out@, value);
            assert(expected.take(n + 1) =~= expected.take(n as int).push(value.view()));
        }
        out.push(value);
        n = n + 1;
    }
    assert(expected.take(n as int) =~= expected);
    out
}

// ── The fold ────────────────────────────────────────────────────────────

/// What a fold of array values comes to.
pub enum ArrayFold {
    /// Nothing contributed.
    Absent,
    /// A block, with nothing stronger.
    Blocked,
    /// An array.
    Items(Seq<ValueView>),
}

/// The fold of `chain`, strongest first, from `from` on, with the instructions
/// met before it, over the array `seed`.
pub open spec fn folded(
    chain: Seq<ValueView>,
    from: int,
    edits: Option<Seq<OpView>>,
    seed: Seq<ValueView>,
    fill: Option<ValueView>,
) -> ArrayFold
    decreases chain.len() - from,
{
    if from < 0 || from >= chain.len() {
        match edits {
            Some(ops) => ArrayFold::Items(applied(seed, ops, fill)),
            None => ArrayFold::Absent,
        }
    } else {
        match (chain[from], edits) {
            (ValueView::Array(items), None) => ArrayFold::Items(items),
            (ValueView::Array(items), Some(ops)) => ArrayFold::Items(applied(items, ops, fill)),
            (ValueView::Blocked, None) => ArrayFold::Blocked,
            (ValueView::Blocked, Some(ops)) => ArrayFold::Items(applied(seed, ops, fill)),
            (ValueView::ArrayEdit(weaker), None) => folded(
                chain,
                from + 1,
                Some(weaker),
                seed,
                fill,
            ),
            (ValueView::ArrayEdit(weaker), Some(ops)) => folded(
                chain,
                from + 1,
                Some(weaker + ops),
                seed,
                fill,
            ),
            _ => folded(chain, from + 1, edits, seed, fill),
        }
    }
}

/// What of a value tells how far a fold goes, and the room that it needs.
pub enum Shape {
    /// An array, with the number of its items.
    Dense(nat),
    /// An edit, with the room that its program needs.
    Edit(nat),
    /// A block.
    Block,
    /// No array.
    Other,
}

/// The shape of a value.
pub open spec fn shape_of(value: ValueView, filled: bool) -> Shape {
    match value {
        ValueView::Array(items) => Shape::Dense(items.len()),
        ValueView::ArrayEdit(ops) => Shape::Edit(ops_load(ops, filled)),
        ValueView::Blocked => Shape::Block,
        _ => Shape::Other,
    }
}

/// The shapes of a chain of values.
pub open spec fn shapes_of(chain: Seq<ValueView>, filled: bool) -> Seq<Shape> {
    chain.map_values(|value: ValueView| shape_of(value, filled))
}

/// The room that a fold needs from `from` on, where the edits met before it
/// need `edits`: that of the edits it visits, and of the array that they apply
/// to. What a dense array or a block hides takes none.
pub open spec fn fold_load(shapes: Seq<Shape>, from: int, edits: Option<nat>, seed: nat) -> nat
    decreases shapes.len() - from,
{
    if from < 0 || from >= shapes.len() {
        match edits {
            Some(load) => seed + load,
            None => 0,
        }
    } else {
        match (shapes[from], edits) {
            (Shape::Dense(_), None) => 0,
            (Shape::Dense(items), Some(load)) => items + load,
            (Shape::Block, None) => 0,
            (Shape::Block, Some(load)) => seed + load,
            (Shape::Edit(more), None) => fold_load(shapes, from + 1, Some(more), seed),
            (Shape::Edit(more), Some(load)) => fold_load(
                shapes,
                from + 1,
                Some(more + load),
                seed,
            ),
            (Shape::Other, _) => fold_load(shapes, from + 1, edits, seed),
        }
    }
}

/// A fold needs at least the room of the edits met before, and no less over a
/// longer array.
pub proof fn lemma_fold_load(
    shapes: Seq<Shape>,
    from: int,
    edits: Option<nat>,
    seed: nat,
    longer: nat,
)
    requires
        seed <= longer,
    ensures
        edits matches Some(load) ==> load <= fold_load(shapes, from, edits, seed),
        fold_load(shapes, from, edits, seed) <= fold_load(shapes, from, edits, longer),
    decreases shapes.len() - from,
{
    if 0 <= from < shapes.len() {
        match (shapes[from], edits) {
            (Shape::Edit(more), None) => {
                lemma_fold_load(shapes, from + 1, Some(more), seed, longer);
            },
            (Shape::Edit(more), Some(load)) => {
                lemma_fold_load(shapes, from + 1, Some(more + load), seed, longer);
            },
            (Shape::Other, _) => {
                lemma_fold_load(shapes, from + 1, edits, seed, longer);
            },
            _ => {},
        }
    }
}

/// The number of items that the weakest array of a fold has, at most.
pub open spec fn seed_room(fallback: Option<ValueView>, filled: bool) -> nat {
    match fallback {
        Some(ValueView::Array(items)) => items.len(),
        Some(ValueView::ArrayEdit(ops)) => ops_load(ops, filled),
        _ => 0,
    }
}

/// Whether the weakest array of a fold fits in memory.
pub open spec fn seed_fits(fallback: Option<ValueView>, filled: bool) -> bool {
    fallback is Some && fallback->0 is ArrayEdit ==> seed_room(fallback, filled) <= size_limit()
}

/// Whether a chain of values folds over a fallback in memory.
pub open spec fn chain_fits(
    chain: Seq<ValueView>,
    fallback: Option<ValueView>,
    filled: bool,
) -> bool {
    &&& seed_fits(fallback, filled)
    &&& fold_load(shapes_of(chain, filled), 0, None, seed_room(fallback, filled)) <= size_limit()
}

/// What a fold of array values comes to.
#[derive(Debug)]
pub enum FoldedArray {
    Absent,
    Blocked,
    Items(Vec<Value>),
}

impl View for FoldedArray {
    type V = ArrayFold;

    open spec fn view(&self) -> ArrayFold {
        match self {
            FoldedArray::Absent => ArrayFold::Absent,
            FoldedArray::Blocked => ArrayFold::Blocked,
            FoldedArray::Items(items) => ArrayFold::Items(values_view(items@)),
        }
    }
}

/// The views of a list of borrowed values.
pub open spec fn refs_view(values: Seq<&Value>) -> Seq<ValueView> {
    values.map_values(|v: &Value| v.view())
}

/// A program that runs `weaker` and then `stronger`.
fn joined_ops(weaker: &Vec<EditOp>, stronger: Vec<EditOp>) -> (out: Vec<EditOp>)
    ensures
        ops_view(out@) == ops_view(weaker@) + ops_view(stronger@),
{
    let mut out = crate::doc::copy_ops(weaker);
    let mut i: usize = 0;
    let ghost before = ops_view(weaker@);
    assert(stronger@.take(0) =~= seq![]);
    assert(before + ops_view(stronger@.take(0)) =~= before);
    while i < stronger.len()
        invariant
            i <= stronger@.len(),
            ops_view(out@) == before + ops_view(stronger@.take(i as int)),
        decreases stronger@.len() - i,
    {
        let op = stronger[i].copy();
        proof {
            crate::doc::lemma_ops_push(out@, op);
            crate::doc::lemma_ops_push(stronger@.take(i as int), stronger@[i as int]);
            assert(stronger@.take(i + 1) =~= stronger@.take(i as int).push(stronger@[i as int]));
            assert(before + ops_view(stronger@.take(i + 1)) =~= (before + ops_view(
                stronger@.take(i as int),
            )).push(op.view()));
        }
        out.push(op);
        i = i + 1;
    }
    assert(stronger@.take(i as int) =~= stronger@);
    out
}

/// Folds array values, strongest first.
pub fn fold_array_chain(chain: &Vec<&Value>, seed: &Vec<Value>, fill: &Option<Value>) -> (out:
    FoldedArray)
    requires
        fold_load(shapes_of(refs_view(chain@), fill is Some), 0, None, seed@.len())
            <= size_limit(),
    ensures
        out@ == folded(
            refs_view(chain@),
            0,
            None,
            values_view(seed@),
            crate::doc::value_option(*fill),
        ),
{
    let ghost all = refs_view(chain@);
    let ghost shapes = shapes_of(all, fill is Some);
    let ghost shown_seed = values_view(seed@);
    let ghost shown_fill = crate::doc::value_option(*fill);
    let mut edits: Option<Vec<EditOp>> = None;
    let mut i: usize = 0;
    while i < chain.len()
        invariant
            i <= chain@.len(),
            all == refs_view(chain@),
            shapes == shapes_of(all, fill is Some),
            shown_seed == values_view(seed@),
            shown_fill == crate::doc::value_option(*fill),
            fold_load(shapes, 0, None, seed@.len()) <= size_limit(),
            match edits {
                Some(ops) => {
                    &&& fold_load(shapes, 0, None, seed@.len()) == fold_load(
                        shapes,
                        i as int,
                        Some(ops_load(ops_view(ops@), fill is Some)),
                        seed@.len(),
                    )
                    &&& folded(all, 0, None, shown_seed, shown_fill) == folded(
                        all,
                        i as int,
                        Some(ops_view(ops@)),
                        shown_seed,
                        shown_fill,
                    )
                },
                None => {
                    &&& fold_load(shapes, 0, None, seed@.len()) == fold_load(
                        shapes,
                        i as int,
                        None,
                        seed@.len(),
                    )
                    &&& folded(all, 0, None, shown_seed, shown_fill) == folded(
                        all,
                        i as int,
                        None,
                        shown_seed,
                        shown_fill,
                    )
                },
            },
        decreases chain@.len() - i,
    {
        proof {
            assert(all[i as int] == chain@[i as int].view());
            assert(shapes[i as int] == shape_of(all[i as int], fill is Some));
        }
        match chain[i] {
            Value::Array(items) => {
                proof {
                    lemma_values_view(items@);
                }
                return match edits {
                    None => FoldedArray::Items(copy_values(items)),
                    Some(ops) => FoldedArray::Items(apply_to_array(items, &ops, fill)),
                };
            },
            Value::Blocked => {
                return match edits {
                    None => FoldedArray::Blocked,
                    Some(ops) => FoldedArray::Items(apply_to_array(seed, &ops, fill)),
                };
            },
            Value::ArrayEdit(edit) => {
                edits =
                match edits {
                    None => Some(crate::doc::copy_ops(&edit.ops)),
                    Some(ops) => {
                        proof {
                            lemma_load_joined(ops_view(edit.ops@), ops_view(ops@), fill is Some);
                        }
                        Some(joined_ops(&edit.ops, ops))
                    },
                };
            },
            _ => {},
        }
        i = i + 1;
    }
    match edits {
        None => FoldedArray::Absent,
        Some(ops) => FoldedArray::Items(apply_to_array(seed, &ops, fill)),
    }
}

/// The weakest array of a fold: the fallback, an edit among them applied to no
/// items.
pub open spec fn array_seed(
    fallback: Option<ValueView>,
    fill: Option<ValueView>,
) -> Seq<ValueView> {
    match fallback {
        Some(ValueView::Array(items)) => items,
        Some(ValueView::ArrayEdit(ops)) => applied(seq![], ops, fill),
        _ => seq![],
    }
}

/// The weakest array of a fold.
pub fn seed_of(fallback: Option<&Value>, fill: &Option<Value>) -> (seed: Vec<Value>)
    requires
        seed_fits(crate::doc::value_ref(fallback), fill is Some),
    ensures
        values_view(seed@) == array_seed(
            crate::doc::value_ref(fallback),
            crate::doc::value_option(*fill),
        ),
        seed@.len() <= seed_room(crate::doc::value_ref(fallback), fill is Some),
{
    let none: Vec<Value> = Vec::new();
    assert(values_view(none@) =~= seq![]);
    match fallback {
        Some(Value::Array(items)) => {
            proof {
                lemma_values_view(items@);
            }
            copy_values(items)
        },
        Some(Value::ArrayEdit(edit)) => apply_to_array(&none, &edit.ops, fill),
        _ => none,
    }
}

/// The value that fills the items which an edit adds without saying which: the
/// default of one element of the declared type.
pub open spec fn fill_of(property_type: Option<TypeView>) -> Option<ValueView> {
    match property_type {
        Some(property_type) => {
            if property_type.is_array {
                Some(property_type.default_scalar)
            } else {
                None
            }
        },
        None => None,
    }
}

/// The value that fills the items which an edit adds without saying which.
pub fn fill_for(property_type: Option<&PropertyType>) -> (fill: Option<Value>)
    ensures
        crate::doc::value_option(fill) == fill_of(crate::property::type_ref(property_type)),
{
    match property_type {
        Some(property_type) => property_type.default_array_element(),
        None => None,
    }
}

// ── Laws ────────────────────────────────────────────────────────────────

/// A chain that begins with edits, the strongest first, folds to the array or
/// block that ends them with the edits applied, the weakest first: to the array,
/// or to the seed where a block or nothing ends them.
pub proof fn law_edits_apply_weakest_first(
    edits: Seq<Seq<OpView>>,
    end: Seq<ValueView>,
    seed: Seq<ValueView>,
    fill: Option<ValueView>,
    program: Seq<OpView>,
)
    requires
        edits.len() > 0,
        is_weakest_first(program, edits),
        end.len() > 0 ==> end[0] is Array || end[0] is Blocked,
    ensures
        folded(edits.map_values(|ops: Seq<OpView>| ValueView::ArrayEdit(ops)) + end, 0, None, seed, fill)
            == ArrayFold::Items(
            applied(
                if end.len() > 0 && end[0] is Array {
                    end[0]->Array_0
                } else {
                    seed
                },
                program,
                fill,
            ),
        ),
{
    let chain = edits.map_values(|ops: Seq<OpView>| ValueView::ArrayEdit(ops)) + end;
    assert(chain[0] == ValueView::ArrayEdit(edits[0]));
    lemma_edits_fold(edits, end, seed, fill, 1);
    assert(joined_edits(edits, 1) =~= edits[0]) by {
        assert(joined_edits(edits, 0) =~= seq![]);
    }
    assert(edits.take(edits.len() as int) =~= edits);
    lemma_joined(edits, program, edits.len() as int);
}

/// Whether a program is that of edits one after another, from the last to the
/// first.
pub open spec fn is_weakest_first(program: Seq<OpView>, edits: Seq<Seq<OpView>>) -> bool
    decreases edits.len(),
{
    if edits.len() == 0 {
        program.len() == 0
    } else {
        &&& program.len() >= edits.last().len()
        &&& program.take(edits.last().len() as int) == edits.last()
        &&& is_weakest_first(program.skip(edits.last().len() as int), edits.drop_last())
    }
}

spec fn joined_edits(edits: Seq<Seq<OpView>>, count: int) -> Seq<OpView>
    decreases count,
{
    if count <= 0 {
        seq![]
    } else {
        edits[count - 1] + joined_edits(edits, count - 1)
    }
}

proof fn lemma_joined(edits: Seq<Seq<OpView>>, program: Seq<OpView>, count: int)
    requires
        0 <= count <= edits.len(),
        is_weakest_first(program, edits.take(count)),
    ensures
        program == joined_edits(edits, count),
    decreases count,
{
    let part = edits.take(count);
    if count > 0 {
        let n = part.last().len() as int;
        assert(part.last() == edits[count - 1]);
        assert(part.drop_last() =~= edits.take(count - 1));
        lemma_joined(edits, program.skip(n), count - 1);
        assert(program =~= program.take(n) + program.skip(n));
    }
}

proof fn lemma_edits_fold(
    edits: Seq<Seq<OpView>>,
    end: Seq<ValueView>,
    seed: Seq<ValueView>,
    fill: Option<ValueView>,
    from: int,
)
    requires
        1 <= from <= edits.len(),
        end.len() > 0 ==> end[0] is Array || end[0] is Blocked,
    ensures
        folded(
            edits.map_values(|ops: Seq<OpView>| ValueView::ArrayEdit(ops)) + end,
            from,
            Some(joined_edits(edits, from)),
            seed,
            fill,
        ) == ArrayFold::Items(
            applied(
                if end.len() > 0 && end[0] is Array {
                    end[0]->Array_0
                } else {
                    seed
                },
                joined_edits(edits, edits.len() as int),
                fill,
            ),
        ),
    decreases edits.len() - from,
{
    let chain = edits.map_values(|ops: Seq<OpView>| ValueView::ArrayEdit(ops)) + end;
    if from < edits.len() {
        assert(chain[from] == ValueView::ArrayEdit(edits[from]));
        lemma_edits_fold(edits, end, seed, fill, from + 1);
    } else if end.len() > 0 {
        assert(chain[from] == end[0]);
    }
}

/// A chain that begins with an array folds to it, and one that begins with a
/// block to the block; nothing folds to nothing.
pub proof fn law_the_strongest_array_or_block_ends_a_fold(
    chain: Seq<ValueView>,
    seed: Seq<ValueView>,
    fill: Option<ValueView>,
)
    ensures
        chain.len() > 0 && chain[0] is Array ==> folded(chain, 0, None, seed, fill)
            == ArrayFold::Items(chain[0]->Array_0),
        chain.len() > 0 && chain[0] is Blocked ==> folded(chain, 0, None, seed, fill)
            == ArrayFold::Blocked,
        chain.len() == 0 ==> folded(chain, 0, None, seed, fill) == ArrayFold::Absent,
{
}

/// What instructions are handed on as: what they do, at their place and size,
/// with the number of what they carry, which the pool holds under that number.
pub proof fn law_instructions_are_handed_on(
    base: Seq<ValueView>,
    ops: Seq<OpView>,
    fill: Option<ValueView>,
    i: int,
)
    requires
        0 <= i < ops.len(),
        base.len() + ops.len() <= usize::MAX,
    ensures
        id_program(ops, base.len()).len() == ops.len(),
        match (ops[i], id_program(ops, base.len())[i]) {
            (
                OpView::Write { src: OperandView::Literal(value), index },
                IdEditOp::Write { src: IdOperand::Literal(id), index: at },
            ) => index == at && pool(base, ops, fill)[id as int] == value,
            (
                OpView::Write { src: OperandView::CopyFrom(from), index },
                IdEditOp::Write { src: IdOperand::CopyFrom(other), index: at },
            ) => index == at && from == other,
            (
                OpView::Insert { src: OperandView::Literal(value), index },
                IdEditOp::Insert { src: IdOperand::Literal(id), index: at },
            ) => index == at && pool(base, ops, fill)[id as int] == value,
            (
                OpView::Insert { src: OperandView::CopyFrom(from), index },
                IdEditOp::Insert { src: IdOperand::CopyFrom(other), index: at },
            ) => index == at && from == other,
            (OpView::Erase { index }, IdEditOp::Erase { index: at }) => index == at,
            (OpView::MinSize { len }, IdEditOp::MinSize { len: size }) => len == size,
            (OpView::MaxSize { len }, IdEditOp::MaxSize { len: size }) => len == size,
            (OpView::Resize { len }, IdEditOp::Resize { len: size }) => len == size,
            (
                OpView::MinSizeFill { len, fill: value },
                IdEditOp::MinSizeFill { len: size, fill: id },
            ) => len == size && pool(base, ops, fill)[id as int] == value,
            (
                OpView::ResizeFill { len, fill: value },
                IdEditOp::ResizeFill { len: size, fill: id },
            ) => len == size && pool(base, ops, fill)[id as int] == value,
            _ => false,
        },
        forall|k: int|
            0 <= k < base.len() ==> counting(base.len())[k] == k && #[trigger] pool(
                base,
                ops,
                fill,
            )[k] == base[k],
        fill matches Some(value) ==> base.len() + ops.len() <= usize::MAX && (fill_id(
            base.len(),
            ops.len(),
            fill,
        ) matches Some(id) && pool(base, ops, fill)[id as int] == value),
        fill is None ==> fill_id(base.len(), ops.len(), fill) is None,
{
}

} // verus!
