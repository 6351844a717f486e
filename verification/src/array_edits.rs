//! Sparse array edits over numbered items.

use crate::doc::ArrayPlace;
use opinionated::ArrayEditOp as OutsideOp;
use vstd::prelude::*;

verus! {

/// What an edit over numbers writes.
#[derive(Clone, Copy, Debug, PartialEq, Eq, Structural)]
pub enum IdOperand {
    Literal(usize),
    CopyFrom(ArrayPlace),
}

/// One instruction of an edit over numbers.
#[derive(Clone, Copy, Debug, PartialEq, Eq, Structural)]
pub enum IdEditOp {
    Write { src: IdOperand, index: ArrayPlace },
    Insert { src: IdOperand, index: ArrayPlace },
    Erase { index: ArrayPlace },
    MinSize { len: usize },
    MinSizeFill { len: usize, fill: usize },
    MaxSize { len: usize },
    Resize { len: usize },
    ResizeFill { len: usize, fill: usize },
}

impl IdEditOp {
    /// The number that the instruction itself carries.
    pub open spec fn literal(self) -> Option<usize> {
        match self {
            IdEditOp::Write { src: IdOperand::Literal(id), .. } => Some(id),
            IdEditOp::Insert { src: IdOperand::Literal(id), .. } => Some(id),
            IdEditOp::MinSizeFill { fill, .. } => Some(fill),
            IdEditOp::ResizeFill { fill, .. } => Some(fill),
            _ => None,
        }
    }

    /// How many items the instruction can add, at most. Without a fill, one
    /// that names no item of its own adds none.
    pub open spec fn growth(self, filled: bool) -> nat {
        match self {
            IdEditOp::Insert { .. } => 1,
            IdEditOp::MinSize { len } => if filled {
                len as nat
            } else {
                0
            },
            IdEditOp::MinSizeFill { len, .. } => len as nat,
            IdEditOp::Resize { len } => if filled {
                len as nat
            } else {
                0
            },
            IdEditOp::ResizeFill { len, .. } => len as nat,
            _ => 0,
        }
    }
}

/// How many items a program can add, at most.
pub open spec fn program_growth(ops: Seq<IdEditOp>, filled: bool) -> nat
    decreases ops.len(),
{
    if ops.len() == 0 {
        0
    } else {
        program_growth(ops.drop_last(), filled) + ops.last().growth(filled)
    }
}

/// The number of items that an array may have to hold.
pub open spec fn size_limit() -> int {
    isize::MAX as int / 64
}

/// What a program makes of an array, with `fill` for the items that it adds
/// without saying which.
pub uninterp spec fn edited_ids(ops: Seq<IdEditOp>, base: Seq<usize>, fill: Option<usize>) -> Seq<
    usize,
>;

/// Whether `id` stands in the array, is the fill, or is carried by the
/// program.
pub open spec fn at_hand(ops: Seq<IdEditOp>, base: Seq<usize>, fill: Option<usize>, id: usize) -> bool {
    ||| base.contains(id)
    ||| fill == Some(id)
    ||| exists|i: int| 0 <= i < ops.len() && (#[trigger] ops[i]).literal() == Some(id)
}

/// The instructions of sparse array edits.
#[verifier::external_type_specification]
#[verifier::external_body]
#[verifier::reject_recursive_types(T)]
pub struct ExArrayEditOp<T>(opinionated::ArrayEditOp<T>);

/// The operands of sparse array edits.
#[verifier::external_type_specification]
#[verifier::external_body]
#[verifier::reject_recursive_types(T)]
pub struct ExArrayEditOperand<T>(opinionated::ArrayEditOperand<T>);

/// The places of sparse array edits.
#[verifier::external_type_specification]
#[verifier::external_body]
pub struct ExArrayIndex(opinionated::ArrayIndex);

/// The `opinionated::ArrayIndex` that a place stands for. Nothing is claimed of
/// it: it is only handed to [`outside_op`] and [`outside_operand`].
#[verifier::external_body]
fn outside_index(index: ArrayPlace) -> opinionated::ArrayIndex {
    match index {
        ArrayPlace::Position(at) => opinionated::ArrayIndex::Position(at),
        ArrayPlace::End => opinionated::ArrayIndex::End,
    }
}

/// The `opinionated::ArrayEditOperand` that an operand stands for. Nothing is
/// claimed of it: it is only handed to [`outside_op`].
#[verifier::external_body]
fn outside_operand(src: IdOperand) -> opinionated::ArrayEditOperand<usize> {
    match src {
        IdOperand::Literal(id) => opinionated::ArrayEditOperand::Literal(id),
        IdOperand::CopyFrom(at) => opinionated::ArrayEditOperand::CopyFrom(outside_index(at)),
    }
}

/// The `opinionated::ArrayEditOp` that an instruction stands for. Nothing is
/// claimed of it: it is only handed to [`edit_ids`].
#[verifier::external_body]
fn outside_op(op: IdEditOp) -> opinionated::ArrayEditOp<usize> {
    match op {
        IdEditOp::Write { src, index } => OutsideOp::Write { src: outside_operand(src), index: outside_index(index) },
        IdEditOp::Insert { src, index } => OutsideOp::Insert { src: outside_operand(src), index: outside_index(index) },
        IdEditOp::Erase { index } => OutsideOp::Erase { index: outside_index(index) },
        IdEditOp::MinSize { len } => OutsideOp::MinSize { len },
        IdEditOp::MinSizeFill { len, fill } => OutsideOp::MinSizeFill { len, fill },
        IdEditOp::MaxSize { len } => OutsideOp::MaxSize { len },
        IdEditOp::Resize { len } => OutsideOp::Resize { len },
        IdEditOp::ResizeFill { len, fill } => OutsideOp::ResizeFill { len, fill },
    }
}

/// `opinionated::ArrayEdit::compose_over_array` applies the instructions of an
/// edit to a copy of an array, in order. Its result is a function of the
/// program, the array and the fill, and holds only items of the array, items
/// that the program carries, and the fill. It grows the array by at most as
/// many items as the program says, which have to fit in memory.
#[verifier::external_body]
pub(crate) fn edit_ids(ops: Vec<IdEditOp>, base: &Vec<usize>, fill: Option<usize>) -> (out: Vec<
    usize,
>)
    requires
        base@.len() + program_growth(ops@, fill is Some) <= size_limit(),
    ensures
        out@ == edited_ids(ops@, base@, fill),
        out@.len() <= base@.len() + program_growth(ops@, fill is Some),
        forall|i: int| 0 <= i < out@.len() ==> at_hand(ops@, base@, fill, #[trigger] out@[i]),
{
    let ops = ops.into_iter().map(outside_op).collect();
    opinionated::ArrayEdit { ops }.compose_over_array(base, fill)
}

} // verus!
