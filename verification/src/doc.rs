//! Authored values and fields.
//!
//! A floating-point number is held as its bits. Two numbers are equal where
//! their bits are, or where both are zero, and never where one is not a
//! number.

use crate::interner::TokenId;
use crate::text::same_text;
use vstd::prelude::*;

verus! {

/// What a prim spec does to its prim.
#[derive(Clone, Copy, Debug, PartialEq, Eq, Structural)]
pub enum Specifier {
    /// Defines it.
    Def,
    /// Adds opinions to it.
    Over,
    /// Defines it as abstract.
    Class,
}

// ── Numbers ─────────────────────────────────────────────────────────────

/// The bits of the sign of a half, a single and a double.
pub const HALF_SIGN: u64 = 0x8000;

pub const FLOAT_SIGN: u64 = 0x8000_0000;

pub const DOUBLE_SIGN: u64 = 0x8000_0000_0000_0000;

/// The bits of infinity of a half, a single and a double: what is larger,
/// without its sign, is not a number.
pub const HALF_INFINITY: u64 = 0x7c00;

pub const FLOAT_INFINITY: u64 = 0x7f80_0000;

pub const DOUBLE_INFINITY: u64 = 0x7ff0_0000_0000_0000;

/// The precision of a floating-point number.
#[derive(Clone, Copy, Debug, PartialEq, Eq, Structural, Hash)]
pub enum Precision {
    Half,
    Single,
    Double,
}

impl Precision {
    /// The bit of the sign.
    pub open spec fn spec_sign(self) -> u64 {
        match self {
            Precision::Half => HALF_SIGN,
            Precision::Single => FLOAT_SIGN,
            Precision::Double => DOUBLE_SIGN,
        }
    }

    /// The bits of infinity.
    pub open spec fn spec_infinity(self) -> u64 {
        match self {
            Precision::Half => HALF_INFINITY,
            Precision::Single => FLOAT_INFINITY,
            Precision::Double => DOUBLE_INFINITY,
        }
    }

    fn sign(self) -> (bit: u64)
        ensures
            bit == self.spec_sign(),
            bit > 0,
    {
        match self {
            Precision::Half => HALF_SIGN,
            Precision::Single => FLOAT_SIGN,
            Precision::Double => DOUBLE_SIGN,
        }
    }

    fn infinity(self) -> (bits: u64)
        ensures
            bits == self.spec_infinity(),
    {
        match self {
            Precision::Half => HALF_INFINITY,
            Precision::Single => FLOAT_INFINITY,
            Precision::Double => DOUBLE_INFINITY,
        }
    }
}

/// Whether the bits are those of no number.
pub open spec fn is_nan(precision: Precision, bits: u64) -> bool {
    bits as int % precision.spec_sign() as int > precision.spec_infinity()
}

/// Whether two numbers are equal.
pub open spec fn numbers_equal(precision: Precision, a: u64, b: u64) -> bool {
    &&& !is_nan(precision, a)
    &&& !is_nan(precision, b)
    &&& a == b || a as int % precision.spec_sign() as int == 0 && b as int
        % precision.spec_sign() as int == 0
}

/// Whether two numbers are equal.
pub fn same_number(precision: Precision, a: u64, b: u64) -> (same: bool)
    ensures
        same == numbers_equal(precision, a, b),
{
    let sign = precision.sign();
    let infinity = precision.infinity();
    a % sign <= infinity && b % sign <= infinity && (a == b || a % sign == 0 && b % sign == 0)
}

/// The place of a double in the total order of doubles: negative numbers first,
/// the largest magnitude first, then positive ones.
pub open spec fn total_place(bits: u64) -> int {
    if bits < DOUBLE_SIGN {
        bits as int
    } else {
        DOUBLE_SIGN as int - bits as int - 1
    }
}

/// Whether a double comes before another in the total order.
pub fn total_before(a: u64, b: u64) -> (before: bool)
    ensures
        before == (total_place(a) < total_place(b)),
{
    if a < DOUBLE_SIGN {
        b < DOUBLE_SIGN && a < b
    } else {
        b < DOUBLE_SIGN || b < a
    }
}

// ── Values ──────────────────────────────────────────────────────────────

/// The kinds of value that hold several numbers.
#[derive(Clone, Copy, Debug, PartialEq, Eq, Structural, Hash)]
pub enum TupleKind {
    Vec2h,
    Vec2f,
    Vec2d,
    Vec3h,
    Vec3f,
    Vec3d,
    Vec4h,
    Vec4f,
    Vec4d,
    Quath,
    Quatf,
    Quatd,
    Matrix2d,
    Matrix3d,
    Matrix4d,
}

impl TupleKind {
    /// The precision of the numbers.
    pub open spec fn spec_precision(self) -> Precision {
        match self {
            TupleKind::Vec2h | TupleKind::Vec3h | TupleKind::Vec4h | TupleKind::Quath => {
                Precision::Half
            },
            TupleKind::Vec2f | TupleKind::Vec3f | TupleKind::Vec4f | TupleKind::Quatf => {
                Precision::Single
            },
            _ => Precision::Double,
        }
    }

    /// The precision of the numbers.
    pub fn precision(self) -> (precision: Precision)
        ensures
            precision == self.spec_precision(),
    {
        match self {
            TupleKind::Vec2h | TupleKind::Vec3h | TupleKind::Vec4h | TupleKind::Quath => {
                Precision::Half
            },
            TupleKind::Vec2f | TupleKind::Vec3f | TupleKind::Vec4f | TupleKind::Quatf => {
                Precision::Single
            },
            _ => Precision::Double,
        }
    }
}

/// A place in an array: counted from the front, from the back when negative,
/// or behind the last item.
#[derive(Clone, Copy, Debug, PartialEq, Eq, Structural, Hash)]
pub enum ArrayPlace {
    Position(i64),
    End,
}

/// What an array edit writes.
#[derive(Debug)]
pub enum EditOperand {
    /// A value.
    Literal(Value),
    /// The item at another place of the edited array.
    CopyFrom(ArrayPlace),
}

/// One instruction of an array edit.
#[derive(Debug)]
pub enum EditOp {
    /// Replaces an item.
    Write { src: EditOperand, index: ArrayPlace },
    /// Inserts an item.
    Insert { src: EditOperand, index: ArrayPlace },
    /// Removes an item.
    Erase { index: ArrayPlace },
    /// Grows the array to at least `len` items.
    MinSize { len: usize },
    /// Grows the array to at least `len` items, each new one `fill`.
    MinSizeFill { len: usize, fill: Value },
    /// Cuts the array down to `len` items.
    MaxSize { len: usize },
    /// Makes the array hold `len` items.
    Resize { len: usize },
    /// Makes the array hold `len` items, each new one `fill`.
    ResizeFill { len: usize, fill: Value },
}

/// A sparse array edit: instructions applied in order.
#[derive(Debug)]
pub struct ArrayEdit {
    pub ops: Vec<EditOp>,
}

/// An authored value.
#[derive(Debug)]
pub enum Value {
    Bool(bool),
    Int(i32),
    UInt(u32),
    Int64(i64),
    UInt64(u64),
    /// The bits of a half.
    Half(u16),
    /// The bits of a single.
    Float(u32),
    /// The bits of a double.
    Double(u64),
    /// The bits of a time.
    TimeCode(u64),
    String(String),
    Token(TokenId),
    Asset(String),
    PathExpression(String),
    /// The bits of each number.
    Tuple(TupleKind, Vec<u64>),
    Array(Vec<Value>),
    Dictionary(Vec<(String, Value)>),
    ArrayEdit(ArrayEdit),
    /// A value block.
    Blocked,
}

/// The mathematical value of an [`EditOperand`].
pub enum OperandView {
    Literal(ValueView),
    CopyFrom(ArrayPlace),
}

/// The mathematical value of an [`EditOp`].
pub enum OpView {
    Write { src: OperandView, index: ArrayPlace },
    Insert { src: OperandView, index: ArrayPlace },
    Erase { index: ArrayPlace },
    MinSize { len: usize },
    MinSizeFill { len: usize, fill: ValueView },
    MaxSize { len: usize },
    Resize { len: usize },
    ResizeFill { len: usize, fill: ValueView },
}

/// The mathematical value of a [`Value`].
pub enum ValueView {
    Bool(bool),
    Int(i32),
    UInt(u32),
    Int64(i64),
    UInt64(u64),
    Half(u16),
    Float(u32),
    Double(u64),
    TimeCode(u64),
    Text(Seq<char>),
    Token(TokenId),
    Asset(Seq<char>),
    PathExpression(Seq<char>),
    Tuple(TupleKind, Seq<u64>),
    Array(Seq<ValueView>),
    Dictionary(Seq<(Seq<char>, ValueView)>),
    ArrayEdit(Seq<OpView>),
    Blocked,
}

impl EditOperand {
    pub open spec fn view(&self) -> OperandView
        decreases self,
    {
        match self {
            EditOperand::Literal(value) => OperandView::Literal(value.view()),
            EditOperand::CopyFrom(index) => OperandView::CopyFrom(*index),
        }
    }
}

impl EditOp {
    pub open spec fn view(&self) -> OpView
        decreases self,
    {
        match self {
            EditOp::Write { src, index } => OpView::Write { src: src.view(), index: *index },
            EditOp::Insert { src, index } => OpView::Insert { src: src.view(), index: *index },
            EditOp::Erase { index } => OpView::Erase { index: *index },
            EditOp::MinSize { len } => OpView::MinSize { len: *len },
            EditOp::MinSizeFill { len, fill } => OpView::MinSizeFill {
                len: *len,
                fill: fill.view(),
            },
            EditOp::MaxSize { len } => OpView::MaxSize { len: *len },
            EditOp::Resize { len } => OpView::Resize { len: *len },
            EditOp::ResizeFill { len, fill } => OpView::ResizeFill {
                len: *len,
                fill: fill.view(),
            },
        }
    }
}

/// The values of a list of instructions.
pub open spec fn ops_view(ops: Seq<EditOp>) -> Seq<OpView>
    decreases ops,
{
    if ops.len() == 0 {
        seq![]
    } else {
        ops_view(ops.drop_last()).push(ops.last().view())
    }
}

/// The values of a list of values.
pub open spec fn values_view(values: Seq<Value>) -> Seq<ValueView>
    decreases values,
{
    if values.len() == 0 {
        seq![]
    } else {
        values_view(values.drop_last()).push(values.last().view())
    }
}

/// The values of a list of dictionary entries.
pub open spec fn entries_view(entries: Seq<(String, Value)>) -> Seq<(Seq<char>, ValueView)>
    decreases entries,
{
    if entries.len() == 0 {
        seq![]
    } else {
        entries_view(entries.drop_last()).push((entries.last().0@, entries.last().1.view()))
    }
}

impl Value {
    pub open spec fn view(&self) -> ValueView
        decreases self,
    {
        match self {
            Value::Bool(b) => ValueView::Bool(*b),
            Value::Int(n) => ValueView::Int(*n),
            Value::UInt(n) => ValueView::UInt(*n),
            Value::Int64(n) => ValueView::Int64(*n),
            Value::UInt64(n) => ValueView::UInt64(*n),
            Value::Half(n) => ValueView::Half(*n),
            Value::Float(n) => ValueView::Float(*n),
            Value::Double(n) => ValueView::Double(*n),
            Value::TimeCode(n) => ValueView::TimeCode(*n),
            Value::String(s) => ValueView::Text(s@),
            Value::Token(t) => ValueView::Token(*t),
            Value::Asset(s) => ValueView::Asset(s@),
            Value::PathExpression(s) => ValueView::PathExpression(s@),
            Value::Tuple(kind, numbers) => ValueView::Tuple(*kind, numbers@),
            Value::Array(items) => ValueView::Array(values_view(items@)),
            Value::Dictionary(entries) => ValueView::Dictionary(entries_view(entries@)),
            Value::ArrayEdit(edit) => ValueView::ArrayEdit(ops_view(edit.ops@)),
            Value::Blocked => ValueView::Blocked,
        }
    }
}

pub proof fn lemma_values_view(values: Seq<Value>)
    ensures
        values_view(values).len() == values.len(),
        forall|i: int|
            0 <= i < values.len() ==> #[trigger] values_view(values)[i] == values[i].view(),
    decreases values.len(),
{
    if values.len() > 0 {
        let rest = values.drop_last();
        lemma_values_view(rest);
        assert forall|i: int| 0 <= i < values.len() implies #[trigger] values_view(values)[i]
            == values[i].view() by {
            if i < rest.len() {
                assert(values_view(rest)[i] == rest[i].view());
            }
        }
    }
}

pub proof fn lemma_values_push(values: Seq<Value>, value: Value)
    ensures
        values_view(values.push(value)) == values_view(values).push(value.view()),
{
    assert(values.push(value).drop_last() =~= values);
}

pub proof fn lemma_entries_view(entries: Seq<(String, Value)>)
    ensures
        entries_view(entries).len() == entries.len(),
        forall|i: int|
            0 <= i < entries.len() ==> #[trigger] entries_view(entries)[i] == (
                entries[i].0@,
                entries[i].1.view(),
            ),
    decreases entries.len(),
{
    if entries.len() > 0 {
        let rest = entries.drop_last();
        lemma_entries_view(rest);
        assert forall|i: int| 0 <= i < entries.len() implies #[trigger] entries_view(entries)[i]
            == (entries[i].0@, entries[i].1.view()) by {
            if i < rest.len() {
                assert(entries_view(rest)[i] == (rest[i].0@, rest[i].1.view()));
            }
        }
    }
}

pub proof fn lemma_entries_push(entries: Seq<(String, Value)>, entry: (String, Value))
    ensures
        entries_view(entries.push(entry)) == entries_view(entries).push(
            (entry.0@, entry.1.view()),
        ),
{
    assert(entries.push(entry).drop_last() =~= entries);
}

pub proof fn lemma_ops_view(ops: Seq<EditOp>)
    ensures
        ops_view(ops).len() == ops.len(),
        forall|i: int| 0 <= i < ops.len() ==> #[trigger] ops_view(ops)[i] == ops[i].view(),
    decreases ops.len(),
{
    if ops.len() > 0 {
        let rest = ops.drop_last();
        lemma_ops_view(rest);
        assert forall|i: int| 0 <= i < ops.len() implies #[trigger] ops_view(ops)[i]
            == ops[i].view() by {
            if i < rest.len() {
                assert(ops_view(rest)[i] == rest[i].view());
            }
        }
    }
}

pub proof fn lemma_ops_push(ops: Seq<EditOp>, op: EditOp)
    ensures
        ops_view(ops.push(op)) == ops_view(ops).push(op.view()),
{
    assert(ops.push(op).drop_last() =~= ops);
}

// ── Equality ────────────────────────────────────────────────────────────

/// What makes two numbers the same.
#[derive(Clone, Copy, Debug, PartialEq, Eq, Structural)]
pub enum Sameness {
    /// Equality: a zero equals its negative, and what is no number equals
    /// nothing.
    Equal,
    /// Reading alike: a zero differs from its negative, and whatever is no
    /// number is the same.
    Alike,
}

/// Whether two numbers are the same. A half is its bits, and the same only as
/// a half with the same bits.
pub open spec fn numbers_match(how: Sameness, precision: Precision, a: u64, b: u64) -> bool {
    match (precision, how) {
        (Precision::Half, _) => a == b,
        (_, Sameness::Equal) => numbers_equal(precision, a, b),
        (_, Sameness::Alike) => a == b || is_nan(precision, a) && is_nan(precision, b),
    }
}

/// Whether two numbers are the same.
fn number_matches(how: Sameness, precision: Precision, a: u64, b: u64) -> (same: bool)
    ensures
        same == numbers_match(how, precision, a, b),
{
    match (precision, how) {
        (Precision::Half, _) => a == b,
        (_, Sameness::Equal) => same_number(precision, a, b),
        (_, Sameness::Alike) => {
            let sign = precision.sign();
            let infinity = precision.infinity();
            a == b || a % sign > infinity && b % sign > infinity
        },
    }
}

/// Whether two values are equal.
pub open spec fn values_equal(a: ValueView, b: ValueView) -> bool {
    values_match(Sameness::Equal, a, b)
}

/// Whether two values read alike.
pub open spec fn values_alike(a: ValueView, b: ValueView) -> bool {
    values_match(Sameness::Alike, a, b)
}

/// Whether two lists of numbers are the same.
pub open spec fn tuples_match(how: Sameness, precision: Precision, a: Seq<u64>, b: Seq<u64>) -> bool {
    &&& a.len() == b.len()
    &&& forall|i: int| 0 <= i < a.len() ==> numbers_match(how, precision, #[trigger] a[i], b[i])
}

/// Whether two operands are the same.
pub open spec fn operands_match(how: Sameness, a: OperandView, b: OperandView) -> bool
    decreases a,
{
    match (a, b) {
        (OperandView::Literal(x), OperandView::Literal(y)) => values_match(how, x, y),
        (OperandView::CopyFrom(x), OperandView::CopyFrom(y)) => x == y,
        _ => false,
    }
}

/// Whether two instructions are the same.
pub open spec fn ops_match(how: Sameness, a: OpView, b: OpView) -> bool
    decreases a,
{
    match (a, b) {
        (OpView::Write { src: s, index: i }, OpView::Write { src: t, index: j }) => i == j
            && operands_match(how, s, t),
        (OpView::Insert { src: s, index: i }, OpView::Insert { src: t, index: j }) => i == j
            && operands_match(how, s, t),
        (OpView::Erase { index: i }, OpView::Erase { index: j }) => i == j,
        (OpView::MinSize { len: m }, OpView::MinSize { len: n }) => m == n,
        (
            OpView::MinSizeFill { len: m, fill: f },
            OpView::MinSizeFill { len: n, fill: g },
        ) => m == n && values_match(how, f, g),
        (OpView::MaxSize { len: m }, OpView::MaxSize { len: n }) => m == n,
        (OpView::Resize { len: m }, OpView::Resize { len: n }) => m == n,
        (
            OpView::ResizeFill { len: m, fill: f },
            OpView::ResizeFill { len: n, fill: g },
        ) => m == n && values_match(how, f, g),
        _ => false,
    }
}

/// Whether two programs of instructions are the same.
pub open spec fn programs_match(how: Sameness, a: Seq<OpView>, b: Seq<OpView>) -> bool
    decreases a,
{
    if a.len() == 0 || b.len() == 0 {
        a.len() == b.len()
    } else {
        ops_match(how, a.last(), b.last()) && programs_match(how, a.drop_last(), b.drop_last())
    }
}

/// Whether two lists of values are the same.
pub open spec fn lists_match(how: Sameness, a: Seq<ValueView>, b: Seq<ValueView>) -> bool
    decreases a,
{
    if a.len() == 0 || b.len() == 0 {
        a.len() == b.len()
    } else {
        values_match(how, a.last(), b.last()) && lists_match(how, a.drop_last(), b.drop_last())
    }
}

/// Whether two lists of dictionary entries are the same.
pub open spec fn entries_match(how: Sameness, a: Seq<(Seq<char>, ValueView)>, b: Seq<(Seq<char>, ValueView)>) -> bool
    decreases a,
{
    if a.len() == 0 || b.len() == 0 {
        a.len() == b.len()
    } else {
        a.last().0 == b.last().0 && values_match(how, a.last().1, b.last().1) && entries_match(how,
            a.drop_last(),
            b.drop_last(),
        )
    }
}

/// Whether two values are the same.
pub open spec fn values_match(how: Sameness, a: ValueView, b: ValueView) -> bool
    decreases a,
{
    match (a, b) {
        (ValueView::Bool(x), ValueView::Bool(y)) => x == y,
        (ValueView::Int(x), ValueView::Int(y)) => x == y,
        (ValueView::UInt(x), ValueView::UInt(y)) => x == y,
        (ValueView::Int64(x), ValueView::Int64(y)) => x == y,
        (ValueView::UInt64(x), ValueView::UInt64(y)) => x == y,
        (ValueView::Half(x), ValueView::Half(y)) => numbers_match(how,
            Precision::Half,
            x as u64,
            y as u64,
        ),
        (ValueView::Float(x), ValueView::Float(y)) => numbers_match(how,
            Precision::Single,
            x as u64,
            y as u64,
        ),
        (ValueView::Double(x), ValueView::Double(y)) => numbers_match(how, Precision::Double, x, y),
        (ValueView::TimeCode(x), ValueView::TimeCode(y)) => numbers_match(how, Precision::Double, x, y),
        (ValueView::Text(x), ValueView::Text(y)) => x == y,
        (ValueView::Token(x), ValueView::Token(y)) => x == y,
        (ValueView::Asset(x), ValueView::Asset(y)) => x == y,
        (ValueView::PathExpression(x), ValueView::PathExpression(y)) => x == y,
        (ValueView::Tuple(k, x), ValueView::Tuple(l, y)) => k == l && tuples_match(how,
            k.spec_precision(),
            x,
            y,
        ),
        (ValueView::Array(x), ValueView::Array(y)) => lists_match(how, x, y),
        (ValueView::Dictionary(x), ValueView::Dictionary(y)) => entries_match(how, x, y),
        (ValueView::ArrayEdit(x), ValueView::ArrayEdit(y)) => programs_match(how, x, y),
        (ValueView::Blocked, ValueView::Blocked) => true,
        _ => false,
    }
}

fn same_tuple(how: Sameness, precision: Precision, a: &Vec<u64>, b: &Vec<u64>) -> (same: bool)
    ensures
        same == tuples_match(how, precision, a@, b@),
{
    if a.len() != b.len() {
        return false;
    }
    let mut i: usize = 0;
    while i < a.len()
        invariant
            a@.len() == b@.len(),
            i <= a@.len(),
            forall|k: int| 0 <= k < i ==> numbers_match(how, precision, #[trigger] a@[k], b@[k]),
        decreases a@.len() - i,
    {
        if !number_matches(how, precision, a[i], b[i]) {
            return false;
        }
        i = i + 1;
    }
    true
}

impl EditOperand {
    fn matches(&self, how: Sameness, other: &EditOperand) -> (same: bool)
        ensures
            same == operands_match(how, self.view(), other.view()),
        decreases self,
    {
        match (self, other) {
            (EditOperand::Literal(x), EditOperand::Literal(y)) => x.matches(how, y),
            (EditOperand::CopyFrom(x), EditOperand::CopyFrom(y)) => *x == *y,
            _ => false,
        }
    }

    /// A copy of this operand.
    pub fn copy(&self) -> (out: EditOperand)
        ensures
            out.view() == self.view(),
        decreases self,
    {
        match self {
            EditOperand::Literal(value) => EditOperand::Literal(value.copy()),
            EditOperand::CopyFrom(index) => EditOperand::CopyFrom(*index),
        }
    }
}

impl EditOp {
    fn matches(&self, how: Sameness, other: &EditOp) -> (same: bool)
        ensures
            same == ops_match(how, self.view(), other.view()),
        decreases self,
    {
        match (self, other) {
            (
                EditOp::Write { src: s, index: i },
                EditOp::Write { src: t, index: j },
            ) => *i == *j && s.matches(how, t),
            (
                EditOp::Insert { src: s, index: i },
                EditOp::Insert { src: t, index: j },
            ) => *i == *j && s.matches(how, t),
            (EditOp::Erase { index: i }, EditOp::Erase { index: j }) => *i == *j,
            (EditOp::MinSize { len: m }, EditOp::MinSize { len: n }) => *m == *n,
            (
                EditOp::MinSizeFill { len: m, fill: f },
                EditOp::MinSizeFill { len: n, fill: g },
            ) => *m == *n && f.matches(how, g),
            (EditOp::MaxSize { len: m }, EditOp::MaxSize { len: n }) => *m == *n,
            (EditOp::Resize { len: m }, EditOp::Resize { len: n }) => *m == *n,
            (
                EditOp::ResizeFill { len: m, fill: f },
                EditOp::ResizeFill { len: n, fill: g },
            ) => *m == *n && f.matches(how, g),
            _ => false,
        }
    }

    /// A copy of this instruction.
    pub fn copy(&self) -> (out: EditOp)
        ensures
            out.view() == self.view(),
        decreases self,
    {
        match self {
            EditOp::Write { src, index } => EditOp::Write {
                src: src.copy(),
                index: *index,
            },
            EditOp::Insert { src, index } => EditOp::Insert {
                src: src.copy(),
                index: *index,
            },
            EditOp::Erase { index } => EditOp::Erase { index: *index },
            EditOp::MinSize { len } => EditOp::MinSize { len: *len },
            EditOp::MinSizeFill { len, fill } => EditOp::MinSizeFill {
                len: *len,
                fill: fill.copy(),
            },
            EditOp::MaxSize { len } => EditOp::MaxSize { len: *len },
            EditOp::Resize { len } => EditOp::Resize { len: *len },
            EditOp::ResizeFill { len, fill } => EditOp::ResizeFill {
                len: *len,
                fill: fill.copy(),
            },
        }
    }
}

fn same_values(how: Sameness, a: &Vec<Value>, b: &Vec<Value>) -> (same: bool)
    ensures
        same == lists_match(how, values_view(a@), values_view(b@)),
    decreases a,
{
    proof {
        lemma_values_view(a@);
        lemma_values_view(b@);
    }
    if a.len() != b.len() {
        proof {
            lemma_lists_length(how, values_view(a@), values_view(b@));
        }
        return false;
    }
    let mut i: usize = a.len();
    assert(a@.take(i as int) =~= a@);
    assert(b@.take(i as int) =~= b@);
    while i > 0
        invariant
            i <= a@.len() == b@.len(),
            lists_match(how, values_view(a@), values_view(b@)) == lists_match(how,
                values_view(a@.take(i as int)),
                values_view(b@.take(i as int)),
            ),
        decreases i,
    {
        proof {
            let x = a@.take(i as int);
            let y = b@.take(i as int);
            assert(x.drop_last() =~= a@.take(i - 1));
            assert(y.drop_last() =~= b@.take(i - 1));
            assert(values_view(x).drop_last() =~= values_view(a@.take(i - 1)));
            assert(values_view(y).drop_last() =~= values_view(b@.take(i - 1)));
        }
        i = i - 1;
        if !a[i].matches(how, &b[i]) {
            return false;
        }
    }
    assert(values_view(a@.take(0)) =~= seq![]);
    assert(values_view(b@.take(0)) =~= seq![]);
    true
}

proof fn lemma_lists_length(how: Sameness, a: Seq<ValueView>, b: Seq<ValueView>)
    ensures
        lists_match(how, a, b) ==> a.len() == b.len(),
    decreases a.len(),
{
    if a.len() > 0 && b.len() > 0 {
        lemma_lists_length(how, a.drop_last(), b.drop_last());
    }
}

fn same_entries(how: Sameness, a: &Vec<(String, Value)>, b: &Vec<(String, Value)>) -> (same: bool)
    ensures
        same == entries_match(how, entries_view(a@), entries_view(b@)),
    decreases a,
{
    proof {
        lemma_entries_view(a@);
        lemma_entries_view(b@);
    }
    if a.len() != b.len() {
        proof {
            lemma_entries_length(how, entries_view(a@), entries_view(b@));
        }
        return false;
    }
    let mut i: usize = a.len();
    assert(a@.take(i as int) =~= a@);
    assert(b@.take(i as int) =~= b@);
    while i > 0
        invariant
            i <= a@.len() == b@.len(),
            entries_match(how, entries_view(a@), entries_view(b@)) == entries_match(how,
                entries_view(a@.take(i as int)),
                entries_view(b@.take(i as int)),
            ),
        decreases i,
    {
        proof {
            let x = a@.take(i as int);
            let y = b@.take(i as int);
            assert(x.drop_last() =~= a@.take(i - 1));
            assert(y.drop_last() =~= b@.take(i - 1));
            assert(entries_view(x).drop_last() =~= entries_view(a@.take(i - 1)));
            assert(entries_view(y).drop_last() =~= entries_view(b@.take(i - 1)));
        }
        i = i - 1;
        if !same_text(a[i].0.as_str(), b[i].0.as_str()) || !a[i].1.matches(how, &b[i].1) {
            return false;
        }
    }
    assert(entries_view(a@.take(0)) =~= seq![]);
    assert(entries_view(b@.take(0)) =~= seq![]);
    true
}

proof fn lemma_entries_length(how: Sameness, a: Seq<(Seq<char>, ValueView)>, b: Seq<(Seq<char>, ValueView)>)
    ensures
        entries_match(how, a, b) ==> a.len() == b.len(),
    decreases a.len(),
{
    if a.len() > 0 && b.len() > 0 {
        lemma_entries_length(how, a.drop_last(), b.drop_last());
    }
}

fn same_program(how: Sameness, a: &Vec<EditOp>, b: &Vec<EditOp>) -> (same: bool)
    ensures
        same == programs_match(how, ops_view(a@), ops_view(b@)),
    decreases a,
{
    proof {
        lemma_ops_view(a@);
        lemma_ops_view(b@);
    }
    if a.len() != b.len() {
        proof {
            lemma_programs_length(how, ops_view(a@), ops_view(b@));
        }
        return false;
    }
    let mut i: usize = a.len();
    assert(a@.take(i as int) =~= a@);
    assert(b@.take(i as int) =~= b@);
    while i > 0
        invariant
            i <= a@.len() == b@.len(),
            programs_match(how, ops_view(a@), ops_view(b@)) == programs_match(how,
                ops_view(a@.take(i as int)),
                ops_view(b@.take(i as int)),
            ),
        decreases i,
    {
        proof {
            let x = a@.take(i as int);
            let y = b@.take(i as int);
            assert(x.drop_last() =~= a@.take(i - 1));
            assert(y.drop_last() =~= b@.take(i - 1));
            assert(ops_view(x).drop_last() =~= ops_view(a@.take(i - 1)));
            assert(ops_view(y).drop_last() =~= ops_view(b@.take(i - 1)));
        }
        i = i - 1;
        if !a[i].matches(how, &b[i]) {
            return false;
        }
    }
    assert(ops_view(a@.take(0)) =~= seq![]);
    assert(ops_view(b@.take(0)) =~= seq![]);
    true
}

proof fn lemma_programs_length(how: Sameness, a: Seq<OpView>, b: Seq<OpView>)
    ensures
        programs_match(how, a, b) ==> a.len() == b.len(),
    decreases a.len(),
{
    if a.len() > 0 && b.len() > 0 {
        lemma_programs_length(how, a.drop_last(), b.drop_last());
    }
}

/// Copies a list of values.
pub fn copy_values(values: &Vec<Value>) -> (out: Vec<Value>)
    ensures
        values_view(out@) == values_view(values@),
        out@.len() == values@.len(),
    decreases values,
{
    let mut out: Vec<Value> = Vec::new();
    let mut i: usize = 0;
    assert(values@.take(0) =~= seq![]);
    while i < values.len()
        invariant
            i <= values@.len(),
            out@.len() == i,
            values_view(out@) == values_view(values@.take(i as int)),
        decreases values@.len() - i,
    {
        let value = values[i].copy();
        proof {
            lemma_values_push(out@, value);
            lemma_values_push(values@.take(i as int), values@[i as int]);
            assert(values@.take(i + 1) =~= values@.take(i as int).push(values@[i as int]));
        }
        out.push(value);
        i = i + 1;
    }
    assert(values@.take(i as int) =~= values@);
    out
}

/// Copies a list of dictionary entries.
pub fn copy_entries(entries: &Vec<(String, Value)>) -> (out: Vec<(String, Value)>)
    ensures
        entries_view(out@) == entries_view(entries@),
        out@.len() == entries@.len(),
    decreases entries,
{
    let mut out: Vec<(String, Value)> = Vec::new();
    let mut i: usize = 0;
    assert(entries@.take(0) =~= seq![]);
    while i < entries.len()
        invariant
            i <= entries@.len(),
            out@.len() == i,
            entries_view(out@) == entries_view(entries@.take(i as int)),
        decreases entries@.len() - i,
    {
        let entry = (entries[i].0.clone(), entries[i].1.copy());
        proof {
            lemma_entries_push(out@, entry);
            lemma_entries_push(entries@.take(i as int), entries@[i as int]);
            assert(entries@.take(i + 1) =~= entries@.take(i as int).push(entries@[i as int]));
        }
        out.push(entry);
        i = i + 1;
    }
    assert(entries@.take(i as int) =~= entries@);
    out
}

/// Copies a program of instructions.
pub fn copy_ops(ops: &Vec<EditOp>) -> (out: Vec<EditOp>)
    ensures
        ops_view(out@) == ops_view(ops@),
    decreases ops,
{
    let mut out: Vec<EditOp> = Vec::new();
    let mut i: usize = 0;
    assert(ops@.take(0) =~= seq![]);
    while i < ops.len()
        invariant
            i <= ops@.len(),
            ops_view(out@) == ops_view(ops@.take(i as int)),
        decreases ops@.len() - i,
    {
        let op = ops[i].copy();
        proof {
            lemma_ops_push(out@, op);
            lemma_ops_push(ops@.take(i as int), ops@[i as int]);
            assert(ops@.take(i + 1) =~= ops@.take(i as int).push(ops@[i as int]));
        }
        out.push(op);
        i = i + 1;
    }
    assert(ops@.take(i as int) =~= ops@);
    out
}

impl Value {
    /// Whether two values are equal.
    pub fn equals(&self, other: &Value) -> (same: bool)
        ensures
            same == values_equal(self.view(), other.view()),
    {
        self.matches(Sameness::Equal, other)
    }

    /// Whether two values read alike.
    pub fn alike(&self, other: &Value) -> (same: bool)
        ensures
            same == values_alike(self.view(), other.view()),
    {
        self.matches(Sameness::Alike, other)
    }

    /// Whether two values are the same.
    pub fn matches(&self, how: Sameness, other: &Value) -> (same: bool)
        ensures
            same == values_match(how, self.view(), other.view()),
        decreases self,
    {
        match (self, other) {
            (Value::Bool(x), Value::Bool(y)) => *x == *y,
            (Value::Int(x), Value::Int(y)) => *x == *y,
            (Value::UInt(x), Value::UInt(y)) => *x == *y,
            (Value::Int64(x), Value::Int64(y)) => *x == *y,
            (Value::UInt64(x), Value::UInt64(y)) => *x == *y,
            (Value::Half(x), Value::Half(y)) => number_matches(how,
                Precision::Half,
                *x as u64,
                *y as u64,
            ),
            (Value::Float(x), Value::Float(y)) => number_matches(how,
                Precision::Single,
                *x as u64,
                *y as u64,
            ),
            (Value::Double(x), Value::Double(y)) => number_matches(how, Precision::Double, *x, *y),
            (Value::TimeCode(x), Value::TimeCode(y)) => number_matches(how, Precision::Double, *x, *y),
            (Value::String(x), Value::String(y)) => same_text(x.as_str(), y.as_str()),
            (Value::Token(x), Value::Token(y)) => *x == *y,
            (Value::Asset(x), Value::Asset(y)) => same_text(x.as_str(), y.as_str()),
            (Value::PathExpression(x), Value::PathExpression(y)) => same_text(
                x.as_str(),
                y.as_str(),
            ),
            (Value::Tuple(k, x), Value::Tuple(l, y)) => *k == *l && same_tuple(how,
                k.precision(),
                x,
                y,
            ),
            (Value::Array(x), Value::Array(y)) => same_values(how, x, y),
            (Value::Dictionary(x), Value::Dictionary(y)) => same_entries(how, x, y),
            (Value::ArrayEdit(x), Value::ArrayEdit(y)) => same_program(how, &x.ops, &y.ops),
            (Value::Blocked, Value::Blocked) => true,
            _ => false,
        }
    }

    /// A copy of this value.
    pub fn copy(&self) -> (out: Value)
        ensures
            out.view() == self.view(),
        decreases self,
    {
        match self {
            Value::Bool(b) => Value::Bool(*b),
            Value::Int(n) => Value::Int(*n),
            Value::UInt(n) => Value::UInt(*n),
            Value::Int64(n) => Value::Int64(*n),
            Value::UInt64(n) => Value::UInt64(*n),
            Value::Half(n) => Value::Half(*n),
            Value::Float(n) => Value::Float(*n),
            Value::Double(n) => Value::Double(*n),
            Value::TimeCode(n) => Value::TimeCode(*n),
            Value::String(s) => Value::String(s.clone()),
            Value::Token(t) => Value::Token(*t),
            Value::Asset(s) => Value::Asset(s.clone()),
            Value::PathExpression(s) => Value::PathExpression(s.clone()),
            Value::Tuple(kind, numbers) => {
                let copy = numbers.clone();
                assert(copy@ =~= numbers@);
                Value::Tuple(*kind, copy)
            },
            Value::Array(items) => Value::Array(copy_values(items)),
            Value::Dictionary(entries) => Value::Dictionary(copy_entries(entries)),
            Value::ArrayEdit(edit) => Value::ArrayEdit(ArrayEdit { ops: copy_ops(&edit.ops) }),
            Value::Blocked => Value::Blocked,
        }
    }

}

/// A value reads like itself.
pub proof fn law_values_read_like_themselves(value: ValueView)
    ensures
        values_alike(value, value),
    decreases value,
{
    match value {
        ValueView::Array(items) => {
            lemma_lists_alike(items);
        },
        ValueView::Dictionary(entries) => {
            lemma_entries_alike(entries);
        },
        ValueView::ArrayEdit(ops) => {
            lemma_programs_alike(ops);
        },
        _ => {},
    }
}

proof fn lemma_lists_alike(items: Seq<ValueView>)
    ensures
        lists_match(Sameness::Alike, items, items),
    decreases items,
{
    if items.len() > 0 {
        law_values_read_like_themselves(items.last());
        lemma_lists_alike(items.drop_last());
    }
}

proof fn lemma_entries_alike(entries: Seq<(Seq<char>, ValueView)>)
    ensures
        entries_match(Sameness::Alike, entries, entries),
    decreases entries,
{
    if entries.len() > 0 {
        law_values_read_like_themselves(entries.last().1);
        lemma_entries_alike(entries.drop_last());
    }
}

proof fn lemma_operands_alike(src: OperandView)
    ensures
        operands_match(Sameness::Alike, src, src),
    decreases src,
{
    match src {
        OperandView::Literal(value) => {
            law_values_read_like_themselves(value);
        },
        OperandView::CopyFrom(_) => {},
    }
}

proof fn lemma_ops_alike(op: OpView)
    ensures
        ops_match(Sameness::Alike, op, op),
    decreases op,
{
    match op {
        OpView::Write { src, .. } => {
            lemma_operands_alike(src);
        },
        OpView::Insert { src, .. } => {
            lemma_operands_alike(src);
        },
        OpView::MinSizeFill { fill, .. } => {
            law_values_read_like_themselves(fill);
        },
        OpView::ResizeFill { fill, .. } => {
            law_values_read_like_themselves(fill);
        },
        _ => {},
    }
}

proof fn lemma_programs_alike(ops: Seq<OpView>)
    ensures
        programs_match(Sameness::Alike, ops, ops),
    decreases ops,
{
    if ops.len() > 0 {
        lemma_ops_alike(ops.last());
        lemma_programs_alike(ops.drop_last());
    }
}

impl PartialEq for Value {
    fn eq(&self, other: &Value) -> (same: bool) {
        self.equals(other)
    }
}

impl vstd::std_specs::cmp::PartialEqSpecImpl for Value {
    open spec fn obeys_eq_spec() -> bool {
        true
    }

    open spec fn eq_spec(&self, other: &Value) -> bool {
        values_equal(self.view(), other.view())
    }
}

/// The view of an optional value.
pub open spec fn value_option(value: Option<Value>) -> Option<ValueView> {
    match value {
        Some(value) => Some(value.view()),
        None => None,
    }
}

/// The view of an optional borrowed value.
pub open spec fn value_ref(value: Option<&Value>) -> Option<ValueView> {
    match value {
        Some(value) => Some(value.view()),
        None => None,
    }
}

/// Copies an optional value.
pub fn copy_option(value: &Option<Value>) -> (out: Option<Value>)
    ensures
        value_option(out) == value_option(*value),
{
    match value {
        Some(value) => Some(value.copy()),
        None => None,
    }
}

// ── Sameness ────────────────────────────────────────────────────────────

/// Numbers read alike where their bits are the same, or neither is a number;
/// they are equal where their bits are the same, or both are zeros, and they
/// are numbers. Halves are the same only with the same bits.
pub proof fn law_sameness_of_numbers(x: u64, y: u64, s: u32, t: u32, h: u16, i: u16)
    ensures
        values_alike(ValueView::Double(x), ValueView::Double(y)) <==> x == y || (x
            % 0x8000_0000_0000_0000 > 0x7ff0_0000_0000_0000 && y % 0x8000_0000_0000_0000
            > 0x7ff0_0000_0000_0000),
        values_equal(ValueView::Double(x), ValueView::Double(y)) <==> x % 0x8000_0000_0000_0000
            <= 0x7ff0_0000_0000_0000 && y % 0x8000_0000_0000_0000 <= 0x7ff0_0000_0000_0000 && (x
            == y || x % 0x8000_0000_0000_0000 == 0 && y % 0x8000_0000_0000_0000 == 0),
        values_alike(ValueView::TimeCode(x), ValueView::TimeCode(y)) == values_alike(
            ValueView::Double(x),
            ValueView::Double(y),
        ),
        values_equal(ValueView::TimeCode(x), ValueView::TimeCode(y)) == values_equal(
            ValueView::Double(x),
            ValueView::Double(y),
        ),
        values_alike(ValueView::Float(s), ValueView::Float(t)) <==> s == t || (s % 0x8000_0000
            > 0x7f80_0000 && t % 0x8000_0000 > 0x7f80_0000),
        values_equal(ValueView::Float(s), ValueView::Float(t)) <==> s % 0x8000_0000 <= 0x7f80_0000
            && t % 0x8000_0000 <= 0x7f80_0000 && (s == t || s % 0x8000_0000 == 0 && t % 0x8000_0000
            == 0),
        values_alike(ValueView::Half(h), ValueView::Half(i)) <==> h == i,
        values_equal(ValueView::Half(h), ValueView::Half(i)) <==> h == i,
{
}

/// Values without numbers of a precision are the same, either way, where they
/// are the same in kind and content, and values of different kinds never are.
pub proof fn law_sameness_of_plain_values(how: Sameness, a: ValueView, b: ValueView)
    ensures
        !(a is Half || a is Float || a is Double || a is TimeCode || a is Tuple || a is Array || a
            is Dictionary || a is ArrayEdit) ==> (values_match(how, a, b) <==> a == b),
        values_match(how, a, b) ==> {
            &&& a is Half <==> b is Half
            &&& a is Float <==> b is Float
            &&& a is Double <==> b is Double
            &&& a is TimeCode <==> b is TimeCode
            &&& a is Tuple <==> b is Tuple
            &&& a is Array <==> b is Array
            &&& a is Dictionary <==> b is Dictionary
            &&& a is ArrayEdit <==> b is ArrayEdit
        },
{
}

/// Tuples are the same where they are of one kind, with the same numbers one by
/// one.
pub proof fn law_sameness_of_tuples(how: Sameness, k: TupleKind, l: TupleKind, x: Seq<u64>, y: Seq<u64>)
    ensures
        values_match(how, ValueView::Tuple(k, x), ValueView::Tuple(l, y)) <==> k == l && x.len()
            == y.len() && forall|i: int|
            0 <= i < x.len() ==> numbers_match(how, k.spec_precision(), #[trigger] x[i], y[i]),
{
}

/// Arrays are the same where they are of one length, with the same items one by
/// one.
pub proof fn law_sameness_of_arrays(how: Sameness, x: Seq<ValueView>, y: Seq<ValueView>)
    ensures
        values_match(how, ValueView::Array(x), ValueView::Array(y)) <==> x.len() == y.len()
            && forall|i: int| 0 <= i < x.len() ==> values_match(how, #[trigger] x[i], y[i]),
    decreases x.len(),
{
    if x.len() > 0 && y.len() > 0 {
        let p = x.drop_last();
        let q = y.drop_last();
        law_sameness_of_arrays(how, p, q);
        let n = x.len() - 1;
        if x.len() == y.len() {
            if forall|i: int| 0 <= i < x.len() ==> values_match(how, #[trigger] x[i], y[i]) {
                assert(values_match(how, x[n], y[n]));
                assert forall|i: int| 0 <= i < p.len() implies values_match(
                    how,
                    #[trigger] p[i],
                    q[i],
                ) by {
                    assert(values_match(how, x[i], y[i]));
                }
            }
            if values_match(how, ValueView::Array(x), ValueView::Array(y)) {
                assert forall|i: int| 0 <= i < x.len() implies values_match(
                    how,
                    #[trigger] x[i],
                    y[i],
                ) by {
                    if i < n {
                        assert(values_match(how, p[i], q[i]));
                    }
                }
            }
        }
    }
}

/// Dictionaries are the same where they have the same keys in the same order,
/// with the same values one by one.
pub proof fn law_sameness_of_dictionaries(
    how: Sameness,
    x: Seq<(Seq<char>, ValueView)>,
    y: Seq<(Seq<char>, ValueView)>,
)
    ensures
        values_match(how, ValueView::Dictionary(x), ValueView::Dictionary(y)) <==> x.len()
            == y.len() && forall|i: int|
            0 <= i < x.len() ==> (#[trigger] x[i]).0 == y[i].0 && values_match(how, x[i].1, y[i].1),
    decreases x.len(),
{
    if x.len() > 0 && y.len() > 0 {
        let p = x.drop_last();
        let q = y.drop_last();
        law_sameness_of_dictionaries(how, p, q);
        let n = x.len() - 1;
        if x.len() == y.len() {
            if forall|i: int|
                0 <= i < x.len() ==> (#[trigger] x[i]).0 == y[i].0 && values_match(
                    how,
                    x[i].1,
                    y[i].1,
                ) {
                assert(x[n].0 == y[n].0);
                assert forall|i: int| 0 <= i < p.len() implies (#[trigger] p[i]).0 == q[i].0
                    && values_match(how, p[i].1, q[i].1) by {
                    assert(x[i].0 == y[i].0);
                }
            }
            if values_match(how, ValueView::Dictionary(x), ValueView::Dictionary(y)) {
                assert forall|i: int| 0 <= i < x.len() implies (#[trigger] x[i]).0 == y[i].0
                    && values_match(how, x[i].1, y[i].1) by {
                    if i < n {
                        assert(p[i].0 == q[i].0);
                    }
                }
            }
        }
    }
}

/// Edits are the same where they have the same number of instructions, the same
/// one by one.
pub proof fn law_sameness_of_edits(how: Sameness, x: Seq<OpView>, y: Seq<OpView>)
    ensures
        values_match(how, ValueView::ArrayEdit(x), ValueView::ArrayEdit(y)) <==> x.len() == y.len()
            && forall|i: int| 0 <= i < x.len() ==> ops_match(how, #[trigger] x[i], y[i]),
    decreases x.len(),
{
    if x.len() > 0 && y.len() > 0 {
        let p = x.drop_last();
        let q = y.drop_last();
        law_sameness_of_edits(how, p, q);
        let n = x.len() - 1;
        if x.len() == y.len() {
            if forall|i: int| 0 <= i < x.len() ==> ops_match(how, #[trigger] x[i], y[i]) {
                assert(ops_match(how, x[n], y[n]));
                assert forall|i: int| 0 <= i < p.len() implies ops_match(
                    how,
                    #[trigger] p[i],
                    q[i],
                ) by {
                    assert(ops_match(how, x[i], y[i]));
                }
            }
            if values_match(how, ValueView::ArrayEdit(x), ValueView::ArrayEdit(y)) {
                assert forall|i: int| 0 <= i < x.len() implies ops_match(
                    how,
                    #[trigger] x[i],
                    y[i],
                ) by {
                    if i < n {
                        assert(ops_match(how, p[i], q[i]));
                    }
                }
            }
        }
    }
}

/// Instructions are the same where they do the same at the same place with the
/// same size, and the values that they carry are the same.
pub proof fn law_sameness_of_instructions(how: Sameness, a: OpView, b: OpView, u: ValueView, v: ValueView)
    ensures
        operands_match(how, OperandView::Literal(u), OperandView::Literal(v)) <==> values_match(
            how,
            u,
            v,
        ),
        ops_match(how, a, b) ==> match (a, b) {
            (OpView::Write { src: s, index: m }, OpView::Write { src: t, index: n }) => m == n
                && operands_match(how, s, t),
            (OpView::Insert { src: s, index: m }, OpView::Insert { src: t, index: n }) => m == n
                && operands_match(how, s, t),
            (OpView::MinSizeFill { len: m, fill: s }, OpView::MinSizeFill { len: n, fill: t }) => m
                == n && values_match(how, s, t),
            (OpView::ResizeFill { len: m, fill: s }, OpView::ResizeFill { len: n, fill: t }) => m
                == n && values_match(how, s, t),
            _ => a == b,
        },
        !(a is Write || a is Insert || a is MinSizeFill || a is ResizeFill) && a == b ==> ops_match(
            how,
            a,
            b,
        ),
{
}

} // verus!
