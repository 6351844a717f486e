//! What a stage composes, in words.
//!
//! A mismatch holds what two stages compose. In words, tokens stand by their
//! names, prims and targets by their paths, and lists and dictionaries item by
//! item.

use crate::doc::{
    entries_match, entries_view, lemma_entries_push, lemma_ops_push, lemma_values_push, lists_match,
    numbers_match, operands_match, ops_match, ops_view, programs_match, tuples_match, values_match,
    values_view, ArrayPlace, EditOp, EditOperand, OpView, OperandView, Precision, Sameness,
    Specifier, TupleKind, Value, ValueView,
};
use crate::flatten::verify::{
    as_plain, is_empty_list, label_text, list_targets, list_tokens, name_text, option_texts, prim_targets, prim_texts,
    seen_alike, target_texts, token_words, Mismatch, MismatchKind, MismatchKindView, Seen, SeenView,
};
use crate::flatten::words::{number_text, number_words, numbers_view, NumberTexts};
use crate::interner::{TokenId, TokenInterner};
use crate::path::PathInterner;
use crate::property::{PropertyKind, PropertyType, TypeView, Variability};
use crate::resolution::{DeclarationView, PropertyDeclaration, ResolvedValue, ResolvedView};
use crate::text::{decimal, decimal_text, push_text, quote, quoted, text};
use vstd::prelude::*;

verus! {

/// How numbers are written, by their bits and their precision.
#[derive(Debug)]
pub struct ValueTexts {
    pub halves: NumberTexts,
    pub singles: NumberTexts,
    pub doubles: NumberTexts,
}

/// The mathematical value of [`ValueTexts`].
pub struct ValueTextsView {
    pub halves: Seq<(u64, Seq<char>)>,
    pub singles: Seq<(u64, Seq<char>)>,
    pub doubles: Seq<(u64, Seq<char>)>,
}

impl View for ValueTexts {
    type V = ValueTextsView;

    open spec fn view(&self) -> ValueTextsView {
        ValueTextsView {
            halves: numbers_view(self.halves@),
            singles: numbers_view(self.singles@),
            doubles: numbers_view(self.doubles@),
        }
    }
}

impl ValueTextsView {
    /// How numbers of a precision are written.
    pub open spec fn of(self, precision: Precision) -> Seq<(u64, Seq<char>)> {
        match precision {
            Precision::Half => self.halves,
            Precision::Single => self.singles,
            Precision::Double => self.doubles,
        }
    }
}

impl ValueTexts {
    /// How numbers of a precision are written.
    fn table(&self, precision: Precision) -> (out: &NumberTexts)
        ensures
            numbers_view(out@) == self@.of(precision),
    {
        match precision {
            Precision::Half => &self.halves,
            Precision::Single => &self.singles,
            Precision::Double => &self.doubles,
        }
    }
}

// ── Values ──────────────────────────────────────────────────────────────

/// A truth value in words.
pub open spec fn flag_words(flag: bool) -> Seq<char> {
    if flag {
        "true"@
    } else {
        "false"@
    }
}

fn flag_text(flag: bool) -> (out: String)
    ensures
        out@ == flag_words(flag),
{
    if flag {
        text("true")
    } else {
        text("false")
    }
}

/// An integer in words.
pub open spec fn integer_words(n: int) -> Seq<char> {
    if n < 0 {
        "-"@ + decimal((-n) as nat)
    } else {
        decimal(n as nat)
    }
}

fn integer_text(n: i64) -> (out: String)
    ensures
        out@ == integer_words(n as int),
{
    if n < 0 {
        let size: u64 = (-(n + 1)) as u64 + 1;
        let mut out = text("-");
        let digits = decimal_text(size);
        push_text(&mut out, digits.as_str());
        out
    } else {
        decimal_text(n as u64)
    }
}

/// The name of a kind of tuple.
pub open spec fn tuple_words(kind: TupleKind) -> Seq<char> {
    match kind {
        TupleKind::Vec2h => "Vec2h"@,
        TupleKind::Vec2f => "Vec2f"@,
        TupleKind::Vec2d => "Vec2d"@,
        TupleKind::Vec3h => "Vec3h"@,
        TupleKind::Vec3f => "Vec3f"@,
        TupleKind::Vec3d => "Vec3d"@,
        TupleKind::Vec4h => "Vec4h"@,
        TupleKind::Vec4f => "Vec4f"@,
        TupleKind::Vec4d => "Vec4d"@,
        TupleKind::Quath => "Quath"@,
        TupleKind::Quatf => "Quatf"@,
        TupleKind::Quatd => "Quatd"@,
        TupleKind::Matrix2d => "Matrix2d"@,
        TupleKind::Matrix3d => "Matrix3d"@,
        TupleKind::Matrix4d => "Matrix4d"@,
    }
}

fn tuple_name(kind: TupleKind) -> (out: &'static str)
    ensures
        out@ == tuple_words(kind),
{
    match kind {
        TupleKind::Vec2h => "Vec2h",
        TupleKind::Vec2f => "Vec2f",
        TupleKind::Vec2d => "Vec2d",
        TupleKind::Vec3h => "Vec3h",
        TupleKind::Vec3f => "Vec3f",
        TupleKind::Vec3d => "Vec3d",
        TupleKind::Vec4h => "Vec4h",
        TupleKind::Vec4f => "Vec4f",
        TupleKind::Vec4d => "Vec4d",
        TupleKind::Quath => "Quath",
        TupleKind::Quatf => "Quatf",
        TupleKind::Quatd => "Quatd",
        TupleKind::Matrix2d => "Matrix2d",
        TupleKind::Matrix3d => "Matrix3d",
        TupleKind::Matrix4d => "Matrix4d",
    }
}

/// Numbers in words, with a comma between two.
pub open spec fn bits_words(numbers: Seq<(u64, Seq<char>)>, bits: Seq<u64>) -> Seq<char>
    decreases bits.len(),
{
    if bits.len() == 0 {
        seq![]
    } else if bits.len() == 1 {
        number_words(numbers, bits[0])
    } else {
        bits_words(numbers, bits.drop_last()) + ", "@ + number_words(numbers, bits.last())
    }
}

fn bits_text(numbers: &NumberTexts, bits: &Vec<u64>) -> (out: String)
    ensures
        out@ == bits_words(numbers_view(numbers@), bits@),
{
    let mut out = String::new();
    let mut i: usize = 0;
    assert(bits@.take(0) =~= seq![]);
    assert(out@ =~= seq![]);
    while i < bits.len()
        invariant
            i <= bits@.len(),
            out@ == bits_words(numbers_view(numbers@), bits@.take(i as int)),
        decreases bits@.len() - i,
    {
        proof {
            assert(bits@.take(i + 1).drop_last() =~= bits@.take(i as int));
            assert(bits@.take(i + 1).last() == bits@[i as int]);
        }
        let ghost before = out@;
        if i > 0 {
            push_text(&mut out, ", ");
        }
        let number = number_text(numbers, bits[i]);
        push_text(&mut out, number.as_str());
        assert(out@ =~= bits_words(numbers_view(numbers@), bits@.take(i + 1)));
        i = i + 1;
    }
    assert(bits@.take(i as int) =~= bits@);
    out
}

/// The name of a token; nothing for one that is not interned.
pub open spec fn token_name(name: TokenId, tokens: Seq<Seq<char>>) -> Seq<char> {
    match name_text(name, tokens) {
        Some(text) => text,
        None => seq![],
    }
}

fn token_text(name: TokenId, tokens: &TokenInterner) -> (out: String)
    ensures
        out@ == token_name(name, tokens@),
{
    match token_words(name, tokens) {
        Some(text) => text,
        None => {
            let out = String::new();
            assert(out@ =~= seq![]);
            out
        },
    }
}

/// What a variant holds, behind the variant's name.
pub open spec fn variant_words(name: Seq<char>, held: Seq<char>) -> Seq<char> {
    name + "("@ + held + ")"@
}

fn variant_text(name: &str, held: String) -> (out: String)
    ensures
        out@ == variant_words(name@, held@),
{
    let mut out = text(name);
    push_text(&mut out, "(");
    push_text(&mut out, held.as_str());
    push_text(&mut out, ")");
    out
}

/// A value in words.
pub open spec fn value_words(
    value: ValueView,
    tokens: Seq<Seq<char>>,
    numbers: ValueTextsView,
) -> Seq<char>
    decreases value,
{
    match value {
        ValueView::Bool(flag) => variant_words("Bool"@, flag_words(flag)),
        ValueView::Int(n) => variant_words("Int"@, integer_words(n as int)),
        ValueView::UInt(n) => variant_words("UInt"@, integer_words(n as int)),
        ValueView::Int64(n) => variant_words("Int64"@, integer_words(n as int)),
        ValueView::UInt64(n) => variant_words("UInt64"@, decimal(n as nat)),
        ValueView::Half(bits) => variant_words("Half"@, number_words(numbers.halves, bits as u64)),
        ValueView::Float(bits) => variant_words(
            "Float"@,
            number_words(numbers.singles, bits as u64),
        ),
        ValueView::Double(bits) => variant_words("Double"@, number_words(numbers.doubles, bits)),
        ValueView::TimeCode(bits) => variant_words(
            "TimeCode"@,
            number_words(numbers.doubles, bits),
        ),
        ValueView::Text(text) => variant_words("String"@, quoted(text)),
        ValueView::Token(name) => variant_words("Token"@, quoted(token_name(name, tokens))),
        ValueView::Asset(path) => variant_words("Asset"@, quoted(path)),
        ValueView::PathExpression(text) => variant_words("PathExpression"@, quoted(text)),
        ValueView::Tuple(kind, bits) => variant_words(
            tuple_words(kind),
            "["@ + bits_words(numbers.of(kind.spec_precision()), bits) + "]"@,
        ),
        ValueView::Array(items) => "["@ + items_words(items, tokens, numbers) + "]"@,
        ValueView::Dictionary(entries) => "{"@ + entries_words(entries, tokens, numbers) + "}"@,
        ValueView::ArrayEdit(ops) => variant_words(
            "ArrayEdit"@,
            "["@ + ops_words(ops, tokens, numbers) + "]"@,
        ),
        ValueView::Blocked => "Blocked"@,
    }
}

/// Values in words, each with a comma behind it.
pub open spec fn items_words(
    items: Seq<ValueView>,
    tokens: Seq<Seq<char>>,
    numbers: ValueTextsView,
) -> Seq<char>
    decreases items,
{
    if items.len() == 0 {
        seq![]
    } else {
        items_words(items.drop_last(), tokens, numbers) + value_words(
            items.last(),
            tokens,
            numbers,
        ) + ", "@
    }
}

/// Entries in words, each with a comma behind it.
pub open spec fn entries_words(
    entries: Seq<(Seq<char>, ValueView)>,
    tokens: Seq<Seq<char>>,
    numbers: ValueTextsView,
) -> Seq<char>
    decreases entries,
{
    if entries.len() == 0 {
        seq![]
    } else {
        entries_words(entries.drop_last(), tokens, numbers) + quoted(entries.last().0) + ": "@
            + value_words(entries.last().1, tokens, numbers) + ", "@
    }
}

/// A place in words.
pub open spec fn place_words(place: ArrayPlace) -> Seq<char> {
    match place {
        ArrayPlace::Position(at) => variant_words("Position"@, integer_words(at as int)),
        ArrayPlace::End => "End"@,
    }
}

fn place_text(place: ArrayPlace) -> (out: String)
    ensures
        out@ == place_words(place),
{
    match place {
        ArrayPlace::Position(at) => variant_text("Position", integer_text(at)),
        ArrayPlace::End => text("End"),
    }
}

/// An operand in words.
pub open spec fn operand_words(
    src: OperandView,
    tokens: Seq<Seq<char>>,
    numbers: ValueTextsView,
) -> Seq<char>
    decreases src,
{
    match src {
        OperandView::Literal(value) => variant_words(
            "Literal"@,
            value_words(value, tokens, numbers),
        ),
        OperandView::CopyFrom(place) => variant_words("CopyFrom"@, place_words(place)),
    }
}

/// An instruction in words.
pub open spec fn op_words(
    op: OpView,
    tokens: Seq<Seq<char>>,
    numbers: ValueTextsView,
) -> Seq<char>
    decreases op,
{
    match op {
        OpView::Write { src, index } => variant_words(
            "Write"@,
            operand_words(src, tokens, numbers) + ", "@ + place_words(index),
        ),
        OpView::Insert { src, index } => variant_words(
            "Insert"@,
            operand_words(src, tokens, numbers) + ", "@ + place_words(index),
        ),
        OpView::Erase { index } => variant_words("Erase"@, place_words(index)),
        OpView::MinSize { len } => variant_words("MinSize"@, decimal(len as nat)),
        OpView::MinSizeFill { len, fill } => variant_words(
            "MinSizeFill"@,
            decimal(len as nat) + ", "@ + value_words(fill, tokens, numbers),
        ),
        OpView::MaxSize { len } => variant_words("MaxSize"@, decimal(len as nat)),
        OpView::Resize { len } => variant_words("Resize"@, decimal(len as nat)),
        OpView::ResizeFill { len, fill } => variant_words(
            "ResizeFill"@,
            decimal(len as nat) + ", "@ + value_words(fill, tokens, numbers),
        ),
    }
}

/// A program in words, each instruction with a comma behind it.
pub open spec fn ops_words(
    ops: Seq<OpView>,
    tokens: Seq<Seq<char>>,
    numbers: ValueTextsView,
) -> Seq<char>
    decreases ops,
{
    if ops.len() == 0 {
        seq![]
    } else {
        ops_words(ops.drop_last(), tokens, numbers) + op_words(ops.last(), tokens, numbers) + ", "@
    }
}

/// A text in brackets.
fn bracketed(open: &str, held: String, close: &str) -> (out: String)
    ensures
        out@ == open@ + held@ + close@,
{
    let mut out = text(open);
    push_text(&mut out, held.as_str());
    push_text(&mut out, close);
    out
}

/// A value in words.
pub fn value_text(value: &Value, tokens: &TokenInterner, numbers: &ValueTexts) -> (out: String)
    ensures
        out@ == value_words(value.view(), tokens@, numbers@),
    decreases value, 0nat,
{
    match value {
        Value::Bool(flag) => variant_text("Bool", flag_text(*flag)),
        Value::Int(n) => variant_text("Int", integer_text(*n as i64)),
        Value::UInt(n) => variant_text("UInt", integer_text(*n as i64)),
        Value::Int64(n) => variant_text("Int64", integer_text(*n)),
        Value::UInt64(n) => variant_text("UInt64", decimal_text(*n)),
        Value::Half(bits) => variant_text("Half", number_text(&numbers.halves, *bits as u64)),
        Value::Float(bits) => variant_text("Float", number_text(&numbers.singles, *bits as u64)),
        Value::Double(bits) => variant_text("Double", number_text(&numbers.doubles, *bits)),
        Value::TimeCode(bits) => variant_text("TimeCode", number_text(&numbers.doubles, *bits)),
        Value::String(text) => variant_text("String", quote(text.as_str())),
        Value::Token(name) => {
            let name = token_text(*name, tokens);
            variant_text("Token", quote(name.as_str()))
        },
        Value::Asset(path) => variant_text("Asset", quote(path.as_str())),
        Value::PathExpression(text) => variant_text("PathExpression", quote(text.as_str())),
        Value::Tuple(kind, bits) => variant_text(
            tuple_name(*kind),
            bracketed("[", bits_text(numbers.table(kind.precision()), bits), "]"),
        ),
        Value::Array(items) => bracketed("[", items_text(items, tokens, numbers), "]"),
        Value::Dictionary(entries) => bracketed("{", entries_text(entries, tokens, numbers), "}"),
        Value::ArrayEdit(edit) => variant_text(
            "ArrayEdit",
            bracketed("[", ops_text(&edit.ops, tokens, numbers), "]"),
        ),
        Value::Blocked => text("Blocked"),
    }
}

fn items_text(items: &Vec<Value>, tokens: &TokenInterner, numbers: &ValueTexts) -> (out: String)
    ensures
        out@ == items_words(values_view(items@), tokens@, numbers@),
    decreases items, 0nat,
{
    let mut out = String::new();
    let mut i: usize = 0;
    assert(items@.take(0) =~= seq![]);
    assert(out@ =~= seq![]);
    while i < items.len()
        invariant
            i <= items@.len(),
            out@ == items_words(values_view(items@.take(i as int)), tokens@, numbers@),
        decreases items@.len() - i,
    {
        proof {
            assert(items@.take(i + 1) =~= items@.take(i as int).push(items@[i as int]));
            lemma_values_push(items@.take(i as int), items@[i as int]);
            let next = values_view(items@.take(i + 1));
            assert(next.drop_last() =~= values_view(items@.take(i as int)));
        }
        let item = value_text(&items[i], tokens, numbers);
        push_text(&mut out, item.as_str());
        push_text(&mut out, ", ");
        i = i + 1;
    }
    assert(items@.take(i as int) =~= items@);
    out
}

fn entries_text(
    entries: &Vec<(String, Value)>,
    tokens: &TokenInterner,
    numbers: &ValueTexts,
) -> (out: String)
    ensures
        out@ == entries_words(entries_view(entries@), tokens@, numbers@),
    decreases entries, 0nat,
{
    let mut out = String::new();
    let mut i: usize = 0;
    assert(entries@.take(0) =~= seq![]);
    assert(out@ =~= seq![]);
    while i < entries.len()
        invariant
            i <= entries@.len(),
            out@ == entries_words(entries_view(entries@.take(i as int)), tokens@, numbers@),
        decreases entries@.len() - i,
    {
        proof {
            assert(entries@.take(i + 1) =~= entries@.take(i as int).push(entries@[i as int]));
            lemma_entries_push(entries@.take(i as int), entries@[i as int]);
            let next = entries_view(entries@.take(i + 1));
            assert(next.drop_last() =~= entries_view(entries@.take(i as int)));
        }
        let key = quote(entries[i].0.as_str());
        let item = value_text(&entries[i].1, tokens, numbers);
        push_text(&mut out, key.as_str());
        push_text(&mut out, ": ");
        push_text(&mut out, item.as_str());
        push_text(&mut out, ", ");
        i = i + 1;
    }
    assert(entries@.take(i as int) =~= entries@);
    out
}

fn operand_text(src: &EditOperand, tokens: &TokenInterner, numbers: &ValueTexts) -> (out: String)
    ensures
        out@ == operand_words(src.view(), tokens@, numbers@),
    decreases src, 0nat,
{
    match src {
        EditOperand::Literal(value) => variant_text(
            "Literal",
            value_text(value, tokens, numbers),
        ),
        EditOperand::CopyFrom(place) => variant_text("CopyFrom", place_text(*place)),
    }
}

/// Two texts with a comma between them.
fn paired(first: String, second: String) -> (out: String)
    ensures
        out@ == first@ + ", "@ + second@,
{
    let mut out = first;
    push_text(&mut out, ", ");
    push_text(&mut out, second.as_str());
    out
}

fn op_text(op: &EditOp, tokens: &TokenInterner, numbers: &ValueTexts) -> (out: String)
    ensures
        out@ == op_words(op.view(), tokens@, numbers@),
    decreases op, 0nat,
{
    match op {
        EditOp::Write { src, index } => variant_text(
            "Write",
            paired(operand_text(src, tokens, numbers), place_text(*index)),
        ),
        EditOp::Insert { src, index } => variant_text(
            "Insert",
            paired(operand_text(src, tokens, numbers), place_text(*index)),
        ),
        EditOp::Erase { index } => variant_text("Erase", place_text(*index)),
        EditOp::MinSize { len } => variant_text("MinSize", decimal_text(*len as u64)),
        EditOp::MinSizeFill { len, fill } => variant_text(
            "MinSizeFill",
            paired(decimal_text(*len as u64), value_text(fill, tokens, numbers)),
        ),
        EditOp::MaxSize { len } => variant_text("MaxSize", decimal_text(*len as u64)),
        EditOp::Resize { len } => variant_text("Resize", decimal_text(*len as u64)),
        EditOp::ResizeFill { len, fill } => variant_text(
            "ResizeFill",
            paired(decimal_text(*len as u64), value_text(fill, tokens, numbers)),
        ),
    }
}

fn ops_text(ops: &Vec<EditOp>, tokens: &TokenInterner, numbers: &ValueTexts) -> (out: String)
    ensures
        out@ == ops_words(ops_view(ops@), tokens@, numbers@),
    decreases ops, 0nat,
{
    let mut out = String::new();
    let mut i: usize = 0;
    assert(ops@.take(0) =~= seq![]);
    assert(out@ =~= seq![]);
    while i < ops.len()
        invariant
            i <= ops@.len(),
            out@ == ops_words(ops_view(ops@.take(i as int)), tokens@, numbers@),
        decreases ops@.len() - i,
    {
        proof {
            assert(ops@.take(i + 1) =~= ops@.take(i as int).push(ops@[i as int]));
            lemma_ops_push(ops@.take(i as int), ops@[i as int]);
            let next = ops_view(ops@.take(i + 1));
            assert(next.drop_last() =~= ops_view(ops@.take(i as int)));
        }
        let op = op_text(&ops[i], tokens, numbers);
        push_text(&mut out, op.as_str());
        push_text(&mut out, ", ");
        i = i + 1;
    }
    assert(ops@.take(i as int) =~= ops@);
    out
}

// ── Lists ───────────────────────────────────────────────────────────────

/// Texts in quotes, with a comma between two; nothing stands for one that is
/// not known.
pub open spec fn quoted_all(texts: Seq<Option<Seq<char>>>) -> Seq<char>
    decreases texts.len(),
{
    if texts.len() == 0 {
        seq![]
    } else {
        let last = quoted(
            match texts.last() {
                Some(text) => text,
                None => seq![],
            },
        );
        if texts.len() == 1 {
            last
        } else {
            quoted_all(texts.drop_last()) + ", "@ + last
        }
    }
}

/// A list of texts in words.
pub open spec fn list_words(texts: Seq<Option<Seq<char>>>) -> Seq<char> {
    "["@ + quoted_all(texts) + "]"@
}

fn list_text(texts: &Vec<Option<String>>) -> (out: String)
    ensures
        out@ == list_words(option_texts(texts@)),
{
    let ghost all = option_texts(texts@);
    let empty = String::new();
    assert(empty@ =~= seq![]);
    let mut out = String::new();
    let mut i: usize = 0;
    assert(all.take(0) =~= seq![]);
    assert(out@ =~= seq![]);
    while i < texts.len()
        invariant
            i <= texts@.len(),
            all == option_texts(texts@),
            empty@ == Seq::<char>::empty(),
            out@ == quoted_all(all.take(i as int)),
        decreases texts@.len() - i,
    {
        proof {
            assert(all.take(i + 1).drop_last() =~= all.take(i as int));
            assert(all.take(i + 1).last() == all[i as int]);
        }
        if i > 0 {
            push_text(&mut out, ", ");
        }
        let shown = match &texts[i] {
            Some(text) => quote(text.as_str()),
            None => quote(empty.as_str()),
        };
        push_text(&mut out, shown.as_str());
        assert(out@ =~= quoted_all(all.take(i + 1)));
        i = i + 1;
    }
    assert(all.take(i as int) =~= all);
    bracketed("[", out, "]")
}

// ── What is compared ────────────────────────────────────────────────────

/// A specifier in words.
pub open spec fn specifier_words(specifier: Option<Specifier>) -> Seq<char> {
    match specifier {
        Some(Specifier::Def) => "Some(Def)"@,
        Some(Specifier::Over) => "Some(Over)"@,
        Some(Specifier::Class) => "Some(Class)"@,
        None => "None"@,
    }
}

/// A resolved value in words.
pub open spec fn resolved_words(
    value: Option<ResolvedView>,
    paths: Seq<Seq<TokenId>>,
    tokens: Seq<Seq<char>>,
    numbers: ValueTextsView,
) -> Seq<char> {
    match value {
        None => "none"@,
        Some(ResolvedView::Scalar(value)) => value_words(value, tokens, numbers),
        Some(ResolvedView::Dictionary(entries)) => "{"@ + entries_words(entries, tokens, numbers)
            + "}"@,
        Some(ResolvedView::ValueList(items)) => "["@ + items_words(items, tokens, numbers) + "]"@,
        Some(ResolvedView::TokenList(names)) => list_words(
            names.map_values(|name: TokenId| name_text(name, tokens)),
        ),
        Some(ResolvedView::PathList(targets)) => list_words(target_texts(targets, paths, tokens)),
    }
}

/// A declared type in words.
pub open spec fn type_words(
    declared: Option<TypeView>,
    tokens: Seq<Seq<char>>,
    numbers: ValueTextsView,
) -> Seq<char> {
    match declared {
        None => "None"@,
        Some(declared) => "Some(PropertyType { type_name: "@ + quoted(declared.name) + ", is_array: "@
            + flag_words(declared.is_array) + ", default_scalar: "@ + value_words(
            declared.default_scalar,
            tokens,
            numbers,
        ) + " })"@,
    }
}

/// A declaration in words.
pub open spec fn declaration_words(
    declaration: DeclarationView,
    tokens: Seq<Seq<char>>,
    numbers: ValueTextsView,
) -> Seq<char> {
    "PropertyDeclaration { kind: "@ + (match declaration.kind {
        PropertyKind::Attribute => "Attribute"@,
        PropertyKind::Relationship => "Relationship"@,
    }) + ", type_name: "@ + type_words(declaration.declared_type, tokens, numbers)
        + ", variability: "@ + (match declaration.variability {
        Variability::Varying => "Varying"@,
        Variability::Uniform => "Uniform"@,
    }) + ", custom: "@ + flag_words(declaration.custom) + " }"@
}

/// What a stage composes, in words. A prim that is not there reads otherwise
/// than a property that is not.
pub open spec fn seen_words(
    seen: SeenView,
    kind: MismatchKindView,
    paths: Seq<Seq<TokenId>>,
    tokens: Seq<Seq<char>>,
    numbers: ValueTextsView,
) -> Seq<char> {
    match seen {
        SeenView::Absent => if kind is Prim {
            "no prim"@
        } else {
            "none"@
        },
        SeenView::Present => if kind is Prim {
            "a prim"@
        } else {
            "a property"@
        },
        SeenView::Specifier(specifier) => specifier_words(specifier),
        SeenView::Label(label) => match label_text(label, tokens) {
            Some(text) => text,
            None => seq![],
        },
        SeenView::Paths(prims) => list_words(prim_texts(prims, paths, tokens)),
        SeenView::Flag(flag) => match flag {
            Some(flag) => variant_words("Some"@, flag_words(flag)),
            None => "None"@,
        },
        SeenView::Order(order) => match order {
            Some(names) => variant_words(
                "Some"@,
                list_words(names.map_values(|name: TokenId| name_text(name, tokens))),
            ),
            None => "None"@,
        },
        SeenView::Resolved(value) => resolved_words(value, paths, tokens, numbers),
        SeenView::Declaration(declaration) => declaration_words(declaration, tokens, numbers),
        SeenView::Targets(targets) => list_words(target_texts(targets, paths, tokens)),
        SeenView::Value(value) => match value {
            Some(value) => value_words(value, tokens, numbers),
            None => "none"@,
        },
    }
}

fn resolved_text(
    value: &Option<ResolvedValue>,
    paths: &PathInterner,
    tokens: &TokenInterner,
    numbers: &ValueTexts,
) -> (out: String)
    requires
        paths.named_by(tokens@),
    ensures
        out@ == resolved_words(
            crate::flatten::verify::resolved_view(*value),
            paths@,
            tokens@,
            numbers@,
        ),
{
    match value {
        None => text("none"),
        Some(ResolvedValue::Scalar(value)) => value_text(value, tokens, numbers),
        Some(ResolvedValue::Dictionary(entries)) => bracketed(
            "{",
            entries_text(entries, tokens, numbers),
            "}",
        ),
        Some(ResolvedValue::ValueList(items)) => bracketed(
            "[",
            items_text(items, tokens, numbers),
            "]",
        ),
        Some(ResolvedValue::TokenList(names)) => list_text(&list_tokens(names, tokens)),
        Some(ResolvedValue::PathList(targets)) => list_text(&list_targets(targets, paths, tokens)),
    }
}

fn type_text(
    declared: &Option<PropertyType>,
    tokens: &TokenInterner,
    numbers: &ValueTexts,
) -> (out: String)
    ensures
        out@ == type_words(crate::property::type_option(*declared), tokens@, numbers@),
{
    match declared {
        None => text("None"),
        Some(declared) => {
            let name = quote(declared.name.as_str());
            let is_array = flag_text(declared.is_array);
            let scalar = value_text(&declared.default_scalar, tokens, numbers);
            let mut out = text("Some(PropertyType { type_name: ");
            push_text(&mut out, name.as_str());
            push_text(&mut out, ", is_array: ");
            push_text(&mut out, is_array.as_str());
            push_text(&mut out, ", default_scalar: ");
            push_text(&mut out, scalar.as_str());
            push_text(&mut out, " })");
            out
        },
    }
}

fn declaration_text(
    declaration: &PropertyDeclaration,
    tokens: &TokenInterner,
    numbers: &ValueTexts,
) -> (out: String)
    ensures
        out@ == declaration_words(declaration@, tokens@, numbers@),
{
    let kind = match declaration.kind {
        PropertyKind::Attribute => "Attribute",
        PropertyKind::Relationship => "Relationship",
    };
    let variability = match declaration.variability {
        Variability::Varying => "Varying",
        Variability::Uniform => "Uniform",
    };
    let declared = type_text(&declaration.declared_type, tokens, numbers);
    let custom = flag_text(declaration.custom);
    let mut out = text("PropertyDeclaration { kind: ");
    push_text(&mut out, kind);
    push_text(&mut out, ", type_name: ");
    push_text(&mut out, declared.as_str());
    push_text(&mut out, ", variability: ");
    push_text(&mut out, variability);
    push_text(&mut out, ", custom: ");
    push_text(&mut out, custom.as_str());
    push_text(&mut out, " }");
    out
}

impl Seen {
    /// What a stage composes, in words, as a mismatch of that kind holds it.
    pub fn display(
        &self,
        kind: &MismatchKind,
        paths: &PathInterner,
        tokens: &TokenInterner,
        numbers: &ValueTexts,
    ) -> (out: String)
        requires
            paths.named_by(tokens@),
        ensures
            out@ == seen_words(self@, kind@, paths@, tokens@, numbers@),
    {
        let of_prim = match kind {
            MismatchKind::Prim => true,
            _ => false,
        };
        match self {
            Seen::Absent => if of_prim {
                text("no prim")
            } else {
                text("none")
            },
            Seen::Present => if of_prim {
                text("a prim")
            } else {
                text("a property")
            },
            Seen::Specifier(specifier) => match specifier {
                Some(Specifier::Def) => text("Some(Def)"),
                Some(Specifier::Over) => text("Some(Over)"),
                Some(Specifier::Class) => text("Some(Class)"),
                None => text("None"),
            },
            Seen::Label(label) => match label {
                Some(name) => token_text(*name, tokens),
                None => text("none"),
            },
            Seen::Paths(prims) => {
                let targets = prim_targets(prims);
                assert(target_texts(targets@, paths@, tokens@) =~= prim_texts(
                    prims@,
                    paths@,
                    tokens@,
                ));
                list_text(&list_targets(&targets, paths, tokens))
            },
            Seen::Flag(flag) => match flag {
                Some(flag) => variant_text("Some", flag_text(*flag)),
                None => text("None"),
            },
            Seen::Order(order) => match order {
                Some(names) => variant_text("Some", list_text(&list_tokens(names, tokens))),
                None => text("None"),
            },
            Seen::Resolved(value) => resolved_text(value, paths, tokens, numbers),
            Seen::Declaration(declaration) => declaration_text(declaration, tokens, numbers),
            Seen::Targets(targets) => list_text(&list_targets(targets, paths, tokens)),
            Seen::Value(value) => match value {
                Some(value) => value_text(value, tokens, numbers),
                None => text("none"),
            },
        }
    }
}

impl Mismatch {
    /// What the stage composes and what the flattened stage composes, in
    /// words.
    pub fn texts(
        &self,
        paths: &PathInterner,
        tokens: &TokenInterner,
        numbers: &ValueTexts,
    ) -> (out: (String, String))
        requires
            paths.named_by(tokens@),
        ensures
            out.0@ == seen_words(self@.expected, self@.kind, paths@, tokens@, numbers@),
            out.1@ == seen_words(self@.found, self@.kind, paths@, tokens@, numbers@),
    {
        (
            self.expected.display(&self.kind, paths, tokens, numbers),
            self.found.display(&self.kind, paths, tokens, numbers),
        )
    }
}

// ── Laws ────────────────────────────────────────────────────────────────

/// Whether numbers that read alike are written alike.
pub open spec fn written_alike(numbers: ValueTextsView) -> bool {
    forall|precision: Precision, a: u64, b: u64| #[trigger]
        numbers_match(Sameness::Alike, precision, a, b) ==> number_words(
            numbers.of(precision),
            a,
        ) == number_words(numbers.of(precision), b)
}

proof fn lemma_bits_alike(numbers: ValueTextsView, precision: Precision, a: Seq<u64>, b: Seq<u64>)
    requires
        written_alike(numbers),
        tuples_match(Sameness::Alike, precision, a, b),
    ensures
        bits_words(numbers.of(precision), a) == bits_words(numbers.of(precision), b),
    decreases a.len(),
{
    if a.len() > 0 {
        assert(numbers_match(Sameness::Alike, precision, a[a.len() - 1], b[a.len() - 1]));
        assert forall|i: int| 0 <= i < a.len() - 1 implies numbers_match(
            Sameness::Alike,
            precision,
            #[trigger] a.drop_last()[i],
            b.drop_last()[i],
        ) by {
            assert(numbers_match(Sameness::Alike, precision, a[i], b[i]));
        }
        lemma_bits_alike(numbers, precision, a.drop_last(), b.drop_last());
    }
}

proof fn lemma_values_alike(
    a: ValueView,
    b: ValueView,
    tokens: Seq<Seq<char>>,
    numbers: ValueTextsView,
)
    requires
        written_alike(numbers),
        values_match(Sameness::Alike, a, b),
    ensures
        value_words(a, tokens, numbers) == value_words(b, tokens, numbers),
    decreases a,
{
    match (a, b) {
        (ValueView::Half(x), ValueView::Half(y)) => {
            assert(numbers.of(Precision::Half) == numbers.halves);
        },
        (ValueView::Float(x), ValueView::Float(y)) => {
            assert(numbers_match(Sameness::Alike, Precision::Single, x as u64, y as u64));
            assert(numbers.of(Precision::Single) == numbers.singles);
        },
        (ValueView::Double(x), ValueView::Double(y)) => {
            assert(numbers_match(Sameness::Alike, Precision::Double, x, y));
            assert(numbers.of(Precision::Double) == numbers.doubles);
        },
        (ValueView::TimeCode(x), ValueView::TimeCode(y)) => {
            assert(numbers_match(Sameness::Alike, Precision::Double, x, y));
            assert(numbers.of(Precision::Double) == numbers.doubles);
        },
        (ValueView::Tuple(kind, x), ValueView::Tuple(_, y)) => {
            lemma_bits_alike(numbers, kind.spec_precision(), x, y);
        },
        (ValueView::Array(x), ValueView::Array(y)) => {
            lemma_items_alike(x, y, tokens, numbers);
        },
        (ValueView::Dictionary(x), ValueView::Dictionary(y)) => {
            lemma_entries_alike(x, y, tokens, numbers);
        },
        (ValueView::ArrayEdit(x), ValueView::ArrayEdit(y)) => {
            lemma_ops_alike(x, y, tokens, numbers);
        },
        _ => {},
    }
}

proof fn lemma_items_alike(
    a: Seq<ValueView>,
    b: Seq<ValueView>,
    tokens: Seq<Seq<char>>,
    numbers: ValueTextsView,
)
    requires
        written_alike(numbers),
        lists_match(Sameness::Alike, a, b),
    ensures
        items_words(a, tokens, numbers) == items_words(b, tokens, numbers),
    decreases a,
{
    if a.len() > 0 && b.len() > 0 {
        lemma_values_alike(a.last(), b.last(), tokens, numbers);
        lemma_items_alike(a.drop_last(), b.drop_last(), tokens, numbers);
    }
}

proof fn lemma_entries_alike(
    a: Seq<(Seq<char>, ValueView)>,
    b: Seq<(Seq<char>, ValueView)>,
    tokens: Seq<Seq<char>>,
    numbers: ValueTextsView,
)
    requires
        written_alike(numbers),
        entries_match(Sameness::Alike, a, b),
    ensures
        entries_words(a, tokens, numbers) == entries_words(b, tokens, numbers),
    decreases a,
{
    if a.len() > 0 && b.len() > 0 {
        lemma_values_alike(a.last().1, b.last().1, tokens, numbers);
        lemma_entries_alike(a.drop_last(), b.drop_last(), tokens, numbers);
    }
}

proof fn lemma_operands_alike(
    a: OperandView,
    b: OperandView,
    tokens: Seq<Seq<char>>,
    numbers: ValueTextsView,
)
    requires
        written_alike(numbers),
        operands_match(Sameness::Alike, a, b),
    ensures
        operand_words(a, tokens, numbers) == operand_words(b, tokens, numbers),
    decreases a,
{
    match (a, b) {
        (OperandView::Literal(x), OperandView::Literal(y)) => {
            lemma_values_alike(x, y, tokens, numbers);
        },
        _ => {},
    }
}

proof fn lemma_op_alike(
    a: OpView,
    b: OpView,
    tokens: Seq<Seq<char>>,
    numbers: ValueTextsView,
)
    requires
        written_alike(numbers),
        ops_match(Sameness::Alike, a, b),
    ensures
        op_words(a, tokens, numbers) == op_words(b, tokens, numbers),
    decreases a,
{
    match (a, b) {
        (OpView::Write { src: x, .. }, OpView::Write { src: y, .. }) => {
            lemma_operands_alike(x, y, tokens, numbers);
        },
        (OpView::Insert { src: x, .. }, OpView::Insert { src: y, .. }) => {
            lemma_operands_alike(x, y, tokens, numbers);
        },
        (OpView::MinSizeFill { fill: x, .. }, OpView::MinSizeFill { fill: y, .. }) => {
            lemma_values_alike(x, y, tokens, numbers);
        },
        (OpView::ResizeFill { fill: x, .. }, OpView::ResizeFill { fill: y, .. }) => {
            lemma_values_alike(x, y, tokens, numbers);
        },
        _ => {},
    }
}

proof fn lemma_ops_alike(
    a: Seq<OpView>,
    b: Seq<OpView>,
    tokens: Seq<Seq<char>>,
    numbers: ValueTextsView,
)
    requires
        written_alike(numbers),
        programs_match(Sameness::Alike, a, b),
    ensures
        ops_words(a, tokens, numbers) == ops_words(b, tokens, numbers),
    decreases a,
{
    if a.len() > 0 && b.len() > 0 {
        lemma_op_alike(a.last(), b.last(), tokens, numbers);
        lemma_ops_alike(a.drop_last(), b.drop_last(), tokens, numbers);
    }
}

proof fn lemma_empty_words(
    value: ResolvedView,
    paths: Seq<Seq<TokenId>>,
    tokens: Seq<Seq<char>>,
    numbers: ValueTextsView,
)
    requires
        is_empty_list(value),
    ensures
        resolved_words(Some(value), paths, tokens, numbers) == "["@ + seq![] + "]"@,
{
    match value {
        ResolvedView::TokenList(names) => {
            assert(names.map_values(|name: TokenId| name_text(name, tokens)).len() == 0);
        },
        ResolvedView::PathList(targets) => {
            assert(target_texts(targets, paths, tokens).len() == 0);
        },
        _ => {},
    }
}

/// What reads alike is written alike, where numbers that read alike are: what
/// two stages compose differs in words only where it is found to differ.
pub proof fn law_alike_is_written_alike(
    a: SeenView,
    b: SeenView,
    kind: MismatchKindView,
    paths: Seq<Seq<TokenId>>,
    tokens: Seq<Seq<char>>,
    numbers: ValueTextsView,
)
    requires
        written_alike(numbers),
        seen_alike(a, b, paths, tokens),
    ensures
        seen_words(a, kind, paths, tokens, numbers) == seen_words(b, kind, paths, tokens, numbers),
{
    match (a, b) {
        (SeenView::Resolved(Some(x)), SeenView::Resolved(Some(y))) => {
            if is_empty_list(x) && is_empty_list(y) {
                lemma_empty_words(x, paths, tokens, numbers);
                lemma_empty_words(y, paths, tokens, numbers);
            } else {
                match (as_plain(x), as_plain(y)) {
                    (Some(p), Some(q)) => {
                        lemma_values_alike(p, q, tokens, numbers);
                    },
                    _ => {},
                }
            }
        },
        (SeenView::Declaration(x), SeenView::Declaration(y)) => {
            match (x.declared_type, y.declared_type) {
                (Some(p), Some(q)) => {
                    lemma_values_alike(p.default_scalar, q.default_scalar, tokens, numbers);
                },
                _ => {},
            }
        },
        (SeenView::Value(Some(x)), SeenView::Value(Some(y))) => {
            lemma_values_alike(x, y, tokens, numbers);
        },
        _ => {},
    }
}

} // verus!
