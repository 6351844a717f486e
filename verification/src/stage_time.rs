//! Values read through layer offsets: `timecode` values in stage time.
//!
//! A layer offset maps a layer's times into the stage's, and a `timecode`
//! value is a time, so it is mapped as sample times are: alone, in arrays, in
//! sparse array edits and in dictionaries.

use crate::doc::{
    entries_view, lemma_entries_push, lemma_ops_push, lemma_values_push, ops_view, value_option,
    values_view, EditOp, EditOperand, OpView, Value, ValueView,
};
use crate::fields::{fields_view, FieldEntry, FieldValue, FieldView};
use crate::interner::TokenId;
use crate::leaves::{
    any_entry, any_item, any_leaf, any_op, items_rewritten, lemma_unwritten, map_leaves, op_leaf,
    op_rewritten, ops_rewritten, rewritten, rewritten_by,
};
use crate::opinion::{
    default_place, lemma_default_place, opinions_view, Opinion, OpinionValue, OpinionValueView, OpinionView,
};
use crate::prim_index::LayerOffset;
use crate::property::{
    samples_view, type_ref, PropertySpec, PropertyType, PropertyView, TimeSample, TypeView,
};
use crate::arrays::{ops_load, shape_of, shapes_of};
use crate::resolution::{default_fits, array_defaults};
use crate::stage::fallback::is_value_chain;
use crate::text::same_text;
use crate::times::{stage_time, TimeTable, Times};
use vstd::prelude::*;

verus! {

/// The values that are times.
pub open spec fn is_time() -> spec_fn(ValueView) -> bool {
    |value: ValueView| value is TimeCode
}

/// The stage time of a value that is a time.
pub open spec fn moved(offset: LayerOffset, times: Times) -> spec_fn(ValueView) -> Option<
    ValueView,
> {
    |value: ValueView|
        match value {
            ValueView::TimeCode(time) => Some(
                ValueView::TimeCode(stage_time(times, offset, time)),
            ),
            _ => None,
        }
}

/// Whether a value is a time, or holds one.
pub open spec fn holds_time(value: ValueView) -> bool {
    any_leaf(value, is_time())
}

/// A value with its times in stage time.
pub open spec fn retimed(value: ValueView, offset: LayerOffset, times: Times) -> ValueView {
    rewritten(value, moved(offset, times))
}

/// A value with its times in stage time; nothing where the offset changes no
/// time, or the value holds none.
pub open spec fn retiming(value: ValueView, offset: LayerOffset, times: Times) -> Option<ValueView> {
    if !offset.spec_is_identity() && holds_time(value) {
        Some(retimed(value, offset, times))
    } else {
        None
    }
}

// ── Moving times ────────────────────────────────────────────────────────

/// The values that moving times rewrites are the times.
proof fn lemma_times_move(offset: LayerOffset, times: Times)
    ensures
        rewritten_by(moved(offset, times)) == is_time(),
{
    assert(rewritten_by(moved(offset, times)) =~= is_time());
}

/// A value with its times in stage time; nothing where it holds none.
fn map_times(value: &Value, offset: LayerOffset, times: &TimeTable) -> (out: Option<Value>)
    ensures
        value_option(out) == (if holds_time(value.view()) {
            Some(retimed(value.view(), offset, times@))
        } else {
            None
        }),
{
    proof {
        lemma_times_move(offset, times@);
    }
    let leaf = |leaf: &Value| -> (out: Option<Value>)
        ensures
            value_option(out) == moved(offset, times@)(leaf.view()),
        {
            match leaf {
                Value::TimeCode(time) => Some(Value::TimeCode(times.to_stage_time(offset, *time))),
                _ => None,
            }
        };
    map_leaves(value, &leaf, Ghost(moved(offset, times@)))
}

/// A value with its times in stage time.
fn move_times(value: &Value, offset: LayerOffset, times: &TimeTable) -> (out: Value)
    ensures
        out.view() == retimed(value.view(), offset, times@),
{
    match map_times(value, offset, times) {
        Some(value) => value,
        None => {
            proof {
                lemma_times_move(offset, times@);
                lemma_unwritten(value.view(), moved(offset, times@));
            }
            value.copy()
        },
    }
}

/// `value` with its `timecode` values in stage time; nothing where it holds
/// none or the offset changes no time.
pub fn retime_value(value: &Value, offset: LayerOffset, times: &TimeTable) -> (out: Option<Value>)
    ensures
        value_option(out) == retiming(value.view(), offset, times@),
{
    if offset.is_identity() {
        return None;
    }
    map_times(value, offset, times)
}

/// Whether a value is or holds a `timecode`, in arrays, dictionaries and the
/// literals of sparse array edits. Reads without copying.
pub fn holds_timecode(value: &Value) -> (yes: bool)
    ensures
        yes == holds_time(value.view()),
    decreases value,
{
    match value {
        Value::TimeCode(_) => true,
        Value::Array(items) => {
            let mut i: usize = 0;
            assert(items@.take(0) =~= seq![]);
            while i < items.len()
                invariant
                    i <= items@.len(),
                    decreases_to!(value => items),
                    !any_item(values_view(items@.take(i as int)), is_time()),
                    any_item(values_view(items@), is_time()) == holds_time(value.view()),
                decreases items@.len() - i,
            {
                let found = holds_timecode(&items[i]);
                proof {
                    assert(items@.take(i + 1) =~= items@.take(i as int).push(items@[i as int]));
                    lemma_values_push(items@.take(i as int), items@[i as int]);
                    assert(values_view(items@.take(i + 1)).drop_last() =~= values_view(
                        items@.take(i as int),
                    ));
                    if found {
                        lemma_any_time(items@, i as int);
                    }
                }
                if found {
                    return true;
                }
                i = i + 1;
            }
            assert(items@.take(i as int) =~= items@);
            false
        },
        Value::Dictionary(entries) => {
            let mut i: usize = 0;
            assert(entries@.take(0) =~= seq![]);
            while i < entries.len()
                invariant
                    i <= entries@.len(),
                    decreases_to!(value => entries),
                    !any_entry(entries_view(entries@.take(i as int)), is_time()),
                    any_entry(entries_view(entries@), is_time()) == holds_time(value.view()),
                decreases entries@.len() - i,
            {
                let found = holds_timecode(&entries[i].1);
                proof {
                    assert(entries@.take(i + 1) =~= entries@.take(i as int).push(
                        entries@[i as int],
                    ));
                    lemma_entries_push(entries@.take(i as int), entries@[i as int]);
                    assert(entries_view(entries@.take(i + 1)).drop_last() =~= entries_view(
                        entries@.take(i as int),
                    ));
                    if found {
                        lemma_any_entry_time(entries@, i as int);
                    }
                }
                if found {
                    return true;
                }
                i = i + 1;
            }
            assert(entries@.take(i as int) =~= entries@);
            false
        },
        Value::ArrayEdit(edit) => {
            let ops = &edit.ops;
            let mut i: usize = 0;
            assert(ops@.take(0) =~= seq![]);
            while i < ops.len()
                invariant
                    i <= ops@.len(),
                    decreases_to!(value => ops),
                    !any_op(ops_view(ops@.take(i as int)), is_time()),
                    any_op(ops_view(ops@), is_time()) == holds_time(value.view()),
                decreases ops@.len() - i,
            {
                let found = match &ops[i] {
                    EditOp::Write { src: EditOperand::Literal(value), .. } => holds_timecode(
                        value,
                    ),
                    EditOp::Insert { src: EditOperand::Literal(value), .. } => holds_timecode(
                        value,
                    ),
                    EditOp::MinSizeFill { fill, .. } => holds_timecode(fill),
                    EditOp::ResizeFill { fill, .. } => holds_timecode(fill),
                    _ => false,
                };
                proof {
                    assert(found == op_leaf(ops@[i as int].view(), is_time()));
                    assert(ops@.take(i + 1) =~= ops@.take(i as int).push(ops@[i as int]));
                    lemma_ops_push(ops@.take(i as int), ops@[i as int]);
                    assert(ops_view(ops@.take(i + 1)).drop_last() =~= ops_view(
                        ops@.take(i as int),
                    ));
                    if found {
                        lemma_any_op_time(ops@, i as int);
                    }
                }
                if found {
                    return true;
                }
                i = i + 1;
            }
            assert(ops@.take(i as int) =~= ops@);
            false
        },
        _ => false,
    }
}

proof fn lemma_any_time(items: Seq<Value>, i: int)
    requires
        0 <= i < items.len(),
        holds_time(items[i].view()),
    ensures
        any_item(values_view(items), is_time()),
    decreases items.len(),
{
    assert(values_view(items).drop_last() =~= values_view(items.drop_last()));
    if i < items.len() - 1 {
        lemma_any_time(items.drop_last(), i);
    }
}

proof fn lemma_any_entry_time(entries: Seq<(String, Value)>, i: int)
    requires
        0 <= i < entries.len(),
        holds_time(entries[i].1.view()),
    ensures
        any_entry(entries_view(entries), is_time()),
    decreases entries.len(),
{
    assert(entries_view(entries).drop_last() =~= entries_view(entries.drop_last()));
    if i < entries.len() - 1 {
        lemma_any_entry_time(entries.drop_last(), i);
    }
}

proof fn lemma_any_op_time(ops: Seq<EditOp>, i: int)
    requires
        0 <= i < ops.len(),
        op_leaf(ops[i].view(), is_time()),
    ensures
        any_op(ops_view(ops), is_time()),
    decreases ops.len(),
{
    assert(ops_view(ops).drop_last() =~= ops_view(ops.drop_last()));
    if i < ops.len() - 1 {
        lemma_any_op_time(ops.drop_last(), i);
    }
}

// ── Opinions ────────────────────────────────────────────────────────────

/// Whether a field holds a time.
pub open spec fn field_holds_time(field: FieldView) -> bool {
    field matches FieldView::Value(value) && holds_time(value)
}

/// A field with its times in stage time.
pub open spec fn field_retimed(field: FieldView, offset: LayerOffset, times: Times) -> FieldView {
    match field {
        FieldView::Value(value) => FieldView::Value(retimed(value, offset, times)),
        _ => field,
    }
}

/// Whether one of a list of samples holds a time.
pub open spec fn sample_holds_time(samples: Seq<(u64, ValueView)>) -> bool {
    exists|i: int| 0 <= i < samples.len() && holds_time((#[trigger] samples[i]).1)
}

/// Whether one of a property's samples holds a time.
pub open spec fn samples_hold_time(samples: Option<Seq<(u64, ValueView)>>) -> bool {
    match samples {
        Some(samples) => sample_holds_time(samples),
        None => false,
    }
}

/// Whether one of a list of fields holds a time.
pub open spec fn fields_hold_time(fields: Seq<(TokenId, FieldView)>) -> bool {
    exists|i: int| 0 <= i < fields.len() && field_holds_time((#[trigger] fields[i]).1)
}

/// A property with its times in stage time: those of its default, its samples
/// and its metadata.
pub open spec fn property_retimed(
    spec: PropertyView,
    offset: LayerOffset,
    times: Times,
) -> PropertyView {
    PropertyView {
        default: match spec.default {
            Some(value) => Some(retimed(value, offset, times)),
            None => None,
        },
        time_samples: match spec.time_samples {
            Some(samples) => Some(
                samples.map_values(|s: (u64, ValueView)| (s.0, retimed(s.1, offset, times))),
            ),
            None => None,
        },
        metadata: spec.metadata.map_values(
            |f: (TokenId, FieldView)| (f.0, field_retimed(f.1, offset, times)),
        ),
        ..spec
    }
}

/// An opinion with its times in stage time.
pub open spec fn opinion_retimed(opinion: OpinionView, times: Times) -> OpinionView {
    OpinionView {
        value: match opinion.value {
            OpinionValueView::Field(field) => OpinionValueView::Field(
                field_retimed(field, opinion.layer_offset, times),
            ),
            OpinionValueView::Property(spec) => OpinionValueView::Property(
                property_retimed(spec, opinion.layer_offset, times),
            ),
        },
        ..opinion
    }
}

/// Whether the values of a property may be times: its type says so, or it has
/// none.
pub open spec fn may_be_times(spec: PropertyView, property_type: Option<TypeView>) -> bool {
    match spec.declared_type {
        Some(declared) => declared.name == "timecode"@,
        None => match property_type {
            Some(declared) => declared.name == "timecode"@,
            None => true,
        },
    }
}

/// Whether reading an opinion through its offset changes it.
pub open spec fn is_retimed(opinion: OpinionView, property_type: Option<TypeView>) -> bool {
    !opinion.layer_offset.spec_is_identity() && match opinion.value {
        OpinionValueView::Field(field) => field_holds_time(field),
        OpinionValueView::Property(spec) => {
            ||| fields_hold_time(spec.metadata)
            ||| may_be_times(spec, property_type) && ((spec.default matches Some(value)
                && holds_time(value)) || samples_hold_time(spec.time_samples))
        },
    }
}

/// An opinion as the stage reads it.
pub open spec fn in_stage_time(
    opinion: OpinionView,
    property_type: Option<TypeView>,
    times: Times,
) -> OpinionView {
    if is_retimed(opinion, property_type) {
        opinion_retimed(opinion, times)
    } else {
        opinion
    }
}

/// A field with its times in stage time.
fn map_field(field: &FieldValue, offset: LayerOffset, times: &TimeTable) -> (out: FieldValue)
    ensures
        out@ == field_retimed(field@, offset, times@),
{
    match field {
        FieldValue::Value(value) => FieldValue::Value(move_times(value, offset, times)),
        FieldValue::List(..) => field.copy(),
    }
}

/// A property with its times in stage time.
fn map_property(spec: &PropertySpec, offset: LayerOffset, times: &TimeTable) -> (out: PropertySpec)
    ensures
        out@ == property_retimed(spec@, offset, times@),
{
    let mut out = spec.copy();
    out.default =
    match &spec.default {
        Some(value) => Some(move_times(value, offset, times)),
        None => None,
    };
    out.time_samples =
    match &spec.time_samples {
        Some(samples) => {
            let mut mapped: Vec<TimeSample> = Vec::new();
            let ghost expected = samples_view(samples@).map_values(
                |s: (u64, ValueView)| (s.0, retimed(s.1, offset, times@)),
            );
            let mut i: usize = 0;
            while i < samples.len()
                invariant
                    i <= samples@.len(),
                    expected == samples_view(samples@).map_values(
                        |s: (u64, ValueView)| (s.0, retimed(s.1, offset, times@)),
                    ),
                    samples_view(mapped@) == expected.take(i as int),
                decreases samples@.len() - i,
            {
                let sample = (samples[i].0, move_times(&samples[i].1, offset, times));
                assert(samples_view(mapped@.push(sample)) =~= samples_view(mapped@).push(
                    (sample.0, sample.1.view()),
                ));
                assert(expected.take(i + 1) =~= expected.take(i as int).push(
                    (sample.0, sample.1.view()),
                ));
                mapped.push(sample);
                i = i + 1;
            }
            assert(expected.take(i as int) =~= expected);
            Some(mapped)
        },
        None => None,
    };
    let mut metadata: Vec<FieldEntry> = Vec::new();
    let ghost expected = fields_view(spec.metadata@).map_values(
        |f: (TokenId, FieldView)| (f.0, field_retimed(f.1, offset, times@)),
    );
    let mut k: usize = 0;
    while k < spec.metadata.len()
        invariant
            k <= spec.metadata@.len(),
            expected == fields_view(spec.metadata@).map_values(
                |f: (TokenId, FieldView)| (f.0, field_retimed(f.1, offset, times@)),
            ),
            fields_view(metadata@) == expected.take(k as int),
        decreases spec.metadata@.len() - k,
    {
        let entry = FieldEntry {
            name: spec.metadata[k].name,
            value: map_field(&spec.metadata[k].value, offset, times),
        };
        assert(fields_view(metadata@.push(entry)) =~= fields_view(metadata@).push(
            (entry.name, entry.value@),
        ));
        assert(expected.take(k + 1) =~= expected.take(k as int).push((entry.name, entry.value@)));
        metadata.push(entry);
        k = k + 1;
    }
    assert(expected.take(k as int) =~= expected);
    out.metadata = metadata;
    assert(out@ =~= property_retimed(spec@, offset, times@));
    out
}

/// An opinion with its times in stage time.
fn map_opinion(opinion: &Opinion, times: &TimeTable) -> (out: Opinion)
    ensures
        out@ == opinion_retimed(opinion@, times@),
{
    let mut out = opinion.copy();
    out.value =
    match &opinion.value {
        OpinionValue::Field(field) => OpinionValue::Field(
            map_field(field, opinion.layer_offset, times),
        ),
        OpinionValue::Property(spec) => OpinionValue::Property(
            map_property(spec, opinion.layer_offset, times),
        ),
    };
    out
}

/// Whether a field holds a time.
fn field_has_timecode(field: &FieldValue) -> (yes: bool)
    ensures
        yes == field_holds_time(field@),
{
    match field {
        FieldValue::Value(value) => holds_timecode(value),
        FieldValue::List(..) => false,
    }
}

/// Whether reading an opinion through its offset changes it: it is read
/// through an offset and holds a `timecode` value. The default and samples of
/// an attribute are read only when its type is `timecode`, or unknown.
pub fn needs_retiming(opinion: &Opinion, property_type: Option<&PropertyType>) -> (yes: bool)
    ensures
        yes == is_retimed(opinion@, type_ref(property_type)),
{
    if opinion.layer_offset.is_identity() {
        return false;
    }
    match &opinion.value {
        OpinionValue::Field(field) => field_has_timecode(field),
        OpinionValue::Property(spec) => {
            let ghost fields = fields_view(spec.metadata@);
            let mut i: usize = 0;
            while i < spec.metadata.len()
                invariant
                    i <= spec.metadata@.len(),
                    fields == fields_view(spec.metadata@),
                    opinion@.value == OpinionValueView::Property(spec@),
                    !opinion@.layer_offset.spec_is_identity(),
                    forall|k: int| 0 <= k < i ==> !field_holds_time((#[trigger] fields[k]).1),
                decreases spec.metadata@.len() - i,
            {
                if field_has_timecode(&spec.metadata[i].value) {
                    assert(field_holds_time(fields[i as int].1));
                    return true;
                }
                i = i + 1;
            }
            let values_may = match &spec.declared_type {
                Some(declared) => same_text(declared.name.as_str(), "timecode"),
                None => match property_type {
                    Some(declared) => same_text(declared.name.as_str(), "timecode"),
                    None => true,
                },
            };
            if !values_may {
                return false;
            }
            match &spec.default {
                Some(value) => {
                    if holds_timecode(value) {
                        return true;
                    }
                },
                None => {},
            }
            match &spec.time_samples {
                Some(samples) => {
                    let ghost shown = samples_view(samples@);
                    let mut k: usize = 0;
                    while k < samples.len()
                        invariant
                            k <= samples@.len(),
                            shown == samples_view(samples@),
                            spec@.time_samples == Some(shown),
                            opinion@.value == OpinionValueView::Property(spec@),
                            !opinion@.layer_offset.spec_is_identity(),
                            may_be_times(spec@, type_ref(property_type)),
                            forall|m: int| 0 <= m < k ==> !holds_time((#[trigger] shown[m]).1),
                        decreases samples@.len() - k,
                    {
                        if holds_timecode(&samples[k].1) {
                            assert(holds_time(shown[k as int].1));
                            assert(sample_holds_time(shown));
                            return true;
                        }
                        k = k + 1;
                    }
                    false
                },
                None => false,
            }
        },
    }
}

/// Opinions as the stage reads them: with their `timecode` values in stage
/// time. `property_type` is the composed type of the property that they are of.
pub open spec fn all_in_stage_time(
    opinions: Seq<OpinionView>,
    property_type: Option<TypeView>,
    times: Times,
) -> Seq<OpinionView> {
    opinions.map_values(|o: OpinionView| in_stage_time(o, property_type, times))
}

/// Opinions in stage time: borrowed, where nothing in them moves.
#[derive(Debug)]
pub enum StageOpinions<'o> {
    Borrowed(&'o Vec<Opinion>),
    Owned(Vec<Opinion>),
}

impl<'o> View for StageOpinions<'o> {
    type V = Seq<OpinionView>;

    open spec fn view(&self) -> Seq<OpinionView> {
        match self {
            StageOpinions::Borrowed(opinions) => opinions_view(opinions@),
            StageOpinions::Owned(opinions) => opinions_view(opinions@),
        }
    }
}

impl<'o> StageOpinions<'o> {
    /// The opinions, strongest first.
    pub fn list(&self) -> (opinions: &Vec<Opinion>)
        ensures
            opinions_view(opinions@) == self@,
    {
        match self {
            StageOpinions::Borrowed(opinions) => opinions,
            StageOpinions::Owned(opinions) => opinions,
        }
    }
}

/// Whether reading any of a list of opinions changes it.
fn any_needs_retiming(opinions: &Vec<Opinion>, property_type: Option<&PropertyType>) -> (yes: bool)
    ensures
        yes == exists|i: int|
            0 <= i < opinions@.len() && is_retimed(
                #[trigger] opinions_view(opinions@)[i],
                type_ref(property_type),
            ),
{
    let ghost all = opinions_view(opinions@);
    let mut i: usize = 0;
    while i < opinions.len()
        invariant
            i <= opinions@.len(),
            all == opinions_view(opinions@),
            forall|k: int| 0 <= k < i ==> !is_retimed(#[trigger] all[k], type_ref(property_type)),
        decreases opinions@.len() - i,
    {
        assert(all[i as int] == opinions@[i as int]@);
        if needs_retiming(&opinions[i], property_type) {
            return true;
        }
        i = i + 1;
    }
    false
}

/// `opinions` with every `timecode` value in stage time, borrowed where none
/// moves. `property_type` is the composed type of the property that they are
/// of.
pub fn opinions_in_stage_time<'o>(
    opinions: &'o Vec<Opinion>,
    property_type: Option<&PropertyType>,
    times: &TimeTable,
) -> (out: StageOpinions<'o>)
    ensures
        out@ == all_in_stage_time(opinions_view(opinions@), type_ref(property_type), times@),
        out is Owned <==> exists|i: int|
            0 <= i < opinions@.len() && is_retimed(
                #[trigger] opinions_view(opinions@)[i],
                type_ref(property_type),
            ),
{
    let ghost expected = all_in_stage_time(
        opinions_view(opinions@),
        type_ref(property_type),
        times@,
    );
    if !any_needs_retiming(opinions, property_type) {
        assert(opinions_view(opinions@) =~= expected);
        return StageOpinions::Borrowed(opinions);
    }
    let mut out: Vec<Opinion> = Vec::new();
    let mut i: usize = 0;
    while i < opinions.len()
        invariant
            i <= opinions@.len(),
            expected == all_in_stage_time(
                opinions_view(opinions@),
                type_ref(property_type),
                times@,
            ),
            opinions_view(out@) == expected.take(i as int),
        decreases opinions@.len() - i,
    {
        let opinion = if needs_retiming(&opinions[i], property_type) {
            map_opinion(&opinions[i], times)
        } else {
            opinions[i].copy()
        };
        assert(opinions_view(out@.push(opinion)) =~= opinions_view(out@).push(opinion@));
        assert(expected.take(i + 1) =~= expected.take(i as int).push(opinion@));
        out.push(opinion);
        i = i + 1;
    }
    assert(expected.take(i as int) =~= expected);
    StageOpinions::Owned(out)
}

/// Moving times leaves the shape of values.
proof fn lemma_retimed_shape(value: ValueView, offset: LayerOffset, times: Times, filled: bool)
    ensures
        shape_of(retimed(value, offset, times), filled) == shape_of(value, filled),
{
    match value {
        ValueView::Array(items) => lemma_items_len(items, moved(offset, times)),
        ValueView::ArrayEdit(ops) => lemma_rewritten_load(ops, moved(offset, times), filled),
        _ => {},
    }
}

proof fn lemma_items_len(items: Seq<ValueView>, rule: spec_fn(ValueView) -> Option<ValueView>)
    ensures
        items_rewritten(items, rule).len() == items.len(),
    decreases items.len(),
{
    if items.len() > 0 {
        lemma_items_len(items.drop_last(), rule);
    }
}

proof fn lemma_rewritten_load(
    ops: Seq<OpView>,
    rule: spec_fn(ValueView) -> Option<ValueView>,
    filled: bool,
)
    ensures
        ops_load(ops_rewritten(ops, rule), filled) == ops_load(ops, filled),
    decreases ops.len(),
{
    if ops.len() > 0 {
        lemma_rewritten_load(ops.drop_last(), rule, filled);
        let after = ops_rewritten(ops, rule);
        assert(after.drop_last() =~= ops_rewritten(ops.drop_last(), rule));
        assert(after.last() == op_rewritten(ops.last(), rule));
    }
}

/// Reading an opinion in stage time leaves the shape of its default.
proof fn lemma_read_default(
    opinion: OpinionView,
    property_type: Option<TypeView>,
    times: Times,
    filled: bool,
)
    ensures
        ({
            let read = in_stage_time(opinion, property_type, times);
            match (read.value.default_value(), opinion.value.default_value()) {
                (Some(x), Some(y)) => shape_of(x, filled) == shape_of(y, filled),
                (None, None) => true,
                _ => false,
            }
        }),
{
    match opinion.value.default_value() {
        Some(value) => lemma_retimed_shape(value, opinion.layer_offset, times, filled),
        None => {},
    }
}

proof fn lemma_front_shape(value: ValueView, rest: Seq<ValueView>, filled: bool)
    ensures
        shapes_of(seq![value] + rest, filled) == seq![shape_of(value, filled)] + shapes_of(
            rest,
            filled,
        ),
{
    assert(shapes_of(seq![value] + rest, filled) =~= seq![shape_of(value, filled)] + shapes_of(
        rest,
        filled,
    ));
}

proof fn lemma_read_shapes(
    opinions: Seq<OpinionView>,
    property_type: Option<TypeView>,
    times: Times,
    from: int,
    filled: bool,
)
    requires
        0 <= from <= opinions.len(),
    ensures
        ({
            let read = all_in_stage_time(opinions, property_type, times);
            &&& shapes_of(array_defaults(read, from), filled) == shapes_of(
                array_defaults(opinions, from),
                filled,
            )
            &&& default_place(read, from) == default_place(opinions, from)
        }),
    decreases opinions.len() - from,
{
    let read = all_in_stage_time(opinions, property_type, times);
    if from < opinions.len() {
        lemma_read_shapes(opinions, property_type, times, from + 1, filled);
        lemma_read_default(opinions[from], property_type, times, filled);
        assert(read[from] == in_stage_time(opinions[from], property_type, times));
        match (read[from].value.default_value(), opinions[from].value.default_value()) {
            (Some(x), Some(y)) => {
                lemma_front_shape(x, array_defaults(read, from + 1), filled);
                lemma_front_shape(y, array_defaults(opinions, from + 1), filled);
            },
            _ => {},
        }
    }
}

/// Reading opinions in stage time leaves whether their default fits in memory.
pub proof fn lemma_read_fits(
    opinions: Seq<OpinionView>,
    property_type: Option<TypeView>,
    times: Times,
    fallback: Option<ValueView>,
)
    ensures
        ({
            let read = all_in_stage_time(opinions, property_type, times);
            forall|filled: bool|
                #![trigger default_fits(read, fallback, filled)]
                default_fits(read, fallback, filled) == default_fits(opinions, fallback, filled)
        }),
        opinions.len() > 0 ==> is_value_chain(
            all_in_stage_time(opinions, property_type, times)[0].value,
        ) == is_value_chain(opinions[0].value),
{
    let read = all_in_stage_time(opinions, property_type, times);
    assert forall|filled: bool|
        #![trigger default_fits(read, fallback, filled)]
        default_fits(read, fallback, filled) == default_fits(opinions, fallback, filled) by {
        lemma_read_shapes(opinions, property_type, times, 0, filled);
        lemma_default_place(opinions, 0);
        let at = default_place(opinions, 0);
        if at < opinions.len() {
            lemma_read_default(opinions[at], property_type, times, filled);
            assert(read[at] == in_stage_time(opinions[at], property_type, times));
        }
    }
}

// ── Laws ────────────────────────────────────────────────────────────────

/// A value that holds no time is read as it is, through any offset.
pub proof fn law_only_times_move(value: ValueView, offset: LayerOffset, times: Times)
    requires
        !holds_time(value),
    ensures
        retimed(value, offset, times) == value,
        retiming(value, offset, times) is None,
{
    lemma_times_move(offset, times);
    lemma_unwritten(value, moved(offset, times));
}

/// Opinions read through offsets that change no time are read as they are.
pub proof fn law_identity_offsets_change_nothing(
    opinions: Seq<OpinionView>,
    property_type: Option<TypeView>,
    times: Times,
)
    requires
        forall|i: int|
            0 <= i < opinions.len() ==> (#[trigger] opinions[i]).layer_offset.spec_is_identity(),
    ensures
        all_in_stage_time(opinions, property_type, times) == opinions,
{
    assert(all_in_stage_time(opinions, property_type, times) =~= opinions);
}

/// A time code is read in stage time, and nothing else is; so are the time
/// codes of arrays and of dictionaries, item by item.
pub proof fn law_time_codes_move(
    time: u64,
    items: Seq<ValueView>,
    entries: Seq<(Seq<char>, ValueView)>,
    offset: LayerOffset,
    times: Times,
)
    ensures
        retimed(ValueView::TimeCode(time), offset, times) == ValueView::TimeCode(
            stage_time(times, offset, time),
        ),
        retimed(ValueView::Array(items), offset, times) matches ValueView::Array(out) && {
            &&& out.len() == items.len()
            &&& forall|i: int|
                0 <= i < items.len() ==> #[trigger] out[i] == retimed(items[i], offset, times)
        },
        retimed(ValueView::Dictionary(entries), offset, times) matches ValueView::Dictionary(out)
            && {
            &&& out.len() == entries.len()
            &&& forall|i: int|
                0 <= i < entries.len() ==> #[trigger] out[i] == (
                    entries[i].0,
                    retimed(entries[i].1, offset, times),
                )
        },
{
    crate::leaves::law_arrays_are_rewritten_item_by_item(items, moved(offset, times));
    crate::leaves::law_dictionaries_are_rewritten_entry_by_entry(entries, moved(offset, times));
}

/// An opinion through a layer offset reads its time codes in stage time: those
/// of a field, and of a property the metadata's and, unless the property is
/// declared with another type, the default's and the samples' values. The times
/// of its samples stay.
pub proof fn law_opinions_are_read_in_stage_time(
    opinion: OpinionView,
    property_type: Option<TypeView>,
    times: Times,
    time: u64,
)
    requires
        !opinion.layer_offset.spec_is_identity(),
    ensures
        opinion.value == OpinionValueView::Field(FieldView::Value(ValueView::TimeCode(time)))
            ==> in_stage_time(opinion, property_type, times).value == OpinionValueView::Field(
            FieldView::Value(
                ValueView::TimeCode(stage_time(times, opinion.layer_offset, time)),
            ),
        ),
        opinion.value matches OpinionValueView::Property(spec) ==> {
            let out = in_stage_time(opinion, property_type, times);
            &&& out.value matches OpinionValueView::Property(read) && {
                &&& spec.default == Some(ValueView::TimeCode(time)) && (spec.declared_type matches Some(
                    declared,
                ) && declared.name == "timecode"@) ==> read.default == Some(
                    ValueView::TimeCode(stage_time(times, opinion.layer_offset, time)),
                )
                &&& spec.default == Some(ValueView::TimeCode(time)) && spec.declared_type is None
                    && (property_type matches Some(declared) && declared.name == "timecode"@)
                    ==> read.default == Some(
                    ValueView::TimeCode(stage_time(times, opinion.layer_offset, time)),
                )
                &&& spec.default == Some(ValueView::TimeCode(time)) && spec.declared_type is None
                    && property_type is None ==> read.default == Some(
                    ValueView::TimeCode(stage_time(times, opinion.layer_offset, time)),
                )
                &&& read.kind == spec.kind && read.declared_type == spec.declared_type
                    && read.spline == spec.spline && read.targets == spec.targets
                &&& spec.time_samples matches Some(samples) ==> (read.time_samples matches Some(
                    others,
                ) && others.len() == samples.len() && forall|i: int|
                    0 <= i < samples.len() ==> (#[trigger] others[i]).0 == samples[i].0)
            }
            &&& out.layer_offset == opinion.layer_offset
        },
{
}

} // verus!
