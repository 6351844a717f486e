//! Samples held or interpolated at a time.
//!
//! What two values interpolate to is a matter of the arithmetic of their type,
//! and is given; when values interpolate, and which, is decided here.

use crate::arrays::{fill_for, fill_of};
use crate::doc::{
    is_nan, lemma_values_push, value_option, value_ref, values_view, Precision, TupleKind, Value, ValueView, DOUBLE_SIGN,
};
use crate::opinion::{opinions_view, Opinion, OpinionView};
use crate::property::{
    samples_view, type_ref, PropertyType, SplineDataType, TimeSample, TypeView,
};
use crate::resolution::{
    default_fits, is_array_chain, reads_arrays, resolve_sparse_default, sparse_default, SparseResolveResult,
    SparseView,
};
use crate::series::{
    at_time, fits_at_time, place_in_time, resolve_array_at_time, sample_bracket, sample_places, ArrayAtTime,
    AtTimeView, InterpolationType,
};
use crate::times::{is_before, is_close, is_number, is_same, time_rank, TimeTable, Times};
use vstd::prelude::*;

verus! {

// ── Rules ───────────────────────────────────────────────────────────────

/// How a pair of values interpolates.
#[derive(Clone, Copy, Debug, PartialEq, Eq, Structural)]
pub enum LerpRule {
    /// As one number, rounded once.
    Number(Precision),
    /// Number by number, each scaled number rounded before the two add.
    Numbers(Precision),
    /// As a rotation, along the shorter arc.
    Rotation(Precision),
}

/// The rule for a pair of values. Numbers, vectors, matrices and rotations of
/// one kind interpolate; every other pair holds, integers among them.
pub open spec fn rule_for(a: ValueView, b: ValueView) -> Option<LerpRule> {
    match (a, b) {
        (ValueView::Half(_), ValueView::Half(_)) => Some(LerpRule::Number(Precision::Half)),
        (ValueView::Float(_), ValueView::Float(_)) => Some(LerpRule::Number(Precision::Single)),
        (ValueView::Double(_), ValueView::Double(_)) => Some(LerpRule::Number(Precision::Double)),
        (ValueView::TimeCode(_), ValueView::TimeCode(_)) => Some(
            LerpRule::Number(Precision::Double),
        ),
        (ValueView::Tuple(kind, _), ValueView::Tuple(other, _)) => if kind != other {
            None
        } else if is_rotation(kind) {
            Some(LerpRule::Rotation(kind.spec_precision()))
        } else {
            Some(LerpRule::Numbers(kind.spec_precision()))
        },
        _ => None,
    }
}

/// Whether a kind is one of rotations.
pub open spec fn is_rotation(kind: TupleKind) -> bool {
    kind == TupleKind::Quath || kind == TupleKind::Quatf || kind == TupleKind::Quatd
}

/// The rule by which a pair of values interpolates; none where it holds.
pub fn lerp_rule(a: &Value, b: &Value) -> (rule: Option<LerpRule>)
    ensures
        rule == rule_for(a.view(), b.view()),
{
    match (a, b) {
        (Value::Half(_), Value::Half(_)) => Some(LerpRule::Number(Precision::Half)),
        (Value::Float(_), Value::Float(_)) => Some(LerpRule::Number(Precision::Single)),
        (Value::Double(_), Value::Double(_)) => Some(LerpRule::Number(Precision::Double)),
        (Value::TimeCode(_), Value::TimeCode(_)) => Some(LerpRule::Number(Precision::Double)),
        (Value::Tuple(kind, _), Value::Tuple(other, _)) => {
            if *kind != *other {
                None
            } else {
                match kind {
                    TupleKind::Quath | TupleKind::Quatf | TupleKind::Quatd => Some(
                        LerpRule::Rotation(kind.precision()),
                    ),
                    _ => Some(LerpRule::Numbers(kind.precision())),
                }
            }
        },
        _ => None,
    }
}

/// The precision of what a spline evaluates to.
pub fn spline_precision(data_type: SplineDataType) -> (precision: Precision)
    ensures
        precision == (match data_type {
            SplineDataType::Half => Precision::Half,
            SplineDataType::Float => Precision::Single,
            _ => Precision::Double,
        }),
{
    match data_type {
        SplineDataType::Half => Precision::Half,
        SplineDataType::Float => Precision::Single,
        SplineDataType::Double | SplineDataType::Unspecified => Precision::Double,
    }
}

// ── Scalars ─────────────────────────────────────────────────────────────

/// The sample that stands for a time that cannot be compared with the samples
/// around it: the lower one where the query or its own time is no number, else
/// the upper one where its time is none.
pub open spec fn incomparable(samples: Seq<(u64, ValueView)>, time: u64, times: Times) -> Option<
    int,
> {
    let places = sample_places(samples, time, InterpolationType::Linear, times);
    if is_nan(Precision::Double, time) || is_nan(Precision::Double, samples[places.0].0) {
        Some(places.0)
    } else if is_nan(Precision::Double, samples[places.1].0) {
        Some(places.1)
    } else {
        None
    }
}

/// The value of samples at a layer time, where `between` is what the samples
/// on either side of it interpolate to: that of the sample that holds there,
/// else what the two come to, or the lower one where they do not interpolate.
/// A time that is no number takes the value of a sample. Nothing without
/// samples.
pub open spec fn interpolated(
    samples: Seq<(u64, ValueView)>,
    time: u64,
    interpolation: InterpolationType,
    times: Times,
    between: Option<ValueView>,
) -> Option<ValueView> {
    if samples.len() == 0 {
        None
    } else {
        let places = sample_places(samples, time, interpolation, times);
        match incomparable(samples, time, times) {
            Some(at) => Some(samples[at].1),
            None => if places.0 == places.1 {
                Some(samples[places.0].1)
            } else {
                match between {
                    Some(value) => Some(value),
                    None => Some(samples[places.0].1),
                }
            },
        }
    }
}

/// The sample that stands for a time that cannot be compared with those around
/// it.
fn find_incomparable(samples: &Vec<TimeSample>, time: u64, times: &TimeTable) -> (out: Option<
    usize,
>)
    requires
        samples@.len() > 0,
    ensures
        incomparable(samples_view(samples@), time, times@) == (match out {
            Some(at) => Some(at as int),
            None => None,
        }),
        out matches Some(at) ==> at < samples@.len(),
{
    let (lower, upper) = sample_bracket(samples, time, InterpolationType::Linear, times);
    assert(samples_view(samples@)[lower as int].0 == samples@[lower as int].0);
    assert(samples_view(samples@)[upper as int].0 == samples@[upper as int].0);
    if !is_number(time) || !is_number(samples[lower].0) {
        Some(lower)
    } else if !is_number(samples[upper].0) {
        Some(upper)
    } else {
        None
    }
}

/// Holds or interpolates sorted samples at a layer time.
pub fn interpolate_samples(
    samples: &Vec<TimeSample>,
    time: u64,
    interpolation: InterpolationType,
    times: &TimeTable,
    between: &Option<Value>,
) -> (out: Option<Value>)
    ensures
        value_option(out) == interpolated(
            samples_view(samples@),
            time,
            interpolation,
            times@,
            value_option(*between),
        ),
{
    if samples.len() == 0 {
        return None;
    }
    match find_incomparable(samples, time, times) {
        Some(at) => {
            assert(samples_view(samples@)[at as int].1 == samples@[at as int].1.view());
            return Some(samples[at].1.copy());
        },
        None => {},
    }
    let (lower, upper) = sample_bracket(samples, time, interpolation, times);
    assert(samples_view(samples@)[lower as int].1 == samples@[lower as int].1.view());
    if lower == upper {
        return Some(samples[lower].1.copy());
    }
    match between {
        Some(value) => Some(value.copy()),
        None => Some(samples[lower].1.copy()),
    }
}

// ── Arrays ──────────────────────────────────────────────────────────────

/// The values of a list of optional values.
pub open spec fn options_view(values: Seq<Option<Value>>) -> Seq<Option<ValueView>> {
    values.map_values(|v: Option<Value>| value_option(v))
}

/// What two arrays interpolate to, where `items` is what each pair of their
/// items interpolates to: nothing where their sizes differ, or an item holds.
pub open spec fn arrays_interpolated(
    lower: nat,
    upper: nat,
    items: Seq<Option<ValueView>>,
) -> Option<Seq<ValueView>> {
    if lower != upper || exists|i: int| 0 <= i < items.len() && #[trigger] items[i] is None {
        None
    } else {
        Some(items.map_values(|item: Option<ValueView>| item->0))
    }
}

/// Interpolates two arrays item by item.
pub fn lerp_arrays(lower: &Vec<Value>, upper: &Vec<Value>, items: &Vec<Option<Value>>) -> (out:
    Option<Vec<Value>>)
    ensures
        (match out {
            Some(out) => Some(values_view(out@)),
            None => None,
        }) == arrays_interpolated(lower@.len(), upper@.len(), options_view(items@)),
{
    if lower.len() != upper.len() {
        return None;
    }
    let ghost all = options_view(items@);
    let ghost whole = all.map_values(|item: Option<ValueView>| item->0);
    let mut out: Vec<Value> = Vec::new();
    let mut i: usize = 0;
    assert(values_view(out@) =~= whole.take(0));
    while i < items.len()
        invariant
            i <= items@.len(),
            all == options_view(items@),
            whole == all.map_values(|item: Option<ValueView>| item->0),
            forall|k: int| 0 <= k < i ==> #[trigger] all[k] is Some,
            values_view(out@) == whole.take(i as int),
        decreases items@.len() - i,
    {
        assert(all[i as int] == value_option(items@[i as int]));
        match &items[i] {
            Some(item) => {
                let item = item.copy();
                proof {
                    lemma_values_push(out@, item);
                    assert(whole.take(i + 1) =~= whole.take(i as int).push(item.view()));
                }
                out.push(item);
            },
            None => {
                return None;
            },
        }
        i = i + 1;
    }
    assert(whole.take(i as int) =~= whole);
    Some(out)
}

/// What a query over arrays comes to, where `between` is what the two arrays
/// on either side of the time interpolate to: the lower array holds where they
/// do not.
pub open spec fn settled(at: AtTimeView, between: Option<Seq<ValueView>>) -> SparseView {
    match at {
        AtTimeView::NotApplicable => SparseView::NotApplicable,
        AtTimeView::Blocked => SparseView::Blocked,
        AtTimeView::Held(items) => SparseView::Resolved(ValueView::Array(items)),
        AtTimeView::Between(lower, _, _, _) => match between {
            Some(items) => SparseView::Resolved(ValueView::Array(items)),
            None => SparseView::Resolved(ValueView::Array(lower)),
        },
    }
}

/// Settles what a query over arrays comes to.
pub fn settle_arrays(at: ArrayAtTime, between: Option<Vec<Value>>) -> (out: SparseResolveResult)
    ensures
        out@ == settled(
            at@,
            match between {
                Some(items) => Some(values_view(items@)),
                None => None,
            },
        ),
{
    match at {
        ArrayAtTime::NotApplicable => SparseResolveResult::NotApplicable,
        ArrayAtTime::Blocked => SparseResolveResult::Blocked,
        ArrayAtTime::Held(items) => SparseResolveResult::Resolved(Value::Array(items)),
        ArrayAtTime::Between(lower, _, _, _) => match between {
            Some(items) => SparseResolveResult::Resolved(Value::Array(items)),
            None => SparseResolveResult::Resolved(Value::Array(lower)),
        },
    }
}

// ── Queries ─────────────────────────────────────────────────────────────

/// A query over values that compose sparsely.
#[derive(Clone, Copy, Debug)]
pub enum SparseQuery<'a> {
    /// The default, over the weakest dense value.
    Default { fallback: Option<&'a Value> },
    /// The value at a stage time, by its bits, over the weakest dense value.
    AtTime { time: u64, interp: InterpolationType, fallback: Option<&'a Value> },
}

/// The mathematical value of a [`SparseQuery`].
pub enum QueryView {
    Default { fallback: Option<ValueView> },
    AtTime { time: u64, interp: InterpolationType, fallback: Option<ValueView> },
}

impl<'a> View for SparseQuery<'a> {
    type V = QueryView;

    open spec fn view(&self) -> QueryView {
        match self {
            SparseQuery::Default { fallback } => QueryView::Default {
                fallback: value_ref(*fallback),
            },
            SparseQuery::AtTime { time, interp, fallback } => QueryView::AtTime {
                time: *time,
                interp: *interp,
                fallback: value_ref(*fallback),
            },
        }
    }
}

impl QueryView {
    /// The weakest dense value.
    pub open spec fn fallback(self) -> Option<ValueView> {
        match self {
            QueryView::Default { fallback } => fallback,
            QueryView::AtTime { fallback, .. } => fallback,
        }
    }
}

/// A default as a query over arrays comes to it.
pub open spec fn as_held(value: SparseView) -> AtTimeView {
    match value {
        SparseView::Resolved(ValueView::Array(items)) => AtTimeView::Held(items),
        SparseView::Blocked => AtTimeView::Blocked,
        _ => AtTimeView::NotApplicable,
    }
}

/// What a query over a chain of opinions comes to, where its values compose
/// sparsely: the arrays on either side of a time are still to interpolate.
pub open spec fn sparse_value(
    opinions: Seq<OpinionView>,
    query: QueryView,
    property_type: Option<TypeView>,
    times: Times,
) -> AtTimeView {
    let fill = fill_of(property_type);
    match query {
        QueryView::Default { fallback } => as_held(sparse_default(opinions, fallback, fill)),
        QueryView::AtTime { time, interp, fallback } => if is_array_chain(opinions) {
            at_time(opinions, time, interp, fallback, fill, times)
        } else {
            AtTimeView::NotApplicable
        },
    }
}

/// Whether what a query over a chain of opinions composes fits in memory.
pub open spec fn sparse_fits(
    opinions: Seq<OpinionView>,
    query: QueryView,
    property_type: Option<TypeView>,
    times: Times,
) -> bool {
    let filled = fill_of(property_type) is Some;
    match query {
        QueryView::Default { fallback } => default_fits(opinions, fallback, filled),
        QueryView::AtTime { time, interp, fallback } => is_array_chain(opinions) ==> fits_at_time(
            opinions,
            time,
            interp,
            fallback,
            filled,
            times,
        ),
    }
}

/// Resolves a query over a chain of opinions, strongest first, whose values
/// compose sparsely.
pub fn resolve_sparse_value(
    opinions: &Vec<Opinion>,
    query: SparseQuery<'_>,
    property_type: Option<&PropertyType>,
    times: &TimeTable,
) -> (out: ArrayAtTime)
    requires
        sparse_fits(opinions_view(opinions@), query@, type_ref(property_type), times@),
    ensures
        out@ == sparse_value(
            opinions_view(opinions@),
            query@,
            type_ref(property_type),
            times@,
        ),
{
    let fill = fill_for(property_type);
    match query {
        SparseQuery::Default { fallback } => match resolve_sparse_default(
            opinions,
            fallback,
            &fill,
        ) {
            SparseResolveResult::Resolved(Value::Array(items)) => ArrayAtTime::Held(items),
            SparseResolveResult::Blocked => ArrayAtTime::Blocked,
            _ => ArrayAtTime::NotApplicable,
        },
        SparseQuery::AtTime { time, interp, fallback } => if reads_arrays(opinions) {
            resolve_array_at_time(opinions, time, interp, fallback, &fill, times)
        } else {
            ArrayAtTime::NotApplicable
        },
    }
}

// ── Laws ────────────────────────────────────────────────────────────────

/// Before the first sample, and after the last, the nearest sample holds,
/// however samples interpolate.
pub proof fn law_outer_samples_hold(
    samples: Seq<(u64, ValueView)>,
    time: u64,
    interpolation: InterpolationType,
    times: Times,
    between: Option<ValueView>,
)
    requires
        samples.len() > 0,
    ensures
        crate::times::is_at_or_before(time, samples[0].0) ==> interpolated(
            samples,
            time,
            interpolation,
            times,
            between,
        ) == Some(samples[0].1),
        !crate::times::is_at_or_before(time, samples[0].0) && crate::times::is_at_or_before(
            samples.last().0,
            time,
        ) ==> interpolated(samples, time, interpolation, times, between) == Some(
            samples.last().1,
        ),
{
}

/// Held samples never interpolate: what two samples would come to has no part
/// in their value.
pub proof fn law_held_samples_do_not_interpolate(
    samples: Seq<(u64, ValueView)>,
    time: u64,
    times: Times,
    between: Option<ValueView>,
)
    ensures
        interpolated(samples, time, InterpolationType::Held, times, between) == interpolated(
            samples,
            time,
            InterpolationType::Held,
            times,
            None,
        ),
{
}

/// A default query comes to what the defaults of the opinions fold to.
pub proof fn law_default_query_settles_the_defaults(
    opinions: Seq<OpinionView>,
    fallback: Option<ValueView>,
    property_type: Option<TypeView>,
    times: Times,
)
    ensures
        settled(
            sparse_value(opinions, QueryView::Default { fallback }, property_type, times),
            None,
        ) == sparse_default(opinions, fallback, fill_of(property_type)),
{
}

/// Whether a pair interpolates, and how, does not depend on which comes first.
pub proof fn law_rules_are_symmetric(a: ValueView, b: ValueView)
    ensures
        rule_for(a, b) == rule_for(b, a),
{
}

/// Two values of one number kind interpolate as one number of that kind's
/// precision.
pub proof fn law_numbers_interpolate_in_their_precision(a: ValueView, b: ValueView)
    ensures
        a is Half && b is Half ==> rule_for(a, b) == Some(LerpRule::Number(Precision::Half)),
        a is Float && b is Float ==> rule_for(a, b) == Some(LerpRule::Number(Precision::Single)),
        a is Double && b is Double ==> rule_for(a, b) == Some(LerpRule::Number(Precision::Double)),
        a is TimeCode && b is TimeCode ==> rule_for(a, b) == Some(
            LerpRule::Number(Precision::Double),
        ),
{
}

/// Two vectors or matrices of one kind interpolate number by number, and two
/// rotations of one kind as rotations, in that kind's precision.
pub proof fn law_tuples_interpolate_in_their_precision(kind: TupleKind, x: Seq<u64>, y: Seq<u64>)
    ensures
        ({
            let rule = rule_for(ValueView::Tuple(kind, x), ValueView::Tuple(kind, y));
            &&& kind == TupleKind::Vec2h ==> rule == Some(LerpRule::Numbers(Precision::Half))
            &&& kind == TupleKind::Vec3h ==> rule == Some(LerpRule::Numbers(Precision::Half))
            &&& kind == TupleKind::Vec4h ==> rule == Some(LerpRule::Numbers(Precision::Half))
            &&& kind == TupleKind::Vec2f ==> rule == Some(LerpRule::Numbers(Precision::Single))
            &&& kind == TupleKind::Vec3f ==> rule == Some(LerpRule::Numbers(Precision::Single))
            &&& kind == TupleKind::Vec4f ==> rule == Some(LerpRule::Numbers(Precision::Single))
            &&& kind == TupleKind::Vec2d ==> rule == Some(LerpRule::Numbers(Precision::Double))
            &&& kind == TupleKind::Vec3d ==> rule == Some(LerpRule::Numbers(Precision::Double))
            &&& kind == TupleKind::Vec4d ==> rule == Some(LerpRule::Numbers(Precision::Double))
            &&& kind == TupleKind::Matrix2d ==> rule == Some(LerpRule::Numbers(Precision::Double))
            &&& kind == TupleKind::Matrix3d ==> rule == Some(LerpRule::Numbers(Precision::Double))
            &&& kind == TupleKind::Matrix4d ==> rule == Some(LerpRule::Numbers(Precision::Double))
            &&& kind == TupleKind::Quath ==> rule == Some(LerpRule::Rotation(Precision::Half))
            &&& kind == TupleKind::Quatf ==> rule == Some(LerpRule::Rotation(Precision::Single))
            &&& kind == TupleKind::Quatd ==> rule == Some(LerpRule::Rotation(Precision::Double))
        }),
{
}

/// Nothing else interpolates: not values of different kinds, and not integers,
/// truth values, text, arrays, dictionaries, edits or blocks.
pub proof fn law_other_pairs_hold(a: ValueView, b: ValueView)
    requires
        !(a is Half && b is Half),
        !(a is Float && b is Float),
        !(a is Double && b is Double),
        !(a is TimeCode && b is TimeCode),
        !(a is Tuple && b is Tuple && a->Tuple_0 == b->Tuple_0),
    ensures
        rule_for(a, b) is None,
{
}

/// Whether the times of samples are numbers that ascend.
pub open spec fn in_time_order(samples: Seq<(u64, ValueView)>) -> bool {
    &&& forall|i: int|
        0 <= i < samples.len() ==> !is_nan(Precision::Double, (#[trigger] samples[i]).0)
    &&& forall|i: int, j: int|
        0 <= i < j < samples.len() ==> time_rank((#[trigger] samples[i]).0) < time_rank(
            (#[trigger] samples[j]).0,
        )
}

/// At the time of a sample, that sample's value is read, however samples
/// interpolate.
pub proof fn law_a_sample_is_read_at_its_time(
    samples: Seq<(u64, ValueView)>,
    at: int,
    interpolation: InterpolationType,
    times: Times,
    between: Option<ValueView>,
)
    requires
        in_time_order(samples),
        0 <= at < samples.len(),
    ensures
        interpolated(samples, samples[at].0, interpolation, times, between) == Some(samples[at].1),
{
    let time = samples[at].0;
    lemma_place_in_time(samples, time, 0);
    let k = place_in_time(samples, time, 0);
    if k < at {
        assert(time_rank(samples[k].0) < time_rank(samples[at].0));
    }
    if k > at {
        assert(is_before(samples[at].0, time));
    }
    assert(k == at);
    assert(is_same(time, time));
    if 0 < at {
        assert(time_rank(samples[0].0) < time_rank(samples[at].0));
    }
    if at < samples.len() - 1 {
        assert(time_rank(samples[at].0) < time_rank(samples[samples.len() - 1].0));
    }
}

/// Between the times of two neighbouring samples that are not taken for one,
/// linear samples come to what the two interpolate to, and to the lower one
/// where they do not interpolate; held samples come to the lower one.
pub proof fn law_between_samples(
    samples: Seq<(u64, ValueView)>,
    at: int,
    time: u64,
    times: Times,
    between: Option<ValueView>,
)
    requires
        in_time_order(samples),
        0 <= at < samples.len() - 1,
        !is_nan(Precision::Double, time),
        time_rank(samples[at].0) < time_rank(time) < time_rank(samples[at + 1].0),
    ensures
        interpolated(samples, time, InterpolationType::Held, times, between) == Some(
            samples[at].1,
        ),
        !is_close(times, samples[at].0, samples[at + 1].0) ==> interpolated(
            samples,
            time,
            InterpolationType::Linear,
            times,
            between,
        ) == (match between {
            Some(value) => Some(value),
            None => Some(samples[at].1),
        }),
        is_close(times, samples[at].0, samples[at + 1].0) ==> interpolated(
            samples,
            time,
            InterpolationType::Linear,
            times,
            between,
        ) == Some(samples[at].1),
{
    lemma_place_in_time(samples, time, 0);
    let k = place_in_time(samples, time, 0);
    if k <= at {
        if k < at {
            assert(time_rank(samples[k].0) < time_rank(samples[at].0));
        }
        assert(is_before(samples[k].0, time));
    }
    if k > at + 1 {
        assert(is_before(samples[at + 1].0, time));
    }
    assert(k == at + 1);
    assert(!is_same(samples[k].0, time)) by {
        if samples[k].0 % DOUBLE_SIGN == 0 && time % DOUBLE_SIGN == 0 {
            assert(time_rank(samples[k].0) == time_rank(time));
        }
    }
    if 0 < at {
        assert(time_rank(samples[0].0) < time_rank(samples[at].0));
    }
    if at + 1 < samples.len() - 1 {
        assert(time_rank(samples[at + 1].0) < time_rank(samples[samples.len() - 1].0));
    }
}

/// The first place from `from` on whose time is not before `time`, and every
/// place before it is.
proof fn lemma_place_in_time(samples: Seq<(u64, ValueView)>, time: u64, from: int)
    requires
        0 <= from <= samples.len(),
    ensures
        from <= place_in_time(samples, time, from) <= samples.len(),
        forall|i: int|
            from <= i < place_in_time(samples, time, from) ==> is_before(
                (#[trigger] samples[i]).0,
                time,
            ),
        place_in_time(samples, time, from) < samples.len() ==> !is_before(
            samples[place_in_time(samples, time, from)].0,
            time,
        ),
    decreases samples.len() - from,
{
    if from < samples.len() && is_before(samples[from].0, time) {
        lemma_place_in_time(samples, time, from + 1);
    }
}

/// Arrays of one size whose items all interpolate come to the array of what
/// the items come to; arrays of different sizes, or with an item that holds,
/// to nothing.
pub proof fn law_arrays_interpolate_item_by_item(
    lower: nat,
    upper: nat,
    items: Seq<Option<ValueView>>,
)
    ensures
        match arrays_interpolated(lower, upper, items) {
            Some(out) => {
                &&& lower == upper
                &&& out.len() == items.len()
                &&& forall|i: int|
                    0 <= i < items.len() ==> (#[trigger] items[i]) == Some(out[i])
            },
            None => lower != upper || exists|i: int|
                0 <= i < items.len() && (#[trigger] items[i]) is None,
        },
{
}

/// Two arrays on either side of a time come to what they interpolate to, and
/// to the lower one where they do not; an array that holds, and a block, stay
/// what they are.
pub proof fn law_arrays_hold_where_they_do_not_interpolate(
    lower: Seq<ValueView>,
    from: u64,
    upper: Seq<ValueView>,
    to: u64,
    between: Option<Seq<ValueView>>,
)
    ensures
        settled(AtTimeView::Between(lower, from, upper, to), between) == SparseView::Resolved(
            ValueView::Array(
                match between {
                    Some(items) => items,
                    None => lower,
                },
            ),
        ),
        settled(AtTimeView::Held(lower), between) == SparseView::Resolved(ValueView::Array(lower)),
        settled(AtTimeView::Blocked, between) == SparseView::Blocked,
        settled(AtTimeView::NotApplicable, between) == SparseView::NotApplicable,
{
}

} // verus!
