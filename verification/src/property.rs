//! Authored properties: attributes and relationships.
//!
//! A property keeps its kind apart from the slots it may author. Each slot is
//! stored on its own and may be absent: which slot answers a query is decided
//! when the query runs.

use crate::doc::{
    copy_option, total_before, total_place, value_option, Value, ValueView,
};
use crate::fields::{
    copy_fields, field_option, field_ref, fields_view, get_field, lemma_place_of_unique, named,
    place_of, remove_field, set_field_vec, with_named, without_named, FieldEntry, FieldValue,
    FieldView, ListOp, ListOpView,
};
use crate::interner::TokenId;
use crate::sorting::{
    insert_place, law_sorting_sorts, lemma_insert_place, lemma_stable_sorted, sort_stable,
    stable_sorted,
};
use crate::text::text;
use vstd::prelude::*;

verus! {

/// The declared type of an attribute.
#[derive(Debug)]
pub struct PropertyType {
    /// The type's name, such as `int` or `point3f`.
    pub name: String,
    /// Whether the attribute holds an array.
    pub is_array: bool,
    /// The default of one element.
    pub default_scalar: Value,
}

/// The mathematical value of a [`PropertyType`].
pub struct TypeView {
    pub name: Seq<char>,
    pub is_array: bool,
    pub default_scalar: ValueView,
}

impl View for PropertyType {
    type V = TypeView;

    open spec fn view(&self) -> TypeView {
        TypeView {
            name: self.name@,
            is_array: self.is_array,
            default_scalar: self.default_scalar.view(),
        }
    }
}

impl PropertyType {
    /// A declared type.
    pub fn new(name: &str, is_array: bool, default_scalar: Value) -> (out: PropertyType)
        ensures
            out@ == (TypeView {
                name: name@,
                is_array,
                default_scalar: default_scalar.view(),
            }),
    {
        PropertyType { name: text(name), is_array, default_scalar }
    }

    /// The default of the whole property: no elements for an array.
    pub fn default_property_value(&self) -> (value: Value)
        ensures
            value.view() == (if self@.is_array {
                ValueView::Array(seq![])
            } else {
                self@.default_scalar
            }),
    {
        if self.is_array {
            Value::Array(Vec::new())
        } else {
            self.default_scalar.copy()
        }
    }

    /// The default of one element of an array property.
    pub fn default_array_element(&self) -> (value: Option<Value>)
        ensures
            value_option(value) == (if self@.is_array {
                Some(self@.default_scalar)
            } else {
                None
            }),
    {
        if self.is_array {
            Some(self.default_scalar.copy())
        } else {
            None
        }
    }

    /// A copy of this type.
    pub fn copy(&self) -> (out: PropertyType)
        ensures
            out@ == self@,
    {
        PropertyType {
            name: self.name.clone(),
            is_array: self.is_array,
            default_scalar: self.default_scalar.copy(),
        }
    }
}

/// The view of an optional type.
pub open spec fn type_option(value: Option<PropertyType>) -> Option<TypeView> {
    match value {
        Some(value) => Some(value@),
        None => None,
    }
}

/// The view of an optional borrowed type.
pub open spec fn type_ref(value: Option<&PropertyType>) -> Option<TypeView> {
    match value {
        Some(value) => Some(value@),
        None => None,
    }
}

/// Copies an optional type.
pub fn copy_type(value: &Option<PropertyType>) -> (out: Option<PropertyType>)
    ensures
        type_option(out) == type_option(*value),
{
    match value {
        Some(value) => Some(value.copy()),
        None => None,
    }
}

/// The forms of property.
#[derive(Clone, Copy, Debug, PartialEq, Eq, Structural, Hash)]
pub enum PropertyKind {
    /// Typed values, optionally varying over time, and connections.
    Attribute,
    /// A list of targets.
    Relationship,
}

/// Whether an attribute's value is expected to vary over time.
#[derive(Clone, Copy, Debug, PartialEq, Eq, Structural, Hash)]
pub enum Variability {
    Varying,
    Uniform,
}

impl Default for PropertyKind {
    fn default() -> (kind: PropertyKind)
        ensures
            kind == PropertyKind::Attribute,
    {
        PropertyKind::Attribute
    }
}

impl Default for Variability {
    fn default() -> (variability: Variability)
        ensures
            variability == Variability::Varying,
    {
        Variability::Varying
    }
}

/// The type of the numbers of a spline.
#[derive(Clone, Copy, Debug, PartialEq, Eq, Structural, Hash)]
pub enum SplineDataType {
    Unspecified,
    Double,
    Float,
    Half,
}

/// How the tangents of a spline shape its curves.
#[derive(Clone, Copy, Debug, PartialEq, Eq, Structural, Hash)]
pub enum CurveType {
    Bezier,
    Hermite,
}

/// What a spline comes to outside its knots.
#[derive(Clone, Copy, Debug, PartialEq, Eq, Structural, Hash)]
pub enum Extrapolation {
    /// No value.
    Block,
    /// The value of the outermost knot.
    Held,
    /// A line that goes on as the curve ends.
    Linear,
    /// A line with a slope of its own, by its bits.
    Sloped(u64),
    /// The curve again, each repetition offset to go on from the last.
    LoopRepeat,
    /// The curve again.
    LoopReset,
    /// The curve again, forwards and backwards in turn.
    LoopOscillate,
}

/// What a spline comes to between a knot and the next.
#[derive(Clone, Copy, Debug, PartialEq, Eq, Structural, Hash)]
pub enum KnotInterpolation {
    /// No value.
    Block,
    Held,
    Linear,
    Curve,
}

/// The loops of a spline: the bits of the times between which the curve is
/// repeated, how often before and after, and the bits of how much the value
/// grows each time.
#[derive(Clone, Copy, Debug, PartialEq, Eq, Structural, Hash)]
pub struct LoopParams {
    pub start: u64,
    pub end: u64,
    pub pre_loops: i32,
    pub post_loops: i32,
    pub value_offset: u64,
}

/// One side of a knot: the bits of the width and the slope of its tangent.
#[derive(Clone, Copy, Debug, PartialEq, Eq, Structural, Hash)]
pub struct Tangent {
    pub width: u64,
    pub slope: u64,
}

/// A knot of a spline, its numbers by their bits.
#[derive(Clone, Copy, Debug, PartialEq, Eq, Structural, Hash)]
pub struct SplineKnot {
    pub time: u64,
    pub value: u64,
    /// The value that the curve before the knot ends at, where it is another.
    pub pre_value: Option<u64>,
    /// How the curve goes on to the next knot.
    pub interpolation: KnotInterpolation,
    pub pre_tangent: Tangent,
    pub post_tangent: Tangent,
}

/// An authored spline.
#[derive(Debug)]
pub struct SplineData {
    pub data_type: SplineDataType,
    pub default_curve_type: CurveType,
    pub pre_extrapolation: Extrapolation,
    pub post_extrapolation: Extrapolation,
    pub loop_params: Option<LoopParams>,
    /// The knots, by ascending time.
    pub knots: Vec<SplineKnot>,
}

/// The mathematical value of a [`SplineData`].
#[verifier::ext_equal]
pub struct SplineView {
    pub data_type: SplineDataType,
    pub default_curve_type: CurveType,
    pub pre_extrapolation: Extrapolation,
    pub post_extrapolation: Extrapolation,
    pub loop_params: Option<LoopParams>,
    pub knots: Seq<SplineKnot>,
}

impl View for SplineData {
    type V = SplineView;

    open spec fn view(&self) -> SplineView {
        SplineView {
            data_type: self.data_type,
            default_curve_type: self.default_curve_type,
            pre_extrapolation: self.pre_extrapolation,
            post_extrapolation: self.post_extrapolation,
            loop_params: self.loop_params,
            knots: self.knots@,
        }
    }
}

impl SplineData {
    /// A copy of this spline.
    pub fn copy(&self) -> (out: SplineData)
        ensures
            out@ == self@,
    {
        let mut knots: Vec<SplineKnot> = Vec::new();
        let mut i: usize = 0;
        while i < self.knots.len()
            invariant
                i <= self.knots@.len(),
                knots@ == self.knots@.take(i as int),
            decreases self.knots@.len() - i,
        {
            knots.push(self.knots[i]);
            i = i + 1;
            assert(knots@ =~= self.knots@.take(i as int));
        }
        assert(knots@ =~= self.knots@);
        SplineData {
            data_type: self.data_type,
            default_curve_type: self.default_curve_type,
            pre_extrapolation: self.pre_extrapolation,
            post_extrapolation: self.post_extrapolation,
            loop_params: self.loop_params,
            knots,
        }
    }
}

/// One time sample: the bits of a time, and the value at that time.
pub type TimeSample = (u64, Value);

/// The times and values of a list of samples.
pub open spec fn samples_view(samples: Seq<TimeSample>) -> Seq<(u64, ValueView)> {
    samples.map_values(|s: TimeSample| (s.0, s.1.view()))
}

/// Copies a list of samples.
pub fn copy_samples(samples: &Vec<TimeSample>) -> (out: Vec<TimeSample>)
    ensures
        samples_view(out@) == samples_view(samples@),
{
    let mut out: Vec<TimeSample> = Vec::new();
    let mut i: usize = 0;
    while i < samples.len()
        invariant
            i <= samples@.len(),
            samples_view(out@) == samples_view(samples@).take(i as int),
        decreases samples@.len() - i,
    {
        let sample = (samples[i].0, samples[i].1.copy());
        assert(samples_view(out@.push(sample)) =~= samples_view(out@).push(
            (sample.0, sample.1.view()),
        ));
        assert(samples_view(samples@).take(i + 1) =~= samples_view(samples@).take(i as int).push(
            (samples@[i as int].0, samples@[i as int].1.view()),
        ));
        out.push(sample);
        i = i + 1;
    }
    assert(samples_view(samples@).take(i as int) =~= samples_view(samples@));
    out
}

/// Whether a sample's time comes before another's.
pub open spec fn earlier<T>(a: (u64, T), b: (u64, T)) -> bool {
    total_place(a.0) < total_place(b.0)
}

/// `samples` with only the last of each run of samples at one time.
pub open spec fn last_of_runs<T>(samples: Seq<(u64, T)>) -> Seq<(u64, T)>
    decreases samples.len(),
{
    if samples.len() == 0 {
        seq![]
    } else {
        let rest = last_of_runs(samples.drop_last());
        let last = samples.last();
        if rest.len() > 0 && rest.last().0 == last.0 {
            rest.drop_last().push(last)
        } else {
            rest.push(last)
        }
    }
}

/// `samples` in the order of their times, with only the last of those that
/// share one.
pub open spec fn sorted_samples<T>(samples: Seq<(u64, T)>) -> Seq<(u64, T)> {
    last_of_runs(stable_sorted(samples, |a: (u64, T), b: (u64, T)| earlier(a, b)))
}

/// A property: its kind, and the slots that it authors.
#[derive(Debug)]
pub struct PropertySpec {
    pub kind: PropertyKind,
    /// Whether the property is qualified `custom`.
    pub custom: bool,
    pub variability: Variability,
    /// The declared type of an attribute.
    pub declared_type: Option<PropertyType>,
    /// The default value.
    pub default: Option<Value>,
    /// The time samples, sorted by time.
    pub time_samples: Option<Vec<TimeSample>>,
    pub spline: Option<SplineData>,
    /// The connections of an attribute, the targets of a relationship.
    pub targets: Option<ListOp>,
    /// All other fields.
    pub metadata: Vec<FieldEntry>,
}

/// The mathematical value of a [`PropertySpec`].
#[verifier::ext_equal]
pub struct PropertyView {
    pub kind: PropertyKind,
    pub custom: bool,
    pub variability: Variability,
    pub declared_type: Option<TypeView>,
    pub default: Option<ValueView>,
    pub time_samples: Option<Seq<(u64, ValueView)>>,
    pub spline: Option<SplineView>,
    pub targets: Option<ListOpView>,
    pub metadata: Seq<(TokenId, FieldView)>,
}

/// A property of a kind that authors nothing.
pub open spec fn empty_property(kind: PropertyKind) -> PropertyView {
    PropertyView {
        kind,
        custom: false,
        variability: match kind {
            PropertyKind::Attribute => Variability::Varying,
            PropertyKind::Relationship => Variability::Uniform,
        },
        declared_type: None,
        default: None,
        time_samples: None,
        spline: None,
        targets: None,
        metadata: seq![],
    }
}

impl View for PropertySpec {
    type V = PropertyView;

    open spec fn view(&self) -> PropertyView {
        PropertyView {
            kind: self.kind,
            custom: self.custom,
            variability: self.variability,
            declared_type: type_option(self.declared_type),
            default: value_option(self.default),
            time_samples: match self.time_samples {
                Some(samples) => Some(samples_view(samples@)),
                None => None,
            },
            spline: match self.spline {
                Some(spline) => Some(spline@),
                None => None,
            },
            targets: match self.targets {
                Some(targets) => Some(targets@),
                None => None,
            },
            metadata: fields_view(self.metadata@),
        }
    }
}

impl Default for PropertySpec {
    fn default() -> (out: PropertySpec)
        ensures
            out@ == empty_property(PropertyKind::Attribute),
    {
        PropertySpec::attribute()
    }
}

impl PropertySpec {
    /// An attribute that authors nothing.
    pub fn attribute() -> (out: PropertySpec)
        ensures
            out@ == empty_property(PropertyKind::Attribute),
    {
        let out = PropertySpec {
            kind: PropertyKind::Attribute,
            custom: false,
            variability: Variability::Varying,
            declared_type: None,
            default: None,
            time_samples: None,
            spline: None,
            targets: None,
            metadata: Vec::new(),
        };
        assert(out@ =~= empty_property(PropertyKind::Attribute));
        out
    }

    /// An attribute declared with a type.
    pub fn typed_attribute(property_type: PropertyType) -> (out: PropertySpec)
        ensures
            out@ == (PropertyView {
                declared_type: Some(property_type@),
                ..empty_property(PropertyKind::Attribute)
            }),
    {
        PropertySpec::attribute().with_type(property_type)
    }

    /// A relationship that authors nothing.
    pub fn relationship() -> (out: PropertySpec)
        ensures
            out@ == empty_property(PropertyKind::Relationship),
    {
        let mut out = PropertySpec::attribute();
        out.kind = PropertyKind::Relationship;
        out.variability = Variability::Uniform;
        out
    }

    /// A property of a kind that authors nothing.
    pub fn of_kind(kind: PropertyKind) -> (out: PropertySpec)
        ensures
            out@ == empty_property(kind),
    {
        match kind {
            PropertyKind::Attribute => PropertySpec::attribute(),
            PropertyKind::Relationship => PropertySpec::relationship(),
        }
    }

    /// Whether this is an attribute.
    pub fn is_attribute(&self) -> (yes: bool)
        ensures
            yes == (self@.kind == PropertyKind::Attribute),
    {
        self.kind == PropertyKind::Attribute
    }

    /// Whether this is a relationship.
    pub fn is_relationship(&self) -> (yes: bool)
        ensures
            yes == (self@.kind == PropertyKind::Relationship),
    {
        self.kind == PropertyKind::Relationship
    }

    /// This property, qualified `custom`.
    pub fn custom(self) -> (out: PropertySpec)
        ensures
            out@ == (PropertyView { custom: true, ..self@ }),
    {
        let mut out = self;
        out.custom = true;
        out
    }

    /// This property, qualified `uniform`.
    pub fn uniform(self) -> (out: PropertySpec)
        ensures
            out@ == (PropertyView { variability: Variability::Uniform, ..self@ }),
    {
        let mut out = self;
        out.variability = Variability::Uniform;
        out
    }

    /// This property, declared with a type.
    pub fn with_type(self, property_type: PropertyType) -> (out: PropertySpec)
        ensures
            out@ == (PropertyView { declared_type: Some(property_type@), ..self@ }),
    {
        let mut out = self;
        out.declared_type = Some(property_type);
        out
    }

    /// This property, with a default.
    pub fn with_default(self, value: Value) -> (out: PropertySpec)
        ensures
            out@ == (PropertyView { default: Some(value.view()), ..self@ }),
    {
        let mut out = self;
        out.default = Some(value);
        out
    }

    /// This property, with time samples: sorted by time, the last of those
    /// that share one.
    pub fn with_time_samples(self, samples: Vec<TimeSample>) -> (out: PropertySpec)
        ensures
            out@ == (PropertyView {
                time_samples: Some(sorted_samples(samples_view(samples@))),
                ..self@
            }),
    {
        let mut out = self;
        out.time_samples = Some(sort_samples(samples));
        out
    }

    /// This property, with a spline.
    pub fn with_spline(self, spline: SplineData) -> (out: PropertySpec)
        ensures
            out@ == (PropertyView { spline: Some(spline@), ..self@ }),
    {
        let mut out = self;
        out.spline = Some(spline);
        out
    }

    /// This property, with targets.
    pub fn with_targets(self, targets: ListOp) -> (out: PropertySpec)
        ensures
            out@ == (PropertyView { targets: Some(targets@), ..self@ }),
    {
        let mut out = self;
        out.targets = Some(targets);
        out
    }

    /// This property, with a metadata field.
    pub fn with_metadata(self, key: TokenId, value: FieldValue) -> (out: PropertySpec)
        ensures
            out@ == (PropertyView {
                metadata: with_named(self@.metadata, key, value@),
                ..self@
            }),
    {
        let mut out = self;
        out.set_metadata(key, value);
        out
    }

    /// Inserts or replaces a metadata field.
    pub fn set_metadata(&mut self, key: TokenId, value: FieldValue)
        ensures
            final(self)@ == (PropertyView {
                metadata: with_named(old(self)@.metadata, key, value@),
                ..old(self)@
            }),
    {
        set_field_vec(&mut self.metadata, key, value);
    }

    /// The metadata field `key`, if authored.
    pub fn metadata(&self, key: TokenId) -> (value: Option<&FieldValue>)
        ensures
            field_ref(value) == named(self@.metadata, key),
    {
        get_field(&self.metadata, &key)
    }

    /// Removes a metadata field and returns what it held.
    pub fn remove_metadata(&mut self, key: TokenId) -> (value: Option<FieldValue>)
        ensures
            field_option(value) == named(old(self)@.metadata, key),
            final(self)@ == (PropertyView {
                metadata: without_named(old(self)@.metadata, key),
                ..old(self)@
            }),
    {
        remove_field(&mut self.metadata, key)
    }

    /// Whether the property authors anything that value resolution reads: a
    /// default, a sample or a spline.
    pub fn has_value(&self) -> (yes: bool)
        ensures
            yes == (self@.default is Some || self@.spline is Some || (self@.time_samples matches Some(
                samples,
            ) && samples.len() > 0)),
    {
        if self.default.is_some() || self.spline.is_some() {
            return true;
        }
        match &self.time_samples {
            Some(samples) => samples.len() > 0,
            None => false,
        }
    }

    /// A copy of this property.
    pub fn copy(&self) -> (out: PropertySpec)
        ensures
            out@ == self@,
    {
        PropertySpec {
            kind: self.kind,
            custom: self.custom,
            variability: self.variability,
            declared_type: copy_type(&self.declared_type),
            default: copy_option(&self.default),
            time_samples: match &self.time_samples {
                Some(samples) => Some(copy_samples(samples)),
                None => None,
            },
            spline: match &self.spline {
                Some(spline) => Some(spline.copy()),
                None => None,
            },
            targets: match &self.targets {
                Some(targets) => Some(targets.copy()),
                None => None,
            },
            metadata: copy_fields(&self.metadata),
        }
    }
}

proof fn lemma_sorted_view(samples: Seq<TimeSample>)
    ensures
        samples_view(
            stable_sorted(samples, |a: TimeSample, b: TimeSample| earlier(a, b)),
        ) == stable_sorted(
            samples_view(samples),
            |a: (u64, ValueView), b: (u64, ValueView)| earlier(a, b),
        ),
    decreases samples.len(),
{
    let f = |a: TimeSample, b: TimeSample| earlier(a, b);
    let g = |a: (u64, ValueView), b: (u64, ValueView)| earlier(a, b);
    if samples.len() > 0 {
        let rest = samples.drop_last();
        lemma_sorted_view(rest);
        assert(samples_view(rest) =~= samples_view(samples).drop_last());
        let sorted = stable_sorted(rest, f);
        lemma_insert_view(sorted, samples.last(), 0);
        let at = insert_place(sorted, samples.last(), f, 0);
        crate::sorting::lemma_insert_place(sorted, samples.last(), f, 0);
        assert(samples_view(sorted.insert(at, samples.last())) =~= samples_view(sorted).insert(
            at,
            (samples.last().0, samples.last().1.view()),
        ));
        assert(samples_view(samples).last() == (samples.last().0, samples.last().1.view()));
    } else {
        assert(samples_view(stable_sorted(samples, f)) =~= stable_sorted(samples_view(samples), g));
    }
}

proof fn lemma_insert_view(s: Seq<TimeSample>, x: TimeSample, from: int)
    requires
        0 <= from <= s.len(),
    ensures
        insert_place(s, x, |a: TimeSample, b: TimeSample| earlier(a, b), from)
            == insert_place(
            samples_view(s),
            (x.0, x.1.view()),
            |a: (u64, ValueView), b: (u64, ValueView)| earlier(a, b),
            from,
        ),
    decreases s.len() - from,
{
    if from < s.len() {
        lemma_insert_view(s, x, from + 1);
    }
}

proof fn lemma_runs_view(samples: Seq<TimeSample>)
    ensures
        samples_view(last_of_runs(samples)) == last_of_runs(samples_view(samples)),
    decreases samples.len(),
{
    if samples.len() > 0 {
        let rest = samples.drop_last();
        lemma_runs_view(rest);
        assert(samples_view(rest) =~= samples_view(samples).drop_last());
        let runs = last_of_runs(rest);
        let last = samples.last();
        assert(samples_view(runs.push(last)) =~= samples_view(runs).push((last.0, last.1.view())));
        if runs.len() > 0 {
            assert(samples_view(runs.drop_last().push(last)) =~= samples_view(
                runs,
            ).drop_last().push((last.0, last.1.view())));
        }
    } else {
        assert(samples_view(last_of_runs(samples)) =~= last_of_runs(samples_view(samples)));
    }
}

/// Sorts samples by time and keeps the last of those that share one.
pub fn sort_samples(samples: Vec<TimeSample>) -> (out: Vec<TimeSample>)
    ensures
        samples_view(out@) == sorted_samples(samples_view(samples@)),
{
    let ghost given = samples@;
    let ghost order = |a: TimeSample, b: TimeSample| earlier(a, b);
    let before = |a: &TimeSample, b: &TimeSample| -> (r: bool)
        ensures
            r == earlier(*a, *b),
        { total_before(a.0, b.0) };
    let mut sorted = samples;
    sort_stable(&mut sorted, before, Ghost(order));
    let ghost all = sorted@;
    let mut rest: Vec<TimeSample> = Vec::new();
    // Taken from the back, so the samples come off in reverse.
    let mut out: Vec<TimeSample> = Vec::new();
    while sorted.len() > 0
        invariant
            sorted@ + rest@.reverse() == all,
        decreases sorted@.len(),
    {
        let ghost had = sorted@;
        let ghost kept = rest@;
        let sample = sorted.pop().unwrap();
        rest.push(sample);
        assert(rest@.reverse() =~= seq![sample] + kept.reverse());
        assert(sorted@ + rest@.reverse() =~= had + kept.reverse());
    }
    assert(rest@.reverse() =~= all);
    let ghost mut done: int = 0;
    while rest.len() > 0
        invariant
            0 <= done <= all.len(),
            rest@.len() == all.len() - done,
            forall|i: int| 0 <= i < rest@.len() ==> #[trigger] rest@[i] == all[all.len() - 1 - i],
            out@ == last_of_runs(all.take(done)),
        decreases rest@.len(),
    {
        let sample = rest.pop().unwrap();
        assert(sample == all[done]);
        assert(all.take(done + 1).drop_last() =~= all.take(done));
        let repeats = out.len() > 0 && out[out.len() - 1].0 == sample.0;
        if repeats {
            out.pop();
        }
        out.push(sample);
        proof {
            done = done + 1;
        }
    }
    assert(all.take(done) =~= all);
    proof {
        lemma_sorted_view(given);
        lemma_runs_view(all);
    }
    out
}

/// A named property.
#[derive(Debug)]
pub struct PropertyEntry {
    pub name: TokenId,
    pub spec: PropertySpec,
}

/// The names and contents of a list of properties.
pub open spec fn properties_view(properties: Seq<PropertyEntry>) -> Seq<(TokenId, PropertyView)> {
    properties.map_values(|p: PropertyEntry| (p.name, p.spec@))
}

/// The view of an optional borrowed property.
pub open spec fn property_ref(value: Option<&PropertySpec>) -> Option<PropertyView> {
    match value {
        Some(value) => Some(value@),
        None => None,
    }
}

/// The view of an optional property.
pub open spec fn property_option(value: Option<PropertySpec>) -> Option<PropertyView> {
    match value {
        Some(value) => Some(value@),
        None => None,
    }
}

/// The place of the property named `name`, or the length.
fn property_place(properties: &Vec<PropertyEntry>, name: TokenId) -> (at: usize)
    ensures
        at == place_of(properties_view(properties@), name, 0),
        at <= properties@.len(),
{
    let mut i: usize = 0;
    while i < properties.len()
        invariant
            i <= properties@.len(),
            forall|k: int| 0 <= k < i ==> (#[trigger] properties_view(properties@)[k]).0 != name,
        decreases properties@.len() - i,
    {
        if properties[i].name == name {
            proof {
                lemma_place_of_unique(properties_view(properties@), name, i as int);
            }
            return i;
        }
        i = i + 1;
    }
    proof {
        lemma_place_of_unique(properties_view(properties@), name, i as int);
    }
    i
}

/// The property named `name`, if present.
pub fn get_property(properties: &Vec<PropertyEntry>, name: TokenId) -> (spec: Option<&PropertySpec>)
    ensures
        property_ref(spec) == named(properties_view(properties@), name),
{
    let at = property_place(properties, name);
    if at < properties.len() {
        Some(&properties[at].spec)
    } else {
        None
    }
}

/// The property named `name`, to be changed in place, if present.
pub fn get_property_mut(properties: &mut Vec<PropertyEntry>, name: TokenId) -> (spec: Option<
    &mut PropertySpec,
>)
    ensures
        match spec {
            Some(spec) => {
                &&& named(properties_view(old(properties)@), name) == Some(spec@)
                &&& properties_view(final(properties)@) == with_named(
                    properties_view(old(properties)@),
                    name,
                    final(spec)@,
                )
            },
            None => {
                &&& named(properties_view(old(properties)@), name) is None
                &&& final(properties)@ == old(properties)@
            },
        },
{
    let at = property_place(properties, name);
    if at < properties.len() {
        let ghost before = properties@;
        let entry = &mut properties[at];
        proof {
            crate::fields::lemma_place_of(properties_view(before), name, 0);
            assert(properties_view(before.update(at as int, *final(entry))) =~= properties_view(
                before,
            ).update(at as int, (final(entry).name, final(entry).spec@)));
        }
        Some(&mut entry.spec)
    } else {
        None
    }
}

/// Inserts or replaces the property named `name`, keeping the place of a
/// replaced one.
pub fn set_property_vec(properties: &mut Vec<PropertyEntry>, name: TokenId, spec: PropertySpec)
    ensures
        properties_view(final(properties)@) == with_named(
            properties_view(old(properties)@),
            name,
            spec@,
        ),
{
    let ghost before = properties@;
    let at = property_place(properties, name);
    let entry = PropertyEntry { name, spec };
    if at < properties.len() {
        properties.set(at, entry);
        assert(properties_view(properties@) =~= properties_view(before).update(
            at as int,
            (name, spec@),
        ));
    } else {
        properties.push(entry);
        assert(properties_view(properties@) =~= properties_view(before).push((name, spec@)));
    }
}

/// The property named `name`, to be changed in place: created at the end, as
/// an empty one of `kind`, when absent.
pub fn property_entry(
    properties: &mut Vec<PropertyEntry>,
    name: TokenId,
    kind: PropertyKind,
) -> (spec: &mut PropertySpec)
    ensures
        spec@ == (match named(properties_view(old(properties)@), name) {
            Some(found) => found,
            None => empty_property(kind),
        }),
        properties_view(final(properties)@) == with_named(
            properties_view(old(properties)@),
            name,
            final(spec)@,
        ),
{
    let at = property_place(properties, name);
    let ghost before = properties@;
    if at >= properties.len() {
        properties.push(PropertyEntry { name, spec: PropertySpec::of_kind(kind) });
    }
    let ghost after = properties@;
    let entry = &mut properties[at];
    proof {
        crate::fields::lemma_place_of(properties_view(before), name, 0);
        let changed = properties_view(after.update(at as int, *final(entry)));
        if at < before.len() {
            assert(changed =~= properties_view(before).update(
                at as int,
                (final(entry).name, final(entry).spec@),
            ));
        } else {
            assert(changed =~= properties_view(before).push(
                (final(entry).name, final(entry).spec@),
            ));
        }
    }
    &mut entry.spec
}

/// Removes the property named `name` and returns it.
pub fn remove_property(properties: &mut Vec<PropertyEntry>, name: TokenId) -> (spec: Option<
    PropertySpec,
>)
    ensures
        property_option(spec) == named(properties_view(old(properties)@), name),
        properties_view(final(properties)@) == without_named(
            properties_view(old(properties)@),
            name,
        ),
{
    let ghost before = properties@;
    let at = property_place(properties, name);
    if at < properties.len() {
        let entry = properties.remove(at);
        assert(properties_view(properties@) =~= properties_view(before).remove(at as int));
        Some(entry.spec)
    } else {
        None
    }
}


/// Whether no later sample has the time of sample `k`.
pub open spec fn is_last_of_its_time<T>(samples: Seq<(u64, T)>, k: int) -> bool {
    &&& 0 <= k < samples.len()
    &&& forall|m: int| k < m < samples.len() ==> (#[trigger] samples[m]).0 != samples[k].0
}

proof fn lemma_runs<T>(t: Seq<(u64, T)>)
    requires
        forall|i: int, j: int|
            0 <= i < j < t.len() ==> total_place(#[trigger] t[i].0) <= total_place(
                #[trigger] t[j].0,
            ),
    ensures
        forall|i: int, j: int|
            0 <= i < j < last_of_runs(t).len() ==> total_place(
                (#[trigger] last_of_runs(t)[i]).0,
            ) < total_place((#[trigger] last_of_runs(t)[j]).0),
        forall|i: int| 0 <= i < last_of_runs(t).len() ==> t.contains(#[trigger] last_of_runs(t)[i]),
        forall|k: int|
            is_last_of_its_time(t, k) ==> last_of_runs(t).contains(#[trigger] t[k]),
        t.len() > 0 ==> last_of_runs(t).len() > 0 && last_of_runs(t).last() == t.last(),
    decreases t.len(),
{
    if t.len() > 0 {
        let before = t.drop_last();
        let rest = last_of_runs(before);
        let out = last_of_runs(t);
        let last = t.last();
        assert forall|i: int, j: int| 0 <= i < j < before.len() implies total_place(
            #[trigger] before[i].0,
        ) <= total_place(#[trigger] before[j].0) by {
            assert(total_place(t[i].0) <= total_place(t[j].0));
        }
        lemma_runs(before);
        assert(out.last() == last);
        assert forall|i: int| 0 <= i < out.len() implies t.contains(#[trigger] out[i]) by {
            if i == out.len() - 1 {
                assert(t[t.len() - 1] == out[i]);
            } else {
                assert(out[i] == rest[i]);
                let k = choose|k: int| 0 <= k < before.len() && before[k] == rest[i];
                assert(t[k] == out[i]);
            }
        }
        assert forall|i: int, j: int| 0 <= i < j < out.len() implies total_place(
            (#[trigger] out[i]).0,
        ) < total_place((#[trigger] out[j]).0) by {
            assert(out[i] == rest[i]);
            if j < out.len() - 1 {
                assert(out[j] == rest[j]);
            } else {
                let k = choose|k: int| 0 <= k < before.len() && before[k] == rest[i];
                assert(total_place(t[k].0) <= total_place(t[t.len() - 1].0));
                if rest[i].0 == last.0 {
                    if i < rest.len() - 1 {
                        assert(total_place(rest[i].0) < total_place(rest[rest.len() - 1].0));
                        assert(rest.last() == before.last());
                        assert(total_place(t[t.len() - 2].0) <= total_place(t[t.len() - 1].0));
                    }
                }
            }
        }
        assert forall|k: int| is_last_of_its_time(t, k) implies out.contains(#[trigger] t[k]) by {
            if k == t.len() - 1 {
                assert(out[out.len() - 1] == t[k]);
            } else {
                assert(t[t.len() - 1].0 != t[k].0);
                assert(before[k] == t[k]);
                assert(is_last_of_its_time(before, k)) by {
                    assert forall|m: int| k < m < before.len() implies (#[trigger] before[m]).0
                        != before[k].0 by {
                        assert(t[m].0 != t[k].0);
                    }
                }
                assert(rest.contains(before[k]));
                let i = choose|i: int| 0 <= i < rest.len() && rest[i] == before[k];
                assert(out[i] == t[k]);
            }
        }
    }
}

proof fn lemma_last_stays_last<T>(
    s: Seq<(u64, T)>,
    before: spec_fn((u64, T), (u64, T)) -> bool,
    k: int,
) -> (at: int)
    requires
        forall|a: (u64, T), b: (u64, T)| #[trigger] before(a, b) == earlier(a, b),
        is_last_of_its_time(s, k),
    ensures
        is_last_of_its_time(stable_sorted(s, before), at),
        stable_sorted(s, before)[at] == s[k],
    decreases s.len(),
{
    let rest = s.drop_last();
    let last = s.last();
    let ordered = stable_sorted(rest, before);
    let out = stable_sorted(s, before);
    let place = insert_place(ordered, last, before, 0);
    lemma_stable_sorted(rest, before);
    lemma_insert_place(ordered, last, before, 0);
    law_sorting_sorts(rest, before);
    if k == s.len() - 1 {
        assert forall|m: int| place < m < out.len() implies (#[trigger] out[m]).0 != out[place].0 by {
            assert(out[m] == ordered[m - 1]);
            assert(before(last, ordered[place]));
            if place < m - 1 {
                assert(!before(ordered[m - 1], ordered[place]));
            }
        }
        place
    } else {
        assert(s[s.len() - 1].0 != s[k].0);
        assert(is_last_of_its_time(rest, k)) by {
            assert forall|m: int| k < m < rest.len() implies (#[trigger] rest[m]).0 != rest[k].0 by {
                assert(s[m].0 != s[k].0);
            }
        }
        let from = lemma_last_stays_last(rest, before, k);
        let at = if from < place {
            from
        } else {
            from + 1
        };
        assert forall|m: int| at < m < out.len() implies (#[trigger] out[m]).0 != out[at].0 by {
            if m < place {
                assert(out[m] == ordered[m]);
            } else if m > place {
                assert(out[m] == ordered[m - 1]);
            }
        }
        at
    }
}

/// Samples stand in the order of their times, each time once: with the value
/// that was given for it last.
pub proof fn law_the_last_sample_of_a_time_is_kept<T>(samples: Seq<(u64, T)>)
    ensures
        forall|i: int, j: int|
            0 <= i < j < sorted_samples(samples).len() ==> total_place(
                (#[trigger] sorted_samples(samples)[i]).0,
            ) < total_place((#[trigger] sorted_samples(samples)[j]).0),
        forall|i: int|
            0 <= i < sorted_samples(samples).len() ==> samples.contains(
                #[trigger] sorted_samples(samples)[i],
            ),
        forall|k: int|
            0 <= k < samples.len() && (forall|m: int|
                k < m < samples.len() ==> (#[trigger] samples[m]).0 != samples[k].0)
                ==> sorted_samples(samples).contains(#[trigger] samples[k]),
{
    let before = |a: (u64, T), b: (u64, T)| earlier(a, b);
    let sorted = stable_sorted(samples, before);
    law_sorting_sorts(samples, before);
    lemma_stable_sorted(samples, before);
    assert forall|i: int, j: int| 0 <= i < j < sorted.len() implies total_place(
        #[trigger] sorted[i].0,
    ) <= total_place(#[trigger] sorted[j].0) by {
        assert(!before(sorted[j], sorted[i]));
    }
    lemma_runs(sorted);
    assert forall|i: int| 0 <= i < sorted_samples(samples).len() implies samples.contains(
        #[trigger] sorted_samples(samples)[i],
    ) by {
        assert(sorted.contains(sorted_samples(samples)[i]));
    }
    assert forall|k: int|
        0 <= k < samples.len() && (forall|m: int|
            k < m < samples.len() ==> (#[trigger] samples[m]).0 != samples[k].0) implies sorted_samples(
        samples,
    ).contains(#[trigger] samples[k]) by {
        assert(is_last_of_its_time(samples, k));
        let at = lemma_last_stays_last(samples, before, k);
        assert(sorted_samples(samples).contains(sorted[at]));
    }
}

} // verus!
