//! Opinions: what one layer authors for a field or a property of a prim.

use crate::doc::{same_number, numbers_equal, value_ref, Precision, Value, ValueView};
use crate::fields::{FieldValue, FieldView, ListKind, ListOp, ListOpView};
use crate::interner::TokenId;
use crate::prim_index::{LayerOffset, OpinionKey, IDENTITY_OFFSET, IDENTITY_SCALE};
use crate::prim_index_graph::KeyView;
use crate::property::{
    samples_view, PropertyKind, PropertySpec, PropertyType, PropertyView, SplineData, SplineView,
    TimeSample, TypeView,
};
use vstd::prelude::*;

verus! {

impl LayerOffset {
    /// Whether the offset changes no time: it is zero, of either sign, and the
    /// scale is one.
    pub open spec fn spec_is_identity(self) -> bool {
        numbers_equal(Precision::Double, self.offset, IDENTITY_OFFSET) && numbers_equal(
            Precision::Double,
            self.scale,
            IDENTITY_SCALE,
        )
    }

    /// Whether the offset changes no time.
    pub fn is_identity(&self) -> (yes: bool)
        ensures
            yes == self.spec_is_identity(),
    {
        same_number(Precision::Double, self.offset, IDENTITY_OFFSET) && same_number(
            Precision::Double,
            self.scale,
            IDENTITY_SCALE,
        )
    }
}

impl OpinionKey {
    /// A copy of this key.
    pub fn copy(&self) -> (out: OpinionKey)
        ensures
            out.view() == self.view(),
    {
        OpinionKey {
            node: self.node,
            layer_strength: self.layer_strength,
            layer_id: self.layer_id,
            lookup_path: self.lookup_path,
            spec_path: self.spec_path.copy(),
        }
    }
}

/// What an opinion authors: a field of the prim, or a property.
#[derive(Debug)]
pub enum OpinionValue {
    Field(FieldValue),
    Property(PropertySpec),
}

/// The mathematical value of an [`OpinionValue`].
pub enum OpinionValueView {
    Field(FieldView),
    Property(PropertyView),
}

impl View for OpinionValue {
    type V = OpinionValueView;

    open spec fn view(&self) -> OpinionValueView {
        match self {
            OpinionValue::Field(field) => OpinionValueView::Field(field@),
            OpinionValue::Property(spec) => OpinionValueView::Property(spec@),
        }
    }
}

impl OpinionValueView {
    /// The authored default, or the value of the field.
    pub open spec fn default_value(self) -> Option<ValueView> {
        match self {
            OpinionValueView::Field(FieldView::Value(value)) => Some(value),
            OpinionValueView::Field(FieldView::List(..)) => None,
            OpinionValueView::Property(spec) => spec.default,
        }
    }

    /// The authored time samples.
    pub open spec fn time_samples(self) -> Option<Seq<(u64, ValueView)>> {
        match self {
            OpinionValueView::Field(_) => None,
            OpinionValueView::Property(spec) => spec.time_samples,
        }
    }

    /// The authored spline.
    pub open spec fn spline(self) -> Option<SplineView> {
        match self {
            OpinionValueView::Field(_) => None,
            OpinionValueView::Property(spec) => spec.spline,
        }
    }

    /// The authored targets.
    pub open spec fn targets(self) -> Option<ListOpView> {
        match self {
            OpinionValueView::Field(FieldView::List(ListKind::Targets, list)) => Some(list),
            OpinionValueView::Field(_) => None,
            OpinionValueView::Property(spec) => spec.targets,
        }
    }

    /// Whether this is a relationship.
    pub open spec fn is_relationship(self) -> bool {
        self matches OpinionValueView::Property(spec) && spec.kind == PropertyKind::Relationship
    }
}

/// The view of optional borrowed samples.
pub open spec fn samples_ref(samples: Option<&Vec<TimeSample>>) -> Option<Seq<(u64, ValueView)>> {
    match samples {
        Some(samples) => Some(samples_view(samples@)),
        None => None,
    }
}

/// The view of an optional borrowed list edit.
pub open spec fn list_ref(list: Option<&ListOp>) -> Option<ListOpView> {
    match list {
        Some(list) => Some(list@),
        None => None,
    }
}

impl OpinionValue {
    /// The authored default, or the value of the field.
    pub fn default_value(&self) -> (value: Option<&Value>)
        ensures
            value_ref(value) == self@.default_value(),
    {
        match self {
            OpinionValue::Field(FieldValue::Value(value)) => Some(value),
            OpinionValue::Field(FieldValue::List(..)) => None,
            OpinionValue::Property(spec) => spec.default.as_ref(),
        }
    }

    /// The authored time samples.
    pub fn time_samples(&self) -> (samples: Option<&Vec<TimeSample>>)
        ensures
            samples_ref(samples) == self@.time_samples(),
    {
        match self {
            OpinionValue::Field(_) => None,
            OpinionValue::Property(spec) => spec.time_samples.as_ref(),
        }
    }

    /// The authored spline.
    pub fn spline(&self) -> (spline: Option<&SplineData>)
        ensures
            (match spline {
                Some(spline) => Some(spline@),
                None => None,
            }) == self@.spline(),
    {
        match self {
            OpinionValue::Field(_) => None,
            OpinionValue::Property(spec) => spec.spline.as_ref(),
        }
    }

    /// The authored targets.
    pub fn targets(&self) -> (targets: Option<&ListOp>)
        ensures
            list_ref(targets) == self@.targets(),
    {
        match self {
            OpinionValue::Field(FieldValue::List(ListKind::Targets, list)) => Some(list),
            OpinionValue::Field(_) => None,
            OpinionValue::Property(spec) => spec.targets.as_ref(),
        }
    }

    /// The property, if this is one.
    pub fn as_property(&self) -> (spec: Option<&PropertySpec>)
        ensures
            match spec {
                Some(spec) => self@ == OpinionValueView::Property(spec@),
                None => self@ is Field,
            },
    {
        match self {
            OpinionValue::Field(_) => None,
            OpinionValue::Property(spec) => Some(spec),
        }
    }

    /// The field, if this is one.
    pub fn as_field(&self) -> (field: Option<&FieldValue>)
        ensures
            match field {
                Some(field) => self@ == OpinionValueView::Field(field@),
                None => self@ is Property,
            },
    {
        match self {
            OpinionValue::Field(field) => Some(field),
            OpinionValue::Property(_) => None,
        }
    }

    /// Whether this is a relationship.
    pub fn is_relationship(&self) -> (yes: bool)
        ensures
            yes == self@.is_relationship(),
    {
        match self {
            OpinionValue::Field(_) => false,
            OpinionValue::Property(spec) => spec.is_relationship(),
        }
    }

    /// A copy of this value.
    pub fn copy(&self) -> (out: OpinionValue)
        ensures
            out@ == self@,
    {
        match self {
            OpinionValue::Field(field) => OpinionValue::Field(field.copy()),
            OpinionValue::Property(spec) => OpinionValue::Property(spec.copy()),
        }
    }
}

/// What one layer authors.
#[derive(Debug)]
pub struct Opinion {
    /// Where the opinion comes from.
    pub key: OpinionKey,
    /// The field or property that it is on.
    pub field: TokenId,
    pub value: OpinionValue,
    /// The offset that its layer is read through.
    pub layer_offset: LayerOffset,
}

/// The mathematical value of an [`Opinion`].
pub struct OpinionView {
    pub key: KeyView,
    pub field: TokenId,
    pub value: OpinionValueView,
    pub layer_offset: LayerOffset,
}

impl View for Opinion {
    type V = OpinionView;

    open spec fn view(&self) -> OpinionView {
        OpinionView {
            key: self.key.view(),
            field: self.field,
            value: self.value@,
            layer_offset: self.layer_offset,
        }
    }
}

impl Opinion {
    /// A copy of this opinion.
    pub fn copy(&self) -> (out: Opinion)
        ensures
            out@ == self@,
    {
        Opinion {
            key: self.key.copy(),
            field: self.field,
            value: self.value.copy(),
            layer_offset: self.layer_offset,
        }
    }
}

/// The values of a list of opinions.
pub open spec fn opinions_view(opinions: Seq<Opinion>) -> Seq<OpinionView> {
    opinions.map_values(|o: Opinion| o@)
}

/// The first place, from `from` on, of an opinion that authors a default; the
/// length when there is none.
pub open spec fn default_place(opinions: Seq<OpinionView>, from: int) -> int
    decreases opinions.len() - from,
{
    if from < 0 || from >= opinions.len() {
        opinions.len() as int
    } else if opinions[from].value.default_value() is Some {
        from
    } else {
        default_place(opinions, from + 1)
    }
}

pub proof fn lemma_default_place(opinions: Seq<OpinionView>, from: int)
    requires
        0 <= from <= opinions.len(),
    ensures
        from <= default_place(opinions, from) <= opinions.len(),
        forall|i: int|
            from <= i < default_place(opinions, from) ==> (#[trigger] opinions[i]).value.default_value() is None,
        default_place(opinions, from) < opinions.len() ==> opinions[default_place(
            opinions,
            from,
        )].value.default_value() is Some,
    decreases opinions.len() - from,
{
    if from < opinions.len() && opinions[from].value.default_value() is None {
        lemma_default_place(opinions, from + 1);
    }
}

/// The place of the strongest opinion that authors a default, or the length.
pub fn find_default(opinions: &Vec<Opinion>) -> (at: usize)
    ensures
        at == default_place(opinions_view(opinions@), 0),
        at <= opinions@.len(),
{
    let mut i: usize = 0;
    while i < opinions.len()
        invariant
            i <= opinions@.len(),
            default_place(opinions_view(opinions@), 0) == default_place(
                opinions_view(opinions@),
                i as int,
            ),
        decreases opinions@.len() - i,
    {
        assert(opinions_view(opinions@)[i as int] == opinions@[i as int]@);
        if opinions[i].value.default_value().is_some() {
            return i;
        }
        i = i + 1;
    }
    i
}

/// The type that the strongest property opinion with one declares.
pub open spec fn declared_type(opinions: Seq<OpinionView>) -> Option<TypeView>
    decreases opinions.len(),
{
    if opinions.len() == 0 {
        None
    } else {
        match declared_type(opinions.drop_last()) {
            Some(found) => Some(found),
            None => match opinions.last().value {
                OpinionValueView::Property(spec) => spec.declared_type,
                OpinionValueView::Field(_) => None,
            },
        }
    }
}

/// The type that the strongest property opinion with one declares.
pub fn find_declared_type(opinions: &Vec<Opinion>) -> (out: Option<&PropertyType>)
    ensures
        crate::property::type_ref(out) == declared_type(opinions_view(opinions@)),
{
    let ghost all = opinions_view(opinions@);
    let mut out: Option<&PropertyType> = None;
    let mut i: usize = 0;
    assert(all.take(0) =~= seq![]);
    while i < opinions.len()
        invariant
            i <= opinions@.len(),
            all == opinions_view(opinions@),
            crate::property::type_ref(out) == declared_type(all.take(i as int)),
        decreases opinions@.len() - i,
    {
        assert(all.take(i + 1).drop_last() =~= all.take(i as int));
        assert(all[i as int] == opinions@[i as int]@);
        if out.is_none() {
            match &opinions[i].value {
                OpinionValue::Property(spec) => {
                    out = spec.declared_type.as_ref();
                },
                OpinionValue::Field(_) => {},
            }
        }
        i = i + 1;
    }
    assert(all.take(i as int) =~= all);
    out
}

} // verus!
