//! What a prim's sources declare of it.
//!
//! A query takes the specs that the sources of the prim read, strongest
//! first, with `None` for a source whose layer or spec is gone.

use crate::doc::Specifier;
use crate::fields::named;
use crate::interner::TokenId;
use crate::path::PathId;
use crate::stage::Stage;
use vstd::prelude::*;

verus! {

/// What one spec declares of its prim.
#[derive(Debug)]
pub struct SourceSpec {
    pub specifier: Option<Specifier>,
    /// The name of the prim's type.
    pub type_label: Option<TokenId>,
    pub active: Option<bool>,
    pub instanceable: Option<bool>,
    /// The order of the prim's children.
    pub prim_order: Option<Vec<TokenId>>,
    /// The order of the prim's properties.
    pub property_order: Option<Vec<TokenId>>,
}

/// The mathematical value of a [`SourceSpec`].
#[verifier::ext_equal]
pub struct SourceView {
    pub specifier: Option<Specifier>,
    pub type_label: Option<TokenId>,
    pub active: Option<bool>,
    pub instanceable: Option<bool>,
    pub prim_order: Option<Seq<TokenId>>,
    pub property_order: Option<Seq<TokenId>>,
}

/// The view of an optional order.
pub open spec fn order_option(order: Option<Vec<TokenId>>) -> Option<Seq<TokenId>> {
    match order {
        Some(order) => Some(order@),
        None => None,
    }
}

impl View for SourceSpec {
    type V = SourceView;

    open spec fn view(&self) -> SourceView {
        SourceView {
            specifier: self.specifier,
            type_label: self.type_label,
            active: self.active,
            instanceable: self.instanceable,
            prim_order: order_option(self.prim_order),
            property_order: order_option(self.property_order),
        }
    }
}

/// The specs of a list.
pub open spec fn sources_view(specs: Seq<Option<SourceSpec>>) -> Seq<Option<SourceView>> {
    specs.map_values(
        |s: Option<SourceSpec>|
            match s {
                Some(s) => Some(s@),
                None => None,
            },
    )
}

/// The strongest answer that a list of specs gives to a question.
pub open spec fn strongest<T>(
    specs: Seq<Option<SourceView>>,
    answer: spec_fn(SourceView) -> Option<T>,
) -> Option<T>
    decreases specs.len(),
{
    if specs.len() == 0 {
        None
    } else {
        match strongest(specs.drop_last(), answer) {
            Some(found) => Some(found),
            None => match specs.last() {
                Some(spec) => answer(spec),
                None => None,
            },
        }
    }
}

/// The specifier of a spec that defines its prim.
pub open spec fn defining() -> spec_fn(SourceView) -> Option<Specifier> {
    |spec: SourceView|
        match spec.specifier {
            Some(Specifier::Over) => None,
            specifier => specifier,
        }
}

/// The specifier that a list of specs resolves to: that of the strongest spec
/// which defines the prim, else an `over`.
pub open spec fn specifier_of(specs: Seq<Option<SourceView>>) -> Specifier {
    match strongest(specs, defining()) {
        Some(specifier) => specifier,
        None => Specifier::Over,
    }
}

/// The type that a list of specs resolves to: the strongest one named.
pub open spec fn type_of(specs: Seq<Option<SourceView>>) -> Option<TokenId> {
    strongest(specs, |spec: SourceView| spec.type_label)
}

/// The property order that a list of specs resolves to: the strongest one.
pub open spec fn property_order_of(specs: Seq<Option<SourceView>>) -> Option<Seq<TokenId>> {
    strongest(specs, |spec: SourceView| spec.property_order)
}

/// The child order that a list of specs resolves to: the strongest one.
pub open spec fn prim_order_of(specs: Seq<Option<SourceView>>) -> Option<Seq<TokenId>> {
    strongest(specs, |spec: SourceView| spec.prim_order)
}

/// Whether a list of specs makes its prim active: the strongest says.
pub open spec fn active_of(specs: Seq<Option<SourceView>>) -> Option<bool> {
    strongest(specs, |spec: SourceView| spec.active)
}

/// Whether a list of specs makes its prim instanceable: the strongest says.
pub open spec fn instanceable_of(specs: Seq<Option<SourceView>>) -> Option<bool> {
    strongest(specs, |spec: SourceView| spec.instanceable)
}

/// What a prim's sources declare of it, resolved.
#[derive(Debug)]
pub struct Declared {
    pub specifier: Specifier,
    pub type_label: Option<TokenId>,
    pub active: Option<bool>,
    pub instanceable: Option<bool>,
    pub prim_order: Option<Vec<TokenId>>,
    pub property_order: Option<Vec<TokenId>>,
}

/// Resolves what a prim's sources declare of it: each member by the strongest
/// spec that authors it.
pub fn resolve_declared(specs: &Vec<Option<SourceSpec>>) -> (out: Declared)
    ensures
        out.specifier == specifier_of(sources_view(specs@)),
        out.type_label == type_of(sources_view(specs@)),
        out.active == active_of(sources_view(specs@)),
        out.instanceable == instanceable_of(sources_view(specs@)),
        order_option(out.prim_order) == prim_order_of(sources_view(specs@)),
        order_option(out.property_order) == property_order_of(sources_view(specs@)),
{
    let ghost all = sources_view(specs@);
    let mut specifier: Option<Specifier> = None;
    let mut type_label: Option<TokenId> = None;
    let mut active: Option<bool> = None;
    let mut instanceable: Option<bool> = None;
    let mut prim_order: Option<Vec<TokenId>> = None;
    let mut property_order: Option<Vec<TokenId>> = None;
    let mut i: usize = 0;
    while i < specs.len()
        invariant
            i <= specs@.len(),
            all == sources_view(specs@),
            specifier == strongest(all.take(i as int), defining()),
            type_label == type_of(all.take(i as int)),
            active == active_of(all.take(i as int)),
            instanceable == instanceable_of(all.take(i as int)),
            order_option(prim_order) == prim_order_of(all.take(i as int)),
            order_option(property_order) == property_order_of(all.take(i as int)),
        decreases specs@.len() - i,
    {
        assert(all.take(i + 1).drop_last() =~= all.take(i as int));
        assert(all.take(i + 1).last() == all[i as int]);
        match &specs[i] {
            Some(spec) => {
                assert(all[i as int] == Some(spec@));
                if specifier.is_none() {
                    specifier = match spec.specifier {
                        Some(Specifier::Over) => None,
                        other => other,
                    };
                }
                if type_label.is_none() {
                    type_label = spec.type_label;
                }
                if active.is_none() {
                    active = spec.active;
                }
                if instanceable.is_none() {
                    instanceable = spec.instanceable;
                }
                if prim_order.is_none() {
                    prim_order = copy_order(&spec.prim_order);
                }
                if property_order.is_none() {
                    property_order = copy_order(&spec.property_order);
                }
            },
            None => {},
        }
        i = i + 1;
    }
    assert(all.take(i as int) =~= all);
    let specifier = match specifier {
        Some(specifier) => specifier,
        None => Specifier::Over,
    };
    Declared { specifier, type_label, active, instanceable, prim_order, property_order }
}

/// A copy of an optional order.
pub fn copy_order(order: &Option<Vec<TokenId>>) -> (out: Option<Vec<TokenId>>)
    ensures
        order_option(out) == order_option(*order),
{
    match order {
        Some(order) => Some(crate::schema::definition::copy_tokens(order)),
        None => None,
    }
}

impl Stage {
    /// The specifier that a prim resolves to.
    pub fn resolve_specifier(&self, prim: PathId, specs: &Vec<Option<SourceSpec>>) -> (out: Option<
        Specifier,
    >)
        ensures
            out == (if named(self@.prims, prim) is Some {
                Some(specifier_of(sources_view(specs@)))
            } else {
                None
            }),
    {
        if !self.has_prim(prim) {
            return None;
        }
        Some(resolve_declared(specs).specifier)
    }

    /// Whether a prim is defined: its specifier is `def` or `class`.
    pub fn is_defined(&self, prim: PathId, specs: &Vec<Option<SourceSpec>>) -> (yes: bool)
        ensures
            yes == (named(self@.prims, prim) is Some && specifier_of(sources_view(specs@))
                != Specifier::Over),
    {
        match self.resolve_specifier(prim, specs) {
            Some(Specifier::Def) => true,
            Some(Specifier::Class) => true,
            _ => false,
        }
    }

    /// Whether a prim is abstract: its specifier is `class`.
    pub fn is_abstract(&self, prim: PathId, specs: &Vec<Option<SourceSpec>>) -> (yes: bool)
        ensures
            yes == (named(self@.prims, prim) is Some && specifier_of(sources_view(specs@))
                == Specifier::Class),
    {
        match self.resolve_specifier(prim, specs) {
            Some(Specifier::Class) => true,
            _ => false,
        }
    }

    /// The type that a prim resolves to.
    pub fn resolve_type_name(&self, prim: PathId, specs: &Vec<Option<SourceSpec>>) -> (out: Option<
        TokenId,
    >)
        ensures
            out == (if named(self@.prims, prim) is Some {
                type_of(sources_view(specs@))
            } else {
                None
            }),
    {
        if !self.has_prim(prim) {
            return None;
        }
        resolve_declared(specs).type_label
    }

    /// The property order that a prim resolves to.
    pub fn resolve_property_order(&self, prim: PathId, specs: &Vec<Option<SourceSpec>>) -> (out:
        Option<Vec<TokenId>>)
        ensures
            order_option(out) == (if named(self@.prims, prim) is Some {
                property_order_of(sources_view(specs@))
            } else {
                None
            }),
    {
        if !self.has_prim(prim) {
            return None;
        }
        resolve_declared(specs).property_order
    }
}

/// The specifier of a prim is a `class` or a `def` exactly when a source
/// defines the prim.
pub proof fn law_defined_when_a_source_defines(specs: Seq<Option<SourceView>>)
    ensures
        specifier_of(specs) != Specifier::Over <==> exists|i: int|
            0 <= i < specs.len() && (#[trigger] specs[i]) is Some && defining()((specs[i])->0)
                is Some,
    decreases specs.len(),
{
    if specs.len() > 0 {
        let part = specs.drop_last();
        law_defined_when_a_source_defines(part);
        assert(defining()(specs.last()->0) != Some(Specifier::Over));
        lemma_defining_not_over(part);
        if strongest(part, defining()) is Some {
            let i = choose|i: int|
                0 <= i < part.len() && (#[trigger] part[i]) is Some && defining()((part[i])->0)
                    is Some;
            assert(specs[i] == part[i]);
        } else if specs.last() is Some && defining()(specs.last()->0) is Some {
            assert(specs[specs.len() - 1] is Some);
        } else {
            assert forall|i: int| 0 <= i < specs.len() && (#[trigger] specs[i]) is Some implies !(
            defining()((specs[i])->0) is Some) by {
                if i < part.len() {
                    assert(part[i] == specs[i]);
                }
            }
        }
    }
}

proof fn lemma_defining_not_over(specs: Seq<Option<SourceView>>)
    ensures
        strongest(specs, defining()) != Some(Specifier::Over),
    decreases specs.len(),
{
    if specs.len() > 0 {
        lemma_defining_not_over(specs.drop_last());
    }
}

/// What a list of specs resolves to is what the strongest spec that says it
/// says: the type, the flags and the orders, and the specifier of the strongest
/// spec that is no `over`.
pub proof fn law_the_strongest_spec_says(specs: Seq<Option<SourceView>>, i: int)
    requires
        0 <= i < specs.len(),
        specs[i] is Some,
    ensures
        ({
            let own = specs[i]->0;
            &&& own.type_label is Some && (forall|k: int|
                0 <= k < i ==> (#[trigger] specs[k] matches Some(spec) ==> spec.type_label is None))
                ==> type_of(specs) == own.type_label
            &&& own.active is Some && (forall|k: int|
                0 <= k < i ==> (#[trigger] specs[k] matches Some(spec) ==> spec.active is None))
                ==> active_of(specs) == own.active
            &&& own.instanceable is Some && (forall|k: int|
                0 <= k < i ==> (#[trigger] specs[k] matches Some(spec) ==> spec.instanceable
                    is None)) ==> instanceable_of(specs) == own.instanceable
            &&& own.prim_order is Some && (forall|k: int|
                0 <= k < i ==> (#[trigger] specs[k] matches Some(spec) ==> spec.prim_order is None))
                ==> prim_order_of(specs) == own.prim_order
            &&& own.property_order is Some && (forall|k: int|
                0 <= k < i ==> (#[trigger] specs[k] matches Some(spec) ==> spec.property_order
                    is None)) ==> property_order_of(specs) == own.property_order
            &&& (own.specifier == Some(Specifier::Def) || own.specifier == Some(Specifier::Class))
                && (forall|k: int|
                0 <= k < i ==> (#[trigger] specs[k] matches Some(spec) ==> spec.specifier is None
                    || spec.specifier == Some(Specifier::Over))) ==> specifier_of(specs)
                == own.specifier->0
        }),
{
    lemma_strongest(specs, |spec: SourceView| spec.type_label, i);
    lemma_strongest(specs, |spec: SourceView| spec.active, i);
    lemma_strongest(specs, |spec: SourceView| spec.instanceable, i);
    lemma_strongest(specs, |spec: SourceView| spec.prim_order, i);
    lemma_strongest(specs, |spec: SourceView| spec.property_order, i);
    lemma_strongest(specs, defining(), i);
}

proof fn lemma_strongest<T>(
    specs: Seq<Option<SourceView>>,
    answer: spec_fn(SourceView) -> Option<T>,
    i: int,
)
    requires
        0 <= i < specs.len(),
        specs[i] is Some,
    ensures
        answer(specs[i]->0) is Some && (forall|k: int|
            0 <= k < i ==> (#[trigger] specs[k] matches Some(spec) ==> answer(spec) is None))
            ==> strongest(specs, answer) == answer(specs[i]->0),
    decreases specs.len(),
{
    if answer(specs[i]->0) is Some && (forall|k: int|
        0 <= k < i ==> (#[trigger] specs[k] matches Some(spec) ==> answer(spec) is None)) {
        let rest = specs.drop_last();
        assert forall|k: int| 0 <= k < i && k < rest.len() implies (
        #[trigger] rest[k] matches Some(spec) ==> answer(spec) is None) by {
            assert(rest[k] == specs[k]);
        }
        if i < rest.len() {
            assert(rest[i] == specs[i]);
            lemma_strongest(rest, answer, i);
        } else {
            lemma_unsaid(rest, answer);
        }
    }
}

proof fn lemma_unsaid<T>(
    specs: Seq<Option<SourceView>>,
    answer: spec_fn(SourceView) -> Option<T>,
)
    requires
        forall|k: int|
            0 <= k < specs.len() ==> (#[trigger] specs[k] matches Some(spec) ==> answer(spec)
                is None),
    ensures
        strongest(specs, answer) is None,
    decreases specs.len(),
{
    if specs.len() > 0 {
        let rest = specs.drop_last();
        assert forall|k: int| 0 <= k < rest.len() implies (#[trigger] rest[k] matches Some(spec)
            ==> answer(spec) is None) by {
            assert(rest[k] == specs[k]);
        }
        lemma_unsaid(rest, answer);
        assert(specs[specs.len() - 1] == specs.last());
    }
}

} // verus!
