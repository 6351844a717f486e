//! Queries that fall back to what a schema defines.

use crate::arrays::fill_of;
use crate::dictionary::{chain_view, combine_dictionary_chain, combined};
use crate::doc::{value_option, Value, ValueView};
use crate::fields::{named, FieldValue, FieldView};
use crate::interner::{TokenId, TokenInterner};
use crate::opinion::{default_place, opinions_view, Opinion, OpinionValue, OpinionValueView, OpinionView};
use crate::path::PathId;
use crate::property::{type_ref, PropertyType};
use crate::resolution::{
    default_fits, fold_ref, outcome_view, readings_view, resolve_at_time, resolve_default, resolve_value,
    resolved_at_time, resolved_default, resolved_value, ExpressionFold, FoldView, Outcome,
    ResolvedValue, ResolvedView, SparseResolveResult, SparseView,
};
use crate::schema::registry::{
    ids_known, property_found, registry_known, RegistryView, SchemaRegistry,
};
use crate::stage::sources::{sources_view, type_of, SourceSpec, SourceView};
use crate::stage::{
    as_value, chain_ref, provenance_option, resolved_option, Lookup, ProvenanceView, Resolved,
    Stage, StageView,
};
use vstd::prelude::*;

verus! {

/// What a fallback resolves to on its own: a dictionary in its combined form,
/// another value as it is.
pub open spec fn fallback_outcome(fallback: Option<ValueView>) -> Option<Outcome> {
    match fallback {
        Some(ValueView::Dictionary(entries)) => Some(
            Outcome { value: ResolvedView::Dictionary(combined(seq![entries])), due_to: None },
        ),
        Some(value) => Some(Outcome { value: ResolvedView::Scalar(value), due_to: None }),
        None => None,
    }
}

/// Whether a chain whose strongest opinion is `value` resolves to a value,
/// rather than to a list.
pub open spec fn is_value_chain(value: OpinionValueView) -> bool {
    match value {
        OpinionValueView::Field(FieldView::List(_, _)) => false,
        value => !value.is_relationship(),
    }
}

/// What a chain of opinions resolves to over a fallback: the value that the
/// opinions compose to over it, else the fallback.
pub open spec fn over_fallback(
    opinions: Option<Seq<OpinionView>>,
    fold: Option<FoldView>,
    fill: Option<ValueView>,
    fallback: Option<ValueView>,
) -> Option<Outcome> {
    match opinions {
        Some(opinions) => if opinions.len() == 0 {
            None
        } else {
            let authored = if is_value_chain(opinions[0].value) {
                resolved_default(opinions, fold, fill, fallback)
            } else {
                resolved_value(opinions, fold, fill)
            };
            match authored {
                Some(outcome) => Some(outcome),
                None => fallback_outcome(fallback),
            }
        },
        None => fallback_outcome(fallback),
    }
}

/// The fallback on its own.
pub fn resolve_fallback(fallback: &Option<Value>) -> (out: Option<(ResolvedValue, Option<usize>)>)
    ensures
        outcome_view(out) == fallback_outcome(value_option(*fallback)),
        out matches Some((_, due_to)) ==> due_to is None,
{
    match fallback {
        Some(Value::Dictionary(entries)) => {
            let mut chain: Vec<&Vec<(String, Value)>> = Vec::new();
            chain.push(entries);
            assert(chain_view(chain@) =~= seq![crate::doc::entries_view(entries@)]);
            Some((ResolvedValue::Dictionary(combine_dictionary_chain(&chain)), None))
        },
        Some(value) => Some((ResolvedValue::Scalar(value.copy()), None)),
        None => None,
    }
}

/// Whether what a chain of opinions composes over a fallback fits in memory.
pub open spec fn fits_over(
    opinions: Seq<OpinionView>,
    fallback: Option<ValueView>,
    filled: bool,
) -> bool {
    opinions.len() > 0 ==> if is_value_chain(opinions[0].value) {
        default_fits(opinions, fallback, filled)
    } else {
        default_fits(opinions, None, filled)
    }
}

/// Resolves a chain of opinions over a fallback.
pub fn resolve_over_fallback(
    opinions: Option<&Vec<Opinion>>,
    fold: Option<&ExpressionFold>,
    property_type: Option<&PropertyType>,
    fallback: &Option<Value>,
) -> (out: Option<(ResolvedValue, Option<usize>)>)
    requires
        chain_ref(opinions) matches Some(opinions) ==> fits_over(
            opinions,
            value_option(*fallback),
            fill_of(type_ref(property_type)) is Some,
        ),
    ensures
        outcome_view(out) == over_fallback(
            chain_ref(opinions),
            fold_ref(fold),
            fill_of(type_ref(property_type)),
            value_option(*fallback),
        ),
{
    match opinions {
        Some(opinions) => {
            if opinions.len() == 0 {
                return None;
            }
            assert(opinions_view(opinions@)[0] == opinions@[0]@);
            let is_list = match &opinions[0].value {
                OpinionValue::Field(FieldValue::List(_, _)) => true,
                _ => false,
            };
            let authored = if !is_list && !opinions[0].value.is_relationship() {
                let weakest: Option<&Value> = match fallback {
                    Some(value) => Some(value),
                    None => None,
                };
                resolve_default(opinions, fold, property_type, weakest)
            } else {
                resolve_value(opinions, fold, property_type)
            };
            match authored {
                Some(authored) => Some(authored),
                None => resolve_fallback(fallback),
            }
        },
        None => resolve_fallback(fallback),
    }
}

impl StageView {
    /// The schemas that a prim applies, in the field `field`.
    pub open spec fn applied_schemas(self, prim: PathId, field: Option<TokenId>) -> Seq<TokenId> {
        match field {
            Some(field) => match self.resolution(prim, field, Lookup::Metadata, None) {
                Some((ResolvedView::TokenList(applied), _)) => applied,
                _ => seq![],
            },
            None => seq![],
        }
    }

    /// The value that a property falls back to: what the prim's type and its
    /// applied schemas define.
    pub open spec fn schema_fallback(
        self,
        prim: PathId,
        property: TokenId,
        specs: Seq<Option<SourceView>>,
        registry: RegistryView,
        api_schemas: Option<TokenId>,
        tokens: Seq<Seq<char>>,
    ) -> Option<ValueView> {
        let typed = if named(self.prims, prim) is Some {
            type_of(specs)
        } else {
            None
        };
        match property_found(
            registry,
            typed,
            self.applied_schemas(prim, api_schemas),
            property,
            tokens,
        ) {
            Some(definition) => definition.fallback,
            None => None,
        }
    }

    /// Whether what finding the fallback of a property reads is interned, and
    /// fits in memory.
    pub open spec fn schemas_known(
        self,
        prim: PathId,
        property: TokenId,
        registry: RegistryView,
        api_schemas: Option<TokenId>,
        tokens: Seq<Seq<char>>,
    ) -> bool {
        &&& registry_known(registry, tokens.len())
        &&& property.index < tokens.len()
        &&& api_schemas matches Some(field) ==> self.fits(prim, field, Lookup::Metadata)
        &&& ids_known(self.applied_schemas(prim, api_schemas), tokens.len())
    }

    /// Whether the values that a query with a fallback reads fit in memory,
    /// once composed.
    pub open spec fn fits_over(
        self,
        prim: PathId,
        property: TokenId,
        fallback: Option<ValueView>,
    ) -> bool {
        self.opinions(prim, property, Lookup::Property) matches Some(opinions) ==> fits_over(
            opinions,
            fallback,
            fill_of(self.property_type(prim, property)) is Some,
        )
    }

    /// What a property resolves to over a fallback, with where it comes from.
    pub open spec fn resolution_over(
        self,
        prim: PathId,
        property: TokenId,
        fold: Option<FoldView>,
        fallback: Option<ValueView>,
    ) -> Option<(ResolvedView, Option<ProvenanceView>)> {
        let opinions = self.read(prim, property, Lookup::Property);
        match over_fallback(opinions, fold, fill_of(self.property_type(prim, property)), fallback) {
            Some(outcome) => Some(
                (
                    outcome.value,
                    match opinions {
                        Some(opinions) => self.provenance(opinions, outcome.due_to, property),
                        None => None,
                    },
                ),
            ),
            None => None,
        }
    }

    /// What a property resolves to at a time over a fallback.
    pub open spec fn resolution_at_time_over(
        self,
        prim: PathId,
        property: TokenId,
        fold: Option<FoldView>,
        arrays: SparseView,
        readings: Seq<Option<ValueView>>,
        fallback: Option<ValueView>,
    ) -> Option<(ValueView, Option<ProvenanceView>)> {
        match self.resolution_at_time(prim, property, Lookup::Property, fold, arrays, readings) {
            Some(resolved) => Some(resolved),
            None => match fallback_outcome(fallback) {
                Some(outcome) => match as_value(outcome.value) {
                    Some(value) => Some((value, None)),
                    None => None,
                },
                None => None,
            },
        }
    }

    /// What a query resolves to at a time, with where it comes from.
    pub open spec fn resolution_at_time(
        self,
        prim: PathId,
        name: TokenId,
        lookup: Lookup,
        fold: Option<FoldView>,
        arrays: SparseView,
        readings: Seq<Option<ValueView>>,
    ) -> Option<(ValueView, Option<ProvenanceView>)> {
        match self.read(prim, name, lookup) {
            Some(opinions) => match resolved_at_time(opinions, fold, arrays, readings) {
                Some((value, due_to)) => Some((value, self.provenance(opinions, due_to, name))),
                None => None,
            },
            None => None,
        }
    }
}

/// The view of a resolved value and where it comes from.
pub open spec fn value_resolved(out: Option<Resolved<Value>>) -> Option<
    (ValueView, Option<ProvenanceView>),
> {
    match out {
        Some(resolved) => Some((resolved.value.view(), provenance_option(resolved.provenance))),
        None => None,
    }
}

impl Stage {
    /// The value that a property falls back to.
    pub fn schema_fallback(
        &self,
        prim: PathId,
        property: TokenId,
        specs: &Vec<Option<SourceSpec>>,
        registry: &SchemaRegistry,
        api_schemas: Option<TokenId>,
        tokens: &TokenInterner,
    ) -> (out: Option<Value>)
        requires
            self@.schemas_known(prim, property, registry@, api_schemas, tokens@),
        ensures
            value_option(out) == self@.schema_fallback(
                prim,
                property,
                sources_view(specs@),
                registry@,
                api_schemas,
                tokens@,
            ),
    {
        let typed = self.resolve_type_name(prim, specs);
        let mut applied: Vec<TokenId> = Vec::new();
        assert(applied@ =~= seq![]);
        match api_schemas {
            Some(field) => match self.resolve_token_list(prim, field) {
                Some(resolved) => {
                    applied = resolved.value;
                },
                None => {},
            },
            None => {},
        }
        match registry.property_definition(typed, &applied, property, tokens) {
            Some(definition) => definition.fallback,
            None => None,
        }
    }

    fn resolve_property_over(
        &self,
        prim: PathId,
        property: TokenId,
        fold: Option<&ExpressionFold>,
        fallback: &Option<Value>,
    ) -> (out: Option<Resolved<ResolvedValue>>)
        requires
            self@.fits_over(prim, property, value_option(*fallback)),
        ensures
            resolved_option(out) == self@.resolution_over(
                prim,
                property,
                fold_ref(fold),
                value_option(*fallback),
            ),
    {
        let read = self.read_opinions(prim, property, Lookup::Property);
        let opinions = match &read {
            Some(read) => Some(read.list()),
            None => None,
        };
        proof {
            self@.lemma_read_fits(prim, property, Lookup::Property, value_option(*fallback));
            self@.lemma_read_fits(prim, property, Lookup::Property, None);
        }
        let property_type = match self.prim(prim) {
            Some(index) => index.property_type_for(property),
            None => None,
        };
        match resolve_over_fallback(opinions, fold, property_type, fallback) {
            Some((value, due_to)) => {
                let provenance = match opinions {
                    Some(opinions) => self.provenance_for(opinions, due_to, property),
                    None => None,
                };
                Some(Resolved { value, provenance })
            },
            None => None,
        }
    }

    /// Resolves a property over what the schemas of its prim define: a
    /// dictionary that they define is the weakest one to be combined, an array
    /// that they define is what sparse edits compose over, and where nothing
    /// is authored or the strongest default is a block, the value is theirs.
    pub fn resolve_value_with_schema(
        &self,
        prim: PathId,
        property: TokenId,
        fold: Option<&ExpressionFold>,
        specs: &Vec<Option<SourceSpec>>,
        registry: &SchemaRegistry,
        api_schemas: Option<TokenId>,
        tokens: &TokenInterner,
    ) -> (out: Option<Resolved<ResolvedValue>>)
        requires
            self@.schemas_known(prim, property, registry@, api_schemas, tokens@),
            self@.fits_over(
                prim,
                property,
                self@.schema_fallback(
                    prim,
                    property,
                    sources_view(specs@),
                    registry@,
                    api_schemas,
                    tokens@,
                ),
            ),
        ensures
            resolved_option(out) == self@.resolution_over(
                prim,
                property,
                fold_ref(fold),
                self@.schema_fallback(
                    prim,
                    property,
                    sources_view(specs@),
                    registry@,
                    api_schemas,
                    tokens@,
                ),
            ),
    {
        let fallback = self.schema_fallback(prim, property, specs, registry, api_schemas, tokens);
        self.resolve_property_over(prim, property, fold, &fallback)
    }

    /// Resolves a property to a scalar or a dictionary, over what the schemas
    /// of its prim define.
    pub fn resolve_field_with_schema(
        &self,
        prim: PathId,
        property: TokenId,
        fold: Option<&ExpressionFold>,
        specs: &Vec<Option<SourceSpec>>,
        registry: &SchemaRegistry,
        api_schemas: Option<TokenId>,
        tokens: &TokenInterner,
    ) -> (out: Option<Resolved<Value>>)
        requires
            self@.schemas_known(prim, property, registry@, api_schemas, tokens@),
            self@.fits_over(
                prim,
                property,
                self@.schema_fallback(
                    prim,
                    property,
                    sources_view(specs@),
                    registry@,
                    api_schemas,
                    tokens@,
                ),
            ),
        ensures
            value_resolved(out) == (match self@.resolution_over(
                prim,
                property,
                fold_ref(fold),
                self@.schema_fallback(
                    prim,
                    property,
                    sources_view(specs@),
                    registry@,
                    api_schemas,
                    tokens@,
                ),
            ) {
                Some((value, provenance)) => match as_value(value) {
                    Some(value) => Some((value, provenance)),
                    None => None,
                },
                None => None,
            }),
    {
        match self.resolve_value_with_schema(
            prim,
            property,
            fold,
            specs,
            registry,
            api_schemas,
            tokens,
        ) {
            Some(resolved) => match resolved.value {
                ResolvedValue::Scalar(value) => Some(
                    Resolved { value, provenance: resolved.provenance },
                ),
                ResolvedValue::Dictionary(entries) => Some(
                    Resolved {
                        value: Value::Dictionary(entries),
                        provenance: resolved.provenance,
                    },
                ),
                _ => None,
            },
            None => None,
        }
    }

    fn resolve_value_at_time_by(
        &self,
        prim: PathId,
        name: TokenId,
        lookup: Lookup,
        fold: Option<&ExpressionFold>,
        arrays: SparseResolveResult,
        readings: &Vec<Option<Value>>,
    ) -> (out: Option<Resolved<Value>>)
        requires
            self@.opinions(prim, name, lookup) matches Some(opinions) ==> readings@.len()
                == opinions.len(),
        ensures
            value_resolved(out) == self@.resolution_at_time(
                prim,
                name,
                lookup,
                fold_ref(fold),
                arrays@,
                readings_view(readings@),
            ),
    {
        proof {
            self@.lemma_read_fits(prim, name, lookup, None);
        }
        match self.read_opinions(prim, name, lookup) {
            Some(read) => {
                let opinions = read.list();
                match resolve_at_time(opinions, fold, arrays, readings) {
                    Some((value, due_to)) => Some(
                        Resolved { value, provenance: self.provenance_for(opinions, due_to, name) },
                    ),
                    None => None,
                }
            },
            None => None,
        }
    }

    /// Resolves a prim metadata field at a time, where `arrays` is what the
    /// arrays of the field compose to there, and `readings` what the samples
    /// or the spline of each opinion evaluate to, both of the opinions as the
    /// stage reads them ([`Stage::read_opinions`]).
    pub fn resolve_value_at_time(
        &self,
        prim: PathId,
        field: TokenId,
        fold: Option<&ExpressionFold>,
        arrays: SparseResolveResult,
        readings: &Vec<Option<Value>>,
    ) -> (out: Option<Resolved<Value>>)
        requires
            self@.opinions(prim, field, Lookup::Metadata) matches Some(opinions) ==> readings@.len()
                == opinions.len(),
        ensures
            value_resolved(out) == self@.resolution_at_time(
                prim,
                field,
                Lookup::Metadata,
                fold_ref(fold),
                arrays@,
                readings_view(readings@),
            ),
    {
        self.resolve_value_at_time_by(prim, field, Lookup::Metadata, fold, arrays, readings)
    }

    /// Resolves a property at a time, where `arrays` is what the arrays of the
    /// property compose to there, and `readings` what the samples or the
    /// spline of each opinion evaluate to, both of the opinions as the stage
    /// reads them ([`Stage::read_opinions`]).
    pub fn resolve_property_path_at_time(
        &self,
        path: crate::path::PropertyPath,
        fold: Option<&ExpressionFold>,
        arrays: SparseResolveResult,
        readings: &Vec<Option<Value>>,
    ) -> (out: Option<Resolved<Value>>)
        requires
            self@.opinions(path.prim_path, path.property, Lookup::Property) matches Some(opinions)
                ==> readings@.len() == opinions.len(),
        ensures
            value_resolved(out) == self@.resolution_at_time(
                path.prim_path,
                path.property,
                Lookup::Property,
                fold_ref(fold),
                arrays@,
                readings_view(readings@),
            ),
    {
        self.resolve_value_at_time_by(
            path.prim_path,
            path.property,
            Lookup::Property,
            fold,
            arrays,
            readings,
        )
    }

    /// Resolves a property at a time over what the schemas of its prim define:
    /// the fallback resolves where nothing is authored at the time, or a block
    /// is in effect there.
    pub fn resolve_value_at_time_with_schema(
        &self,
        prim: PathId,
        property: TokenId,
        fold: Option<&ExpressionFold>,
        arrays: SparseResolveResult,
        readings: &Vec<Option<Value>>,
        specs: &Vec<Option<SourceSpec>>,
        registry: &SchemaRegistry,
        api_schemas: Option<TokenId>,
        tokens: &TokenInterner,
    ) -> (out: Option<Resolved<Value>>)
        requires
            self@.schemas_known(prim, property, registry@, api_schemas, tokens@),
            self@.opinions(prim, property, Lookup::Property) matches Some(opinions)
                ==> readings@.len() == opinions.len(),
        ensures
            value_resolved(out) == self@.resolution_at_time_over(
                prim,
                property,
                fold_ref(fold),
                arrays@,
                readings_view(readings@),
                self@.schema_fallback(
                    prim,
                    property,
                    sources_view(specs@),
                    registry@,
                    api_schemas,
                    tokens@,
                ),
            ),
    {
        let fallback = self.schema_fallback(prim, property, specs, registry, api_schemas, tokens);
        self.resolve_value_at_time_over(prim, property, fold, arrays, readings, &fallback)
    }

    /// Resolves a property at a time over a fallback, as
    /// [`Stage::resolve_value_at_time_with_schema`] does over that of the
    /// schemas.
    pub fn resolve_value_at_time_over(
        &self,
        prim: PathId,
        property: TokenId,
        fold: Option<&ExpressionFold>,
        arrays: SparseResolveResult,
        readings: &Vec<Option<Value>>,
        fallback: &Option<Value>,
    ) -> (out: Option<Resolved<Value>>)
        requires
            self@.opinions(prim, property, Lookup::Property) matches Some(opinions)
                ==> readings@.len() == opinions.len(),
        ensures
            value_resolved(out) == self@.resolution_at_time_over(
                prim,
                property,
                fold_ref(fold),
                arrays@,
                readings_view(readings@),
                value_option(*fallback),
            ),
    {
        match self.resolve_value_at_time_by(
            prim,
            property,
            Lookup::Property,
            fold,
            arrays,
            readings,
        ) {
            Some(resolved) => {
                return Some(resolved);
            },
            None => {},
        }
        match resolve_fallback(fallback) {
            Some((value, _)) => match value {
                ResolvedValue::Scalar(value) => Some(Resolved { value, provenance: None }),
                ResolvedValue::Dictionary(entries) => Some(
                    Resolved { value: Value::Dictionary(entries), provenance: None },
                ),
                _ => None,
            },
            None => None,
        }
    }
}

/// A property without opinions resolves to what its schemas define.
pub proof fn law_unauthored_property_falls_back(
    fold: Option<FoldView>,
    fill: Option<ValueView>,
    fallback: Option<ValueView>,
)
    ensures
        over_fallback(None, fold, fill, fallback) == fallback_outcome(fallback),
{
}

/// A strongest default that is a block resolves to what the schemas define.
pub proof fn law_block_resolves_to_the_fallback(
    opinions: Seq<OpinionView>,
    fill: Option<ValueView>,
    fallback: Option<ValueView>,
)
    requires
        opinions.len() > 0,
        is_value_chain(opinions[0].value),
        default_place(opinions, 0) < opinions.len(),
        opinions[default_place(opinions, 0)].value.default_value() == Some(ValueView::Blocked),
    ensures
        over_fallback(Some(opinions), None, fill, fallback) == fallback_outcome(fallback),
{
}

/// An authored default, if it is neither an array, a dictionary nor a block, is
/// what a query resolves to, whatever the fallback; without any default the
/// fallback is.
pub proof fn law_authored_defaults_win_over_the_fallback(
    opinions: Seq<OpinionView>,
    fill: Option<ValueView>,
    fallback: ValueView,
    i: int,
    value: ValueView,
)
    requires
        opinions.len() > 0,
        !(opinions[0].value matches OpinionValueView::Field(FieldView::List(_, _))),
        !(opinions[0].value matches OpinionValueView::Property(spec) && spec.kind
            == crate::property::PropertyKind::Relationship),
    ensures
        0 <= i < opinions.len() && opinions[i].value.default_value() == Some(value) && (forall|
            k: int,
        | 0 <= k < i ==> (#[trigger] opinions[k]).value.default_value() is None) && !(value is Array
            || value is ArrayEdit || value is Dictionary || value is Blocked) ==> over_fallback(
            Some(opinions),
            None,
            fill,
            Some(fallback),
        ) == Some(Outcome { value: ResolvedView::Scalar(value), due_to: Some(i) }),
        (forall|k: int|
            0 <= k < opinions.len() ==> (#[trigger] opinions[k]).value.default_value() is None)
            && !(fallback is Array || fallback is ArrayEdit || fallback is Dictionary)
            ==> over_fallback(Some(opinions), None, fill, Some(fallback)) == Some(
            Outcome { value: ResolvedView::Scalar(fallback), due_to: None },
        ),
{
    crate::opinion::lemma_default_place(opinions, 0);
    let at = default_place(opinions, 0);
    if 0 <= i < opinions.len() && opinions[i].value.default_value() == Some(value) && (forall|
        k: int,
    | 0 <= k < i ==> (#[trigger] opinions[k]).value.default_value() is None) {
        if at < i {
            assert(opinions[at].value.default_value() is None);
        }
        if i < at {
            assert(opinions[i].value.default_value() is None);
        }
    }
    if forall|k: int|
        0 <= k < opinions.len() ==> (#[trigger] opinions[k]).value.default_value() is None {
        if at < opinions.len() {
            assert(opinions[at].value.default_value() is None);
        }
    }
}

/// A dictionary default keeps the keys of the fallback's dictionary.
pub proof fn law_dictionary_defaults_keep_the_fallback(
    opinions: Seq<OpinionView>,
    fill: Option<ValueView>,
    fallback: crate::dictionary::Entries,
    i: int,
    key: Seq<char>,
)
    requires
        0 <= i < opinions.len(),
        !(opinions[0].value matches OpinionValueView::Field(FieldView::List(_, _))),
        !(opinions[0].value matches OpinionValueView::Property(spec) && spec.kind
            == crate::property::PropertyKind::Relationship),
        opinions[i].value.default_value() matches Some(value) && value is Dictionary,
        forall|k: int|
            0 <= k < i ==> (#[trigger] opinions[k]).value.default_value() is None,
        crate::dictionary::holds_key(fallback, key) || crate::dictionary::holds_key(
            opinions[i].value.default_value()->0->Dictionary_0,
            key,
        ),
    ensures
        over_fallback(
            Some(opinions),
            None,
            fill,
            Some(ValueView::Dictionary(fallback)),
        ) matches Some(outcome) && (outcome.value matches ResolvedView::Dictionary(entries)
            && crate::dictionary::holds_key(entries, key)),
{
    crate::opinion::lemma_default_place(opinions, 0);
    let at = default_place(opinions, 0);
    if at < i {
        assert(opinions[at].value.default_value() is None);
    }
    if i < at {
        assert(opinions[i].value.default_value() is None);
    }
    let own = crate::resolution::dictionary_defaults(opinions, 0);
    lemma_first_dictionary(opinions, 0, i);
    let more = crate::resolution::fallback_entries(Some(ValueView::Dictionary(fallback)));
    let all = own + more;
    crate::dictionary::law_combined_keeps_every_key(all, key);
    assert(all[0] == opinions[i].value.default_value()->0->Dictionary_0);
    assert(all[own.len() as int] == fallback);
    if crate::dictionary::holds_key(fallback, key) {
        assert(crate::dictionary::holds_key(all[own.len() as int], key));
    } else {
        assert(crate::dictionary::holds_key(all[0], key));
    }
}

proof fn lemma_first_dictionary(opinions: Seq<OpinionView>, from: int, i: int)
    requires
        0 <= from <= i < opinions.len(),
        opinions[i].value.default_value() matches Some(value) && value is Dictionary,
        forall|k: int|
            from <= k < i ==> (#[trigger] opinions[k]).value.default_value() is None,
    ensures
        ({
            let own = crate::resolution::dictionary_defaults(opinions, from);
            own.len() > 0 && own[0] == opinions[i].value.default_value()->0->Dictionary_0
        }),
    decreases i - from,
{
    if from < i {
        assert(opinions[from].value.default_value() is None);
        lemma_first_dictionary(opinions, from + 1, i);
    }
}

} // verus!
