//! Prim definitions: the schemas that a prim has, and the properties that they
//! define.

use crate::doc::{copy_option, value_option, Value, ValueView};
use crate::fields::{lemma_place_of, lemma_place_of_unique, named, place_of};
use crate::id_map::{get_id, insert_id, new_id_map, IdMap};
use crate::interner::{
    extends, lemma_first_position, lemma_with_entry, with_entry, TokenId, TokenInterner,
};
use crate::property::{copy_type, type_option, PropertyKind, PropertyType, TypeView, Variability};
use crate::schema::naming::{instance_text, instance_token, instantiate, token_of};
use crate::text::same_text;
use vstd::prelude::*;

verus! {

/// A property that a schema defines.
#[derive(Debug)]
pub struct PropertyDefinition {
    /// The name; in a multiple-apply schema it holds the placeholder.
    pub name: TokenId,
    pub kind: PropertyKind,
    /// The declared type of an attribute.
    pub declared_type: Option<PropertyType>,
    pub variability: Variability,
    /// The value when no opinion authors one.
    pub fallback: Option<Value>,
}

/// The mathematical value of a [`PropertyDefinition`], but for its name.
pub struct DefinitionView {
    pub kind: PropertyKind,
    pub declared_type: Option<TypeView>,
    pub variability: Variability,
    pub fallback: Option<ValueView>,
}

impl View for PropertyDefinition {
    type V = (TokenId, DefinitionView);

    open spec fn view(&self) -> (TokenId, DefinitionView) {
        (
            self.name,
            DefinitionView {
                kind: self.kind,
                declared_type: type_option(self.declared_type),
                variability: self.variability,
                fallback: value_option(self.fallback),
            },
        )
    }
}

/// The names and contents of a list of definitions.
pub open spec fn definitions_view(list: Seq<PropertyDefinition>) -> Seq<(TokenId, DefinitionView)> {
    list.map_values(|d: PropertyDefinition| d@)
}

/// What two declarations of a type are told apart by.
pub open spec fn declared(definition: DefinitionView) -> Option<(Seq<char>, bool)> {
    match definition.declared_type {
        Some(declared) => Some((declared.name, declared.is_array)),
        None => None,
    }
}

/// Whether two definitions have one kind and, for attributes, one declared
/// type.
pub open spec fn types_agree(a: DefinitionView, b: DefinitionView) -> bool {
    a.kind == b.kind && (a.kind == PropertyKind::Relationship || declared(a) == declared(b))
}

/// A definition, with the fallback of a weaker one of the same type where it
/// has none.
pub open spec fn over_weaker(a: DefinitionView, weaker: DefinitionView) -> DefinitionView {
    if a.fallback is None && types_agree(a, weaker) {
        DefinitionView { fallback: weaker.fallback, ..a }
    } else {
        a
    }
}

impl PropertyDefinition {
    /// A varying attribute without a declared type or a fallback.
    pub fn attribute(name: TokenId) -> (out: PropertyDefinition)
        ensures
            out@ == (
                name,
                DefinitionView {
                    kind: PropertyKind::Attribute,
                    declared_type: None,
                    variability: Variability::Varying,
                    fallback: None,
                },
            ),
    {
        PropertyDefinition {
            name,
            kind: PropertyKind::Attribute,
            declared_type: None,
            variability: Variability::Varying,
            fallback: None,
        }
    }

    /// A relationship.
    pub fn relationship(name: TokenId) -> (out: PropertyDefinition)
        ensures
            out@ == (
                name,
                DefinitionView {
                    kind: PropertyKind::Relationship,
                    declared_type: None,
                    variability: Variability::Uniform,
                    fallback: None,
                },
            ),
    {
        PropertyDefinition {
            name,
            kind: PropertyKind::Relationship,
            declared_type: None,
            variability: Variability::Uniform,
            fallback: None,
        }
    }

    /// This definition, with a declared type.
    pub fn with_type(self, declared_type: PropertyType) -> (out: PropertyDefinition)
        ensures
            out@ == (
                self@.0,
                DefinitionView { declared_type: Some(declared_type@), ..self@.1 },
            ),
    {
        let mut out = self;
        out.declared_type = Some(declared_type);
        out
    }

    /// This definition, with a fallback.
    pub fn with_fallback(self, fallback: Value) -> (out: PropertyDefinition)
        ensures
            out@ == (self@.0, DefinitionView { fallback: Some(fallback.view()), ..self@.1 }),
    {
        let mut out = self;
        out.fallback = Some(fallback);
        out
    }

    /// This definition, made uniform.
    pub fn uniform(self) -> (out: PropertyDefinition)
        ensures
            out@ == (self@.0, DefinitionView { variability: Variability::Uniform, ..self@.1 }),
    {
        let mut out = self;
        out.variability = Variability::Uniform;
        out
    }

    /// Whether `other` has this property's kind and, for attributes, its
    /// declared type: only then may one definition compose with another.
    pub fn has_type_of(&self, other: &PropertyDefinition) -> (yes: bool)
        ensures
            yes == types_agree(self@.1, other@.1),
    {
        if self.kind != other.kind {
            return false;
        }
        if self.kind == PropertyKind::Relationship {
            return true;
        }
        match (&self.declared_type, &other.declared_type) {
            (Some(a), Some(b)) => same_text(a.name.as_str(), b.name.as_str()) && a.is_array
                == b.is_array,
            (None, None) => true,
            _ => false,
        }
    }

    /// A copy of this definition.
    pub fn copy(&self) -> (out: PropertyDefinition)
        ensures
            out@ == self@,
    {
        PropertyDefinition {
            name: self.name,
            kind: self.kind,
            declared_type: copy_type(&self.declared_type),
            variability: self.variability,
            fallback: copy_option(&self.fallback),
        }
    }

    /// Composes a weaker definition of this property into it: the fallback
    /// fills in where this one has none and the types agree.
    pub fn compose_weaker(&mut self, weaker: &PropertyDefinition)
        ensures
            final(self)@ == (old(self)@.0, over_weaker(old(self)@.1, weaker@.1)),
    {
        if self.fallback.is_none() && self.has_type_of(weaker) {
            self.fallback = copy_option(&weaker.fallback);
        }
    }
}

/// An applied schema of a prim.
#[derive(Clone, Copy, Debug, PartialEq, Eq, Structural, Hash)]
pub struct AppliedSchema {
    /// The applied name: `LabelAPI`, or `SlotAPI:left` for an instance.
    pub name: TokenId,
    /// The schema's name.
    pub schema: TokenId,
    /// The instance name of a multiple-apply schema.
    pub instance: Option<TokenId>,
}

/// The mathematical value of a [`PrimDefinition`].
#[verifier::ext_equal]
pub struct PrimDefinitionView {
    /// The typed schema.
    pub typed: Option<TokenId>,
    /// The typed schema and its ancestors, nearest first.
    pub type_chain: Seq<TokenId>,
    /// The applied schemas, strongest first.
    pub applied: Seq<AppliedSchema>,
    /// The properties, in the order their schemas compose.
    pub properties: Seq<(TokenId, DefinitionView)>,
}

/// The definition of a prim without schemas.
pub open spec fn typeless() -> PrimDefinitionView {
    PrimDefinitionView { typed: None, type_chain: seq![], applied: seq![], properties: seq![] }
}

/// Whether an applied schema of that name stands in the list.
pub open spec fn is_applied(applied: Seq<AppliedSchema>, name: TokenId) -> bool {
    exists|i: int| 0 <= i < applied.len() && (#[trigger] applied[i]).name == name
}

/// A definition with an applied schema behind the others, unless one of that
/// name stands there.
pub open spec fn with_applied(
    definition: PrimDefinitionView,
    applied: AppliedSchema,
) -> PrimDefinitionView {
    if is_applied(definition.applied, applied.name) {
        definition
    } else {
        PrimDefinitionView { applied: definition.applied.push(applied), ..definition }
    }
}

/// A list of properties with a weaker one: a new name is added, an existing
/// one may take its fallback.
pub open spec fn with_weaker(
    properties: Seq<(TokenId, DefinitionView)>,
    property: (TokenId, DefinitionView),
) -> Seq<(TokenId, DefinitionView)> {
    let at = place_of(properties, property.0, 0);
    if at < properties.len() {
        properties.update(at, (property.0, over_weaker(properties[at].1, property.1)))
    } else {
        properties.push(property)
    }
}

/// A definition with a weaker property.
pub open spec fn with_property(
    definition: PrimDefinitionView,
    property: (TokenId, DefinitionView),
) -> PrimDefinitionView {
    PrimDefinitionView {
        properties: with_weaker(definition.properties, property),
        ..definition
    }
}

/// A definition with each of a list of weaker properties.
pub open spec fn with_properties(
    definition: PrimDefinitionView,
    properties: Seq<(TokenId, DefinitionView)>,
) -> PrimDefinitionView
    decreases properties.len(),
{
    if properties.len() == 0 {
        definition
    } else {
        with_property(with_properties(definition, properties.drop_last()), properties.last())
    }
}

/// A definition that is being composed, and the tokens interned so far.
pub type Composing = (PrimDefinitionView, Seq<Seq<char>>);

/// The applied schema with `instance` filled in, over the tokens `t0` and then
/// `t1`.
pub open spec fn applied_instance(
    applied: AppliedSchema,
    instance: Option<TokenId>,
    t0: Seq<Seq<char>>,
    t1: Seq<Seq<char>>,
) -> AppliedSchema {
    AppliedSchema {
        name: token_of(t0, instance_text(t0, applied.name, instance)),
        schema: applied.schema,
        instance: match applied.instance {
            Some(template) => Some(token_of(t1, instance_text(t1, template, instance))),
            None => None,
        },
    }
}

/// Composes one applied schema of a weaker definition.
pub open spec fn compose_applied(
    c: Composing,
    applied: AppliedSchema,
    instance: Option<TokenId>,
) -> Composing {
    let t1 = with_entry(c.1, instance_text(c.1, applied.name, instance));
    let t2 = match applied.instance {
        Some(template) => with_entry(t1, instance_text(t1, template, instance)),
        None => t1,
    };
    (with_applied(c.0, applied_instance(applied, instance, c.1, t1)), t2)
}

/// Composes the applied schemas of a weaker definition, in order.
pub open spec fn compose_all_applied(
    c: Composing,
    applied: Seq<AppliedSchema>,
    instance: Option<TokenId>,
) -> Composing
    decreases applied.len(),
{
    if applied.len() == 0 {
        c
    } else {
        compose_applied(
            compose_all_applied(c, applied.drop_last(), instance),
            applied.last(),
            instance,
        )
    }
}

/// Composes one property of a weaker definition.
pub open spec fn compose_property(
    c: Composing,
    property: (TokenId, DefinitionView),
    instance: Option<TokenId>,
) -> Composing {
    let name = instance_text(c.1, property.0, instance);
    (with_property(c.0, (token_of(c.1, name), property.1)), with_entry(c.1, name))
}

/// Composes the properties of a weaker definition, in order.
pub open spec fn compose_properties(
    c: Composing,
    properties: Seq<(TokenId, DefinitionView)>,
    instance: Option<TokenId>,
) -> Composing
    decreases properties.len(),
{
    if properties.len() == 0 {
        c
    } else {
        compose_property(
            compose_properties(c, properties.drop_last(), instance),
            properties.last(),
            instance,
        )
    }
}

/// Composes a weaker definition, with `instance` filled in: its applied
/// schemas follow, and its properties are weaker.
pub open spec fn composed(
    c: Composing,
    weaker: PrimDefinitionView,
    instance: Option<TokenId>,
) -> Composing {
    compose_properties(
        compose_all_applied(c, weaker.applied, instance),
        weaker.properties,
        instance,
    )
}

/// Whether every name of an applied schema is that of a token.
pub open spec fn applied_known(applied: AppliedSchema, count: nat) -> bool {
    &&& applied.name.index < count
    &&& applied.schema.index < count
    &&& applied.instance matches Some(instance) ==> instance.index < count
}

/// Whether every name of a definition is that of a token.
pub open spec fn definition_known(definition: PrimDefinitionView, count: nat) -> bool {
    &&& forall|i: int|
        0 <= i < definition.applied.len() ==> applied_known(#[trigger] definition.applied[i], count)
    &&& forall|i: int|
        0 <= i < definition.properties.len() ==> (#[trigger] definition.properties[i]).0.index
            < count
}

/// Whether an instance name is that of a token.
pub open spec fn option_known(instance: Option<TokenId>, count: nat) -> bool {
    instance matches Some(instance) ==> instance.index < count
}

pub proof fn lemma_compose_applied(
    c: Composing,
    applied: AppliedSchema,
    instance: Option<TokenId>,
)
    ensures
        extends(compose_applied(c, applied, instance).1, c.1),
        compose_applied(c, applied, instance).1.len() == c.1.len() ==> {
            &&& compose_applied(c, applied, instance).1 == c.1
            &&& c.1.contains(instance_text(c.1, applied.name, instance))
            &&& applied.instance matches Some(template) ==> c.1.contains(
                instance_text(c.1, template, instance),
            )
        },
{
    let n = instance_text(c.1, applied.name, instance);
    lemma_with_entry(c.1, n);
    lemma_first_position(c.1, n);
    let t1 = with_entry(c.1, n);
    if let Some(template) = applied.instance {
        let m = instance_text(t1, template, instance);
        lemma_with_entry(t1, m);
        lemma_first_position(t1, m);
    }
}

pub proof fn lemma_compose_property(
    c: Composing,
    property: (TokenId, DefinitionView),
    instance: Option<TokenId>,
)
    ensures
        extends(compose_property(c, property, instance).1, c.1),
        compose_property(c, property, instance).1.len() == c.1.len() ==> {
            &&& compose_property(c, property, instance).1 == c.1
            &&& c.1.contains(instance_text(c.1, property.0, instance))
        },
{
    let n = instance_text(c.1, property.0, instance);
    lemma_with_entry(c.1, n);
    lemma_first_position(c.1, n);
}

/// Composing applied schemas only adds tokens.
pub proof fn lemma_applied_grow(
    c: Composing,
    applied: Seq<AppliedSchema>,
    instance: Option<TokenId>,
    upto: int,
)
    requires
        0 <= upto <= applied.len(),
    ensures
        extends(
            compose_all_applied(c, applied, instance).1,
            compose_all_applied(c, applied.take(upto), instance).1,
        ),
    decreases applied.len(),
{
    if upto == applied.len() {
        assert(applied.take(upto) =~= applied);
    } else {
        let rest = applied.drop_last();
        lemma_applied_grow(c, rest, instance, upto);
        assert(rest.take(upto) =~= applied.take(upto));
        lemma_compose_applied(
            compose_all_applied(c, rest, instance),
            applied.last(),
            instance,
        );
    }
}

/// Composing properties only adds tokens.
pub proof fn lemma_properties_grow(
    c: Composing,
    properties: Seq<(TokenId, DefinitionView)>,
    instance: Option<TokenId>,
    upto: int,
)
    requires
        0 <= upto <= properties.len(),
    ensures
        extends(
            compose_properties(c, properties, instance).1,
            compose_properties(c, properties.take(upto), instance).1,
        ),
    decreases properties.len(),
{
    if upto == properties.len() {
        assert(properties.take(upto) =~= properties);
    } else {
        let rest = properties.drop_last();
        lemma_properties_grow(c, rest, instance, upto);
        assert(rest.take(upto) =~= properties.take(upto));
        lemma_compose_property(
            compose_properties(c, rest, instance),
            properties.last(),
            instance,
        );
    }
}

/// Composing a definition only adds tokens.
pub proof fn lemma_composed_grow(
    c: Composing,
    weaker: PrimDefinitionView,
    instance: Option<TokenId>,
)
    ensures
        extends(composed(c, weaker, instance).1, c.1),
{
    let middle = compose_all_applied(c, weaker.applied, instance);
    lemma_applied_grow(c, weaker.applied, instance, 0);
    assert(weaker.applied.take(0) =~= seq![]);
    lemma_properties_grow(middle, weaker.properties, instance, 0);
    assert(weaker.properties.take(0) =~= seq![]);
}

/// Whether `map` gives the place of each of `names`.
pub open spec fn places<T>(map: Map<usize, usize>, names: Seq<(TokenId, T)>) -> bool {
    &&& forall|i: int|
        0 <= i < names.len() ==> map.dom().contains((#[trigger] names[i]).0.index)
            && map[names[i].0.index] == i
    &&& forall|k: usize| #[trigger]
        map.dom().contains(k) ==> map[k] < names.len() && names[map[k] as int].0.index == k
}

/// The schemas that a prim has, and the properties that they define: for each
/// property the definition that its strongest schema gives, with a fallback
/// that a weaker one fills in where the stronger has none.
#[derive(Debug)]
pub struct PrimDefinition {
    typed: Option<TokenId>,
    type_chain: Vec<TokenId>,
    applied: Vec<AppliedSchema>,
    properties: Vec<PropertyDefinition>,
    index: IdMap,
}

impl View for PrimDefinition {
    type V = PrimDefinitionView;

    closed spec fn view(&self) -> PrimDefinitionView {
        PrimDefinitionView {
            typed: self.typed,
            type_chain: self.type_chain@,
            applied: self.applied@,
            properties: definitions_view(self.properties@),
        }
    }
}

impl PrimDefinition {
    #[verifier::type_invariant]
    spec fn is_indexed(&self) -> bool {
        places(self.index@, definitions_view(self.properties@))
    }

    /// The definition of a prim without schemas, but for its type.
    pub fn new(typed: Option<TokenId>, type_chain: Vec<TokenId>) -> (out: PrimDefinition)
        ensures
            out@ == (PrimDefinitionView { typed, type_chain: type_chain@, ..typeless() }),
    {
        let out = PrimDefinition {
            typed,
            type_chain,
            applied: Vec::new(),
            properties: Vec::new(),
            index: new_id_map(),
        };
        assert(out@ =~= PrimDefinitionView { typed, type_chain: type_chain@, ..typeless() });
        out
    }

    /// The prim's typed schema, if it has one.
    pub fn type_label(&self) -> (label: Option<TokenId>)
        ensures
            label == self@.typed,
    {
        self.typed
    }

    /// Whether the prim's type is `schema` or inherits from it.
    pub fn is_a(&self, schema: TokenId) -> (yes: bool)
        ensures
            yes == self@.type_chain.contains(schema),
    {
        holds_token(&self.type_chain, schema)
    }

    /// The applied schemas, strongest first, each once.
    pub fn applied_schemas(&self) -> (applied: &Vec<AppliedSchema>)
        ensures
            applied@ == self@.applied,
    {
        &self.applied
    }

    /// Whether `schema` is applied, alone or as any instance.
    pub fn has_api(&self, schema: TokenId) -> (yes: bool)
        ensures
            yes == exists|i: int|
                0 <= i < self@.applied.len() && (#[trigger] self@.applied[i]).schema == schema,
    {
        let mut i: usize = 0;
        while i < self.applied.len()
            invariant
                i <= self.applied@.len(),
                forall|k: int| 0 <= k < i ==> (#[trigger] self.applied@[k]).schema != schema,
            decreases self.applied@.len() - i,
        {
            if self.applied[i].schema == schema {
                assert(self@.applied[i as int].schema == schema);
                return true;
            }
            i = i + 1;
        }
        false
    }

    /// Whether the multiple-apply `schema` is applied with that instance name.
    pub fn has_api_instance(&self, schema: TokenId, instance: TokenId) -> (yes: bool)
        ensures
            yes == exists|i: int|
                0 <= i < self@.applied.len() && (#[trigger] self@.applied[i]).schema == schema
                    && self@.applied[i].instance == Some(instance),
    {
        let mut i: usize = 0;
        while i < self.applied.len()
            invariant
                i <= self.applied@.len(),
                forall|k: int|
                    0 <= k < i ==> !((#[trigger] self.applied@[k]).schema == schema
                        && self.applied@[k].instance == Some(instance)),
            decreases self.applied@.len() - i,
        {
            if self.applied[i].schema == schema {
                match self.applied[i].instance {
                    Some(found) => {
                        if found == instance {
                            assert(self@.applied[i as int].schema == schema);
                            return true;
                        }
                    },
                    None => {},
                }
            }
            i = i + 1;
        }
        false
    }

    /// The place of the property `name`, or the number of properties.
    fn place(&self, name: TokenId) -> (at: usize)
        ensures
            at == place_of(self@.properties, name, 0),
            at <= self.properties@.len(),
            self.properties@.len() == self@.properties.len(),
    {
        proof {
            use_type_invariant(self);
        }
        match get_id(&self.index, name.index) {
            Some(at) => {
                proof {
                    let names = self@.properties;
                    assert forall|i: int| 0 <= i < at implies (#[trigger] names[i]).0 != name by {
                        assert(self.index@.dom().contains(names[i].0.index));
                    }
                    lemma_place_of_unique(names, name, at as int);
                }
                at
            },
            None => {
                proof {
                    let names = self@.properties;
                    assert forall|i: int| 0 <= i < names.len() implies (#[trigger] names[i]).0
                        != name by {
                        assert(self.index@.dom().contains(names[i].0.index));
                    }
                    lemma_place_of_unique(names, name, names.len() as int);
                }
                self.properties.len()
            },
        }
    }

    /// The definition of the property `name`, if a schema of the prim defines
    /// it.
    pub fn property(&self, name: TokenId) -> (property: Option<&PropertyDefinition>)
        ensures
            match property {
                Some(property) => named(self@.properties, name) == Some(property@.1) && property@.0
                    == name,
                None => named(self@.properties, name) is None,
            },
    {
        proof {
            lemma_place_of(self@.properties, name, 0);
        }
        let at = self.place(name);
        if at < self.properties.len() {
            assert(self@.properties[at as int] == self.properties@[at as int]@);
            Some(&self.properties[at])
        } else {
            None
        }
    }

    /// The defined properties, in the order their schemas compose.
    pub fn properties(&self) -> (properties: &Vec<PropertyDefinition>)
        ensures
            definitions_view(properties@) == self@.properties,
    {
        &self.properties
    }

    /// A copy of this definition.
    pub fn copy(&self) -> (out: PrimDefinition)
        ensures
            out@ == self@,
    {
        let mut out = PrimDefinition::new(self.typed, copy_tokens(&self.type_chain));
        let ghost expected = self@;
        let mut i: usize = 0;
        while i < self.applied.len()
            invariant
                i <= self.applied@.len(),
                expected == self@,
                out@ == (PrimDefinitionView {
                    applied: expected.applied.take(i as int),
                    properties: seq![],
                    ..expected
                }),
            decreases self.applied@.len() - i,
        {
            out = out.followed_by(self.applied[i]);
            assert(expected.applied.take(i + 1) =~= expected.applied.take(i as int).push(
                self.applied@[i as int],
            ));
            i = i + 1;
        }
        assert(expected.applied.take(i as int) =~= expected.applied);
        assert(expected.properties.take(0) =~= seq![]);
        let mut k: usize = 0;
        proof {
            use_type_invariant(self);
        }
        while k < self.properties.len()
            invariant
                k <= self.properties@.len(),
                expected == self@,
                places(self.index@, definitions_view(self.properties@)),
                out@ == (PrimDefinitionView {
                    properties: expected.properties.take(k as int),
                    ..expected
                }),
            decreases self.properties@.len() - k,
        {
            let property = self.properties[k].copy();
            proof {
                let done = expected.properties.take(k as int);
                assert forall|i: int| 0 <= i < done.len() implies (#[trigger] done[i]).0
                    != property.name by {
                    assert(expected.properties[i].0 == done[i].0);
                    assert(self.index@.dom().contains(expected.properties[i].0.index));
                    assert(self.index@.dom().contains(expected.properties[k as int].0.index));
                }
                lemma_place_of_unique(done, property.name, k as int);
                assert(expected.properties.take(k + 1) =~= done.push(property@));
            }
            out = out.with_weaker_property(property);
            k = k + 1;
        }
        assert(expected.properties.take(k as int) =~= expected.properties);
        out
    }

    /// This definition with `applied` behind its applied schemas, whether or
    /// not one of that name stands there.
    fn followed_by(self, applied: AppliedSchema) -> (out: PrimDefinition)
        ensures
            out@ == (PrimDefinitionView { applied: self@.applied.push(applied), ..self@ }),
    {
        proof {
            use_type_invariant(&self);
        }
        let mut list = self.applied;
        list.push(applied);
        PrimDefinition {
            typed: self.typed,
            type_chain: self.type_chain,
            applied: list,
            properties: self.properties,
            index: self.index,
        }
    }

    /// Adds an applied schema, unless one of that name stands there.
    pub fn push_applied(self, applied: AppliedSchema) -> (out: PrimDefinition)
        ensures
            out@ == with_applied(self@, applied),
    {
        let mut i: usize = 0;
        while i < self.applied.len()
            invariant
                i <= self.applied@.len(),
                forall|k: int| 0 <= k < i ==> (#[trigger] self.applied@[k]).name != applied.name,
            decreases self.applied@.len() - i,
        {
            if self.applied[i].name == applied.name {
                assert(self@.applied[i as int].name == applied.name);
                return self;
            }
            i = i + 1;
        }
        self.followed_by(applied)
    }

    /// Adds a property as weaker than those already defined.
    pub fn with_weaker_property(self, property: PropertyDefinition) -> (out: PrimDefinition)
        ensures
            out@ == with_property(self@, property@),
    {
        let at = self.place(property.name);
        proof {
            use_type_invariant(&self);
            lemma_place_of(self@.properties, property.name, 0);
        }
        let ghost before = self@.properties;
        let mut properties = self.properties;
        let mut index = self.index;
        if at < properties.len() {
            let mut kept = properties.remove(at);
            kept.compose_weaker(&property);
            properties.insert(at, kept);
            assert(definitions_view(properties@) =~= with_weaker(before, property@));
        } else {
            insert_id(&mut index, property.name.index, properties.len());
            properties.push(property);
            assert(definitions_view(properties@) =~= before.push(property@));
        }
        PrimDefinition {
            typed: self.typed,
            type_chain: self.type_chain,
            applied: self.applied,
            properties,
            index,
        }
    }

    /// Replaces the fallback of the property `name`, if it is defined.
    pub fn with_property_fallback(self, name: TokenId, fallback: &Value) -> (out: PrimDefinition)
        ensures
            out@ == (match named(self@.properties, name) {
                Some(defined) => PrimDefinitionView {
                    properties: self@.properties.update(
                        place_of(self@.properties, name, 0),
                        (name, DefinitionView { fallback: Some(fallback.view()), ..defined }),
                    ),
                    ..self@
                },
                None => self@,
            }),
    {
        let at = self.place(name);
        proof {
            use_type_invariant(&self);
            lemma_place_of(self@.properties, name, 0);
        }
        let ghost before = self@.properties;
        let mut properties = self.properties;
        if at < properties.len() {
            let mut kept = properties.remove(at);
            kept.fallback = Some(fallback.copy());
            properties.insert(at, kept);
            assert(definitions_view(properties@) =~= before.update(
                at as int,
                (name, DefinitionView { fallback: Some(fallback.view()), ..before[at as int].1 }),
            ));
        }
        PrimDefinition {
            typed: self.typed,
            type_chain: self.type_chain,
            applied: self.applied,
            properties,
            index: self.index,
        }
    }

    /// Adds each of a list of properties as weaker.
    pub fn with_weaker_properties(self, properties: &Vec<PropertyDefinition>) -> (out:
        PrimDefinition)
        ensures
            out@ == with_properties(self@, definitions_view(properties@)),
    {
        let ghost all = definitions_view(properties@);
        let ghost first = self@;
        let mut out = self;
        let mut i: usize = 0;
        assert(all.take(0) =~= seq![]);
        while i < properties.len()
            invariant
                i <= properties@.len(),
                all == definitions_view(properties@),
                out@ == with_properties(first, all.take(i as int)),
            decreases properties@.len() - i,
        {
            out = out.with_weaker_property(properties[i].copy());
            assert(all.take(i + 1).drop_last() =~= all.take(i as int));
            i = i + 1;
        }
        assert(all.take(i as int) =~= all);
        out
    }

    /// Composes a weaker definition into this one, with `instance` filled in,
    /// and interns the names that this forms.
    #[verifier::rlimit(40)]
    pub fn compose_weaker(
        self,
        weaker: &PrimDefinition,
        instance: Option<TokenId>,
        tokens: &mut TokenInterner,
    ) -> (out: PrimDefinition)
        requires
            definition_known(self@, old(tokens)@.len()),
            definition_known(weaker@, old(tokens)@.len()),
            option_known(instance, old(tokens)@.len()),
        ensures
            (out@, final(tokens)@) == composed((self@, old(tokens)@), weaker@, instance),
            extends(final(tokens)@, old(tokens)@),
            definition_known(out@, final(tokens)@.len()),
    {
        let ghost start = (self@, tokens@);
        let ghost applied = weaker@.applied;
        let ghost properties = weaker@.properties;
        let mut out = self;
        let mut i: usize = 0;
        assert(applied.take(0) =~= seq![]);
        while i < weaker.applied.len()
            invariant
                i <= weaker.applied@.len(),
                applied == weaker@.applied,
                start == (self@, old(tokens)@),
                extends(tokens@, start.1),
                definition_known(weaker@, start.1.len()),
                option_known(instance, start.1.len()),
                definition_known(out@, tokens@.len()),
                (out@, tokens@) == compose_all_applied(start, applied.take(i as int), instance),
            decreases weaker.applied@.len() - i,
        {
            let one = weaker.applied[i];
            assert(applied_known(weaker@.applied[i as int], start.1.len()));
            let ghost c = (out@, tokens@);
            let name = instantiate(one.name, instance, tokens);
            let filled = match one.instance {
                None => None,
                Some(template) => Some(instantiate(template, instance, tokens)),
            };
            out = out.push_applied(AppliedSchema { name, schema: one.schema, instance: filled });
            assert(applied.take(i + 1).drop_last() =~= applied.take(i as int));
            assert((out@, tokens@) == compose_applied(c, one, instance));
            i = i + 1;
        }
        assert(applied.take(i as int) =~= applied);
        let ghost middle = (out@, tokens@);
        let mut k: usize = 0;
        assert(properties.take(0) =~= seq![]);
        while k < weaker.properties.len()
            invariant
                k <= weaker.properties@.len(),
                properties == weaker@.properties,
                start == (self@, old(tokens)@),
                extends(tokens@, start.1),
                definition_known(weaker@, start.1.len()),
                option_known(instance, start.1.len()),
                definition_known(out@, tokens@.len()),
                (out@, tokens@) == compose_properties(middle, properties.take(k as int), instance),
            decreases weaker.properties@.len() - k,
        {
            let mut one = weaker.properties[k].copy();
            let ghost c = (out@, tokens@);
            assert(weaker@.properties[k as int] == one@);
            one.name = instantiate(one.name, instance, tokens);
            proof {
                lemma_place_of(c.0.properties, one.name, 0);
            }
            out = out.with_weaker_property(one);
            assert(properties.take(k + 1).drop_last() =~= properties.take(k as int));
            assert((out@, tokens@) == compose_property(c, properties[k as int], instance));
            k = k + 1;
        }
        assert(properties.take(k as int) =~= properties);
        out
    }

    /// Composes a weaker definition into this one, with `instance` filled in,
    /// where every name that this forms has been interned.
    #[verifier::rlimit(40)]
    pub fn compose_known(
        self,
        weaker: &PrimDefinition,
        instance: Option<TokenId>,
        tokens: &TokenInterner,
    ) -> (out: PrimDefinition)
        requires
            definition_known(weaker@, tokens@.len()),
            option_known(instance, tokens@.len()),
            composed((self@, tokens@), weaker@, instance).1 == tokens@,
        ensures
            out@ == composed((self@, tokens@), weaker@, instance).0,
    {
        let ghost start = (self@, tokens@);
        let ghost applied = weaker@.applied;
        let ghost properties = weaker@.properties;
        let ghost middle = compose_all_applied(start, applied, instance);
        proof {
            lemma_properties_grow(middle, properties, instance, 0);
            assert(properties.take(0) =~= seq![]);
            lemma_applied_grow(start, applied, instance, 0);
            assert(applied.take(0) =~= seq![]);
            assert(middle.1 =~= tokens@);
        }
        let mut out = self;
        let mut i: usize = 0;
        while i < weaker.applied.len()
            invariant
                i <= weaker.applied@.len(),
                applied == weaker@.applied,
                start.1 == tokens@,
                middle == compose_all_applied(start, applied, instance),
                middle.1 == tokens@,
                definition_known(weaker@, tokens@.len()),
                option_known(instance, tokens@.len()),
                (out@, tokens@) == compose_all_applied(start, applied.take(i as int), instance),
            decreases weaker.applied@.len() - i,
        {
            let one = weaker.applied[i];
            assert(applied_known(weaker@.applied[i as int], tokens@.len()));
            let ghost c = (out@, tokens@);
            proof {
                assert(applied.take(i + 1).drop_last() =~= applied.take(i as int));
                lemma_applied_grow(start, applied, instance, i + 1);
                lemma_compose_applied(c, one, instance);
            }
            let name = instance_token(one.name, instance, tokens);
            let filled = match one.instance {
                None => None,
                Some(template) => Some(instance_token(template, instance, tokens)),
            };
            out = out.push_applied(AppliedSchema { name, schema: one.schema, instance: filled });
            i = i + 1;
        }
        assert(applied.take(i as int) =~= applied);
        let mut k: usize = 0;
        while k < weaker.properties.len()
            invariant
                k <= weaker.properties@.len(),
                properties == weaker@.properties,
                middle.1 == tokens@,
                compose_properties(middle, properties, instance).1 == tokens@,
                definition_known(weaker@, tokens@.len()),
                option_known(instance, tokens@.len()),
                (out@, tokens@) == compose_properties(middle, properties.take(k as int), instance),
            decreases weaker.properties@.len() - k,
        {
            let mut one = weaker.properties[k].copy();
            let ghost c = (out@, tokens@);
            assert(weaker@.properties[k as int] == one@);
            proof {
                assert(properties.take(k + 1).drop_last() =~= properties.take(k as int));
                lemma_properties_grow(middle, properties, instance, k + 1);
                lemma_compose_property(c, one@, instance);
            }
            one.name = instance_token(one.name, instance, tokens);
            out = out.with_weaker_property(one);
            k = k + 1;
        }
        assert(properties.take(k as int) =~= properties);
        out
    }
}

/// Whether a list holds a token.
pub fn holds_token(list: &Vec<TokenId>, wanted: TokenId) -> (found: bool)
    ensures
        found == list@.contains(wanted),
{
    let mut i: usize = 0;
    while i < list.len()
        invariant
            i <= list@.len(),
            forall|k: int| 0 <= k < i ==> list@[k] != wanted,
        decreases list@.len() - i,
    {
        if list[i] == wanted {
            assert(list@[i as int] == wanted);
            return true;
        }
        i = i + 1;
    }
    false
}

/// Copies a list of tokens.
pub fn copy_tokens(list: &Vec<TokenId>) -> (out: Vec<TokenId>)
    ensures
        out@ == list@,
{
    let mut out: Vec<TokenId> = Vec::new();
    let mut i: usize = 0;
    while i < list.len()
        invariant
            i <= list@.len(),
            out@ == list@.take(i as int),
        decreases list@.len() - i,
    {
        out.push(list[i]);
        i = i + 1;
        assert(out@ =~= list@.take(i as int));
    }
    assert(out@ =~= list@);
    out
}

} // verus!
