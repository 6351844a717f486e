//! The registry of schemas, and the definitions of composed prims.

use crate::fields::{lemma_place_of, lemma_place_of_unique, named, place_of};
use crate::interner::{
    extends, first_position, lemma_first_position, lemma_with_entry, with_entry, TokenId,
    TokenInterner,
};
use crate::schema::building::{build_definitions, included_place, registry_built, schema_known};
use crate::schema::definition::{
    applied_known, compose_all_applied, compose_properties, composed, definition_known,
    definitions_view, lemma_applied_grow, lemma_compose_applied, lemma_compose_property,
    lemma_composed_grow, lemma_properties_grow, option_known, over_weaker, typeless, with_weaker,
    AppliedSchema, Composing, DefinitionView, PrimDefinition, PrimDefinitionView,
    PropertyDefinition,
};
use crate::schema::kinds::{
    registered, schemas_view, SchemaDefinition, SchemaIssue, SchemaKind, SchemaList, SchemaView,
};
use crate::schema::naming::{
    fill_in, filled_in, instance_part, instance_text, schema_part, split_instance, token_of,
};
use crate::text::same_text;
use vstd::prelude::*;

verus! {

/// Collects schemas and auto-applies, then builds a [`SchemaRegistry`].
#[derive(Debug)]
pub struct SchemaRegistryBuilder {
    schemas: Vec<SchemaDefinition>,
    auto_applies: Vec<(TokenId, TokenId)>,
}

impl Default for SchemaRegistryBuilder {
    fn default() -> (out: SchemaRegistryBuilder)
        ensures
            out.given() == Seq::<(TokenId, SchemaView)>::empty(),
            out.autos() == Seq::<(TokenId, TokenId)>::empty(),
    {
        let out = SchemaRegistryBuilder { schemas: Vec::new(), auto_applies: Vec::new() };
        assert(out.given() =~= Seq::<(TokenId, SchemaView)>::empty());
        out
    }
}

/// Whether every name that a builder was given is that of a token.
pub open spec fn given_known(
    given: Seq<(TokenId, SchemaView)>,
    autos: Seq<(TokenId, TokenId)>,
    count: nat,
) -> bool {
    &&& forall|i: int| 0 <= i < given.len() ==> schema_known(#[trigger] given[i], count)
    &&& forall|i: int| 0 <= i < autos.len() ==> (#[trigger] autos[i]).0.index < count
}

impl SchemaRegistryBuilder {
    /// The schemas given so far.
    pub closed spec fn given(&self) -> Seq<(TokenId, SchemaView)> {
        schemas_view(self.schemas@)
    }

    /// The auto-applies given so far: what is applied, and to what.
    pub closed spec fn autos(&self) -> Seq<(TokenId, TokenId)> {
        self.auto_applies@
    }

    /// Registers a schema. A later one of the same name replaces an earlier
    /// one.
    pub fn register(&mut self, schema: SchemaDefinition)
        ensures
            final(self).given() == old(self).given().push(schema@),
            final(self).autos() == old(self).autos(),
    {
        let ghost before = self.schemas@;
        self.schemas.push(schema);
        assert(schemas_view(self.schemas@) =~= schemas_view(before).push(schema@));
    }

    /// Auto-applies `api` to the schema `to`, and to what derives from it.
    pub fn auto_apply(&mut self, api: TokenId, to: TokenId)
        ensures
            final(self).given() == old(self).given(),
            final(self).autos() == old(self).autos().push((api, to)),
    {
        self.auto_applies.push((api, to));
    }

    /// Builds the registry: the definition of each schema, with its inclusions
    /// and override properties composed in.
    pub fn build(self, tokens: &mut TokenInterner) -> (out: SchemaRegistry)
        requires
            given_known(self.given(), self.autos(), old(tokens)@.len()),
        ensures
            ({
                let built = registry_built(self.given(), self.autos(), old(tokens)@);
                &&& final(tokens)@ == built.0.tokens
                &&& out@ == (RegistryView {
                    schemas: registered(self.given()),
                    definitions: built.1,
                    issues: built.0.issues,
                })
            }),
            registry_known(out@, final(tokens)@.len()),
            extends(final(tokens)@, old(tokens)@),
    {
        proof {
            crate::schema::kinds::lemma_registered(self.given());
            assert forall|i: int| 0 <= i < registered(self.given()).len() implies schema_known(
                #[trigger] registered(self.given())[i],
                tokens@.len(),
            ) by {
                let one = registered(self.given())[i];
                let k = choose|k: int| 0 <= k < self.given().len() && self.given()[k] == one;
                assert(schema_known(self.given()[k], tokens@.len()));
            }
        }
        let ghost given = self.given();
        let ghost counted = tokens@.len();
        let schemas = SchemaList::of(self.schemas);
        let mut issues: Vec<SchemaIssue> = Vec::new();
        let ghost start = tokens@;
        let definitions = build_definitions(&schemas, &self.auto_applies, tokens, &mut issues, Ghost(given));
        let count = schemas.len();
        let out = SchemaRegistry { schemas, definitions, issues };
        assert(out@ =~= RegistryView {
            schemas: registered(given),
            definitions: registry_built(given, self.autos(), start).1,
            issues: registry_built(given, self.autos(), start).0.issues,
        });
        assert forall|i: int| 0 <= i < out@.schemas.len() implies (#[trigger] out@.schemas[i]).0.index
            < tokens@.len() by {
            assert(schema_known(registered(given)[i], counted));
        }
        out
    }
}

/// The mathematical value of a [`SchemaRegistry`].
#[verifier::ext_equal]
pub struct RegistryView {
    /// The schemas, in the order of their names.
    pub schemas: Seq<(TokenId, SchemaView)>,
    /// The definition of each.
    pub definitions: Seq<PrimDefinitionView>,
    /// What building left out.
    pub issues: Seq<SchemaIssue>,
}

/// The views of a list of definitions.
pub open spec fn prim_views(list: Seq<PrimDefinition>) -> Seq<PrimDefinitionView> {
    list.map_values(|d: PrimDefinition| d@)
}

/// Whether every name that a registry holds is that of a token.
pub open spec fn registry_known(registry: RegistryView, count: nat) -> bool {
    &&& registry.definitions.len() == registry.schemas.len()
    &&& forall|i: int|
        0 <= i < registry.schemas.len() ==> (#[trigger] registry.schemas[i]).0.index < count
    &&& forall|i: int|
        0 <= i < registry.definitions.len() ==> definition_known(
            #[trigger] registry.definitions[i],
            count,
        )
}

/// The schema that an entry of a prim's applied schemas names: the place of
/// its definition, with its instance name. There is none where the entry names
/// no applied schema, or has an instance name exactly when the schema is
/// single-apply.
pub open spec fn applied_entry(
    registry: RegistryView,
    tokens: Seq<Seq<char>>,
    name: TokenId,
) -> Option<(int, Option<Seq<char>>)> {
    let place = included_place(registry.schemas, tokens, name);
    let instance = instance_part(tokens[name.index as int]);
    if place >= registry.schemas.len() {
        None
    } else {
        match (registry.schemas[place].1.kind, instance) {
            (SchemaKind::SingleApplyApi, None) => Some((place, None)),
            (SchemaKind::MultipleApplyApi, Some(instance)) => Some((place, Some(instance))),
            _ => None,
        }
    }
}

/// The definition of the concrete typed schema `name`; that of a typeless prim
/// where it is none.
pub open spec fn typed_entry(registry: RegistryView, name: Option<TokenId>) -> PrimDefinitionView {
    match name {
        Some(name) => {
            let place = place_of(registry.schemas, name, 0);
            if place < registry.schemas.len() && registry.schemas[place].1.kind
                == SchemaKind::ConcreteTyped {
                registry.definitions[place]
            } else {
                typeless()
            }
        },
        None => typeless(),
    }
}

/// Composes one applied schema into a prim's definition, over the tokens
/// `read`.
pub open spec fn entry_composed(
    registry: RegistryView,
    read: Seq<Seq<char>>,
    c: Composing,
    name: TokenId,
) -> Composing {
    match applied_entry(registry, read, name) {
        None => c,
        Some((place, None)) => composed(c, registry.definitions[place], None),
        Some((place, Some(instance))) => composed(
            (c.0, with_entry(c.1, instance)),
            registry.definitions[place],
            Some(token_of(c.1, instance)),
        ),
    }
}

/// Composes a list of applied schemas into a prim's definition, in order.
pub open spec fn entries_composed(
    registry: RegistryView,
    read: Seq<Seq<char>>,
    c: Composing,
    applied: Seq<TokenId>,
) -> Composing
    decreases applied.len(),
{
    if applied.len() == 0 {
        c
    } else {
        entry_composed(
            registry,
            read,
            entries_composed(registry, read, c, applied.drop_last()),
            applied.last(),
        )
    }
}

/// The definition of a prim of type `typed` with the schemas `applied`, and
/// the tokens of the names that it forms.
pub open spec fn prim_composed(
    registry: RegistryView,
    typed: Option<TokenId>,
    applied: Seq<TokenId>,
    tokens: Seq<Seq<char>>,
) -> Composing {
    entries_composed(registry, tokens, (typed_entry(registry, typed), tokens), applied)
}

/// Whether every name of a list is that of a token.
pub open spec fn ids_known(list: Seq<TokenId>, count: nat) -> bool {
    forall|i: int| 0 <= i < list.len() ==> (#[trigger] list[i]).index < count
}

/// Schemas, and the definitions that they build.
#[derive(Debug)]
pub struct SchemaRegistry {
    schemas: SchemaList,
    definitions: Vec<PrimDefinition>,
    issues: Vec<SchemaIssue>,
}

impl View for SchemaRegistry {
    type V = RegistryView;

    closed spec fn view(&self) -> RegistryView {
        RegistryView {
            schemas: self.schemas@,
            definitions: prim_views(self.definitions@),
            issues: self.issues@,
        }
    }
}

impl SchemaRegistry {
    #[verifier::type_invariant]
    spec fn paired(&self) -> bool {
        self.definitions@.len() == self.schemas@.len()
    }

    /// A builder to register schemas with.
    pub fn builder() -> (out: SchemaRegistryBuilder)
        ensures
            out.given() == Seq::<(TokenId, SchemaView)>::empty(),
            out.autos() == Seq::<(TokenId, TokenId)>::empty(),
    {
        SchemaRegistryBuilder::default()
    }

    /// The registered schema `name`.
    pub fn schema(&self, name: TokenId) -> (schema: Option<&SchemaDefinition>)
        ensures
            match schema {
                Some(schema) => named(self@.schemas, name) == Some(schema@.1) && schema@.0 == name,
                None => named(self@.schemas, name) is None,
            },
    {
        let at = self.schemas.place(name);
        proof {
            lemma_place_of(self.schemas@, name, 0);
        }
        if at < self.schemas.len() {
            Some(self.schemas.at(at))
        } else {
            None
        }
    }

    /// Every registered schema, in the order of their names.
    pub fn schemas(&self) -> (schemas: &SchemaList)
        ensures
            schemas@ == self@.schemas,
    {
        &self.schemas
    }

    /// The definition of the schema `name` itself, a template for a
    /// multiple-apply schema.
    pub fn schema_definition(&self, name: TokenId) -> (definition: Option<&PrimDefinition>)
        ensures
            match definition {
                Some(definition) => {
                    let place = place_of(self@.schemas, name, 0);
                    place < self@.schemas.len() && definition@ == self@.definitions[place]
                },
                None => named(self@.schemas, name) is None,
            },
    {
        proof {
            use_type_invariant(self);
        }
        let at = self.schemas.place(name);
        if at < self.schemas.len() {
            assert(self@.definitions[at as int] == self.definitions@[at as int]@);
            Some(&self.definitions[at])
        } else {
            None
        }
    }

    /// What building the registry left out, in the order found.
    pub fn issues(&self) -> (issues: &Vec<SchemaIssue>)
        ensures
            issues@ == self@.issues,
    {
        &self.issues
    }

    /// Whether the schema `name` is `schema` or inherits from it.
    pub fn is_a(&self, name: TokenId, schema: TokenId) -> (yes: bool)
        ensures
            yes == ({
                let place = place_of(self@.schemas, name, 0);
                place < self@.schemas.len() && self@.definitions[place].type_chain.contains(schema)
            }),
    {
        match self.schema_definition(name) {
            Some(definition) => definition.is_a(schema),
            None => false,
        }
    }

    /// The place of the applied schema that an entry names, with its instance
    /// name.
    fn applied(&self, name: TokenId, tokens: &TokenInterner) -> (out: Option<
        (usize, Option<String>),
    >)
        requires
            name.index < tokens@.len(),
        ensures
            match out {
                Some((place, instance)) => {
                    &&& place < self@.schemas.len()
                    &&& applied_entry(self@, tokens@, name) == Some(
                        (place as int, crate::schema::naming::text_option(instance)),
                    )
                },
                None => applied_entry(self@, tokens@, name) is None,
            },
    {
        let parts = split_instance(tokens.resolve(name));
        let place = match tokens.lookup(parts.0.as_str()) {
            Some(id) => self.schemas.place(id),
            None => self.schemas.len(),
        };
        if place >= self.schemas.len() {
            return None;
        }
        let kind = self.schemas.at(place).kind;
        match (kind, &parts.1) {
            (SchemaKind::SingleApplyApi, None) => Some((place, None)),
            (SchemaKind::MultipleApplyApi, Some(instance)) => Some((place, parts.1)),
            _ => None,
        }
    }

    /// The definition of a prim of type `typed` with the schemas `applied`:
    /// its type's, then each applied schema's as a weaker one, in order.
    ///
    /// The names that this forms have been interned, as
    /// [`SchemaRegistry::intern_instance_names`] does.
    pub fn prim_definition(
        &self,
        typed: Option<TokenId>,
        applied: &Vec<TokenId>,
        tokens: &TokenInterner,
    ) -> (out: PrimDefinition)
        requires
            registry_known(self@, tokens@.len()),
            ids_known(applied@, tokens@.len()),
            prim_composed(self@, typed, applied@, tokens@).1 == tokens@,
        ensures
            out@ == prim_composed(self@, typed, applied@, tokens@).0,
    {
        proof {
            use_type_invariant(self);
        }
        let ghost registry = self@;
        let ghost start = (typed_entry(registry, typed), tokens@);
        let mut out = match self.typed(typed) {
            Some(definition) => definition.copy(),
            None => PrimDefinition::new(None, Vec::new()),
        };
        assert(out@ =~= typed_entry(registry, typed));
        let mut i: usize = 0;
        assert(applied@.take(0) =~= seq![]);
        while i < applied.len()
            invariant
                i <= applied@.len(),
                registry == self@,
                registry_known(registry, tokens@.len()),
                self.definitions@.len() == registry.definitions.len(),
                ids_known(applied@, tokens@.len()),
                start.1 == tokens@,
                entries_composed(registry, tokens@, start, applied@).1 == tokens@,
                (out@, tokens@) == entries_composed(
                    registry,
                    tokens@,
                    start,
                    applied@.take(i as int),
                ),
            decreases applied@.len() - i,
        {
            let name = applied[i];
            let ghost c = (out@, tokens@);
            proof {
                assert(applied@.take(i + 1).drop_last() =~= applied@.take(i as int));
                assert(applied@.take(i + 1).last() == name);
                lemma_entries_grow(registry, tokens@, start, applied@, i + 1);
                lemma_entry_grow(registry, tokens@, c, name);
                lemma_entry_same(registry, tokens@, c, name);
                assert(entry_composed(registry, tokens@, c, name).1 == tokens@);
            }
            match self.applied(name, tokens) {
                None => {},
                Some((place, instance)) => {
                    assert(registry.definitions[place as int] == self.definitions@[place as int]@);
                    assert(definition_known(registry.definitions[place as int], tokens@.len()));
                    let instance = match instance {
                        None => None,
                        Some(instance) => {
                            let found = tokens.lookup(instance.as_str());
                            assert(found == Some(token_of(tokens@, instance@)));
                            found
                        },
                    };
                    out = out.compose_known(&self.definitions[place], instance, tokens);
                },
            }
            i = i + 1;
        }
        assert(applied@.take(i as int) =~= applied@);
        out
    }

    /// Interns every name that [`SchemaRegistry::prim_definition`] forms for
    /// the schemas `applied`.
    pub fn intern_instance_names(&self, applied: &Vec<TokenId>, tokens: &mut TokenInterner)
        requires
            registry_known(self@, old(tokens)@.len()),
            ids_known(applied@, old(tokens)@.len()),
        ensures
            final(tokens)@ == prim_composed(self@, None, applied@, old(tokens)@).1,
            extends(final(tokens)@, old(tokens)@),
    {
        proof {
            use_type_invariant(self);
        }
        let ghost registry = self@;
        let ghost read = tokens@;
        let ghost start = (typeless(), read);
        let mut out = PrimDefinition::new(None, Vec::new());
        assert(out@ =~= typeless());
        let mut i: usize = 0;
        assert(applied@.take(0) =~= seq![]);
        while i < applied.len()
            invariant
                i <= applied@.len(),
                registry == self@,
                read == old(tokens)@,
                registry_known(registry, read.len()),
                self.definitions@.len() == registry.definitions.len(),
                ids_known(applied@, read.len()),
                start == (typeless(), read),
                extends(tokens@, read),
                definition_known(out@, tokens@.len()),
                (out@, tokens@) == entries_composed(registry, read, start, applied@.take(i as int)),
            decreases applied@.len() - i,
        {
            let name = applied[i];
            let ghost c = (out@, tokens@);
            assert(applied@.take(i + 1).drop_last() =~= applied@.take(i as int));
            assert(applied@.take(i + 1).last() == name);
            let count = tokens.len();
            proof {
                lemma_entry_read(registry, read, tokens@, name);
            }
            match self.applied(name, tokens) {
                None => {},
                Some((place, instance)) => {
                    assert(registry.definitions[place as int] == self.definitions@[place as int]@);
                    assert(definition_known(registry.definitions[place as int], read.len()));
                    let instance = match instance {
                        None => None,
                        Some(instance) => Some(tokens.intern(instance.as_str())),
                    };
                    proof {
                        lemma_known_more(registry.definitions[place as int], read.len(), tokens@.len());
                        lemma_known_more(out@, c.1.len(), tokens@.len());
                    }
                    out = out.compose_weaker(&self.definitions[place], instance, tokens);
                },
            }
            i = i + 1;
        }
        assert(applied@.take(i as int) =~= applied@);
        assert(typed_entry(registry, None) == typeless());
    }

    /// The definition of the concrete typed schema `typed`.
    fn typed(&self, typed: Option<TokenId>) -> (out: Option<&PrimDefinition>)
        ensures
            match out {
                Some(definition) => definition@ == typed_entry(self@, typed),
                None => typed_entry(self@, typed) == typeless(),
            },
    {
        proof {
            use_type_invariant(self);
        }
        match typed {
            Some(name) => {
                let place = self.schemas.place(name);
                if place < self.schemas.len() && self.schemas.at(place).kind
                    == SchemaKind::ConcreteTyped {
                    assert(self@.definitions[place as int] == self.definitions@[place as int]@);
                    Some(&self.definitions[place])
                } else {
                    None
                }
            },
            None => None,
        }
    }
}

proof fn lemma_known_more(d: PrimDefinitionView, fewer: nat, more: nat)
    requires
        definition_known(d, fewer),
        fewer <= more,
    ensures
        definition_known(d, more),
{
    assert forall|i: int| 0 <= i < d.applied.len() implies applied_known(
        #[trigger] d.applied[i],
        more,
    ) by {
        assert(applied_known(d.applied[i], fewer));
    }
}

/// Composing one applied schema only adds tokens.
proof fn lemma_entry_grow(
    registry: RegistryView,
    read: Seq<Seq<char>>,
    c: Composing,
    name: TokenId,
)
    ensures
        extends(entry_composed(registry, read, c, name).1, c.1),
{
    match applied_entry(registry, read, name) {
        None => {},
        Some((place, None)) => {
            lemma_composed_grow(c, registry.definitions[place], None);
        },
        Some((place, Some(instance))) => {
            lemma_with_entry(c.1, instance);
            lemma_composed_grow(
                (c.0, with_entry(c.1, instance)),
                registry.definitions[place],
                Some(token_of(c.1, instance)),
            );
        },
    }
}

/// Composing a list of applied schemas only adds tokens.
proof fn lemma_entries_grow(
    registry: RegistryView,
    read: Seq<Seq<char>>,
    c: Composing,
    applied: Seq<TokenId>,
    upto: int,
)
    requires
        0 <= upto <= applied.len(),
    ensures
        extends(
            entries_composed(registry, read, c, applied).1,
            entries_composed(registry, read, c, applied.take(upto)).1,
        ),
    decreases applied.len(),
{
    if upto == applied.len() {
        assert(applied.take(upto) =~= applied);
    } else {
        let rest = applied.drop_last();
        lemma_entries_grow(registry, read, c, rest, upto);
        assert(rest.take(upto) =~= applied.take(upto));
        lemma_entry_grow(registry, read, entries_composed(registry, read, c, rest), applied.last());
    }
}

/// Where composing one applied schema adds no token, its instance name has
/// one.
proof fn lemma_entry_same(
    registry: RegistryView,
    read: Seq<Seq<char>>,
    c: Composing,
    name: TokenId,
)
    ensures
        entry_composed(registry, read, c, name).1.len() == c.1.len() ==> {
            &&& entry_composed(registry, read, c, name).1 == c.1
            &&& applied_entry(registry, read, name) matches Some((_, Some(instance)))
                ==> c.1.contains(instance) && with_entry(c.1, instance) == c.1
        },
{
    lemma_entry_grow(registry, read, c, name);
    if entry_composed(registry, read, c, name).1.len() == c.1.len() {
        assert(entry_composed(registry, read, c, name).1 =~= c.1);
        match applied_entry(registry, read, name) {
            Some((place, Some(instance))) => {
                lemma_with_entry(c.1, instance);
                lemma_first_position(c.1, instance);
                lemma_composed_grow(
                    (c.0, with_entry(c.1, instance)),
                    registry.definitions[place],
                    Some(token_of(c.1, instance)),
                );
            },
            _ => {},
        }
    }
}

/// What an entry names does not change while tokens are added.
proof fn lemma_entry_read(
    registry: RegistryView,
    read: Seq<Seq<char>>,
    more: Seq<Seq<char>>,
    name: TokenId,
)
    requires
        extends(more, read),
        registry_known(registry, read.len()),
        name.index < read.len(),
        more.len() <= usize::MAX,
    ensures
        applied_entry(registry, more, name) == applied_entry(registry, read, name),
{
    let part = schema_part(read[name.index as int]);
    lemma_first_position(read, part);
    lemma_first_position(more, part);
    let at = first_position(read, part);
    if read.contains(part) {
        let k = choose|k: int| 0 <= k < read.len() && read[k] == part;
        if at >= read.len() {
            assert(read[k] != part);
        }
        assert(more[at] == part);
        let found = first_position(more, part);
        if found < at {
            assert(more[found] == read[found]);
        }
        if found > at {
            assert(more[at] != part);
        }
        assert(more.contains(part));
    } else if more.contains(part) {
        let id = token_of(more, part);
        let found = first_position(more, part);
        let k = choose|k: int| 0 <= k < more.len() && more[k] == part;
        if found >= more.len() {
            assert(more[k] != part);
        }
        if found < read.len() {
            assert(read[found] == part);
            assert(read.contains(part));
        }
        lemma_place_of(registry.schemas, id, 0);
        let place = place_of(registry.schemas, id, 0);
        if place < registry.schemas.len() {
            assert(registry.schemas[place].0.index < read.len());
        }
    }
}

// ── One property ────────────────────────────────────────────────────────

/// What a property is defined as, once a weaker definition of it is met.
pub open spec fn found_with(
    found: Option<DefinitionView>,
    weaker: DefinitionView,
) -> Option<DefinitionView> {
    match found {
        Some(found) => Some(over_weaker(found, weaker)),
        None => Some(weaker),
    }
}

/// The name of a property once an instance is filled in.
pub open spec fn property_text(
    tokens: Seq<Seq<char>>,
    property: TokenId,
    instance: Option<Seq<char>>,
) -> Seq<char> {
    match instance {
        Some(instance) => filled_in(tokens[property.index as int], instance),
        None => tokens[property.index as int],
    }
}

/// What the property named `name` is defined as, once the properties of a
/// weaker schema are met, with `instance` filled in.
pub open spec fn found_among(
    found: Option<DefinitionView>,
    tokens: Seq<Seq<char>>,
    properties: Seq<(TokenId, DefinitionView)>,
    instance: Option<Seq<char>>,
    name: Seq<char>,
) -> Option<DefinitionView>
    decreases properties.len(),
{
    if properties.len() == 0 {
        found
    } else {
        let before = found_among(found, tokens, properties.drop_last(), instance, name);
        if property_text(tokens, properties.last().0, instance) == name {
            found_with(before, properties.last().1)
        } else {
            before
        }
    }
}

/// What a property is defined as, once each of a list of applied schemas is
/// met, in order.
pub open spec fn found_applied(
    registry: RegistryView,
    found: Option<DefinitionView>,
    applied: Seq<TokenId>,
    property: TokenId,
    tokens: Seq<Seq<char>>,
) -> Option<DefinitionView>
    decreases applied.len(),
{
    if applied.len() == 0 {
        found
    } else {
        let before = found_applied(registry, found, applied.drop_last(), property, tokens);
        match applied_entry(registry, tokens, applied.last()) {
            Some((place, instance)) => found_among(
                before,
                tokens,
                registry.definitions[place].properties,
                instance,
                tokens[property.index as int],
            ),
            None => before,
        }
    }
}

/// The definition of one property of a prim.
pub open spec fn property_found(
    registry: RegistryView,
    typed: Option<TokenId>,
    applied: Seq<TokenId>,
    property: TokenId,
    tokens: Seq<Seq<char>>,
) -> Option<DefinitionView> {
    found_applied(
        registry,
        named(typed_entry(registry, typed).properties, property),
        applied,
        property,
        tokens,
    )
}

/// The view of an optional definition, but for its name.
pub open spec fn found_view(found: Option<PropertyDefinition>) -> Option<DefinitionView> {
    match found {
        Some(found) => Some(found@.1),
        None => None,
    }
}

/// Meets the properties of a weaker schema.
fn visit(
    found: Option<PropertyDefinition>,
    properties: &Vec<PropertyDefinition>,
    instance: &Option<String>,
    property: TokenId,
    tokens: &TokenInterner,
) -> (out: Option<PropertyDefinition>)
    requires
        property.index < tokens@.len(),
        forall|i: int|
            0 <= i < properties@.len() ==> (#[trigger] definitions_view(properties@)[i]).0.index
                < tokens@.len(),
        found matches Some(found) ==> found@.0 == property,
    ensures
        found_view(out) == found_among(
            found_view(found),
            tokens@,
            definitions_view(properties@),
            crate::schema::naming::text_option(*instance),
            tokens@[property.index as int],
        ),
        out matches Some(out) ==> out@.0 == property,
{
    let ghost all = definitions_view(properties@);
    let ghost first = found_view(found);
    let ghost shown = crate::schema::naming::text_option(*instance);
    let name = tokens.resolve(property);
    let mut out = found;
    let mut i: usize = 0;
    assert(all.take(0) =~= seq![]);
    while i < properties.len()
        invariant
            i <= properties@.len(),
            all == definitions_view(properties@),
            shown == crate::schema::naming::text_option(*instance),
            name@ == tokens@[property.index as int],
            forall|i: int|
                0 <= i < properties@.len() ==> (#[trigger] all[i]).0.index < tokens@.len(),
            found_view(out) == found_among(first, tokens@, all.take(i as int), shown, name@),
            out matches Some(out) ==> out@.0 == property,
        decreases properties@.len() - i,
    {
        assert(all.take(i + 1).drop_last() =~= all.take(i as int));
        assert(all[i as int] == properties@[i as int]@);
        let candidate = &properties[i];
        let candidate_name = tokens.resolve(candidate.name);
        let same = match instance {
            Some(instance) => same_text(
                fill_in(candidate_name, instance.as_str()).as_str(),
                name,
            ),
            None => same_text(candidate_name, name),
        };
        if same {
            out = match out {
                Some(stronger) => {
                    let mut stronger = stronger;
                    stronger.compose_weaker(candidate);
                    Some(stronger)
                },
                None => {
                    let mut copy = candidate.copy();
                    copy.name = property;
                    Some(copy)
                },
            };
        }
        i = i + 1;
    }
    assert(all.take(i as int) =~= all);
    out
}

impl SchemaRegistry {
    /// The definition of one property of a prim, found without building the
    /// whole definition or interning anything.
    pub fn property_definition(
        &self,
        typed: Option<TokenId>,
        applied: &Vec<TokenId>,
        property: TokenId,
        tokens: &TokenInterner,
    ) -> (out: Option<PropertyDefinition>)
        requires
            registry_known(self@, tokens@.len()),
            ids_known(applied@, tokens@.len()),
            property.index < tokens@.len(),
        ensures
            found_view(out) == property_found(self@, typed, applied@, property, tokens@),
            out matches Some(out) ==> out@.0 == property,
    {
        proof {
            use_type_invariant(self);
        }
        let ghost registry = self@;
        let ghost first = named(typed_entry(registry, typed).properties, property);
        let mut found = match self.typed(typed) {
            Some(definition) => match definition.property(property) {
                Some(candidate) => Some(candidate.copy()),
                None => None,
            },
            None => None,
        };
        assert(found_view(found) == first);
        let mut i: usize = 0;
        assert(applied@.take(0) =~= seq![]);
        while i < applied.len()
            invariant
                i <= applied@.len(),
                registry == self@,
                registry_known(registry, tokens@.len()),
                self.definitions@.len() == registry.definitions.len(),
                ids_known(applied@, tokens@.len()),
                property.index < tokens@.len(),
                found_view(found) == found_applied(
                    registry,
                    first,
                    applied@.take(i as int),
                    property,
                    tokens@,
                ),
                found matches Some(found) ==> found@.0 == property,
            decreases applied@.len() - i,
        {
            assert(applied@.take(i + 1).drop_last() =~= applied@.take(i as int));
            assert(applied@.take(i + 1).last() == applied@[i as int]);
            match self.applied(applied[i], tokens) {
                Some((place, instance)) => {
                    assert(registry.definitions[place as int] == self.definitions@[place as int]@);
                    assert(definition_known(registry.definitions[place as int], tokens@.len()));
                    found =
                    visit(
                        found,
                        self.definitions[place].properties(),
                        &instance,
                        property,
                        tokens,
                    );
                },
                None => {},
            }
            i = i + 1;
        }
        assert(applied@.take(i as int) =~= applied@);
        found
    }
}

// ── Laws ────────────────────────────────────────────────────────────────

/// A token keeps its id while tokens are added.
proof fn lemma_first_stable(fewer: Seq<Seq<char>>, more: Seq<Seq<char>>, text: Seq<char>)
    requires
        extends(more, fewer),
        fewer.contains(text),
    ensures
        first_position(more, text) == first_position(fewer, text),
        first_position(fewer, text) < fewer.len(),
        with_entry(more, text) == more,
{
    lemma_first_position(fewer, text);
    lemma_first_position(more, text);
    let k = choose|k: int| 0 <= k < fewer.len() && fewer[k] == text;
    let at = first_position(fewer, text);
    if at >= fewer.len() {
        assert(fewer[k] != text);
    }
    assert(more[at] == fewer[at]);
    let found = first_position(more, text);
    if found < at {
        assert(more[found] == fewer[found]);
    }
    if found > at {
        assert(more[at] != text);
    }
}

proof fn lemma_entered(tokens: Seq<Seq<char>>, text: Seq<char>)
    ensures
        with_entry(tokens, text).contains(text),
        first_position(with_entry(tokens, text), text) == first_position(tokens, text),
        extends(with_entry(tokens, text), tokens),
{
    lemma_with_entry(tokens, text);
    lemma_first_position(tokens, text);
    let out = with_entry(tokens, text);
    if first_position(tokens, text) < tokens.len() {
        assert(out[first_position(tokens, text)] == text);
    } else {
        assert(out[tokens.len() as int] == text);
        crate::interner::lemma_first_position_unique(out, text, tokens.len() as int);
    }
}

proof fn lemma_applied_again(
    c: Composing,
    again: Composing,
    applied: Seq<AppliedSchema>,
    instance: Option<TokenId>,
)
    requires
        extends(again.1, compose_all_applied(c, applied, instance).1),
        forall|i: int|
            0 <= i < applied.len() ==> applied_known(#[trigger] applied[i], c.1.len()),
        option_known(instance, c.1.len()),
    ensures
        compose_all_applied(again, applied, instance).1 == again.1,
    decreases applied.len(),
{
    if applied.len() > 0 {
        let rest = applied.drop_last();
        let last = applied.last();
        let before = compose_all_applied(c, rest, instance);
        lemma_compose_applied(before, last, instance);
        lemma_applied_grow(c, rest, instance, 0);
        assert(rest.take(0) =~= seq![]);
        assert(applied_known(applied[applied.len() - 1], c.1.len()));
        assert forall|i: int| 0 <= i < rest.len() implies applied_known(
            #[trigger] rest[i],
            c.1.len(),
        ) by {
            assert(applied[i] == rest[i]);
        }
        lemma_applied_again(c, again, rest, instance);
        let n = instance_text(before.1, last.name, instance);
        lemma_entered(before.1, n);
        let t1 = with_entry(before.1, n);
        match last.instance {
            Some(template) => {
                let m = instance_text(t1, template, instance);
                lemma_entered(t1, m);
                lemma_first_stable(with_entry(t1, m), again.1, m);
            },
            None => {},
        }
        lemma_first_stable(t1, again.1, n);
    }
}

proof fn lemma_properties_again(
    c: Composing,
    again: Composing,
    properties: Seq<(TokenId, DefinitionView)>,
    instance: Option<TokenId>,
)
    requires
        extends(again.1, compose_properties(c, properties, instance).1),
        forall|i: int| 0 <= i < properties.len() ==> (#[trigger] properties[i]).0.index < c.1.len(),
        option_known(instance, c.1.len()),
    ensures
        compose_properties(again, properties, instance).1 == again.1,
    decreases properties.len(),
{
    if properties.len() > 0 {
        let rest = properties.drop_last();
        let last = properties.last();
        let before = compose_properties(c, rest, instance);
        lemma_compose_property(before, last, instance);
        lemma_properties_grow(c, rest, instance, 0);
        assert(rest.take(0) =~= seq![]);
        assert(properties[properties.len() - 1].0.index < c.1.len());
        assert forall|i: int| 0 <= i < rest.len() implies (#[trigger] rest[i]).0.index
            < c.1.len() by {
            assert(properties[i] == rest[i]);
        }
        lemma_properties_again(c, again, rest, instance);
        let n = instance_text(before.1, last.0, instance);
        lemma_entered(before.1, n);
        lemma_first_stable(with_entry(before.1, n), again.1, n);
    }
}

proof fn lemma_composed_again(
    c: Composing,
    again: Composing,
    weaker: PrimDefinitionView,
    instance: Option<TokenId>,
)
    requires
        extends(again.1, composed(c, weaker, instance).1),
        definition_known(weaker, c.1.len()),
        option_known(instance, c.1.len()),
    ensures
        composed(again, weaker, instance).1 == again.1,
{
    let middle = compose_all_applied(c, weaker.applied, instance);
    lemma_applied_grow(c, weaker.applied, instance, 0);
    assert(weaker.applied.take(0) =~= seq![]);
    lemma_properties_grow(middle, weaker.properties, instance, 0);
    assert(weaker.properties.take(0) =~= seq![]);
    lemma_applied_again(c, again, weaker.applied, instance);
    lemma_properties_again(
        middle,
        compose_all_applied(again, weaker.applied, instance),
        weaker.properties,
        instance,
    );
}

proof fn lemma_entries_again(
    registry: RegistryView,
    read: Seq<Seq<char>>,
    c: Composing,
    again: Composing,
    applied: Seq<TokenId>,
)
    requires
        extends(again.1, entries_composed(registry, read, c, applied).1),
        extends(c.1, read),
        registry_known(registry, read.len()),
        ids_known(applied, read.len()),
        again.1.len() <= usize::MAX,
    ensures
        entries_composed(registry, again.1, again, applied).1 == again.1,
    decreases applied.len(),
{
    if applied.len() > 0 {
        let rest = applied.drop_last();
        let last = applied.last();
        let before = entries_composed(registry, read, c, rest);
        lemma_entry_grow(registry, read, before, last);
        lemma_entries_grow(registry, read, c, rest, 0);
        assert(rest.take(0) =~= seq![]);
        assert(applied[applied.len() - 1].index < read.len());
        assert(ids_known(rest, read.len())) by {
            assert forall|i: int| 0 <= i < rest.len() implies (#[trigger] rest[i]).index
                < read.len() by {
                assert(applied[i] == rest[i]);
            }
        }
        lemma_entries_again(registry, read, c, again, rest);
        lemma_entry_read(registry, read, again.1, last);
        let now = entries_composed(registry, again.1, again, rest);
        lemma_place_of(
            registry.schemas,
            token_of(read, schema_part(read[last.index as int])),
            0,
        );
        match applied_entry(registry, read, last) {
            None => {},
            Some((place, None)) => {
                lemma_known_more(registry.definitions[place], read.len(), before.1.len());
                lemma_composed_again(before, now, registry.definitions[place], None);
            },
            Some((place, Some(instance))) => {
                lemma_entered(before.1, instance);
                let entered = with_entry(before.1, instance);
                lemma_known_more(registry.definitions[place], read.len(), entered.len());
                let id = token_of(before.1, instance);
                lemma_composed_grow((before.0, entered), registry.definitions[place], Some(id));
                lemma_first_stable(entered, again.1, instance);
                lemma_first_position(entered, instance);
                assert(id == token_of(again.1, instance));
                lemma_composed_again(
                    (before.0, entered),
                    (now.0, with_entry(now.1, instance)),
                    registry.definitions[place],
                    Some(id),
                );
            },
        }
    }
}

/// Once [`SchemaRegistry::intern_instance_names`] has run for the schemas
/// `applied`, building the definition of a prim of any type that they are
/// applied to forms no name that has no token.
pub proof fn law_interned_names_suffice(
    registry: RegistryView,
    typed: Option<TokenId>,
    applied: Seq<TokenId>,
    tokens: Seq<Seq<char>>,
)
    requires
        registry_known(registry, tokens.len()),
        ids_known(applied, tokens.len()),
        prim_composed(registry, None, applied, tokens).1.len() <= usize::MAX,
    ensures
        ({
            let interned = prim_composed(registry, None, applied, tokens).1;
            prim_composed(registry, typed, applied, interned).1 == interned
        }),
{
    let interned = prim_composed(registry, None, applied, tokens).1;
    let start = (typed_entry(registry, None), tokens);
    lemma_entries_grow(registry, tokens, start, applied, 0);
    assert(applied.take(0) =~= seq![]);
    lemma_entries_again(
        registry,
        tokens,
        start,
        (typed_entry(registry, typed), interned),
        applied,
    );
}

pub proof fn lemma_named_with_weaker(
    properties: Seq<(TokenId, DefinitionView)>,
    property: (TokenId, DefinitionView),
    name: TokenId,
)
    ensures
        named(with_weaker(properties, property), name) == (if property.0 == name {
            found_with(named(properties, name), property.1)
        } else {
            named(properties, name)
        }),
{
    lemma_place_of(properties, property.0, 0);
    lemma_place_of(properties, name, 0);
    let out = with_weaker(properties, property);
    let at = place_of(properties, name, 0);
    let entered = place_of(properties, property.0, 0);
    if property.0 == name {
        lemma_place_of_unique(out, name, at);
    } else if at < properties.len() {
        assert forall|i: int| 0 <= i < at implies (#[trigger] out[i]).0 != name by {
            if i != entered {
                assert(out[i] == properties[i]);
            }
        }
        assert(out[at] == properties[at]);
        lemma_place_of_unique(out, name, at);
    } else {
        assert forall|i: int| 0 <= i < out.len() implies (#[trigger] out[i]).0 != name by {
            if i < properties.len() && i != entered {
                assert(out[i] == properties[i]);
            }
        }
        lemma_place_of_unique(out, name, out.len() as int);
    }
}

proof fn lemma_found_among(
    c: Composing,
    properties: Seq<(TokenId, DefinitionView)>,
    instance: Option<TokenId>,
    text: Option<Seq<char>>,
    property: TokenId,
)
    requires
        compose_properties(c, properties, instance).1 == c.1,
        c.1.no_duplicates(),
        c.1.len() <= usize::MAX,
        property.index < c.1.len(),
        match (instance, text) {
            (Some(instance), Some(text)) => instance.index < c.1.len()
                && c.1[instance.index as int] == text,
            (None, None) => true,
            _ => false,
        },
    ensures
        named(compose_properties(c, properties, instance).0.properties, property) == found_among(
            named(c.0.properties, property),
            c.1,
            properties,
            text,
            c.1[property.index as int],
        ),
    decreases properties.len(),
{
    if properties.len() > 0 {
        let rest = properties.drop_last();
        let before = compose_properties(c, rest, instance);
        lemma_properties_grow(c, rest, instance, 0);
        assert(rest.take(0) =~= seq![]);
        lemma_compose_property(before, properties.last(), instance);
        assert(before.1 =~= c.1);
        lemma_found_among(c, rest, instance, text, property);
        let name = instance_text(c.1, properties.last().0, instance);
        assert(name == property_text(c.1, properties.last().0, text));
        let id = token_of(c.1, name);
        lemma_first_stable(c.1, c.1, name);
        lemma_first_position(c.1, name);
        lemma_named_with_weaker(before.0.properties, (id, properties.last().1), property);
        assert((id == property) == (name == c.1[property.index as int]));
    }
}

pub proof fn lemma_applied_keep_properties(
    c: Composing,
    applied: Seq<AppliedSchema>,
    instance: Option<TokenId>,
)
    ensures
        compose_all_applied(c, applied, instance).0.properties == c.0.properties,
    decreases applied.len(),
{
    if applied.len() > 0 {
        lemma_applied_keep_properties(c, applied.drop_last(), instance);
    }
}

proof fn lemma_found_applied(
    registry: RegistryView,
    c: Composing,
    applied: Seq<TokenId>,
    property: TokenId,
)
    requires
        entries_composed(registry, c.1, c, applied).1 == c.1,
        c.1.no_duplicates(),
        c.1.len() <= usize::MAX,
        property.index < c.1.len(),
    ensures
        named(entries_composed(registry, c.1, c, applied).0.properties, property) == found_applied(
            registry,
            named(c.0.properties, property),
            applied,
            property,
            c.1,
        ),
    decreases applied.len(),
{
    if applied.len() > 0 {
        let rest = applied.drop_last();
        let before = entries_composed(registry, c.1, c, rest);
        lemma_entries_grow(registry, c.1, c, rest, 0);
        assert(rest.take(0) =~= seq![]);
        lemma_entry_grow(registry, c.1, before, applied.last());
        lemma_entry_same(registry, c.1, before, applied.last());
        assert(before.1 =~= c.1);
        lemma_found_applied(registry, c, rest, property);
        match applied_entry(registry, c.1, applied.last()) {
            None => {},
            Some((place, text)) => {
                let weaker = registry.definitions[place];
                let instance = match text {
                    Some(text) => Some(token_of(c.1, text)),
                    None => None,
                };
                if let Some(text) = text {
                    lemma_first_stable(c.1, c.1, text);
                    lemma_first_position(c.1, text);
                }
                let middle = compose_all_applied(before, weaker.applied, instance);
                lemma_applied_grow(before, weaker.applied, instance, 0);
                assert(weaker.applied.take(0) =~= seq![]);
                lemma_properties_grow(middle, weaker.properties, instance, 0);
                assert(weaker.properties.take(0) =~= seq![]);
                assert(middle.1 =~= c.1);
                lemma_applied_keep_properties(before, weaker.applied, instance);
                lemma_found_among(middle, weaker.properties, instance, text, property);
            },
        }
    }
}

/// [`SchemaRegistry::property_definition`] finds what the definition of the
/// prim holds for the property.
pub proof fn law_property_definition_agrees(
    registry: RegistryView,
    typed: Option<TokenId>,
    applied: Seq<TokenId>,
    property: TokenId,
    tokens: Seq<Seq<char>>,
)
    requires
        tokens.no_duplicates(),
        tokens.len() <= usize::MAX,
        property.index < tokens.len(),
        prim_composed(registry, typed, applied, tokens).1 == tokens,
    ensures
        property_found(registry, typed, applied, property, tokens) == named(
            prim_composed(registry, typed, applied, tokens).0.properties,
            property,
        ),
{
    lemma_found_applied(registry, (typed_entry(registry, typed), tokens), applied, property);
}

// ── Applied schemas ─────────────────────────────────────────────────────

/// Whether a definition is that of a stronger one, but for a fallback that
/// the stronger one may lack.
spec fn keeps_definition(found: Option<DefinitionView>, stronger: DefinitionView) -> bool {
    found matches Some(found) && {
        &&& found.kind == stronger.kind
        &&& found.declared_type == stronger.declared_type
        &&& found.variability == stronger.variability
        &&& stronger.fallback is Some ==> found.fallback == stronger.fallback
    }
}

proof fn lemma_among_keeps(
    found: Option<DefinitionView>,
    tokens: Seq<Seq<char>>,
    properties: Seq<(TokenId, DefinitionView)>,
    instance: Option<Seq<char>>,
    name: Seq<char>,
)
    ensures
        found matches Some(stronger) ==> keeps_definition(
            found_among(found, tokens, properties, instance, name),
            stronger,
        ),
    decreases properties.len(),
{
    if properties.len() > 0 {
        lemma_among_keeps(found, tokens, properties.drop_last(), instance, name);
    }
}

proof fn lemma_among_finds(
    tokens: Seq<Seq<char>>,
    properties: Seq<(TokenId, DefinitionView)>,
    instance: Option<Seq<char>>,
    name: Seq<char>,
    j: int,
)
    requires
        0 <= j < properties.len(),
        property_text(tokens, properties[j].0, instance) == name,
        forall|k: int|
            0 <= k < j ==> property_text(tokens, (#[trigger] properties[k]).0, instance) != name,
    ensures
        keeps_definition(
            found_among(None, tokens, properties, instance, name),
            properties[j].1,
        ),
    decreases properties.len(),
{
    let rest = properties.drop_last();
    if j < rest.len() {
        assert(rest[j] == properties[j]);
        assert forall|k: int| 0 <= k < j implies property_text(
            tokens,
            (#[trigger] rest[k]).0,
            instance,
        ) != name by {
            assert(rest[k] == properties[k]);
        }
        lemma_among_finds(tokens, rest, instance, name, j);
    } else {
        lemma_among_none(tokens, rest, instance, name);
        assert forall|k: int| 0 <= k < rest.len() implies property_text(
            tokens,
            (#[trigger] rest[k]).0,
            instance,
        ) != name by {
            assert(rest[k] == properties[k]);
        }
    }
}

proof fn lemma_among_none(
    tokens: Seq<Seq<char>>,
    properties: Seq<(TokenId, DefinitionView)>,
    instance: Option<Seq<char>>,
    name: Seq<char>,
)
    ensures
        (forall|k: int|
            0 <= k < properties.len() ==> property_text(
                tokens,
                (#[trigger] properties[k]).0,
                instance,
            ) != name) ==> found_among(None, tokens, properties, instance, name) is None,
    decreases properties.len(),
{
    if properties.len() > 0 {
        let rest = properties.drop_last();
        lemma_among_none(tokens, rest, instance, name);
        if forall|k: int|
            0 <= k < properties.len() ==> property_text(
                tokens,
                (#[trigger] properties[k]).0,
                instance,
            ) != name {
            assert(properties[properties.len() - 1] == properties.last());
            assert forall|k: int| 0 <= k < rest.len() implies property_text(
                tokens,
                (#[trigger] rest[k]).0,
                instance,
            ) != name by {
                assert(rest[k] == properties[k]);
            }
        }
    }
}

proof fn lemma_applied_keeps(
    registry: RegistryView,
    found: Option<DefinitionView>,
    applied: Seq<TokenId>,
    property: TokenId,
    tokens: Seq<Seq<char>>,
)
    ensures
        found matches Some(stronger) ==> keeps_definition(
            found_applied(registry, found, applied, property, tokens),
            stronger,
        ),
    decreases applied.len(),
{
    if applied.len() > 0 {
        lemma_applied_keeps(registry, found, applied.drop_last(), property, tokens);
        let before = found_applied(registry, found, applied.drop_last(), property, tokens);
        match applied_entry(registry, tokens, applied.last()) {
            Some((place, instance)) => lemma_among_keeps(
                before,
                tokens,
                registry.definitions[place].properties,
                instance,
                tokens[property.index as int],
            ),
            None => {},
        }
    }
}

/// What the type of a prim defines of a property stands, whatever schemas are
/// applied: its kind, type and variability and, where it has one, its fallback.
pub proof fn law_a_prims_type_is_stronger_than_applied_schemas(
    registry: RegistryView,
    typed: TokenId,
    applied: Seq<TokenId>,
    property: TokenId,
    tokens: Seq<Seq<char>>,
    place: int,
    j: int,
)
    requires
        0 <= place < registry.schemas.len(),
        registry.schemas[place].0 == typed,
        forall|k: int| 0 <= k < place ==> (#[trigger] registry.schemas[k]).0 != typed,
        registry.schemas[place].1.kind == SchemaKind::ConcreteTyped,
        0 <= j < registry.definitions[place].properties.len(),
        registry.definitions[place].properties[j].0 == property,
        forall|k: int|
            0 <= k < j ==> (#[trigger] registry.definitions[place].properties[k]).0 != property,
    ensures
        property_found(registry, Some(typed), applied, property, tokens) matches Some(found) && {
            let stronger = registry.definitions[place].properties[j].1;
            &&& found.kind == stronger.kind
            &&& found.declared_type == stronger.declared_type
            &&& found.variability == stronger.variability
            &&& stronger.fallback is Some ==> found.fallback == stronger.fallback
        },
{
    lemma_place_of_unique(registry.schemas, typed, place);
    let properties = registry.definitions[place].properties;
    lemma_place_of_unique(properties, property, j);
    lemma_applied_keeps(
        registry,
        named(typed_entry(registry, Some(typed)).properties, property),
        applied,
        property,
        tokens,
    );
}

/// The property of an applied schema, with the instance filled in, is a property
/// of the prim: where neither the prim's type nor a stronger applied schema
/// defines it, that schema gives its kind, type, variability and, where it has
/// one, its fallback.
pub proof fn law_applied_schemas_define_properties(
    registry: RegistryView,
    typed: Option<TokenId>,
    applied: Seq<TokenId>,
    property: TokenId,
    tokens: Seq<Seq<char>>,
    i: int,
    j: int,
)
    requires
        0 <= i < applied.len(),
        named(typed_entry(registry, typed).properties, property) is None,
        applied_entry(registry, tokens, applied[i]) is Some,
        ({
            let (place, instance) = applied_entry(registry, tokens, applied[i])->0;
            let properties = registry.definitions[place].properties;
            &&& 0 <= j < properties.len()
            &&& property_text(tokens, properties[j].0, instance) == tokens[property.index as int]
            &&& forall|k: int|
                0 <= k < j ==> property_text(tokens, (#[trigger] properties[k]).0, instance)
                    != tokens[property.index as int]
        }),
        forall|l: int, k: int|
            0 <= l < i && (applied_entry(registry, tokens, applied[l]) matches Some((other, sub))
                && 0 <= k < registry.definitions[other].properties.len()) ==> property_text(
                tokens,
                (#[trigger] registry.definitions[(applied_entry(
                    registry,
                    tokens,
                    #[trigger] applied[l],
                )->0).0].properties[k]).0,
                (applied_entry(registry, tokens, applied[l])->0).1,
            ) != tokens[property.index as int],
    ensures
        ({
            let (place, instance) = applied_entry(registry, tokens, applied[i])->0;
            let stronger = registry.definitions[place].properties[j].1;
            property_found(registry, typed, applied, property, tokens) matches Some(found) && {
                &&& found.kind == stronger.kind
                &&& found.declared_type == stronger.declared_type
                &&& found.variability == stronger.variability
                &&& stronger.fallback is Some ==> found.fallback == stronger.fallback
            }
        }),
{
    let upper = applied.take(i);
    assert forall|l: int, k: int|
        0 <= l < upper.len() && (applied_entry(registry, tokens, upper[l]) matches Some((other, sub))
            && 0 <= k < registry.definitions[other].properties.len()) implies property_text(
        tokens,
        (#[trigger] registry.definitions[(applied_entry(
            registry,
            tokens,
            #[trigger] upper[l],
        )->0).0].properties[k]).0,
        (applied_entry(registry, tokens, upper[l])->0).1,
    ) != tokens[property.index as int] by {
        assert(upper[l] == applied[l]);
    }
    lemma_none_applied(registry, upper, property, tokens);
    let (place, instance) = applied_entry(registry, tokens, applied[i])->0;
    let stronger = registry.definitions[place].properties[j].1;
    lemma_among_finds(
        tokens,
        registry.definitions[place].properties,
        instance,
        tokens[property.index as int],
        j,
    );
    let next = applied.take(i + 1);
    assert(next.drop_last() =~= upper);
    assert(next.last() == applied[i]);
    lemma_applied_more(registry, applied, property, tokens, i + 1, stronger);
}

proof fn lemma_applied_more(
    registry: RegistryView,
    applied: Seq<TokenId>,
    property: TokenId,
    tokens: Seq<Seq<char>>,
    count: int,
    stronger: DefinitionView,
)
    requires
        0 <= count <= applied.len(),
        keeps_definition(
            found_applied(registry, None, applied.take(count), property, tokens),
            stronger,
        ),
    ensures
        keeps_definition(found_applied(registry, None, applied, property, tokens), stronger),
    decreases applied.len() - count,
{
    if count < applied.len() {
        let next = applied.take(count + 1);
        assert(next.drop_last() =~= applied.take(count));
        let before = found_applied(registry, None, applied.take(count), property, tokens);
        match applied_entry(registry, tokens, next.last()) {
            Some((place, instance)) => lemma_among_keeps(
                before,
                tokens,
                registry.definitions[place].properties,
                instance,
                tokens[property.index as int],
            ),
            None => {},
        }
        lemma_applied_more(registry, applied, property, tokens, count + 1, stronger);
    } else {
        assert(applied.take(count) =~= applied);
    }
}

proof fn lemma_none_applied(
    registry: RegistryView,
    applied: Seq<TokenId>,
    property: TokenId,
    tokens: Seq<Seq<char>>,
)
    requires
        forall|l: int, k: int|
            0 <= l < applied.len() && (applied_entry(
                registry,
                tokens,
                applied[l],
            ) matches Some((other, sub)) && 0 <= k < registry.definitions[other].properties.len())
                ==> property_text(
                tokens,
                (#[trigger] registry.definitions[(applied_entry(
                    registry,
                    tokens,
                    #[trigger] applied[l],
                )->0).0].properties[k]).0,
                (applied_entry(registry, tokens, applied[l])->0).1,
            ) != tokens[property.index as int],
    ensures
        found_applied(registry, None, applied, property, tokens) is None,
    decreases applied.len(),
{
    if applied.len() > 0 {
        let rest = applied.drop_last();
        let n = applied.len() - 1;
        assert forall|l: int, k: int|
            0 <= l < rest.len() && (applied_entry(registry, tokens, rest[l]) matches Some((other, sub))
                && 0 <= k < registry.definitions[other].properties.len()) implies property_text(
            tokens,
            (#[trigger] registry.definitions[(applied_entry(
                registry,
                tokens,
                #[trigger] rest[l],
            )->0).0].properties[k]).0,
            (applied_entry(registry, tokens, rest[l])->0).1,
        ) != tokens[property.index as int] by {
            assert(rest[l] == applied[l]);
        }
        lemma_none_applied(registry, rest, property, tokens);
        assert(applied[n] == applied.last());
        if applied_entry(registry, tokens, applied[n]) is Some {
            let (place, instance) = applied_entry(registry, tokens, applied[n])->0;
            let properties = registry.definitions[place].properties;
            assert forall|k: int| 0 <= k < properties.len() implies property_text(
                tokens,
                (#[trigger] properties[k]).0,
                instance,
            ) != tokens[property.index as int] by {
                assert(registry.definitions[(applied_entry(
                    registry,
                    tokens,
                    applied[n],
                )->0).0].properties[k] == properties[k]);
            }
            lemma_among_none(tokens, properties, instance, tokens[property.index as int]);
        }
    }
}

/// An entry without a colon applies the single-apply schema of its name, and an
/// entry of a name, a colon and more the multiple-apply schema of that name,
/// with the rest as its instance; schemas of other kinds are not applied.
pub proof fn law_entries_name_applied_schemas(
    registry: RegistryView,
    tokens: Seq<Seq<char>>,
    entry: TokenId,
    place: int,
    colon: int,
)
    requires
        tokens.len() <= usize::MAX,
        tokens.no_duplicates(),
        entry.index < tokens.len(),
        0 <= place < registry.schemas.len(),
        registry.schemas[place].0.index < tokens.len(),
        forall|k: int|
            0 <= k < place ==> (#[trigger] registry.schemas[k]).0 != registry.schemas[place].0,
        ({
            let text = tokens[entry.index as int];
            &&& 0 <= colon <= text.len()
            &&& forall|i: int| 0 <= i < colon ==> text[i] != ':'
            &&& colon < text.len() ==> text[colon] == ':' && colon + 1 < text.len()
            &&& tokens[registry.schemas[place].0.index as int] == text.take(colon)
        }),
    ensures
        ({
            let text = tokens[entry.index as int];
            let kind = registry.schemas[place].1.kind;
            applied_entry(registry, tokens, entry) == (if kind == SchemaKind::SingleApplyApi
                && colon == text.len() {
                Some((place, None))
            } else if kind == SchemaKind::MultipleApplyApi && colon < text.len() {
                Some((place, Some(text.skip(colon + 1))))
            } else {
                None
            })
        }),
{
    let text = tokens[entry.index as int];
    crate::text::lemma_index_of_unique(text, 0, ':', colon);
    let name = registry.schemas[place].0;
    let part = text.take(colon);
    assert(schema_part(text) == part);
    assert(tokens.contains(part));
    crate::interner::lemma_position_of_entry(tokens, name.index as int);
    assert(token_of(tokens, part) == name);
    lemma_place_of_unique(registry.schemas, name, place);
}

} // verus!
