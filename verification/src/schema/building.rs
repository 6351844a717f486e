//! Building the prim definition of each registered schema.

use crate::fields::{lemma_place_of, named, place_of};
use crate::interner::{
    extends, lemma_first_position_unique, lemma_with_entry, with_entries, with_entry, TokenId,
    TokenInterner,
};
use crate::order::{compare_dictionary, order_dictionary, Order};
use crate::schema::definition::{
    composed, copy_tokens, definition_known, definitions_view, holds_token, option_known,
    types_agree, typeless, with_applied, with_properties, AppliedSchema, DefinitionView,
    PrimDefinition, PrimDefinitionView, PropertyDefinition,
};
use crate::schema::kinds::{
    by_name, registered, SchemaIssue, SchemaKind, SchemaList, SchemaView,
};
use crate::schema::naming::{
    instance_part, placeholder, schema_part, split_instance, token_of, INSTANCE_NAME_PLACEHOLDER,
};
use crate::sorting::{sort_stable, stable_sorted};
use crate::text::{push_text, text};
use vstd::prelude::*;

verus! {

/// What stays the same while definitions are built.
pub struct Env {
    /// The registered schemas.
    pub schemas: Seq<(TokenId, SchemaView)>,
    /// The schemas auto-applied to each of them, strongest first.
    pub autos: Seq<Seq<TokenId>>,
    /// The token of the placeholder.
    pub mark: TokenId,
}

/// What changes while definitions are built.
#[verifier::ext_equal]
pub struct Progress {
    pub tokens: Seq<Seq<char>>,
    /// The definition of each applied schema built without meeting a cycle.
    pub complete: Seq<Option<PrimDefinitionView>>,
    /// What was left out.
    pub issues: Seq<SchemaIssue>,
}

/// Whether `name` names a registered schema.
pub open spec fn is_registered(schemas: Seq<(TokenId, SchemaView)>, name: TokenId) -> bool {
    place_of(schemas, name, 0) < schemas.len()
}

/// The registered schema `name`.
pub open spec fn schema_of(schemas: Seq<(TokenId, SchemaView)>, name: TokenId) -> SchemaView {
    schemas[place_of(schemas, name, 0)].1
}

/// Whether `name` names a registered typed schema.
pub open spec fn is_typed_schema(schemas: Seq<(TokenId, SchemaView)>, name: TokenId) -> bool {
    is_registered(schemas, name) && schema_of(schemas, name).kind.spec_is_typed()
}

/// Whether every name that is read is that of a token.
pub open spec fn env_known(env: Env, count: nat) -> bool {
    &&& env.mark.index < count
    &&& env.autos.len() == env.schemas.len()
    &&& forall|i: int| 0 <= i < env.schemas.len() ==> schema_known(#[trigger] env.schemas[i], count)
    &&& forall|i: int| 0 <= i < env.autos.len() ==> tokens_known(#[trigger] env.autos[i], count)
}

/// Whether every name of a list is that of a token.
pub open spec fn tokens_known(list: Seq<TokenId>, count: nat) -> bool {
    forall|i: int| 0 <= i < list.len() ==> (#[trigger] list[i]).index < count
}

/// Whether the names of a schema are those of tokens.
pub open spec fn schema_known(schema: (TokenId, SchemaView), count: nat) -> bool {
    &&& schema.0.index < count
    &&& tokens_known(schema.1.built_ins, count)
    &&& forall|i: int|
        0 <= i < schema.1.properties.len() ==> (#[trigger] schema.1.properties[i]).0.index < count
}

/// Whether the names of the definitions built so far are those of tokens.
pub open spec fn complete_known(complete: Seq<Option<PrimDefinitionView>>, count: nat) -> bool {
    forall|i: int|
        0 <= i < complete.len() && (#[trigger] complete[i]) is Some ==> definition_known(
            complete[i]->0,
            count,
        )
}

// ── Inclusions ──────────────────────────────────────────────────────────

/// The place of the schema that an included name names, or the number of
/// schemas.
pub open spec fn included_place(
    schemas: Seq<(TokenId, SchemaView)>,
    tokens: Seq<Seq<char>>,
    included: TokenId,
) -> int {
    let name = schema_part(tokens[included.index as int]);
    if tokens.contains(name) {
        place_of(schemas, token_of(tokens, name), 0)
    } else {
        schemas.len() as int
    }
}

/// The instance name that an inclusion is applied with, as a text; no answer
/// where the form is not allowed.
pub open spec fn included_instance(
    template: bool,
    kind: SchemaKind,
    instance: Option<Seq<char>>,
) -> Option<Option<Seq<char>>> {
    match (template, kind, instance) {
        (false, SchemaKind::SingleApplyApi, None) => Some(None),
        (false, SchemaKind::MultipleApplyApi, Some(instance)) => Some(Some(instance)),
        (true, SchemaKind::MultipleApplyApi, None) => Some(Some(placeholder())),
        (true, SchemaKind::MultipleApplyApi, Some(sub)) => Some(
            Some(placeholder() + seq![':'] + sub),
        ),
        _ => None,
    }
}

/// What an inclusion comes to: the included schema and its instance name, the
/// tokens, and the issues.
pub struct Inclusion {
    pub target: Option<(TokenId, Option<TokenId>)>,
    pub tokens: Seq<Seq<char>>,
    pub issues: Seq<SchemaIssue>,
}

/// Resolves the inclusion `included` of `schema`.
pub open spec fn inclusion_of(
    env: Env,
    p: Progress,
    schema: TokenId,
    included: TokenId,
) -> Inclusion {
    let place = included_place(env.schemas, p.tokens, included);
    if place >= env.schemas.len() {
        Inclusion {
            target: None,
            tokens: p.tokens,
            issues: with_entry(p.issues, SchemaIssue::UnknownInclusion { schema, included }),
        }
    } else {
        let target = env.schemas[place];
        let template = schema_of(env.schemas, schema).kind == SchemaKind::MultipleApplyApi;
        match included_instance(
            template,
            target.1.kind,
            instance_part(p.tokens[included.index as int]),
        ) {
            None => Inclusion {
                target: None,
                tokens: p.tokens,
                issues: with_entry(p.issues, SchemaIssue::InvalidInclusion { schema, included }),
            },
            Some(None) => Inclusion {
                target: Some((target.0, None)),
                tokens: p.tokens,
                issues: p.issues,
            },
            Some(Some(instance)) => Inclusion {
                target: Some((target.0, Some(token_of(p.tokens, instance)))),
                tokens: with_entry(p.tokens, instance),
                issues: p.issues,
            },
        }
    }
}

// ── Overrides ───────────────────────────────────────────────────────────

/// Composes an override property of `schema` over the property that it names:
/// its fallback replaces the defined one.
pub open spec fn overridden(
    c: (PrimDefinitionView, Seq<SchemaIssue>),
    schema: TokenId,
    over: (TokenId, DefinitionView),
) -> (PrimDefinitionView, Seq<SchemaIssue>) {
    match named(c.0.properties, over.0) {
        Some(defined) => {
            if !types_agree(defined, over.1) {
                (
                    c.0,
                    with_entry(
                        c.1,
                        SchemaIssue::IgnoredOverride { schema, property: over.0 },
                    ),
                )
            } else if over.1.fallback is Some {
                (
                    PrimDefinitionView {
                        properties: c.0.properties.update(
                            place_of(c.0.properties, over.0, 0),
                            (over.0, DefinitionView { fallback: over.1.fallback, ..defined }),
                        ),
                        ..c.0
                    },
                    c.1,
                )
            } else {
                c
            }
        },
        None => (
            c.0,
            with_entry(c.1, SchemaIssue::IgnoredOverride { schema, property: over.0 }),
        ),
    }
}

/// Composes the override properties of `schema`, in order.
pub open spec fn all_overridden(
    c: (PrimDefinitionView, Seq<SchemaIssue>),
    schema: TokenId,
    overrides: Seq<(TokenId, DefinitionView)>,
) -> (PrimDefinitionView, Seq<SchemaIssue>)
    decreases overrides.len(),
{
    if overrides.len() == 0 {
        c
    } else {
        overridden(all_overridden(c, schema, overrides.drop_last()), schema, overrides.last())
    }
}

// ── Applied schemas ─────────────────────────────────────────────────────

/// A definition being built, and whether no cycle was met.
pub struct Built {
    pub p: Progress,
    pub definition: PrimDefinitionView,
    pub complete: bool,
}

/// The name that a schema is applied by: with the placeholder for an instance
/// name in a template.
pub open spec fn applied_text(name: Seq<char>, template: bool) -> Seq<char> {
    if template {
        name + seq![':'] + placeholder()
    } else {
        name
    }
}

/// The definition of the applied schema `name`, built from the top: its
/// properties, then each built-in and auto-applied schema as a weaker one,
/// then its override properties. `building` holds the schemas that are being
/// built around this one: including one of them again is a cycle, and skipped.
pub open spec fn api_built(env: Env, p: Progress, name: TokenId, building: Seq<TokenId>) -> Built
    decreases env.schemas.len() + 1 - building.len(), 0nat,
{
    let place = place_of(env.schemas, name, 0);
    if building.len() > env.schemas.len() {
        Built { p, definition: typeless(), complete: true }
    } else if p.complete[place] is Some {
        Built { p, definition: p.complete[place]->0, complete: true }
    } else {
        let schema = env.schemas[place].1;
        let template = schema.kind == SchemaKind::MultipleApplyApi;
        let label = applied_text(p.tokens[name.index as int], template);
        let applied = AppliedSchema {
            name: token_of(p.tokens, label),
            schema: name,
            instance: if template {
                Some(env.mark)
            } else {
                None
            },
        };
        let started = Progress { tokens: with_entry(p.tokens, label), ..p };
        let included = all_included(
            env,
            started,
            with_properties(with_applied(typeless(), applied), schema.properties),
            name,
            building.push(name),
            schema.built_ins + env.autos[place],
        );
        let over = all_overridden(
            (included.definition, included.p.issues),
            name,
            schema.overrides,
        );
        Built {
            p: Progress {
                tokens: included.p.tokens,
                complete: if included.complete {
                    included.p.complete.update(place, Some(over.0))
                } else {
                    included.p.complete
                },
                issues: over.1,
            },
            definition: over.0,
            complete: included.complete,
        }
    }
}

/// Includes a list of schemas in the definition of `name`, in order.
pub open spec fn all_included(
    env: Env,
    p: Progress,
    definition: PrimDefinitionView,
    name: TokenId,
    building: Seq<TokenId>,
    inclusions: Seq<TokenId>,
) -> Built
    decreases env.schemas.len() + 1 - building.len(), inclusions.len() + 1,
{
    if inclusions.len() == 0 {
        Built { p, definition, complete: true }
    } else {
        let before = all_included(env, p, definition, name, building, inclusions.drop_last());
        let found = inclusion_of(env, before.p, name, inclusions.last());
        let q = Progress { tokens: found.tokens, issues: found.issues, ..before.p };
        match found.target {
            None => Built { p: q, ..before },
            Some((target, instance)) => {
                if building.contains(target) {
                    Built {
                        p: Progress {
                            issues: with_entry(
                                q.issues,
                                SchemaIssue::InclusionCycle { schema: name, included: target },
                            ),
                            ..q
                        },
                        definition: before.definition,
                        complete: false,
                    }
                } else {
                    let weaker = api_built(env, q, target, building);
                    let c = composed(
                        (before.definition, weaker.p.tokens),
                        weaker.definition,
                        instance,
                    );
                    Built {
                        p: Progress { tokens: c.1, ..weaker.p },
                        definition: c.0,
                        complete: before.complete && weaker.complete,
                    }
                }
            },
        }
    }
}

// ── Typed schemas ───────────────────────────────────────────────────────

/// A chain of typed schemas, continued to the ancestors of its last, and what
/// is wrong with the parent that it stops at.
pub open spec fn grown_chain(
    schemas: Seq<(TokenId, SchemaView)>,
    chain: Seq<TokenId>,
) -> (Seq<TokenId>, Option<SchemaIssue>)
    decreases schemas.len() + 1 - chain.len(),
{
    match schema_of(schemas, chain.last()).parent {
        None => (chain, None),
        Some(parent) => {
            if chain.len() <= schemas.len() && is_typed_schema(schemas, parent) && !chain.contains(
                parent,
            ) {
                grown_chain(schemas, chain.push(parent))
            } else {
                (chain, Some(SchemaIssue::InvalidParent { schema: chain.last(), parent }))
            }
        },
    }
}

/// A schema and the typed schemas that it inherits from, nearest first.
pub open spec fn chain_of(
    schemas: Seq<(TokenId, SchemaView)>,
    name: TokenId,
) -> (Seq<TokenId>, Option<SchemaIssue>) {
    if is_typed_schema(schemas, name) {
        grown_chain(schemas, seq![name])
    } else {
        (seq![name], None)
    }
}

/// The properties of a chain of schemas, nearest first.
pub open spec fn chain_properties(
    schemas: Seq<(TokenId, SchemaView)>,
    chain: Seq<TokenId>,
) -> Seq<(TokenId, DefinitionView)>
    decreases chain.len(),
{
    if chain.len() == 0 {
        seq![]
    } else {
        chain_properties(schemas, chain.drop_last()) + schema_of(schemas, chain.last()).properties
    }
}

/// The built-ins of a chain of schemas, nearest first.
pub open spec fn chain_built_ins(
    schemas: Seq<(TokenId, SchemaView)>,
    chain: Seq<TokenId>,
) -> Seq<TokenId>
    decreases chain.len(),
{
    if chain.len() == 0 {
        seq![]
    } else {
        chain_built_ins(schemas, chain.drop_last()) + schema_of(schemas, chain.last()).built_ins
    }
}

/// The override properties of a chain of schemas, nearest first.
pub open spec fn chain_overrides(
    schemas: Seq<(TokenId, SchemaView)>,
    chain: Seq<TokenId>,
) -> Seq<(TokenId, DefinitionView)>
    decreases chain.len(),
{
    if chain.len() == 0 {
        seq![]
    } else {
        chain_overrides(schemas, chain.drop_last()) + schema_of(schemas, chain.last()).overrides
    }
}

/// The first of the entries of each name.
pub open spec fn first_of_each(list: Seq<(TokenId, DefinitionView)>) -> Seq<
    (TokenId, DefinitionView),
>
    decreases list.len(),
{
    if list.len() == 0 {
        seq![]
    } else if place_of(list.drop_last(), list.last().0, 0) < list.len() - 1 {
        first_of_each(list.drop_last())
    } else {
        first_of_each(list.drop_last()).push(list.last())
    }
}

/// The definition of the typed schema at a place: the properties of it and its
/// ancestors, nearest first, then the built-ins of each, then the schemas
/// auto-applied, then the override properties of each.
pub open spec fn typed_built(env: Env, p: Progress, place: int, chain: Seq<TokenId>) -> Built {
    let name = env.schemas[place].0;
    let included = all_included(
        env,
        p,
        with_properties(
            PrimDefinitionView { typed: Some(name), type_chain: chain, ..typeless() },
            chain_properties(env.schemas, chain),
        ),
        name,
        seq![],
        with_entries(seq![], chain_built_ins(env.schemas, chain) + env.autos[place]),
    );
    let over = all_overridden(
        (included.definition, included.p.issues),
        name,
        first_of_each(chain_overrides(env.schemas, chain)),
    );
    Built {
        p: Progress { issues: over.1, ..included.p },
        definition: over.0,
        complete: included.complete,
    }
}

// ── The registry ────────────────────────────────────────────────────────

/// The schemas auto-applied to a schema with the inheritance `chain`, in the
/// order given, each once.
pub open spec fn auto_applied(
    schemas: Seq<(TokenId, SchemaView)>,
    chain: Seq<TokenId>,
    autos: Seq<(TokenId, TokenId)>,
) -> Seq<TokenId>
    decreases autos.len(),
{
    if autos.len() == 0 {
        seq![]
    } else {
        let before = auto_applied(schemas, chain, autos.drop_last());
        if is_registered(schemas, autos.last().1) && chain.contains(autos.last().1) {
            with_entry(before, autos.last().0)
        } else {
            before
        }
    }
}

/// Whether a token comes later in dictionary order.
pub open spec fn later_in_dictionary(tokens: Seq<Seq<char>>, a: TokenId, b: TokenId) -> bool {
    order_dictionary(tokens[b.index as int], tokens[a.index as int]) == Order::Less
}

/// The schemas auto-applied to a schema, strongest first: the later ones in
/// dictionary order are stronger.
pub open spec fn auto_list(
    schemas: Seq<(TokenId, SchemaView)>,
    tokens: Seq<Seq<char>>,
    chain: Seq<TokenId>,
    autos: Seq<(TokenId, TokenId)>,
) -> Seq<TokenId> {
    stable_sorted(
        auto_applied(schemas, chain, autos),
        |a: TokenId, b: TokenId| later_in_dictionary(tokens, a, b),
    )
}

/// What is wrong with the inheritance of the first `count` schemas.
pub open spec fn chain_issues(schemas: Seq<(TokenId, SchemaView)>, count: int) -> Seq<SchemaIssue>
    decreases count,
{
    if count <= 0 {
        seq![]
    } else {
        let before = chain_issues(schemas, count - 1);
        match chain_of(schemas, schemas[count - 1].0).1 {
            Some(issue) => with_entry(before, issue),
            None => before,
        }
    }
}

/// The issues with those of the auto-applies whose target is not registered.
pub open spec fn auto_issues(
    schemas: Seq<(TokenId, SchemaView)>,
    issues: Seq<SchemaIssue>,
    autos: Seq<(TokenId, TokenId)>,
) -> Seq<SchemaIssue>
    decreases autos.len(),
{
    if autos.len() == 0 {
        issues
    } else {
        let before = auto_issues(schemas, issues, autos.drop_last());
        if is_registered(schemas, autos.last().1) {
            before
        } else {
            with_entry(
                before,
                SchemaIssue::UnknownAutoApplyTarget {
                    schema: autos.last().0,
                    target: autos.last().1,
                },
            )
        }
    }
}

/// The definitions of the first `count` schemas.
pub open spec fn defined(env: Env, p: Progress, count: int) -> (Progress, Seq<PrimDefinitionView>)
    decreases count,
{
    if count <= 0 {
        (p, seq![])
    } else {
        let before = defined(env, p, count - 1);
        let one = defined_at(env, before.0, count - 1);
        (one.p, before.1.push(one.definition))
    }
}

/// The definition of the schema at a place.
pub open spec fn defined_at(env: Env, p: Progress, place: int) -> Built {
    if env.schemas[place].1.kind.spec_is_typed() {
        typed_built(env, p, place, chain_of(env.schemas, env.schemas[place].0).0)
    } else {
        api_built(env, p, env.schemas[place].0, seq![])
    }
}

/// What building a registry starts from.
pub open spec fn env_of(
    schemas: Seq<(TokenId, SchemaView)>,
    autos: Seq<(TokenId, TokenId)>,
    tokens: Seq<Seq<char>>,
) -> Env {
    let marked = with_entry(tokens, placeholder());
    Env {
        schemas,
        autos: Seq::new(
            schemas.len(),
            |i: int| auto_list(schemas, marked, chain_of(schemas, schemas[i].0).0, autos),
        ),
        mark: token_of(tokens, placeholder()),
    }
}

/// The registry of a list of schemas, and the tokens interned while it is
/// built.
pub open spec fn registry_built(
    given: Seq<(TokenId, SchemaView)>,
    autos: Seq<(TokenId, TokenId)>,
    tokens: Seq<Seq<char>>,
) -> (Progress, Seq<PrimDefinitionView>) {
    let schemas = registered(given);
    let start = Progress {
        tokens: with_entry(tokens, placeholder()),
        complete: Seq::new(schemas.len(), |i: int| None),
        issues: auto_issues(schemas, chain_issues(schemas, schemas.len() as int), autos),
    };
    defined(env_of(schemas, autos, tokens), start, schemas.len() as int)
}

// ── Building ────────────────────────────────────────────────────────────

/// Notes an issue, unless it has been noted.
pub fn note(issues: &mut Vec<SchemaIssue>, issue: SchemaIssue)
    ensures
        final(issues)@ == with_entry(old(issues)@, issue),
{
    let mut i: usize = 0;
    while i < issues.len()
        invariant
            i <= issues@.len(),
            issues@ == old(issues)@,
            forall|k: int| 0 <= k < i ==> issues@[k] != issue,
        decreases issues@.len() - i,
    {
        if issues[i] == issue {
            proof {
                lemma_first_position_unique(issues@, issue, i as int);
            }
            return ;
        }
        i = i + 1;
    }
    proof {
        lemma_first_position_unique(issues@, issue, i as int);
    }
    issues.push(issue);
}

/// Adds a token to a list, unless the list holds it.
fn enter(list: &mut Vec<TokenId>, token: TokenId)
    ensures
        final(list)@ == with_entry(old(list)@, token),
{
    let mut i: usize = 0;
    while i < list.len()
        invariant
            i <= list@.len(),
            list@ == old(list)@,
            forall|k: int| 0 <= k < i ==> list@[k] != token,
        decreases list@.len() - i,
    {
        if list[i] == token {
            proof {
                lemma_first_position_unique(list@, token, i as int);
            }
            return ;
        }
        i = i + 1;
    }
    proof {
        lemma_first_position_unique(list@, token, i as int);
    }
    list.push(token);
}

/// Resolves the inclusion `included` of the schema `name`.
fn inclusion(
    schemas: &SchemaList,
    name: TokenId,
    kind: SchemaKind,
    included: TokenId,
    Ghost(env): Ghost<Env>,
    Ghost(p): Ghost<Progress>,
    tokens: &mut TokenInterner,
    issues: &mut Vec<SchemaIssue>,
) -> (out: Option<(TokenId, Option<TokenId>)>)
    requires
        env.schemas == schemas@,
        p.tokens == old(tokens)@,
        p.issues == old(issues)@,
        env_known(env, old(tokens)@.len()),
        included.index < old(tokens)@.len(),
        is_registered(schemas@, name),
        kind == schema_of(schemas@, name).kind,
    ensures
        out == inclusion_of(env, p, name, included).target,
        final(tokens)@ == inclusion_of(env, p, name, included).tokens,
        final(issues)@ == inclusion_of(env, p, name, included).issues,
        extends(final(tokens)@, old(tokens)@),
        out matches Some(found) ==> {
            &&& is_registered(schemas@, found.0)
            &&& option_known(found.1, final(tokens)@.len())
        },
{
    let parts = split_instance(tokens.resolve(included));
    let place = match tokens.lookup(parts.0.as_str()) {
        Some(id) => schemas.place(id),
        None => schemas.len(),
    };
    if place >= schemas.len() {
        note(issues, SchemaIssue::UnknownInclusion { schema: name, included });
        return None;
    }
    let target = schemas.at(place);
    let target_name = target.name;
    proof {
        lemma_place_of(schemas@, target_name, 0);
        let id = token_of(tokens@, schema_part(tokens@[included.index as int]));
        lemma_place_of(schemas@, id, 0);
        assert(target_name == id);
    }
    let template = kind == SchemaKind::MultipleApplyApi;
    match (template, target.kind, parts.1) {
        (false, SchemaKind::SingleApplyApi, None) => Some((target_name, None)),
        (false, SchemaKind::MultipleApplyApi, Some(instance)) => {
            let id = tokens.intern(instance.as_str());
            assert(id == token_of(p.tokens, instance@));
            Some((target_name, Some(id)))
        },
        (true, SchemaKind::MultipleApplyApi, None) => {
            let id = tokens.intern(INSTANCE_NAME_PLACEHOLDER);
            assert(id == token_of(p.tokens, placeholder()));
            Some((target_name, Some(id)))
        },
        (true, SchemaKind::MultipleApplyApi, Some(sub)) => {
            let mut instance = text(INSTANCE_NAME_PLACEHOLDER);
            instance.push(':');
            push_text(&mut instance, sub.as_str());
            assert(instance@ =~= placeholder() + seq![':'] + sub@);
            let id = tokens.intern(instance.as_str());
            assert(id == token_of(p.tokens, instance@));
            Some((target_name, Some(id)))
        },
        _ => {
            note(issues, SchemaIssue::InvalidInclusion { schema: name, included });
            None
        },
    }
}

/// Composes an override property of `schema`.
fn apply_override(
    definition: PrimDefinition,
    schema: TokenId,
    over: &PropertyDefinition,
    issues: &mut Vec<SchemaIssue>,
) -> (out: PrimDefinition)
    ensures
        (out@, final(issues)@) == overridden((definition@, old(issues)@), schema, over@),
{
    let fits = match definition.property(over.name) {
        Some(defined) => defined.has_type_of(over),
        None => false,
    };
    if !fits {
        note(issues, SchemaIssue::IgnoredOverride { schema, property: over.name });
        return definition;
    }
    match &over.fallback {
        Some(fallback) => definition.with_property_fallback(over.name, fallback),
        None => definition,
    }
}

/// Composes a list of override properties of `schema`.
fn apply_overrides(
    definition: PrimDefinition,
    schema: TokenId,
    overrides: &Vec<PropertyDefinition>,
    issues: &mut Vec<SchemaIssue>,
) -> (out: PrimDefinition)
    ensures
        (out@, final(issues)@) == all_overridden(
            (definition@, old(issues)@),
            schema,
            definitions_view(overrides@),
        ),
{
    let ghost all = definitions_view(overrides@);
    let ghost start = (definition@, issues@);
    let mut out = definition;
    let mut i: usize = 0;
    assert(all.take(0) =~= seq![]);
    while i < overrides.len()
        invariant
            i <= overrides@.len(),
            all == definitions_view(overrides@),
            (out@, issues@) == all_overridden(start, schema, all.take(i as int)),
        decreases overrides@.len() - i,
    {
        out = apply_override(out, schema, &overrides[i], issues);
        assert(all.take(i + 1).drop_last() =~= all.take(i as int));
        i = i + 1;
    }
    assert(all.take(i as int) =~= all);
    out
}

proof fn lemma_overridden_known(
    c: (PrimDefinitionView, Seq<SchemaIssue>),
    schema: TokenId,
    overrides: Seq<(TokenId, DefinitionView)>,
    count: nat,
)
    requires
        definition_known(c.0, count),
    ensures
        definition_known(all_overridden(c, schema, overrides).0, count),
    decreases overrides.len(),
{
    if overrides.len() > 0 {
        lemma_overridden_known(c, schema, overrides.drop_last(), count);
        let before = all_overridden(c, schema, overrides.drop_last());
        lemma_place_of(before.0.properties, overrides.last().0, 0);
    }
}

proof fn lemma_properties_known(
    d: PrimDefinitionView,
    properties: Seq<(TokenId, DefinitionView)>,
    count: nat,
)
    requires
        definition_known(d, count),
        forall|i: int| 0 <= i < properties.len() ==> (#[trigger] properties[i]).0.index < count,
    ensures
        definition_known(with_properties(d, properties), count),
    decreases properties.len(),
{
    if properties.len() > 0 {
        lemma_properties_known(d, properties.drop_last(), count);
        let before = with_properties(d, properties.drop_last());
        lemma_place_of(before.properties, properties.last().0, 0);
    }
}

proof fn lemma_properties_joined(
    d: PrimDefinitionView,
    a: Seq<(TokenId, DefinitionView)>,
    b: Seq<(TokenId, DefinitionView)>,
)
    ensures
        with_properties(with_properties(d, a), b) == with_properties(d, a + b),
    decreases b.len(),
{
    if b.len() == 0 {
        assert(a + b =~= a);
    } else {
        lemma_properties_joined(d, a, b.drop_last());
        assert((a + b).drop_last() =~= a + b.drop_last());
    }
}

/// Whether the schemas that are being built are registered, each once.
pub open spec fn building_ok(schemas: Seq<(TokenId, SchemaView)>, building: Seq<TokenId>) -> bool {
    &&& building.no_duplicates()
    &&& forall|i: int| 0 <= i < building.len() ==> is_registered(schemas, #[trigger] building[i])
}

pub proof fn lemma_building_bounded(schemas: Seq<(TokenId, SchemaView)>, building: Seq<TokenId>)
    requires
        building_ok(schemas, building),
    ensures
        building.len() <= schemas.len(),
{
    let names = schemas.map_values(|s: (TokenId, SchemaView)| s.0);
    assert forall|t: TokenId| building.to_set().contains(t) implies names.to_set().contains(t) by {
        let i = choose|i: int| 0 <= i < building.len() && building[i] == t;
        assert(is_registered(schemas, building[i]));
        lemma_place_of(schemas, t, 0);
        assert(names[place_of(schemas, t, 0)] == t);
    }
    building.unique_seq_to_set();
    names.lemma_cardinality_of_set();
    vstd::set_lib::lemma_len_subset(building.to_set(), names.to_set());
}

/// Builds the definition of an applied schema.
#[verifier::rlimit(60)]
fn api_definition(
    schemas: &SchemaList,
    autos: &Vec<Vec<TokenId>>,
    Ghost(env): Ghost<Env>,
    Ghost(p): Ghost<Progress>,
    mark: TokenId,
    name: TokenId,
    building: &mut Vec<TokenId>,
    tokens: &mut TokenInterner,
    complete: &mut Vec<Option<PrimDefinition>>,
    issues: &mut Vec<SchemaIssue>,
) -> (out: (PrimDefinition, bool))
    requires
        building_inputs(schemas, autos, env, p, mark, *old(tokens), *old(complete), *old(issues)),
        is_registered(schemas@, name),
        building_ok(schemas@, old(building)@),
        !old(building)@.contains(name),
    ensures
        building_outputs(
            env,
            *old(tokens),
            *final(tokens),
            *final(complete),
            *final(issues),
            api_built(env, p, name, old(building)@).p,
        ),
        out.0@ == api_built(env, p, name, old(building)@).definition,
        out.1 == api_built(env, p, name, old(building)@).complete,
        definition_known(out.0@, final(tokens)@.len()),
        final(building)@ == old(building)@,
    decreases schemas@.len() + 1 - old(building)@.len(), 0nat,
{
    let ghost around = building@;
    proof {
        lemma_building_bounded(schemas@, around);
        lemma_place_of(schemas@, name, 0);
    }
    let place = schemas.place(name);
    assert(views_of(complete@)[place as int] == view_of(complete@[place as int]));
    match &complete[place] {
        Some(definition) => {
            return (definition.copy(), true);
        },
        None => {},
    }
    let schema = schemas.at(place);
    assert(schema_known(env.schemas[place as int], tokens@.len()));
    let template = schema.kind == SchemaKind::MultipleApplyApi;
    let ghost label = applied_text(p.tokens[name.index as int], template);
    let mut label_text = text(tokens.resolve(name));
    if template {
        label_text.push(':');
        push_text(&mut label_text, INSTANCE_NAME_PLACEHOLDER);
        assert(label_text@ =~= label);
    }
    let applied_name = tokens.intern(label_text.as_str());
    assert(applied_name == token_of(p.tokens, label));
    let ghost started = Progress { tokens: with_entry(p.tokens, label), ..p };
    let first = PrimDefinition::new(None, Vec::new());
    let applied = AppliedSchema {
        name: applied_name,
        schema: name,
        instance: if template {
            Some(mark)
        } else {
            None
        },
    };
    assert(first@ =~= typeless());
    let definition = first.push_applied(applied).with_weaker_properties(&schema.properties);
    proof {
        let shown = with_applied(typeless(), applied);
        assert(definition_known(shown, tokens@.len()));
        lemma_properties_known(shown, schema@.1.properties, tokens@.len());
    }
    building.push(name);
    let ghost inner = building@;
    assert(building_ok(schemas@, inner)) by {
        assert forall|i: int| 0 <= i < inner.len() implies is_registered(
            schemas@,
            #[trigger] inner[i],
        ) by {
            if i < around.len() {
                assert(inner[i] == around[i]);
            }
        }
        assert forall|i: int, j: int| 0 <= i < inner.len() && 0 <= j < inner.len() && i != j implies inner[i]
            != inner[j] by {
            if i == around.len() {
                assert(around[j] == inner[j]);
            }
            if j == around.len() {
                assert(around[i] == inner[i]);
            }
        }
    }
    proof {
        lemma_building_bounded(schemas@, inner);
    }
    let mut inclusions = copy_tokens(&schema.built_ins);
    let auto = &autos[place];
    let mut k: usize = 0;
    let ghost built_ins = schema@.1.built_ins;
    assert(autos_view(autos@)[place as int] == auto@);
    while k < auto.len()
        invariant
            k <= auto@.len(),
            inclusions@ == built_ins + auto@.take(k as int),
        decreases auto@.len() - k,
    {
        inclusions.push(auto[k]);
        assert(auto@.take(k + 1) =~= auto@.take(k as int).push(auto@[k as int]));
        k = k + 1;
        assert(inclusions@ =~= built_ins + auto@.take(k as int));
    }
    assert(auto@.take(k as int) =~= auto@);
    assert(tokens_known(env.autos[place as int], p.tokens.len()));
    let (included, whole) = include_all(
        schemas,
        autos,
        Ghost(env),
        Ghost(started),
        mark,
        definition,
        name,
        schema.kind,
        building,
        &inclusions,
        tokens,
        complete,
        issues,
    );
    building.pop();
    assert(building@ =~= around);
    let ghost q = all_included(
        env,
        started,
        with_properties(with_applied(typeless(), applied), schema@.1.properties),
        name,
        inner,
        inclusions@,
    );
    let ghost c = (included@, issues@);
    let out = apply_overrides(included, name, &schema.overrides, issues);
    proof {
        lemma_overridden_known(c, name, schema@.1.overrides, tokens@.len());
    }
    if whole {
        let ghost before = complete@;
        complete.set(place, Some(out.copy()));
        assert(views_of(complete@) =~= views_of(before).update(place as int, Some(out@)));
    }
    (out, whole)
}

/// Whether what is read agrees with what the building is specified over.
spec fn building_inputs(
    schemas: &SchemaList,
    autos: &Vec<Vec<TokenId>>,
    env: Env,
    p: Progress,
    mark: TokenId,
    tokens: TokenInterner,
    complete: Vec<Option<PrimDefinition>>,
    issues: Vec<SchemaIssue>,
) -> bool {
    &&& env.schemas == schemas@
    &&& env.autos == autos_view(autos@)
    &&& env.mark == mark
    &&& p.tokens == tokens@
    &&& p.complete == views_of(complete@)
    &&& p.issues == issues@
    &&& env_known(env, tokens@.len())
    &&& complete@.len() == schemas@.len()
    &&& complete_known(p.complete, tokens@.len())
}

/// What holds after a step of building.
spec fn building_outputs(
    env: Env,
    before: TokenInterner,
    tokens: TokenInterner,
    complete: Vec<Option<PrimDefinition>>,
    issues: Vec<SchemaIssue>,
    p: Progress,
) -> bool {
    &&& p.tokens == tokens@
    &&& p.complete == views_of(complete@)
    &&& p.issues == issues@
    &&& extends(tokens@, before@)
    &&& env_known(env, tokens@.len())
    &&& complete@.len() == env.schemas.len()
    &&& complete_known(p.complete, tokens@.len())
}

/// The lists of auto-applied schemas.
spec fn autos_view(autos: Seq<Vec<TokenId>>) -> Seq<Seq<TokenId>> {
    autos.map_values(|list: Vec<TokenId>| list@)
}

/// The view of an optional definition.
spec fn view_of(definition: Option<PrimDefinition>) -> Option<PrimDefinitionView> {
    match definition {
        Some(definition) => Some(definition@),
        None => None,
    }
}

/// The views of a list of optional definitions.
spec fn views_of(list: Seq<Option<PrimDefinition>>) -> Seq<Option<PrimDefinitionView>> {
    list.map_values(|d: Option<PrimDefinition>| view_of(d))
}

proof fn lemma_env_grows(env: Env, fewer: nat, more: nat)
    requires
        env_known(env, fewer),
        fewer <= more,
    ensures
        env_known(env, more),
{
    assert forall|i: int| 0 <= i < env.schemas.len() implies schema_known(
        #[trigger] env.schemas[i],
        more,
    ) by {
        assert(schema_known(env.schemas[i], fewer));
    }
    assert forall|i: int| 0 <= i < env.autos.len() implies tokens_known(
        #[trigger] env.autos[i],
        more,
    ) by {
        assert(tokens_known(env.autos[i], fewer));
    }
}

proof fn lemma_definition_grows(d: PrimDefinitionView, fewer: nat, more: nat)
    requires
        definition_known(d, fewer),
        fewer <= more,
    ensures
        definition_known(d, more),
{
    assert forall|i: int| 0 <= i < d.applied.len() implies crate::schema::definition::applied_known(
        #[trigger] d.applied[i],
        more,
    ) by {
        assert(crate::schema::definition::applied_known(d.applied[i], fewer));
    }
}

proof fn lemma_complete_grows(complete: Seq<Option<PrimDefinitionView>>, fewer: nat, more: nat)
    requires
        complete_known(complete, fewer),
        fewer <= more,
    ensures
        complete_known(complete, more),
{
    assert forall|i: int|
        0 <= i < complete.len() && (#[trigger] complete[i]) is Some implies definition_known(
        complete[i]->0,
        more,
    ) by {
        lemma_definition_grows(complete[i]->0, fewer, more);
    }
}

/// Includes a list of schemas in a definition.
#[verifier::rlimit(60)]
fn include_all(
    schemas: &SchemaList,
    autos: &Vec<Vec<TokenId>>,
    Ghost(env): Ghost<Env>,
    Ghost(p): Ghost<Progress>,
    mark: TokenId,
    definition: PrimDefinition,
    name: TokenId,
    kind: SchemaKind,
    building: &mut Vec<TokenId>,
    inclusions: &Vec<TokenId>,
    tokens: &mut TokenInterner,
    complete: &mut Vec<Option<PrimDefinition>>,
    issues: &mut Vec<SchemaIssue>,
) -> (out: (PrimDefinition, bool))
    requires
        building_inputs(schemas, autos, env, p, mark, *old(tokens), *old(complete), *old(issues)),
        is_registered(schemas@, name),
        kind == schema_of(schemas@, name).kind,
        building_ok(schemas@, old(building)@),
        tokens_known(inclusions@, old(tokens)@.len()),
        definition_known(definition@, old(tokens)@.len()),
    ensures
        building_outputs(
            env,
            *old(tokens),
            *final(tokens),
            *final(complete),
            *final(issues),
            all_included(env, p, definition@, name, old(building)@, inclusions@).p,
        ),
        out.0@ == all_included(env, p, definition@, name, old(building)@, inclusions@).definition,
        out.1 == all_included(env, p, definition@, name, old(building)@, inclusions@).complete,
        definition_known(out.0@, final(tokens)@.len()),
        final(building)@ == old(building)@,
    decreases schemas@.len() + 1 - old(building)@.len(), 1nat,
{
    let ghost around = building@;
    let ghost first = definition@;
    let ghost start = tokens@;
    proof {
        lemma_building_bounded(schemas@, around);
    }
    let mut out = definition;
    let mut whole = true;
    let mut i: usize = 0;
    let ghost mut now = p;
    assert(inclusions@.take(0) =~= seq![]);
    while i < inclusions.len()
        invariant
            i <= inclusions@.len(),
            around.len() <= schemas@.len(),
            around == old(building)@,
            building@ == around,
            building_ok(schemas@, around),
            start == old(tokens)@,
            extends(tokens@, start),
            is_registered(schemas@, name),
            kind == schema_of(schemas@, name).kind,
            tokens_known(inclusions@, start.len()),
            building_inputs(schemas, autos, env, now, mark, *tokens, *complete, *issues),
            definition_known(out@, tokens@.len()),
            (Built { p: now, definition: out@, complete: whole }) == all_included(
                env,
                p,
                first,
                name,
                around,
                inclusions@.take(i as int),
            ),
        decreases inclusions@.len() - i,
    {
        let ghost before = Built { p: now, definition: out@, complete: whole };
        assert(inclusions@.take(i + 1).drop_last() =~= inclusions@.take(i as int));
        let included = inclusions[i];
        let ghost found = inclusion_of(env, now, name, included);
        let ghost counted = tokens@.len();
        let target = inclusion(
            schemas,
            name,
            kind,
            included,
            Ghost(env),
            Ghost(now),
            tokens,
            issues,
        );
        proof {
            now = Progress { tokens: found.tokens, issues: found.issues, ..now };
            lemma_env_grows(env, counted, tokens@.len());
            lemma_complete_grows(now.complete, counted, tokens@.len());
            lemma_definition_grows(out@, counted, tokens@.len());
        }
        match target {
            None => {},
            Some((target, instance)) => {
                if holds_token(building, target) {
                    note(issues, SchemaIssue::InclusionCycle { schema: name, included: target });
                    whole = false;
                    proof {
                        now = Progress {
                            issues: with_entry(
                                now.issues,
                                SchemaIssue::InclusionCycle { schema: name, included: target },
                            ),
                            ..now
                        };
                    }
                } else {
                    let ghost weaker_built = api_built(env, now, target, around);
                    let ghost counted_here = tokens@.len();
                    let (weaker, weaker_whole) = api_definition(
                        schemas,
                        autos,
                        Ghost(env),
                        Ghost(now),
                        mark,
                        target,
                        building,
                        tokens,
                        complete,
                        issues,
                    );
                    whole = whole && weaker_whole;
                    proof {
                        lemma_definition_grows(out@, counted_here, tokens@.len());
                        now = weaker_built.p;
                    }
                    let ghost counted_then = tokens@.len();
                    out = out.compose_weaker(&weaker, instance, tokens);
                    proof {
                        lemma_env_grows(env, counted_then, tokens@.len());
                        lemma_complete_grows(now.complete, counted_then, tokens@.len());
                        now = Progress { tokens: tokens@, ..now };
                    }
                }
            },
        }
        i = i + 1;
    }
    assert(inclusions@.take(i as int) =~= inclusions@);
    (out, whole)
}

/// Whether a chain holds registered schemas, each once.
proof fn lemma_chain_ok(schemas: Seq<(TokenId, SchemaView)>, chain: Seq<TokenId>)
    requires
        chain.len() > 0,
        building_ok(schemas, chain),
    ensures
        building_ok(schemas, grown_chain(schemas, chain).0),
        grown_chain(schemas, chain).0.len() > 0,
    decreases schemas.len() + 1 - chain.len(),
{
    lemma_building_bounded(schemas, chain);
    match schema_of(schemas, chain.last()).parent {
        None => {},
        Some(parent) => {
            if is_typed_schema(schemas, parent) && !chain.contains(parent) {
                let next = chain.push(parent);
                lemma_one_more(schemas, chain, parent);
                lemma_building_bounded(schemas, next);
                lemma_chain_ok(schemas, next);
            }
        },
    }
}

pub proof fn lemma_one_more(
    schemas: Seq<(TokenId, SchemaView)>,
    chain: Seq<TokenId>,
    name: TokenId,
)
    requires
        building_ok(schemas, chain),
        is_registered(schemas, name),
        !chain.contains(name),
    ensures
        building_ok(schemas, chain.push(name)),
{
    let next = chain.push(name);
    assert forall|i: int| 0 <= i < next.len() implies is_registered(schemas, #[trigger] next[i]) by {
        if i < chain.len() {
            assert(next[i] == chain[i]);
        }
    }
    assert forall|i: int, j: int| 0 <= i < next.len() && 0 <= j < next.len() && i != j implies next[i]
        != next[j] by {
        if i == chain.len() {
            assert(chain[j] == next[j]);
        }
        if j == chain.len() {
            assert(chain[i] == next[i]);
        }
    }
}

/// The schema `name` and the typed schemas that it inherits from, nearest
/// first.
fn type_chain(schemas: &SchemaList, name: TokenId, issues: &mut Vec<SchemaIssue>) -> (chain: Vec<
    TokenId,
>)
    requires
        is_registered(schemas@, name),
    ensures
        chain@ == chain_of(schemas@, name).0,
        final(issues)@ == (match chain_of(schemas@, name).1 {
            Some(issue) => with_entry(old(issues)@, issue),
            None => old(issues)@,
        }),
        building_ok(schemas@, chain@),
        chain@.len() > 0,
{
    let mut chain: Vec<TokenId> = Vec::new();
    chain.push(name);
    assert(chain@ =~= seq![name]);
    assert(building_ok(schemas@, chain@));
    if !schemas.at(schemas.place(name)).kind.is_typed() {
        return chain;
    }
    let ghost expected = grown_chain(schemas@, seq![name]);
    let mut current = schemas.place(name);
    loop
        invariant
            issues@ == old(issues)@,
            expected == chain_of(schemas@, name),
            chain@.len() > 0,
            building_ok(schemas@, chain@),
            current < schemas@.len(),
            current == place_of(schemas@, chain@.last(), 0),
            expected == grown_chain(schemas@, chain@),
        decreases schemas@.len() + 1 - chain@.len(),
    {
        proof {
            lemma_building_bounded(schemas@, chain@);
        }
        let schema = schemas.at(current);
        proof {
            lemma_place_of(schemas@, chain@.last(), 0);
        }
        match schema.parent {
            None => {
                return chain;
            },
            Some(parent) => {
                let place = schemas.place(parent);
                let fits = place < schemas.len() && schemas.at(place).kind.is_typed()
                    && !holds_token(&chain, parent);
                if !fits {
                    note(issues, SchemaIssue::InvalidParent { schema: schema.name, parent });
                    return chain;
                }
                let ghost before = chain@;
                proof {
                    lemma_one_more(schemas@, before, parent);
                    lemma_building_bounded(schemas@, before.push(parent));
                }
                chain.push(parent);
                current = place;
            },
        }
    }
}

proof fn lemma_entries_joined<T>(s: Seq<T>, a: Seq<T>, b: Seq<T>)
    ensures
        with_entries(with_entries(s, a), b) == with_entries(s, a + b),
    decreases b.len(),
{
    if b.len() == 0 {
        assert(a + b =~= a);
    } else {
        lemma_entries_joined(s, a, b.drop_last());
        assert((a + b).drop_last() =~= a + b.drop_last());
    }
}

/// Adds each of a list of tokens to another, unless it holds it.
fn enter_all(list: &mut Vec<TokenId>, more: &Vec<TokenId>)
    ensures
        final(list)@ == with_entries(old(list)@, more@),
{
    let ghost start = list@;
    let mut i: usize = 0;
    assert(more@.take(0) =~= seq![]);
    while i < more.len()
        invariant
            i <= more@.len(),
            list@ == with_entries(start, more@.take(i as int)),
        decreases more@.len() - i,
    {
        enter(list, more[i]);
        assert(more@.take(i + 1).drop_last() =~= more@.take(i as int));
        i = i + 1;
    }
    assert(more@.take(i as int) =~= more@);
}

proof fn lemma_entries_known(s: Seq<TokenId>, more: Seq<TokenId>, count: nat)
    requires
        tokens_known(s, count),
        tokens_known(more, count),
    ensures
        tokens_known(with_entries(s, more), count),
    decreases more.len(),
{
    if more.len() > 0 {
        assert(tokens_known(more.drop_last(), count)) by {
            assert forall|i: int| 0 <= i < more.len() - 1 implies (#[trigger] more.drop_last()[i]).index
                < count by {
                assert(more[i] == more.drop_last()[i]);
            }
        }
        lemma_entries_known(s, more.drop_last(), count);
        lemma_with_entry(with_entries(s, more.drop_last()), more.last());
        assert(more[more.len() - 1].index < count);
    }
}

proof fn lemma_first_of_each_place(list: Seq<(TokenId, DefinitionView)>, name: TokenId)
    ensures
        place_of(first_of_each(list), name, 0) < first_of_each(list).len() <==> place_of(
            list,
            name,
            0,
        ) < list.len(),
    decreases list.len(),
{
    let kept = first_of_each(list);
    lemma_place_of(list, name, 0);
    lemma_place_of(kept, name, 0);
    if list.len() > 0 {
        let rest = list.drop_last();
        let before = first_of_each(rest);
        lemma_first_of_each_place(rest, name);
        lemma_place_of(rest, name, 0);
        lemma_place_of(before, name, 0);
        lemma_first_of_each_place(rest, list.last().0);
        lemma_place_of(rest, list.last().0, 0);
        let at = place_of(list, name, 0);
        let kept_at = place_of(kept, name, 0);
        if at < list.len() && at < rest.len() {
            assert(rest[at] == list[at]);
            assert(place_of(rest, name, 0) < rest.len()) by {
                if place_of(rest, name, 0) >= rest.len() {
                    assert(rest[at].0 != name);
                }
            }
            let b = place_of(before, name, 0);
            assert(before[b].0 == name);
            assert(kept[b] == before[b]);
            if kept_at >= kept.len() {
                assert(kept[b].0 != name);
            }
        } else if at < list.len() {
            if kept.len() == before.len() {
                let b = place_of(before, name, 0);
                let r = place_of(rest, list.last().0, 0);
                assert(list.last().0 == name);
                assert(before[b].0 == name);
                if kept_at >= kept.len() {
                    assert(kept[b].0 != name);
                }
            } else {
                assert(kept[kept.len() - 1] == list.last());
                if kept_at >= kept.len() {
                    assert(kept[kept.len() - 1].0 != name);
                }
            }
        }
        if kept_at < kept.len() {
            if kept_at < before.len() {
                assert(before[kept_at] == kept[kept_at]);
                assert(place_of(before, name, 0) < before.len()) by {
                    if place_of(before, name, 0) >= before.len() {
                        assert(before[kept_at].0 != name);
                    }
                }
                let r = place_of(rest, name, 0);
                assert(list[r] == rest[r]);
                if at >= list.len() {
                    assert(list[r].0 != name);
                }
            } else {
                assert(list[list.len() - 1].0 == name);
                if at >= list.len() {
                    assert(list[list.len() - 1].0 != name);
                }
            }
        }
    }
}

/// The override properties of a chain, the first of each name.
fn chain_override_list(schemas: &SchemaList, chain: &Vec<TokenId>) -> (out: Vec<PropertyDefinition>)
    requires
        building_ok(schemas@, chain@),
    ensures
        definitions_view(out@) == first_of_each(chain_overrides(schemas@, chain@)),
{
    let mut out: Vec<PropertyDefinition> = Vec::new();
    let ghost mut seen: Seq<(TokenId, DefinitionView)> = seq![];
    let mut i: usize = 0;
    assert(chain@.take(0) =~= seq![]);
    assert(definitions_view(out@) =~= first_of_each(seen));
    while i < chain.len()
        invariant
            i <= chain@.len(),
            building_ok(schemas@, chain@),
            seen == chain_overrides(schemas@, chain@.take(i as int)),
            definitions_view(out@) == first_of_each(seen),
        decreases chain@.len() - i,
    {
        assert(is_registered(schemas@, chain@[i as int]));
        let schema = schemas.at(schemas.place(chain[i]));
        let ghost earlier = seen;
        let ghost overrides = schema@.1.overrides;
        let mut k: usize = 0;
        assert(earlier + overrides.take(0) =~= earlier);
        while k < schema.overrides.len()
            invariant
                k <= schema.overrides@.len(),
                overrides == definitions_view(schema.overrides@),
                seen == earlier + overrides.take(k as int),
                definitions_view(out@) == first_of_each(seen),
            decreases schema.overrides@.len() - k,
        {
            let over = &schema.overrides[k];
            let mut known = false;
            let mut m: usize = 0;
            while m < out.len()
                invariant
                    m <= out@.len(),
                    !known ==> forall|x: int|
                        0 <= x < m ==> (#[trigger] definitions_view(out@)[x]).0 != over.name,
                    known ==> exists|x: int|
                        0 <= x < out@.len() && (#[trigger] definitions_view(out@)[x]).0
                            == over.name,
                decreases out@.len() - m,
            {
                assert(definitions_view(out@)[m as int].0 == out@[m as int].name);
                if out[m].name == over.name {
                    known = true;
                }
                m = m + 1;
            }
            proof {
                let kept = definitions_view(out@);
                lemma_first_of_each_place(seen, over.name);
                lemma_place_of(kept, over.name, 0);
                lemma_place_of(seen, over.name, 0);
                if known {
                    let x = choose|x: int|
                        0 <= x < out@.len() && (#[trigger] definitions_view(out@)[x]).0
                            == over.name;
                    if place_of(kept, over.name, 0) >= kept.len() {
                        assert(kept[x].0 != over.name);
                    }
                }
                let next = seen.push(over@);
                assert(next.drop_last() =~= seen);
                assert(earlier + overrides.take(k + 1) =~= next);
                seen = next;
            }
            if !known {
                let ghost before = out@;
                out.push(over.copy());
                assert(definitions_view(out@) =~= definitions_view(before).push(over@));
            }
            k = k + 1;
        }
        assert(overrides.take(k as int) =~= overrides);
        assert(chain@.take(i + 1).drop_last() =~= chain@.take(i as int));
        i = i + 1;
    }
    assert(chain@.take(i as int) =~= chain@);
    out
}

/// Builds the definition of a typed schema.
#[verifier::rlimit(60)]
fn typed_definition(
    schemas: &SchemaList,
    autos: &Vec<Vec<TokenId>>,
    Ghost(env): Ghost<Env>,
    Ghost(p): Ghost<Progress>,
    mark: TokenId,
    place: usize,
    chain: &Vec<TokenId>,
    tokens: &mut TokenInterner,
    complete: &mut Vec<Option<PrimDefinition>>,
    issues: &mut Vec<SchemaIssue>,
) -> (out: PrimDefinition)
    requires
        building_inputs(schemas, autos, env, p, mark, *old(tokens), *old(complete), *old(issues)),
        place < schemas@.len(),
        building_ok(schemas@, chain@),
    ensures
        building_outputs(
            env,
            *old(tokens),
            *final(tokens),
            *final(complete),
            *final(issues),
            typed_built(env, p, place as int, chain@).p,
        ),
        out@ == typed_built(env, p, place as int, chain@).definition,
        definition_known(out@, final(tokens)@.len()),
{
    let schema = schemas.at(place);
    let name = schema.name;
    let count = schemas.len();
    let ghost counted = tokens@.len();
    proof {
        lemma_place_of(schemas@, name, 0);
        let at = place_of(schemas@, name, 0);
        if at < place {
            assert(schemas@[at].0.index < schemas@[place as int].0.index);
        }
        if at > place {
            assert(schemas@[place as int].0 != name);
        }
        assert(at == place);
    }
    let ghost first = PrimDefinitionView { typed: Some(name), type_chain: chain@, ..typeless() };
    let mut out = PrimDefinition::new(Some(name), copy_tokens(chain));
    let mut inclusions: Vec<TokenId> = Vec::new();
    let mut i: usize = 0;
    assert(chain@.take(0) =~= seq![]);
    assert(out@ =~= first);
    assert(definition_known(first, counted));
    while i < chain.len()
        invariant
            i <= chain@.len(),
            building_ok(schemas@, chain@),
            env.schemas == schemas@,
            env_known(env, counted),
            definition_known(out@, counted),
            tokens_known(inclusions@, counted),
            out@ == with_properties(first, chain_properties(schemas@, chain@.take(i as int))),
            inclusions@ == with_entries(
                seq![],
                chain_built_ins(schemas@, chain@.take(i as int)),
            ),
        decreases chain@.len() - i,
    {
        assert(is_registered(schemas@, chain@[i as int]));
        let at = schemas.place(chain[i]);
        let ancestor = schemas.at(at);
        proof {
            assert(schema_known(env.schemas[at as int], counted));
            let done = chain@.take(i as int);
            assert(chain@.take(i + 1).drop_last() =~= done);
            lemma_properties_joined(
                first,
                chain_properties(schemas@, done),
                ancestor@.1.properties,
            );
            lemma_properties_known(out@, ancestor@.1.properties, counted);
            lemma_entries_joined(
                seq![],
                chain_built_ins(schemas@, done),
                ancestor@.1.built_ins,
            );
            lemma_entries_known(inclusions@, ancestor@.1.built_ins, counted);
        }
        out = out.with_weaker_properties(&ancestor.properties);
        enter_all(&mut inclusions, &ancestor.built_ins);
        i = i + 1;
    }
    assert(chain@.take(i as int) =~= chain@);
    proof {
        lemma_entries_joined(
            seq![],
            chain_built_ins(schemas@, chain@),
            env.autos[place as int],
        );
        assert(tokens_known(env.autos[place as int], counted));
        lemma_entries_known(inclusions@, env.autos[place as int], counted);
        assert(autos_view(autos@)[place as int] == autos@[place as int]@);
    }
    enter_all(&mut inclusions, &autos[place]);
    let mut building: Vec<TokenId> = Vec::new();
    let ghost begun = out@;
    let (included, _) = include_all(
        schemas,
        autos,
        Ghost(env),
        Ghost(p),
        mark,
        out,
        name,
        schema.kind,
        &mut building,
        &inclusions,
        tokens,
        complete,
        issues,
    );
    let ghost c = (included@, issues@);
    let overrides = chain_override_list(schemas, chain);
    let done = apply_overrides(included, name, &overrides, issues);
    proof {
        lemma_overridden_known(c, name, definitions_view(overrides@), tokens@.len());
    }
    done
}

/// The schemas auto-applied to a schema, strongest first.
fn auto_apply_list(
    schemas: &SchemaList,
    chain: &Vec<TokenId>,
    autos: &Vec<(TokenId, TokenId)>,
    tokens: &TokenInterner,
) -> (list: Vec<TokenId>)
    requires
        forall|i: int| 0 <= i < autos@.len() ==> (#[trigger] autos@[i]).0.index < tokens@.len(),
    ensures
        list@ == auto_list(schemas@, tokens@, chain@, autos@),
        tokens_known(list@, tokens@.len()),
{
    let mut list: Vec<TokenId> = Vec::new();
    let mut i: usize = 0;
    assert(autos@.take(0) =~= seq![]);
    while i < autos.len()
        invariant
            i <= autos@.len(),
            forall|i: int| 0 <= i < autos@.len() ==> (#[trigger] autos@[i]).0.index < tokens@.len(),
            tokens_known(list@, tokens@.len()),
            list@ == auto_applied(schemas@, chain@, autos@.take(i as int)),
        decreases autos@.len() - i,
    {
        let (api, target) = autos[i];
        assert(autos@.take(i + 1).drop_last() =~= autos@.take(i as int));
        let count = schemas.len();
        if schemas.place(target) < count && holds_token(chain, target) {
            let ghost before = list@;
            enter(&mut list, api);
            proof {
                lemma_with_entry(before, api);
                assert(autos@[i as int].0.index < tokens@.len());
            }
        }
        i = i + 1;
    }
    assert(autos@.take(i as int) =~= autos@);
    let ghost order = |a: TokenId, b: TokenId| later_in_dictionary(tokens@, a, b);
    let before = |a: &TokenId, b: &TokenId| -> (r: bool)
        requires
            both_known(*a, *b, tokens@),
        ensures
            r == later_in_dictionary(tokens@, *a, *b),
        { compare_dictionary(tokens.resolve(*b), tokens.resolve(*a)) == Order::Less };
    let ghost unsorted = list@;
    sort_stable(&mut list, before, Ghost(order));
    proof {
        crate::sorting::lemma_stable_sorted(unsorted, order);
        assert forall|i: int| 0 <= i < list@.len() implies (#[trigger] list@[i]).index
            < tokens@.len() by {
            assert(list@.to_multiset().count(list@[i]) > 0) by {
                list@.to_multiset_ensures();
                assert(list@.contains(list@[i]));
            }
            unsorted.to_multiset_ensures();
            assert(unsorted.contains(list@[i]));
        }
    }
    list
}

/// Whether both ids name tokens.
pub open spec fn both_known(a: TokenId, b: TokenId, tokens: Seq<Seq<char>>) -> bool {
    a.index < tokens.len() && b.index < tokens.len()
}

/// Builds the definition of each schema.
#[verifier::rlimit(60)]
pub(crate) fn build_definitions(
    schemas: &SchemaList,
    auto_applies: &Vec<(TokenId, TokenId)>,
    tokens: &mut TokenInterner,
    issues: &mut Vec<SchemaIssue>,
    Ghost(given): Ghost<Seq<(TokenId, SchemaView)>>,
) -> (out: Vec<PrimDefinition>)
    requires
        schemas@ == registered(given),
        old(issues)@.len() == 0,
        forall|i: int|
            0 <= i < schemas@.len() ==> schema_known(#[trigger] schemas@[i], old(tokens)@.len()),
        forall|i: int|
            0 <= i < auto_applies@.len() ==> (#[trigger] auto_applies@[i]).0.index
                < old(tokens)@.len(),
    ensures
        ({
            let built = registry_built(given, auto_applies@, old(tokens)@);
            &&& final(tokens)@ == built.0.tokens
            &&& final(issues)@ == built.0.issues
            &&& out@.map_values(|d: PrimDefinition| d@) == built.1
        }),
        out@.len() == schemas@.len(),
        forall|i: int|
            0 <= i < out@.len() ==> definition_known((#[trigger] out@[i])@, final(tokens)@.len()),
        extends(final(tokens)@, old(tokens)@),
{
    let ghost first = tokens@;
    let mark = tokens.intern(INSTANCE_NAME_PLACEHOLDER);
    let ghost marked = tokens@;
    let ghost env = env_of(schemas@, auto_applies@, first);
    assert(mark == token_of(first, placeholder()));
    let mut chains: Vec<Vec<TokenId>> = Vec::new();
    let mut autos: Vec<Vec<TokenId>> = Vec::new();
    let mut complete: Vec<Option<PrimDefinition>> = Vec::new();
    let count = schemas.len();
    let mut i: usize = 0;
    assert(issues@ =~= seq![]);
    while i < count
        invariant
            i <= count == schemas@.len(),
            by_name(schemas@),
            tokens@ == marked,
            marked == with_entry(first, placeholder()),
            env == env_of(schemas@, auto_applies@, first),
            forall|k: int|
                0 <= k < auto_applies@.len() ==> (#[trigger] auto_applies@[k]).0.index
                    < marked.len(),
            chains@.len() == i,
            autos@.len() == i,
            complete@.len() == i,
            forall|k: int|
                0 <= k < i ==> (#[trigger] chains@[k])@ == chain_of(schemas@, schemas@[k].0).0
                    && building_ok(schemas@, chains@[k]@),
            forall|k: int|
                0 <= k < i ==> (#[trigger] autos@[k])@ == env.autos[k] && tokens_known(
                    autos@[k]@,
                    marked.len(),
                ),
            forall|k: int| 0 <= k < i ==> (#[trigger] complete@[k]) is None,
            issues@ == chain_issues(schemas@, i as int),
        decreases count - i,
    {
        let name = schemas.at(i).name;
        proof {
            lemma_place_of(schemas@, name, 0);
            let at = place_of(schemas@, name, 0);
            if at >= schemas@.len() {
                assert(schemas@[i as int].0 != name);
            }
        }
        let chain = type_chain(schemas, name, issues);
        let list = auto_apply_list(schemas, &chain, auto_applies, tokens);
        chains.push(chain);
        autos.push(list);
        complete.push(None);
        i = i + 1;
    }
    let ghost noted = issues@;
    let mut k: usize = 0;
    assert(auto_applies@.take(0) =~= seq![]);
    while k < auto_applies.len()
        invariant
            k <= auto_applies@.len(),
            issues@ == auto_issues(schemas@, noted, auto_applies@.take(k as int)),
        decreases auto_applies@.len() - k,
    {
        let (api, target) = auto_applies[k];
        assert(auto_applies@.take(k + 1).drop_last() =~= auto_applies@.take(k as int));
        let known = schemas.len();
        if schemas.place(target) >= known {
            note(issues, SchemaIssue::UnknownAutoApplyTarget { schema: api, target });
        }
        k = k + 1;
    }
    assert(auto_applies@.take(k as int) =~= auto_applies@);
    let ghost start = Progress {
        tokens: marked,
        complete: Seq::new(schemas@.len(), |i: int| None),
        issues: issues@,
    };
    let ghost mut now = start;
    let mut out: Vec<PrimDefinition> = Vec::new();
    let mut n: usize = 0;
    proof {
        assert(views_of(complete@) =~= start.complete);
        assert(env.autos =~= autos_view(autos@));
        assert forall|i: int| 0 <= i < env.schemas.len() implies schema_known(
            #[trigger] env.schemas[i],
            marked.len(),
        ) by {
            assert(schema_known(schemas@[i], first.len()));
        }
        assert forall|i: int| 0 <= i < env.autos.len() implies tokens_known(
            #[trigger] env.autos[i],
            marked.len(),
        ) by {
            assert(autos@[i]@ == env.autos[i]);
        }
        assert(out@.map_values(|d: PrimDefinition| d@) =~= seq![]);
    }
    while n < count
        invariant
            n <= count == schemas@.len(),
            by_name(schemas@),
            chains@.len() == count,
            forall|k: int|
                0 <= k < count ==> (#[trigger] chains@[k])@ == chain_of(schemas@, schemas@[k].0).0
                    && building_ok(schemas@, chains@[k]@),
            building_inputs(schemas, &autos, env, now, mark, *tokens, complete, *issues),
            extends(tokens@, first),
            out@.len() == n,
            (now, out@.map_values(|d: PrimDefinition| d@)) == defined(env, start, n as int),
            forall|i: int|
                0 <= i < n ==> definition_known((#[trigger] out@[i])@, tokens@.len()),
        decreases count - n,
    {
        let schema = schemas.at(n);
        let name = schema.name;
        let ghost counted = tokens@.len();
        let ghost before = out@;
        let ghost built = defined_at(env, now, n as int);
        proof {
            lemma_place_of(schemas@, name, 0);
            let at = place_of(schemas@, name, 0);
            if at >= schemas@.len() {
                assert(schemas@[n as int].0 != name);
            }
        }
        assert(chains@[n as int]@ == chain_of(schemas@, schemas@[n as int].0).0);
        let definition = if schema.kind.is_typed() {
            typed_definition(
                schemas,
                &autos,
                Ghost(env),
                Ghost(now),
                mark,
                n,
                &chains[n],
                tokens,
                &mut complete,
                issues,
            )
        } else {
            let mut building: Vec<TokenId> = Vec::new();
            api_definition(
                schemas,
                &autos,
                Ghost(env),
                Ghost(now),
                mark,
                name,
                &mut building,
                tokens,
                &mut complete,
                issues,
            ).0
        };
        proof {
            assert forall|i: int| 0 <= i < n implies definition_known(
                (#[trigger] before[i])@,
                tokens@.len(),
            ) by {
                lemma_definition_grows(before[i]@, counted, tokens@.len());
            }
            assert(before.push(definition).map_values(|d: PrimDefinition| d@)
                =~= before.map_values(|d: PrimDefinition| d@).push(definition@));
            now = built.p;
        }
        out.push(definition);
        n = n + 1;
    }
    out
}


/// What a schema may take in, by kind: a single-apply schema without an instance
/// name and a multiple-apply one with it, but a multiple-apply schema only takes
/// in multiple-apply ones, for its own instances or for names beneath them.
pub proof fn law_schemas_take_in_by_kind(sub: Seq<char>)
    ensures
        included_instance(false, SchemaKind::SingleApplyApi, None) == Some(None::<Seq<char>>),
        included_instance(false, SchemaKind::SingleApplyApi, Some(sub)) is None,
        included_instance(false, SchemaKind::MultipleApplyApi, None) is None,
        included_instance(false, SchemaKind::MultipleApplyApi, Some(sub)) == Some(Some(sub)),
        included_instance(true, SchemaKind::SingleApplyApi, None) is None,
        included_instance(true, SchemaKind::SingleApplyApi, Some(sub)) is None,
        included_instance(true, SchemaKind::MultipleApplyApi, None) == Some(Some(placeholder())),
        included_instance(true, SchemaKind::MultipleApplyApi, Some(sub)) == Some(
            Some(placeholder() + seq![':'] + sub),
        ),
        forall|template: bool, kind: SchemaKind, instance: Option<Seq<char>>|
            kind != SchemaKind::SingleApplyApi && kind != SchemaKind::MultipleApplyApi
                ==> #[trigger] included_instance(template, kind, instance) is None,
{
}

} // verus!
