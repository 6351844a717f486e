//! What the definitions of a registry take from the schemas that they inherit
//! from and include.

use crate::fields::{lemma_place_of, lemma_place_of_unique, named, place_of};
use crate::interner::{with_entries, TokenId};
use crate::schema::building::{
    all_included, all_overridden, api_built, building_ok, chain_of, chain_overrides,
    chain_properties, defined, defined_at, env_of, first_of_each, grown_chain, inclusion_of,
    is_registered, is_typed_schema, lemma_building_bounded, lemma_one_more, overridden,
    registry_built, schema_of, typed_built, Env, Progress,
};
use crate::schema::definition::{
    compose_all_applied, compose_properties, compose_property, composed, types_agree, typeless,
    with_properties, AppliedSchema, Composing, DefinitionView, PrimDefinitionView,
};
use crate::schema::kinds::{
    by_name, lemma_rank_place, lemma_registered, rank_place, registered, SchemaKind, SchemaView,
};
use crate::schema::registry::{lemma_applied_keep_properties, lemma_named_with_weaker};
use vstd::prelude::*;

verus! {

// ── Registered schemas ──────────────────────────────────────────────────

/// Of the schemas given under one name the last is registered, and no other;
/// the registered schemas are in the order of their names.
pub proof fn law_the_last_schema_of_a_name_is_registered<T>(given: Seq<(TokenId, T)>, at: int)
    requires
        0 <= at < given.len(),
        forall|k: int| at < k < given.len() ==> (#[trigger] given[k]).0 != given[at].0,
    ensures
        registered(given).contains(given[at]),
        forall|i: int|
            0 <= i < registered(given).len() && (#[trigger] registered(given)[i]).0 == given[at].0
                ==> registered(given)[i] == given[at],
        forall|i: int, j: int|
            0 <= i < j < registered(given).len() ==> (#[trigger] registered(given)[i]).0.index < (
            #[trigger] registered(given)[j]).0.index,
    decreases given.len(),
{
    let rest = given.drop_last();
    let last = given.last();
    let list = registered(rest);
    let out = registered(given);
    lemma_registered(rest);
    lemma_registered(given);
    lemma_rank_place(list, last.0, 0);
    let place = rank_place(list, last.0, 0);
    if at == given.len() - 1 {
        assert(out[place] == last);
    } else {
        assert(rest[at] == given[at]);
        assert forall|k: int| at < k < rest.len() implies (#[trigger] rest[k]).0 != rest[at].0 by {
            assert(rest[k] == given[k]);
        }
        law_the_last_schema_of_a_name_is_registered(rest, at);
        assert(given[given.len() - 1] == last);
        let i = choose|i: int| 0 <= i < list.len() && list[i] == given[at];
        if place < list.len() && list[place].0 == last.0 {
            assert(out[i] == given[at]);
        } else if i < place {
            assert(out[i] == given[at]);
        } else {
            assert(out[i + 1] == given[at]);
        }
    }
    let j = choose|j: int| 0 <= j < out.len() && out[j] == given[at];
    assert forall|i: int| 0 <= i < out.len() && (#[trigger] out[i]).0 == given[at].0 implies out[i]
        == given[at] by {
        if i < j {
            assert(out[i].0.index < out[j].0.index);
        } else if j < i {
            assert(out[j].0.index < out[i].0.index);
        }
    }
}

/// The place of a registered name is its only one.
proof fn lemma_place(schemas: Seq<(TokenId, SchemaView)>, q: int)
    requires
        by_name(schemas),
        0 <= q < schemas.len(),
    ensures
        place_of(schemas, schemas[q].0, 0) == q,
        schema_of(schemas, schemas[q].0) == schemas[q].1,
{
    assert forall|i: int| 0 <= i < q implies (#[trigger] schemas[i]).0 != schemas[q].0 by {
        assert(schemas[i].0.index < schemas[q].0.index);
    }
    lemma_place_of_unique(schemas, schemas[q].0, q);
}

// ── Chains ──────────────────────────────────────────────────────────────

/// Whether each schema of a chain is typed and followed by its parent.
spec fn is_line(schemas: Seq<(TokenId, SchemaView)>, chain: Seq<TokenId>) -> bool {
    &&& chain.len() > 0
    &&& building_ok(schemas, chain)
    &&& forall|k: int| 0 <= k < chain.len() ==> is_typed_schema(schemas, #[trigger] chain[k])
    &&& forall|k: int|
        0 <= k < chain.len() - 1 ==> schema_of(schemas, #[trigger] chain[k]).parent == Some(
            chain[k + 1],
        )
}

proof fn lemma_grown_chain(schemas: Seq<(TokenId, SchemaView)>, chain: Seq<TokenId>)
    requires
        is_line(schemas, chain),
    ensures
        is_line(schemas, grown_chain(schemas, chain).0),
        chain.is_prefix_of(grown_chain(schemas, chain).0),
        schema_of(schemas, grown_chain(schemas, chain).0.last()).parent matches Some(parent)
            ==> !is_typed_schema(schemas, parent) || grown_chain(schemas, chain).0.contains(parent),
    decreases schemas.len() + 1 - chain.len(),
{
    lemma_building_bounded(schemas, chain);
    match schema_of(schemas, chain.last()).parent {
        None => {},
        Some(parent) => {
            if is_typed_schema(schemas, parent) && !chain.contains(parent) {
                let next = chain.push(parent);
                lemma_one_more(schemas, chain, parent);
                assert forall|k: int| 0 <= k < next.len() implies is_typed_schema(
                    schemas,
                    #[trigger] next[k],
                ) by {
                    if k < chain.len() {
                        assert(next[k] == chain[k]);
                    }
                }
                assert forall|k: int| 0 <= k < next.len() - 1 implies schema_of(
                    schemas,
                    #[trigger] next[k],
                ).parent == Some(next[k + 1]) by {
                    assert(next[k] == chain[k]);
                    if k + 1 < chain.len() {
                        assert(next[k + 1] == chain[k + 1]);
                    }
                }
                lemma_grown_chain(schemas, next);
                let out = grown_chain(schemas, next).0;
                assert(chain =~= out.take(chain.len() as int)) by {
                    assert forall|i: int| 0 <= i < chain.len() implies chain[i] == out[i] by {
                        assert(next[i] == out[i]);
                    }
                }
            }
        },
    }
}

proof fn lemma_chain_of(schemas: Seq<(TokenId, SchemaView)>, name: TokenId)
    requires
        is_typed_schema(schemas, name),
    ensures
        is_line(schemas, chain_of(schemas, name).0),
        chain_of(schemas, name).0[0] == name,
        schema_of(schemas, chain_of(schemas, name).0.last()).parent matches Some(parent)
            ==> !is_typed_schema(schemas, parent) || chain_of(schemas, name).0.contains(parent),
{
    let start = seq![name];
    assert(building_ok(schemas, start)) by {
        assert(is_registered(schemas, start[0]));
    }
    lemma_grown_chain(schemas, start);
    assert(start[0] == chain_of(schemas, name).0[0]);
}

/// The parent of any schema of a chain is in the chain, where it is a typed
/// schema.
proof fn lemma_chain_closed(schemas: Seq<(TokenId, SchemaView)>, name: TokenId, k: int)
    requires
        is_typed_schema(schemas, name),
        0 <= k < chain_of(schemas, name).0.len(),
    ensures
        schema_of(schemas, chain_of(schemas, name).0[k]).parent matches Some(parent)
            ==> is_typed_schema(schemas, parent) ==> chain_of(schemas, name).0.contains(parent),
{
    let chain = chain_of(schemas, name).0;
    lemma_chain_of(schemas, name);
    if k < chain.len() - 1 {
        assert(schema_of(schemas, chain[k]).parent == Some(chain[k + 1]));
        assert(chain.contains(chain[k + 1]));
    }
}

proof fn lemma_chain_within(
    schemas: Seq<(TokenId, SchemaView)>,
    name: TokenId,
    other: TokenId,
    k: int,
)
    requires
        is_typed_schema(schemas, name),
        is_typed_schema(schemas, other),
        chain_of(schemas, name).0.contains(other),
        0 <= k < chain_of(schemas, other).0.len(),
    ensures
        chain_of(schemas, name).0.contains(chain_of(schemas, other).0[k]),
    decreases k,
{
    let chain = chain_of(schemas, name).0;
    let inner = chain_of(schemas, other).0;
    lemma_chain_of(schemas, other);
    if k > 0 {
        lemma_chain_within(schemas, name, other, k - 1);
        let m = choose|m: int| 0 <= m < chain.len() && chain[m] == inner[k - 1];
        assert(schema_of(schemas, inner[k - 1]).parent == Some(inner[k - 1 + 1]));
        lemma_chain_closed(schemas, name, m);
    }
}

// ── Properties ──────────────────────────────────────────────────────────

/// Whether a definition is that of a stronger one, but for a fallback that
/// the stronger one may lack.
spec fn refines(found: Option<DefinitionView>, stronger: DefinitionView) -> bool {
    found matches Some(found) && {
        &&& found.kind == stronger.kind
        &&& found.declared_type == stronger.declared_type
        &&& found.variability == stronger.variability
        &&& stronger.fallback is Some ==> found.fallback == stronger.fallback
    }
}

proof fn lemma_named_joined<T>(a: Seq<(TokenId, T)>, b: Seq<(TokenId, T)>, name: TokenId)
    ensures
        named(a + b, name) == (match named(a, name) {
            Some(found) => Some(found),
            None => named(b, name),
        }),
{
    let all = a + b;
    lemma_place_of(a, name, 0);
    lemma_place_of(b, name, 0);
    let at = place_of(a, name, 0);
    if at < a.len() {
        assert forall|i: int| 0 <= i < at implies (#[trigger] all[i]).0 != name by {
            assert(all[i] == a[i]);
        }
        lemma_place_of_unique(all, name, at);
    } else {
        let bt = place_of(b, name, 0);
        assert forall|i: int| 0 <= i < a.len() + bt implies (#[trigger] all[i]).0 != name by {
            if i < a.len() {
                assert(all[i] == a[i]);
            } else {
                assert(all[i] == b[i - a.len()]);
            }
        }
        lemma_place_of_unique(all, name, a.len() + bt);
    }
}

proof fn lemma_with_properties(
    d: PrimDefinitionView,
    list: Seq<(TokenId, DefinitionView)>,
    name: TokenId,
)
    ensures
        ({
            let out = with_properties(d, list);
            let found = named(out.properties, name);
            &&& out.typed == d.typed && out.type_chain == d.type_chain && out.applied == d.applied
            &&& match (named(d.properties, name), named(list, name)) {
                (Some(strong), _) => refines(found, strong),
                (None, Some(strong)) => refines(found, strong),
                (None, None) => found is None,
            }
        }),
    decreases list.len(),
{
    if list.len() > 0 {
        let rest = list.drop_last();
        lemma_with_properties(d, rest, name);
        let before = with_properties(d, rest);
        lemma_named_with_weaker(before.properties, list.last(), name);
        assert(list =~= rest + seq![list.last()]);
        lemma_named_joined(rest, seq![list.last()], name);
        if list.last().0 == name {
            lemma_place_of_unique(seq![list.last()], name, 0);
        } else {
            lemma_place_of_unique(seq![list.last()], name, 1);
        }
    } else {
        lemma_place_of(list, name, 0);
    }
}

proof fn lemma_compose_properties(
    c: Composing,
    list: Seq<(TokenId, DefinitionView)>,
    instance: Option<TokenId>,
    name: TokenId,
)
    requires
        named(c.0.properties, name) is Some,
    ensures
        ({
            let out = compose_properties(c, list, instance).0;
            &&& out.typed == c.0.typed && out.type_chain == c.0.type_chain && out.applied
                == c.0.applied
            &&& refines(named(out.properties, name), named(c.0.properties, name)->0)
        }),
    decreases list.len(),
{
    if list.len() > 0 {
        let rest = list.drop_last();
        lemma_compose_properties(c, rest, instance, name);
        let before = compose_properties(c, rest, instance);
        let text = crate::schema::naming::instance_text(before.1, list.last().0, instance);
        let entered = (crate::schema::naming::token_of(before.1, text), list.last().1);
        lemma_named_with_weaker(before.0.properties, entered, name);
        assert(compose_property(before, list.last(), instance).0.properties
            == crate::schema::definition::with_weaker(before.0.properties, entered));
    }
}

proof fn lemma_types_stay(
    c: Composing,
    list: Seq<(TokenId, DefinitionView)>,
    instance: Option<TokenId>,
)
    ensures
        compose_properties(c, list, instance).0.typed == c.0.typed,
        compose_properties(c, list, instance).0.type_chain == c.0.type_chain,
        compose_properties(c, list, instance).0.applied == c.0.applied,
    decreases list.len(),
{
    if list.len() > 0 {
        lemma_types_stay(c, list.drop_last(), instance);
    }
}

proof fn lemma_applied_stays(c: Composing, applied: Seq<AppliedSchema>, instance: Option<TokenId>)
    ensures
        compose_all_applied(c, applied, instance).0.typed == c.0.typed,
        compose_all_applied(c, applied, instance).0.type_chain == c.0.type_chain,
        c.0.applied.is_prefix_of(compose_all_applied(c, applied, instance).0.applied),
    decreases applied.len(),
{
    if applied.len() > 0 {
        let rest = applied.drop_last();
        lemma_applied_stays(c, rest, instance);
        let before = compose_all_applied(c, rest, instance).0.applied;
        let after = compose_all_applied(c, applied, instance).0.applied;
        assert(c.0.applied =~= after.take(c.0.applied.len() as int)) by {
            assert forall|i: int| 0 <= i < c.0.applied.len() implies c.0.applied[i] == after[i] by {
                assert(before[i] == c.0.applied[i]);
            }
        }
    }
}

/// Composing a weaker definition keeps what is defined.
proof fn lemma_composed(
    c: Composing,
    weaker: PrimDefinitionView,
    instance: Option<TokenId>,
    name: TokenId,
)
    ensures
        composed(c, weaker, instance).0.typed == c.0.typed,
        composed(c, weaker, instance).0.type_chain == c.0.type_chain,
        c.0.applied.is_prefix_of(composed(c, weaker, instance).0.applied),
        named(c.0.properties, name) matches Some(strong) ==> refines(
            named(composed(c, weaker, instance).0.properties, name),
            strong,
        ),
{
    let applied = compose_all_applied(c, weaker.applied, instance);
    lemma_applied_keep_properties(c, weaker.applied, instance);
    lemma_applied_stays(c, weaker.applied, instance);
    lemma_types_stay(applied, weaker.properties, instance);
    if named(c.0.properties, name) is Some {
        lemma_compose_properties(applied, weaker.properties, instance, name);
    }
}

/// Including schemas keeps what is defined.
proof fn lemma_included(
    env: Env,
    p: Progress,
    definition: PrimDefinitionView,
    name: TokenId,
    building: Seq<TokenId>,
    inclusions: Seq<TokenId>,
    property: TokenId,
)
    ensures
        ({
            let out = all_included(env, p, definition, name, building, inclusions).definition;
            &&& out.typed == definition.typed
            &&& out.type_chain == definition.type_chain
            &&& definition.applied.is_prefix_of(out.applied)
            &&& named(definition.properties, property) matches Some(strong) ==> refines(
                named(out.properties, property),
                strong,
            )
        }),
    decreases inclusions.len(),
{
    if inclusions.len() > 0 {
        let rest = inclusions.drop_last();
        lemma_included(env, p, definition, name, building, rest, property);
        let before = all_included(env, p, definition, name, building, rest);
        let found = inclusion_of(env, before.p, name, inclusions.last());
        let q = Progress { tokens: found.tokens, issues: found.issues, ..before.p };
        match found.target {
            None => {},
            Some((target, instance)) => {
                if !building.contains(target) {
                    let weaker = api_built(env, q, target, building);
                    let c = (before.definition, weaker.p.tokens);
                    lemma_composed(c, weaker.definition, instance, property);
                    let out = composed(c, weaker.definition, instance).0;
                    assert(definition.applied =~= out.applied.take(
                        definition.applied.len() as int,
                    )) by {
                        assert forall|i: int|
                            0 <= i < definition.applied.len() implies definition.applied[i]
                            == out.applied[i] by {
                            assert(before.definition.applied[i] == definition.applied[i]);
                        }
                    }
                    assert(out == all_included(
                        env,
                        p,
                        definition,
                        name,
                        building,
                        inclusions,
                    ).definition);
                }
            },
        }
    }
}

// ── Overrides ───────────────────────────────────────────────────────────

/// What a property is defined as once an override of it is composed.
spec fn over_with(
    found: Option<DefinitionView>,
    over: Option<DefinitionView>,
) -> Option<DefinitionView> {
    match (found, over) {
        (Some(found), Some(over)) => if types_agree(found, over) && over.fallback is Some {
            Some(DefinitionView { fallback: over.fallback, ..found })
        } else {
            Some(found)
        },
        _ => found,
    }
}

proof fn lemma_overridden(
    c: (PrimDefinitionView, Seq<crate::schema::kinds::SchemaIssue>),
    schema: TokenId,
    over: (TokenId, DefinitionView),
    name: TokenId,
)
    ensures
        ({
            let out = overridden(c, schema, over).0;
            &&& out.typed == c.0.typed && out.type_chain == c.0.type_chain && out.applied
                == c.0.applied
            &&& named(out.properties, name) == over_with(
                named(c.0.properties, name),
                if over.0 == name {
                    Some(over.1)
                } else {
                    None
                },
            )
        }),
{
    let before = c.0.properties;
    let after = overridden(c, schema, over).0.properties;
    lemma_place_of(before, over.0, 0);
    lemma_place_of(before, name, 0);
    let at = place_of(before, name, 0);
    let touched = place_of(before, over.0, 0);
    if after != before {
        assert forall|i: int| 0 <= i < at implies (#[trigger] after[i]).0 != name by {
            assert(before[i].0 != name);
            if i != touched {
                assert(after[i] == before[i]);
            }
        }
        lemma_place_of_unique(after, name, at);
    }
}

proof fn lemma_all_overridden(
    c: (PrimDefinitionView, Seq<crate::schema::kinds::SchemaIssue>),
    schema: TokenId,
    overrides: Seq<(TokenId, DefinitionView)>,
    name: TokenId,
)
    requires
        names_differ(overrides),
    ensures
        ({
            let out = all_overridden(c, schema, overrides).0;
            &&& out.typed == c.0.typed && out.type_chain == c.0.type_chain && out.applied
                == c.0.applied
            &&& named(out.properties, name) == over_with(
                named(c.0.properties, name),
                named(overrides, name),
            )
        }),
    decreases overrides.len(),
{
    if overrides.len() > 0 {
        let rest = overrides.drop_last();
        let last = overrides.last();
        assert forall|i: int, j: int| 0 <= i < j < rest.len() implies (#[trigger] rest[i]).0 != (
        #[trigger] rest[j]).0 by {
            assert(rest[i] == overrides[i] && rest[j] == overrides[j]);
        }
        lemma_all_overridden(c, schema, rest, name);
        lemma_overridden(all_overridden(c, schema, rest), schema, last, name);
        lemma_split_last(overrides, name);
        if last.0 == name {
            lemma_place_of(rest, name, 0);
            let k = place_of(rest, name, 0);
            if k < rest.len() {
                assert(overrides[k].0 != overrides[overrides.len() - 1].0);
                assert(rest[k] == overrides[k]);
            }
        }
    } else {
        lemma_place_of(overrides, name, 0);
    }
}

/// Whether no two entries share a name.
spec fn names_differ<T>(list: Seq<(TokenId, T)>) -> bool {
    forall|i: int, j: int|
        0 <= i < j < list.len() ==> (#[trigger] list[i]).0 != (#[trigger] list[j]).0
}

proof fn lemma_split_last<T>(list: Seq<(TokenId, T)>, name: TokenId)
    requires
        list.len() > 0,
    ensures
        named(list, name) == (match named(list.drop_last(), name) {
            Some(found) => Some(found),
            None => if list.last().0 == name {
                Some(list.last().1)
            } else {
                None
            },
        }),
{
    let one = seq![list.last()];
    assert(list =~= list.drop_last() + one);
    lemma_named_joined(list.drop_last(), one, name);
    if list.last().0 == name {
        lemma_place_of_unique(one, name, 0);
    } else {
        lemma_place_of_unique(one, name, 1);
    }
}

proof fn lemma_first_of_each(list: Seq<(TokenId, DefinitionView)>)
    ensures
        names_differ(first_of_each(list)),
        forall|name: TokenId| #[trigger]
            named(first_of_each(list), name) == named(list, name),
    decreases list.len(),
{
    if list.len() > 0 {
        let rest = list.drop_last();
        let last = list.last();
        let before = first_of_each(rest);
        let out = first_of_each(list);
        lemma_first_of_each(rest);
        lemma_place_of(rest, last.0, 0);
        assert(named(before, last.0) == named(rest, last.0));
        assert forall|name: TokenId| #[trigger] named(out, name) == named(list, name) by {
            lemma_split_last(list, name);
            assert(named(before, name) == named(rest, name));
            if out != before {
                assert(out.drop_last() =~= before);
                lemma_split_last(out, name);
            }
        }
        if named(rest, last.0) is None {
            lemma_place_of(before, last.0, 0);
            assert(out =~= before.push(last));
            assert forall|i: int, j: int| 0 <= i < j < out.len() implies (#[trigger] out[i]).0 != (
            #[trigger] out[j]).0 by {
                assert(out[i] == before[i]);
                if j < before.len() {
                    assert(out[j] == before[j]);
                }
            }
        }
    }
}

// ── Definitions ─────────────────────────────────────────────────────────

proof fn lemma_defined(env: Env, p: Progress, count: int, i: int)
    requires
        0 <= i < count,
    ensures
        defined(env, p, count).1.len() == count,
        defined(env, p, count).1[i] == defined_at(env, defined(env, p, i).0, i).definition,
    decreases count,
{
    if i < count - 1 {
        lemma_defined(env, p, count - 1, i);
    } else if count > 1 {
        lemma_defined(env, p, count - 1, 0);
    }
}

/// The definition of a typed schema, by its property lookups.
proof fn lemma_typed_definition(
    given: Seq<(TokenId, SchemaView)>,
    autos: Seq<(TokenId, TokenId)>,
    tokens: Seq<Seq<char>>,
    p: int,
    property: TokenId,
)
    requires
        0 <= p < registered(given).len(),
        registered(given)[p].1.kind.spec_is_typed(),
    ensures
        ({
            let schemas = registered(given);
            let d = registry_built(given, autos, tokens).1[p];
            let chain = chain_of(schemas, schemas[p].0).0;
            let strong = named(chain_properties(schemas, chain), property);
            let over = named(chain_overrides(schemas, chain), property);
            &&& registry_built(given, autos, tokens).1.len() == schemas.len()
            &&& d.typed == Some(schemas[p].0)
            &&& d.type_chain == chain
            &&& strong matches Some(strong) ==> exists|found: DefinitionView|
                named(d.properties, property) == #[trigger] over_with(Some(found), over) && refines(
                    Some(found),
                    strong,
                )
        }),
{
    let schemas = registered(given);
    let env = env_of(schemas, autos, tokens);
    let start = Progress {
        tokens: crate::interner::with_entry(tokens, crate::schema::naming::placeholder()),
        complete: Seq::new(schemas.len(), |i: int| None),
        issues: crate::schema::building::auto_issues(
            schemas,
            crate::schema::building::chain_issues(schemas, schemas.len() as int),
            autos,
        ),
    };
    lemma_defined(env, start, schemas.len() as int, p);
    let chain = chain_of(schemas, schemas[p].0).0;
    let q = defined(env, start, p).0;
    let d = registry_built(given, autos, tokens).1[p];
    assert(d == typed_built(env, q, p, chain).definition);
    let base = PrimDefinitionView { typed: Some(schemas[p].0), type_chain: chain, ..typeless() };
    let owned = with_properties(base, chain_properties(schemas, chain));
    lemma_place_of(base.properties, property, 0);
    lemma_with_properties(base, chain_properties(schemas, chain), property);
    let inclusions = with_entries(
        seq![],
        crate::schema::building::chain_built_ins(schemas, chain) + env.autos[p],
    );
    let included = all_included(env, q, owned, schemas[p].0, seq![], inclusions);
    lemma_included(env, q, owned, schemas[p].0, seq![], inclusions, property);
    let overrides = first_of_each(chain_overrides(schemas, chain));
    lemma_first_of_each(chain_overrides(schemas, chain));
    lemma_all_overridden(
        (included.definition, included.p.issues),
        schemas[p].0,
        overrides,
        property,
    );
    let over = named(chain_overrides(schemas, chain), property);
    assert(named(overrides, property) == over);
    if named(chain_properties(schemas, chain), property) is Some {
        let strong = named(chain_properties(schemas, chain), property)->0;
        assert(refines(named(owned.properties, property), strong));
        let found = named(included.definition.properties, property)->0;
        assert(refines(Some(found), named(owned.properties, property)->0));
        assert(named(d.properties, property) == over_with(Some(found), over));
    }
}

/// Whether a schema is typed, by its kind.
spec fn typed_at(schemas: Seq<(TokenId, SchemaView)>, q: int) -> bool {
    schemas[q].1.kind == SchemaKind::ConcreteTyped || schemas[q].1.kind
        == SchemaKind::AbstractTyped
}

proof fn lemma_typed_at(given: Seq<(TokenId, SchemaView)>, q: int)
    requires
        0 <= q < registered(given).len(),
    ensures
        is_typed_schema(registered(given), registered(given)[q].0) <==> typed_at(
            registered(given),
            q,
        ),
        schema_of(registered(given), registered(given)[q].0) == registered(given)[q].1,
{
    lemma_registered(given);
    lemma_place(registered(given), q);
}

/// The type chain of a typed schema starts with the schema, goes on from each
/// schema to its parent, holds typed schemas only, and none twice.
pub proof fn law_a_type_chain_follows_parents(
    given: Seq<(TokenId, SchemaView)>,
    autos: Seq<(TokenId, TokenId)>,
    tokens: Seq<Seq<char>>,
    p: int,
)
    requires
        0 <= p < registered(given).len(),
        registered(given)[p].1.kind == SchemaKind::ConcreteTyped || registered(given)[p].1.kind
            == SchemaKind::AbstractTyped,
    ensures
        ({
            let schemas = registered(given);
            let chain = registry_built(given, autos, tokens).1[p].type_chain;
            &&& chain.len() > 0 && chain[0] == schemas[p].0
            &&& chain.no_duplicates()
            &&& forall|k: int|
                0 <= k < chain.len() ==> exists|q: int|
                    0 <= q < schemas.len() && (#[trigger] schemas[q]).0 == #[trigger] chain[k] && (
                    schemas[q].1.kind == SchemaKind::ConcreteTyped || schemas[q].1.kind
                        == SchemaKind::AbstractTyped) && (k < chain.len() - 1
                        ==> schemas[q].1.parent == Some(chain[k + 1]))
        }),
{
    let schemas = registered(given);
    lemma_typed_definition(given, autos, tokens, p, schemas[p].0);
    lemma_typed_at(given, p);
    lemma_chain_of(schemas, schemas[p].0);
    let chain = registry_built(given, autos, tokens).1[p].type_chain;
    assert forall|k: int| 0 <= k < chain.len() implies exists|q: int|
        0 <= q < schemas.len() && (#[trigger] schemas[q]).0 == #[trigger] chain[k] && (
        schemas[q].1.kind == SchemaKind::ConcreteTyped || schemas[q].1.kind
            == SchemaKind::AbstractTyped) && (k < chain.len() - 1 ==> schemas[q].1.parent == Some(
            chain[k + 1],
        )) by {
        assert(is_typed_schema(schemas, chain[k]));
        lemma_place_of(schemas, chain[k], 0);
        let q = place_of(schemas, chain[k], 0);
        assert(schemas[q].0 == chain[k]);
    }
}

/// A type chain is closed under parents: where a schema of the chain inherits
/// from a registered typed schema, that schema is in the chain. So `is_a` holds
/// of it.
pub proof fn law_a_type_chain_is_closed_under_parents(
    given: Seq<(TokenId, SchemaView)>,
    autos: Seq<(TokenId, TokenId)>,
    tokens: Seq<Seq<char>>,
    p: int,
    q: int,
    r: int,
)
    requires
        0 <= p < registered(given).len(),
        0 <= q < registered(given).len(),
        0 <= r < registered(given).len(),
        registered(given)[p].1.kind == SchemaKind::ConcreteTyped || registered(given)[p].1.kind
            == SchemaKind::AbstractTyped,
        registered(given)[r].1.kind == SchemaKind::ConcreteTyped || registered(given)[r].1.kind
            == SchemaKind::AbstractTyped,
        registered(given)[q].1.parent == Some(registered(given)[r].0),
        registry_built(given, autos, tokens).1[p].type_chain.contains(registered(given)[q].0),
    ensures
        registry_built(given, autos, tokens).1[p].type_chain.contains(registered(given)[r].0),
{
    let schemas = registered(given);
    lemma_typed_definition(given, autos, tokens, p, schemas[p].0);
    lemma_typed_at(given, p);
    lemma_typed_at(given, q);
    lemma_typed_at(given, r);
    let chain = registry_built(given, autos, tokens).1[p].type_chain;
    let k = choose|k: int| 0 <= k < chain.len() && chain[k] == schemas[q].0;
    lemma_chain_closed(schemas, schemas[p].0, k);
}

/// Where a schema inherits from a second and that one from a third, all
/// registered and typed, the first is each of the three.
pub proof fn law_a_schema_is_its_grandparent(
    given: Seq<(TokenId, SchemaView)>,
    autos: Seq<(TokenId, TokenId)>,
    tokens: Seq<Seq<char>>,
    a: int,
    b: int,
    c: int,
)
    requires
        0 <= a < registered(given).len(),
        0 <= b < registered(given).len(),
        0 <= c < registered(given).len(),
        forall|i: int|
            i == a || i == b || i == c ==> (#[trigger] registered(given)[i]).1.kind
                == SchemaKind::ConcreteTyped || registered(given)[i].1.kind
                == SchemaKind::AbstractTyped,
        registered(given)[a].1.parent == Some(registered(given)[b].0),
        registered(given)[b].1.parent == Some(registered(given)[c].0),
    ensures
        registry_built(given, autos, tokens).1[a].type_chain.contains(registered(given)[a].0),
        registry_built(given, autos, tokens).1[a].type_chain.contains(registered(given)[b].0),
        registry_built(given, autos, tokens).1[a].type_chain.contains(registered(given)[c].0),
{
    law_a_type_chain_follows_parents(given, autos, tokens, a);
    let chain = registry_built(given, autos, tokens).1[a].type_chain;
    assert(chain.contains(chain[0]));
    law_a_type_chain_is_closed_under_parents(given, autos, tokens, a, a, b);
    law_a_type_chain_is_closed_under_parents(given, autos, tokens, a, b, c);
}

/// Inheritance is transitive: what is a schema is all that the schema is.
pub proof fn law_inheritance_is_transitive(
    given: Seq<(TokenId, SchemaView)>,
    autos: Seq<(TokenId, TokenId)>,
    tokens: Seq<Seq<char>>,
    a: int,
    b: int,
    c: int,
)
    requires
        0 <= a < registered(given).len(),
        0 <= b < registered(given).len(),
        0 <= c < registered(given).len(),
        forall|i: int|
            i == a || i == b ==> (#[trigger] registered(given)[i]).1.kind
                == SchemaKind::ConcreteTyped || registered(given)[i].1.kind
                == SchemaKind::AbstractTyped,
        registry_built(given, autos, tokens).1[a].type_chain.contains(registered(given)[b].0),
        registry_built(given, autos, tokens).1[b].type_chain.contains(registered(given)[c].0),
    ensures
        registry_built(given, autos, tokens).1[a].type_chain.contains(registered(given)[c].0),
{
    let schemas = registered(given);
    lemma_typed_definition(given, autos, tokens, a, schemas[a].0);
    lemma_typed_definition(given, autos, tokens, b, schemas[b].0);
    lemma_typed_at(given, a);
    lemma_typed_at(given, b);
    let inner = registry_built(given, autos, tokens).1[b].type_chain;
    let k = choose|k: int| 0 <= k < inner.len() && inner[k] == schemas[c].0;
    lemma_chain_within(schemas, schemas[a].0, schemas[b].0, k);
}

// ── Inherited properties ────────────────────────────────────────────────

proof fn lemma_chain_without(
    schemas: Seq<(TokenId, SchemaView)>,
    chain: Seq<TokenId>,
    name: TokenId,
)
    requires
        forall|k: int|
            0 <= k < chain.len() ==> named(schema_of(schemas, #[trigger] chain[k]).properties, name)
                is None,
    ensures
        named(chain_properties(schemas, chain), name) is None,
    decreases chain.len(),
{
    if chain.len() > 0 {
        let rest = chain.drop_last();
        assert forall|k: int| 0 <= k < rest.len() implies named(
            schema_of(schemas, #[trigger] rest[k]).properties,
            name,
        ) is None by {
            assert(rest[k] == chain[k]);
        }
        lemma_chain_without(schemas, rest, name);
        let last = chain[chain.len() - 1];
        lemma_named_joined(
            chain_properties(schemas, rest),
            schema_of(schemas, last).properties,
            name,
        );
    } else {
        lemma_place_of(chain_properties(schemas, chain), name, 0);
    }
}

proof fn lemma_chain_named(
    schemas: Seq<(TokenId, SchemaView)>,
    chain: Seq<TokenId>,
    name: TokenId,
    k: int,
)
    requires
        0 <= k < chain.len(),
        named(schema_of(schemas, chain[k]).properties, name) is Some,
        forall|i: int|
            0 <= i < k ==> named(schema_of(schemas, #[trigger] chain[i]).properties, name) is None,
    ensures
        named(chain_properties(schemas, chain), name) == named(
            schema_of(schemas, chain[k]).properties,
            name,
        ),
    decreases chain.len(),
{
    let rest = chain.drop_last();
    let last = chain.last();
    lemma_named_joined(
        chain_properties(schemas, rest),
        schema_of(schemas, last).properties,
        name,
    );
    if k < rest.len() {
        assert forall|i: int| 0 <= i < k implies named(
            schema_of(schemas, #[trigger] rest[i]).properties,
            name,
        ) is None by {
            assert(rest[i] == chain[i]);
        }
        assert(rest[k] == chain[k]);
        lemma_chain_named(schemas, rest, name, k);
    } else {
        assert forall|i: int| 0 <= i < rest.len() implies named(
            schema_of(schemas, #[trigger] rest[i]).properties,
            name,
        ) is None by {
            assert(rest[i] == chain[i]);
        }
        lemma_chain_without(schemas, rest, name);
    }
}

proof fn lemma_over_without(
    schemas: Seq<(TokenId, SchemaView)>,
    chain: Seq<TokenId>,
    name: TokenId,
)
    requires
        forall|k: int|
            0 <= k < chain.len() ==> named(schema_of(schemas, #[trigger] chain[k]).overrides, name)
                is None,
    ensures
        named(chain_overrides(schemas, chain), name) is None,
    decreases chain.len(),
{
    if chain.len() > 0 {
        let rest = chain.drop_last();
        assert forall|k: int| 0 <= k < rest.len() implies named(
            schema_of(schemas, #[trigger] rest[k]).overrides,
            name,
        ) is None by {
            assert(rest[k] == chain[k]);
        }
        lemma_over_without(schemas, rest, name);
        let last = chain[chain.len() - 1];
        lemma_named_joined(
            chain_overrides(schemas, rest),
            schema_of(schemas, last).overrides,
            name,
        );
    } else {
        lemma_place_of(chain_overrides(schemas, chain), name, 0);
    }
}

proof fn lemma_over_named(
    schemas: Seq<(TokenId, SchemaView)>,
    chain: Seq<TokenId>,
    name: TokenId,
    k: int,
)
    requires
        0 <= k < chain.len(),
        named(schema_of(schemas, chain[k]).overrides, name) is Some,
        forall|i: int|
            0 <= i < k ==> named(schema_of(schemas, #[trigger] chain[i]).overrides, name) is None,
    ensures
        named(chain_overrides(schemas, chain), name) == named(
            schema_of(schemas, chain[k]).overrides,
            name,
        ),
    decreases chain.len(),
{
    let rest = chain.drop_last();
    let last = chain.last();
    lemma_named_joined(chain_overrides(schemas, rest), schema_of(schemas, last).overrides, name);
    if k < rest.len() {
        assert forall|i: int| 0 <= i < k implies named(
            schema_of(schemas, #[trigger] rest[i]).overrides,
            name,
        ) is None by {
            assert(rest[i] == chain[i]);
        }
        assert(rest[k] == chain[k]);
        lemma_over_named(schemas, rest, name, k);
    } else {
        assert forall|i: int| 0 <= i < rest.len() implies named(
            schema_of(schemas, #[trigger] rest[i]).overrides,
            name,
        ) is None by {
            assert(rest[i] == chain[i]);
        }
        lemma_over_without(schemas, rest, name);
    }
}

proof fn lemma_named_first<T>(list: Seq<(TokenId, T)>, name: TokenId)
    ensures
        named(list, name) is None <==> forall|i: int|
            0 <= i < list.len() ==> (#[trigger] list[i]).0 != name,
{
    lemma_place_of(list, name, 0);
}

/// The definition of a typed schema has every property of every schema that it
/// inherits from. The nearest schema that defines a property gives its kind,
/// type and variability and, where it has one and no schema of the chain
/// overrides the property, its fallback.
pub proof fn law_inherited_properties_are_defined(
    given: Seq<(TokenId, SchemaView)>,
    autos: Seq<(TokenId, TokenId)>,
    tokens: Seq<Seq<char>>,
    p: int,
    k: int,
    q: int,
    j: int,
)
    requires
        0 <= p < registered(given).len(),
        registered(given)[p].1.kind == SchemaKind::ConcreteTyped || registered(given)[p].1.kind
            == SchemaKind::AbstractTyped,
        0 <= k < registry_built(given, autos, tokens).1[p].type_chain.len(),
        0 <= q < registered(given).len(),
        registered(given)[q].0 == registry_built(given, autos, tokens).1[p].type_chain[k],
        0 <= j < registered(given)[q].1.properties.len(),
        forall|i: int|
            0 <= i < j ==> (#[trigger] registered(given)[q].1.properties[i]).0 != registered(
                given,
            )[q].1.properties[j].0,
        forall|l: int, r: int, i: int|
            0 <= l < k && 0 <= r < registered(given).len() && registered(given)[r].0
                == #[trigger] registry_built(given, autos, tokens).1[p].type_chain[l] && 0 <= i
                < registered(given)[r].1.properties.len() ==> (#[trigger] registered(
                given,
            )[r].1.properties[i]).0 != registered(given)[q].1.properties[j].0,
    ensures
        ({
            let schemas = registered(given);
            let d = registry_built(given, autos, tokens).1[p];
            let property = schemas[q].1.properties[j];
            exists|m: int|
                0 <= m < d.properties.len() && (#[trigger] d.properties[m]).0 == property.0
                    && d.properties[m].1.kind == property.1.kind && d.properties[m].1.declared_type
                    == property.1.declared_type && d.properties[m].1.variability
                    == property.1.variability && (property.1.fallback is Some && (forall|
                    l: int,
                    r: int,
                    i: int,
                |
                    0 <= l < d.type_chain.len() && 0 <= r < schemas.len() && schemas[r].0
                        == #[trigger] d.type_chain[l] && 0 <= i < schemas[r].1.overrides.len() ==> (
                    #[trigger] schemas[r].1.overrides[i]).0 != property.0)
                    ==> d.properties[m].1.fallback == property.1.fallback)
        }),
{
    let schemas = registered(given);
    let d = registry_built(given, autos, tokens).1[p];
    let property = schemas[q].1.properties[j];
    lemma_typed_definition(given, autos, tokens, p, property.0);
    lemma_typed_at(given, p);
    lemma_typed_at(given, q);
    lemma_chain_of(schemas, schemas[p].0);
    let chain = d.type_chain;
    lemma_place_of_unique(schemas[q].1.properties, property.0, j);
    assert forall|i: int| 0 <= i < k implies named(
        schema_of(schemas, #[trigger] chain[i]).properties,
        property.0,
    ) is None by {
        assert(is_typed_schema(schemas, chain[i]));
        lemma_place_of(schemas, chain[i], 0);
        let r = place_of(schemas, chain[i], 0);
        lemma_named_first(schemas[r].1.properties, property.0);
        assert(schemas[r].0 == registry_built(given, autos, tokens).1[p].type_chain[i]);
        assert forall|m: int| 0 <= m < schemas[r].1.properties.len() implies (
        #[trigger] schemas[r].1.properties[m]).0 != property.0 by {
            assert(registered(given)[r].1.properties[m].0 != registered(
                given,
            )[q].1.properties[j].0);
        }
    }
    lemma_chain_named(schemas, chain, property.0, k);
    let over = named(chain_overrides(schemas, chain), property.0);
    let found = choose|found: DefinitionView|
        named(d.properties, property.0) == #[trigger] over_with(Some(found), over) && refines(
            Some(found),
            property.1,
        );
    lemma_place_of(d.properties, property.0, 0);
    let m = place_of(d.properties, property.0, 0);
    assert(d.properties[m].0 == property.0);
    if property.1.fallback is Some && (forall|l: int, r: int, i: int|
        0 <= l < d.type_chain.len() && 0 <= r < schemas.len() && schemas[r].0
            == #[trigger] d.type_chain[l] && 0 <= i < schemas[r].1.overrides.len() ==> (
        #[trigger] schemas[r].1.overrides[i]).0 != property.0) {
        assert forall|l: int| 0 <= l < chain.len() implies named(
            schema_of(schemas, #[trigger] chain[l]).overrides,
            property.0,
        ) is None by {
            assert(is_typed_schema(schemas, chain[l]));
            lemma_place_of(schemas, chain[l], 0);
            let r = place_of(schemas, chain[l], 0);
            lemma_named_first(schemas[r].1.overrides, property.0);
            assert(schemas[r].0 == d.type_chain[l]);
        }
        lemma_over_without(schemas, chain, property.0);
    }
}

/// The nearest override of a property that a typed schema or one that it
/// inherits from defines gives the property's fallback, where it has one and is
/// of the property's kind and type.
pub proof fn law_the_nearest_override_gives_the_fallback(
    given: Seq<(TokenId, SchemaView)>,
    autos: Seq<(TokenId, TokenId)>,
    tokens: Seq<Seq<char>>,
    p: int,
    k: int,
    q: int,
    j: int,
    m: int,
)
    requires
        0 <= p < registered(given).len(),
        registered(given)[p].1.kind == SchemaKind::ConcreteTyped || registered(given)[p].1.kind
            == SchemaKind::AbstractTyped,
        0 <= k < registry_built(given, autos, tokens).1[p].type_chain.len(),
        0 <= q < registered(given).len(),
        registered(given)[q].0 == registry_built(given, autos, tokens).1[p].type_chain[k],
        0 <= j < registered(given)[q].1.overrides.len(),
        registered(given)[q].1.overrides[j].1.fallback is Some,
        forall|i: int|
            0 <= i < j ==> (#[trigger] registered(given)[q].1.overrides[i]).0 != registered(
                given,
            )[q].1.overrides[j].0,
        forall|l: int, r: int, i: int|
            0 <= l < k && 0 <= r < registered(given).len() && registered(given)[r].0
                == #[trigger] registry_built(given, autos, tokens).1[p].type_chain[l] && 0 <= i
                < registered(given)[r].1.overrides.len() ==> (#[trigger] registered(
                given,
            )[r].1.overrides[i]).0 != registered(given)[q].1.overrides[j].0,
        0 <= m < registry_built(given, autos, tokens).1[p].properties.len(),
        registry_built(given, autos, tokens).1[p].properties[m].0 == registered(
            given,
        )[q].1.overrides[j].0,
        forall|i: int|
            0 <= i < m ==> (#[trigger] registry_built(given, autos, tokens).1[p].properties[i]).0
                != registered(given)[q].1.overrides[j].0,
        ({
            let defined = registry_built(given, autos, tokens).1[p].properties[m].1;
            let over = registered(given)[q].1.overrides[j].1;
            defined.kind == over.kind && (defined.kind == crate::property::PropertyKind::Relationship
                || defined.declared_type == over.declared_type)
        }),
        exists|l: int, r: int, i: int|
            0 <= l < registry_built(given, autos, tokens).1[p].type_chain.len() && 0 <= r
                < registered(given).len() && registered(given)[r].0 == #[trigger] registry_built(
                given,
                autos,
                tokens,
            ).1[p].type_chain[l] && 0 <= i < registered(given)[r].1.properties.len() && (
            #[trigger] registered(given)[r].1.properties[i]).0 == registered(
                given,
            )[q].1.overrides[j].0,
    ensures
        registry_built(given, autos, tokens).1[p].properties[m].1.fallback == registered(
            given,
        )[q].1.overrides[j].1.fallback,
{
    let schemas = registered(given);
    let d = registry_built(given, autos, tokens).1[p];
    let over = schemas[q].1.overrides[j];
    let name = over.0;
    lemma_typed_definition(given, autos, tokens, p, name);
    lemma_typed_at(given, p);
    lemma_typed_at(given, q);
    lemma_chain_of(schemas, schemas[p].0);
    let chain = d.type_chain;
    lemma_place_of_unique(schemas[q].1.overrides, name, j);
    lemma_place_of_unique(d.properties, name, m);
    assert forall|i: int| 0 <= i < k implies named(
        schema_of(schemas, #[trigger] chain[i]).overrides,
        name,
    ) is None by {
        assert(is_typed_schema(schemas, chain[i]));
        lemma_place_of(schemas, chain[i], 0);
        let r = place_of(schemas, chain[i], 0);
        lemma_named_first(schemas[r].1.overrides, name);
        assert(schemas[r].0 == registry_built(given, autos, tokens).1[p].type_chain[i]);
        assert forall|n: int| 0 <= n < schemas[r].1.overrides.len() implies (
        #[trigger] schemas[r].1.overrides[n]).0 != name by {
            assert(registered(given)[r].1.overrides[n].0 != registered(given)[q].1.overrides[j].0);
        }
    }
    lemma_over_named(schemas, chain, name, k);
    let (l, r, i) = choose|l: int, r: int, i: int|
        0 <= l < registry_built(given, autos, tokens).1[p].type_chain.len() && 0 <= r < registered(
            given,
        ).len() && registered(given)[r].0 == #[trigger] registry_built(
            given,
            autos,
            tokens,
        ).1[p].type_chain[l] && 0 <= i < registered(given)[r].1.properties.len() && (
        #[trigger] registered(given)[r].1.properties[i]).0 == registered(
            given,
        )[q].1.overrides[j].0;
    lemma_typed_at(given, r);
    lemma_named_first(schemas[r].1.properties, name);
    if named(chain_properties(schemas, chain), name) is None {
        lemma_some_definer(schemas, chain, name, l);
    }
}

proof fn lemma_some_definer(
    schemas: Seq<(TokenId, SchemaView)>,
    chain: Seq<TokenId>,
    name: TokenId,
    k: int,
)
    requires
        0 <= k < chain.len(),
        named(schema_of(schemas, chain[k]).properties, name) is Some,
    ensures
        named(chain_properties(schemas, chain), name) is Some,
    decreases chain.len(),
{
    let rest = chain.drop_last();
    lemma_named_joined(
        chain_properties(schemas, rest),
        schema_of(schemas, chain.last()).properties,
        name,
    );
    if k < rest.len() {
        assert(rest[k] == chain[k]);
        lemma_some_definer(schemas, rest, name, k);
    }
}

} // verus!
