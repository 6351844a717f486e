//! Schemas as they are registered.

use crate::id_map::{get_id, insert_id, new_id_map, IdMap};
use crate::fields::{lemma_place_of_unique, place_of};
use crate::interner::TokenId;
use crate::schema::definition::{definitions_view, places, DefinitionView, PropertyDefinition};
use vstd::prelude::*;

verus! {

/// The kinds of schema.
#[derive(Clone, Copy, Debug, PartialEq, Eq, Structural, Hash)]
pub enum SchemaKind {
    /// A typed schema that a prim may be of.
    ConcreteTyped,
    /// A typed schema that only other typed schemas inherit from.
    AbstractTyped,
    /// An applied schema, applied at most once.
    SingleApplyApi,
    /// An applied schema, applied once per instance name.
    MultipleApplyApi,
}

impl SchemaKind {
    /// Whether the schema is typed.
    pub open spec fn spec_is_typed(self) -> bool {
        self == SchemaKind::ConcreteTyped || self == SchemaKind::AbstractTyped
    }

    /// Whether the schema is typed.
    pub fn is_typed(self) -> (yes: bool)
        ensures
            yes == self.spec_is_typed(),
    {
        match self {
            SchemaKind::ConcreteTyped | SchemaKind::AbstractTyped => true,
            _ => false,
        }
    }

    /// Whether the schema is applied.
    pub fn is_applied(self) -> (yes: bool)
        ensures
            yes == !self.spec_is_typed(),
    {
        !self.is_typed()
    }
}

/// A typed or applied schema.
#[derive(Debug)]
pub struct SchemaDefinition {
    pub name: TokenId,
    pub kind: SchemaKind,
    /// The typed schema that a typed schema inherits from.
    pub parent: Option<TokenId>,
    /// The applied schemas that this one includes, strongest first.
    pub built_ins: Vec<TokenId>,
    pub properties: Vec<PropertyDefinition>,
    /// Overs on properties that the built-ins define.
    pub overrides: Vec<PropertyDefinition>,
}

/// The mathematical value of a [`SchemaDefinition`], but for its name.
#[verifier::ext_equal]
pub struct SchemaView {
    pub kind: SchemaKind,
    pub parent: Option<TokenId>,
    pub built_ins: Seq<TokenId>,
    pub properties: Seq<(TokenId, DefinitionView)>,
    pub overrides: Seq<(TokenId, DefinitionView)>,
}

/// A schema of a kind that defines nothing.
pub open spec fn empty_schema(kind: SchemaKind) -> SchemaView {
    SchemaView {
        kind,
        parent: None,
        built_ins: seq![],
        properties: seq![],
        overrides: seq![],
    }
}

impl View for SchemaDefinition {
    type V = (TokenId, SchemaView);

    open spec fn view(&self) -> (TokenId, SchemaView) {
        (
            self.name,
            SchemaView {
                kind: self.kind,
                parent: self.parent,
                built_ins: self.built_ins@,
                properties: definitions_view(self.properties@),
                overrides: definitions_view(self.overrides@),
            },
        )
    }
}

/// The names and contents of a list of schemas.
pub open spec fn schemas_view(list: Seq<SchemaDefinition>) -> Seq<(TokenId, SchemaView)> {
    list.map_values(|s: SchemaDefinition| s@)
}

impl SchemaDefinition {
    /// A schema of a kind that defines nothing.
    pub fn new(name: TokenId, kind: SchemaKind) -> (out: SchemaDefinition)
        ensures
            out@ == (name, empty_schema(kind)),
    {
        let out = SchemaDefinition {
            name,
            kind,
            parent: None,
            built_ins: Vec::new(),
            properties: Vec::new(),
            overrides: Vec::new(),
        };
        assert(out@.1 =~= empty_schema(kind));
        out
    }

    /// A concrete typed schema.
    pub fn typed(name: TokenId) -> (out: SchemaDefinition)
        ensures
            out@ == (name, empty_schema(SchemaKind::ConcreteTyped)),
    {
        SchemaDefinition::new(name, SchemaKind::ConcreteTyped)
    }

    /// A single-apply schema.
    pub fn api(name: TokenId) -> (out: SchemaDefinition)
        ensures
            out@ == (name, empty_schema(SchemaKind::SingleApplyApi)),
    {
        SchemaDefinition::new(name, SchemaKind::SingleApplyApi)
    }

    /// This schema, inheriting from `parent`.
    pub fn with_parent(self, parent: TokenId) -> (out: SchemaDefinition)
        ensures
            out@ == (self@.0, SchemaView { parent: Some(parent), ..self@.1 }),
    {
        let mut out = self;
        out.parent = Some(parent);
        out
    }

    /// This schema, with a built-in weaker than those before it.
    pub fn with_built_in(self, api: TokenId) -> (out: SchemaDefinition)
        ensures
            out@ == (self@.0, SchemaView { built_ins: self@.1.built_ins.push(api), ..self@.1 }),
    {
        let mut out = self;
        out.built_ins.push(api);
        out
    }

    /// This schema, with a property.
    pub fn with_property(self, property: PropertyDefinition) -> (out: SchemaDefinition)
        ensures
            out@ == (
                self@.0,
                SchemaView { properties: self@.1.properties.push(property@), ..self@.1 },
            ),
    {
        let mut out = self;
        let ghost before = out.properties@;
        out.properties.push(property);
        assert(definitions_view(out.properties@) =~= definitions_view(before).push(property@));
        out
    }

    /// This schema, with an override property.
    pub fn with_override(self, property: PropertyDefinition) -> (out: SchemaDefinition)
        ensures
            out@ == (
                self@.0,
                SchemaView { overrides: self@.1.overrides.push(property@), ..self@.1 },
            ),
    {
        let mut out = self;
        let ghost before = out.overrides@;
        out.overrides.push(property);
        assert(definitions_view(out.overrides@) =~= definitions_view(before).push(property@));
        out
    }
}

/// Something that building a registry left out, and why.
#[derive(Clone, Copy, Debug, PartialEq, Eq, Structural)]
pub enum SchemaIssue {
    /// `schema` includes `included`, which names no registered schema.
    UnknownInclusion { schema: TokenId, included: TokenId },
    /// `schema` includes `included` in a form that is not allowed.
    InvalidInclusion { schema: TokenId, included: TokenId },
    /// Including `included` in `schema` would include a schema that is being
    /// built there.
    InclusionCycle { schema: TokenId, included: TokenId },
    /// `schema` overrides `property`, which its definition does not define
    /// with that kind and type.
    IgnoredOverride { schema: TokenId, property: TokenId },
    /// An auto-apply names a target that is not a registered schema.
    UnknownAutoApplyTarget { schema: TokenId, target: TokenId },
    /// `schema` inherits from `parent`, which is not a registered typed schema
    /// or inherits from `schema` itself.
    InvalidParent { schema: TokenId, parent: TokenId },
}

/// The first place in `list`, from `from` on, whose name is not before `name`.
pub open spec fn rank_place<T>(list: Seq<(TokenId, T)>, name: TokenId, from: int) -> int
    decreases list.len() - from,
{
    if from < 0 || from >= list.len() {
        list.len() as int
    } else if list[from].0.index >= name.index {
        from
    } else {
        rank_place(list, name, from + 1)
    }
}

/// A list in the order of the names, with a schema: in place of one of the
/// same name, else at its rank.
pub open spec fn with_schema<T>(list: Seq<(TokenId, T)>, schema: (TokenId, T)) -> Seq<(TokenId, T)> {
    let at = rank_place(list, schema.0, 0);
    if at < list.len() && list[at].0 == schema.0 {
        list.update(at, schema)
    } else {
        list.insert(at, schema)
    }
}

/// The registered schemas: in the order of their names, the last of those that
/// share one.
pub open spec fn registered<T>(given: Seq<(TokenId, T)>) -> Seq<(TokenId, T)>
    decreases given.len(),
{
    if given.len() == 0 {
        seq![]
    } else {
        with_schema(registered(given.drop_last()), given.last())
    }
}

/// Whether the names ascend.
pub open spec fn by_name<T>(list: Seq<(TokenId, T)>) -> bool {
    forall|i: int, j: int|
        0 <= i < j < list.len() ==> (#[trigger] list[i]).0.index < (#[trigger] list[j]).0.index
}

pub proof fn lemma_rank_place<T>(list: Seq<(TokenId, T)>, name: TokenId, from: int)
    requires
        0 <= from <= list.len(),
    ensures
        from <= rank_place(list, name, from) <= list.len(),
        forall|i: int|
            from <= i < rank_place(list, name, from) ==> (#[trigger] list[i]).0.index < name.index,
        rank_place(list, name, from) < list.len() ==> list[rank_place(list, name, from)].0.index
            >= name.index,
    decreases list.len() - from,
{
    if from < list.len() && list[from].0.index < name.index {
        lemma_rank_place(list, name, from + 1);
    }
}

proof fn lemma_with_schema<T>(list: Seq<(TokenId, T)>, schema: (TokenId, T))
    requires
        by_name(list),
    ensures
        by_name(with_schema(list, schema)),
        with_schema(list, schema).len() <= list.len() + 1,
{
    lemma_rank_place(list, schema.0, 0);
    let at = rank_place(list, schema.0, 0);
    let out = with_schema(list, schema);
    if !(at < list.len() && list[at].0 == schema.0) {
        assert forall|i: int, j: int| 0 <= i < j < out.len() implies (#[trigger] out[i]).0.index
            < (#[trigger] out[j]).0.index by {
            if j > at {
                assert(out[j] == list[j - 1]);
                if i > at {
                    assert(out[i] == list[i - 1]);
                } else if i == at {
                    assert(list[at].0.index > schema.0.index);
                    if j - 1 > at {
                        assert(list[at].0.index < list[j - 1].0.index);
                    }
                }
            }
        }
    }
}

/// What holds of every registered schema held of the given ones.
pub proof fn lemma_registered<T>(given: Seq<(TokenId, T)>)
    ensures
        by_name(registered(given)),
        registered(given).len() <= given.len(),
        forall|i: int| 0 <= i < registered(given).len() ==> given.contains(#[trigger] registered(given)[i]),
    decreases given.len(),
{
    if given.len() > 0 {
        let rest = given.drop_last();
        lemma_registered(rest);
        lemma_with_schema(registered(rest), given.last());
        lemma_rank_place(registered(rest), given.last().0, 0);
        let out = registered(given);
        assert forall|i: int| 0 <= i < out.len() implies given.contains(#[trigger] out[i]) by {
            let at = rank_place(registered(rest), given.last().0, 0);
            assert(given[given.len() - 1] == given.last());
            if out[i] != given.last() {
                assert(registered(rest).contains(out[i])) by {
                    let replaced = at < registered(rest).len() && registered(rest)[at].0
                        == given.last().0;
                    if replaced || i < at {
                        assert(registered(rest)[i] == out[i]);
                    } else {
                        assert(registered(rest)[i - 1] == out[i]);
                    }
                }
                let k = choose|k: int|
                    0 <= k < registered(rest).len() && registered(rest)[k] == out[i];
                assert(rest.contains(registered(rest)[k]));
                let m = choose|m: int| 0 <= m < rest.len() && rest[m] == out[i];
                assert(given[m] == out[i]);
            }
        }
    }
}

/// The registered schemas, in the order of their names.
#[derive(Debug)]
pub struct SchemaList {
    list: Vec<SchemaDefinition>,
    index: IdMap,
}

impl View for SchemaList {
    type V = Seq<(TokenId, SchemaView)>;

    closed spec fn view(&self) -> Seq<(TokenId, SchemaView)> {
        schemas_view(self.list@)
    }
}

impl SchemaList {
    #[verifier::type_invariant]
    spec fn is_indexed(&self) -> bool {
        &&& places(self.index@, schemas_view(self.list@))
        &&& by_name(schemas_view(self.list@))
    }

    /// The schemas of a list of registrations.
    pub fn of(given: Vec<SchemaDefinition>) -> (out: SchemaList)
        ensures
            out@ == registered(schemas_view(given@)),
    {
        let ghost all = schemas_view(given@);
        let mut given = given;
        let mut rest: Vec<SchemaDefinition> = Vec::new();
        let ghost total = given@.len();
        while given.len() > 0
            invariant
                total == all.len(),
                given@.len() + rest@.len() == total,
                schemas_view(given@) == all.take(given@.len() as int),
                forall|i: int|
                    0 <= i < rest@.len() ==> (#[trigger] rest@[i])@ == all[total - 1 - i],
            decreases given@.len(),
        {
            let ghost before = schemas_view(given@);
            let schema = given.pop().unwrap();
            assert(schema@ == before[before.len() - 1]);
            assert(schemas_view(given@) =~= before.drop_last());
            assert(before.drop_last() =~= all.take(given@.len() as int));
            rest.push(schema);
        }
        let mut list: Vec<SchemaDefinition> = Vec::new();
        let ghost mut done: int = 0;
        while rest.len() > 0
            invariant
                total == all.len(),
                0 <= done <= total,
                rest@.len() == total - done,
                forall|i: int|
                    0 <= i < rest@.len() ==> (#[trigger] rest@[i])@ == all[total - 1 - i],
                schemas_view(list@) == registered(all.take(done)),
            decreases rest@.len(),
        {
            let schema = rest.pop().unwrap();
            let ghost before = schemas_view(list@);
            let mut at: usize = 0;
            while at < list.len() && list[at].name.index < schema.name.index
                invariant
                    at <= list@.len(),
                    before == schemas_view(list@),
                    rank_place(before, schema.name, 0) == rank_place(
                        before,
                        schema.name,
                        at as int,
                    ),
                decreases list@.len() - at,
            {
                assert(before[at as int].0 == list@[at as int].name);
                at = at + 1;
            }
            proof {
                if at < list.len() {
                    assert(before[at as int].0 == list@[at as int].name);
                }
                assert(all.take(done + 1).drop_last() =~= all.take(done));
                assert(all.take(done + 1).last() == schema@);
                done = done + 1;
            }
            if at < list.len() && list[at].name == schema.name {
                list.set(at, schema);
                assert(schemas_view(list@) =~= before.update(at as int, schema@));
            } else {
                list.insert(at, schema);
                assert(schemas_view(list@) =~= before.insert(at as int, schema@));
            }
        }
        assert(all.take(done) =~= all);
        let mut index = new_id_map();
        let mut i: usize = 0;
        let ghost names = schemas_view(list@);
        proof {
            lemma_registered(all);
        }
        while i < list.len()
            invariant
                i <= list@.len(),
                names == schemas_view(list@),
                by_name(names),
                places(index@, names.take(i as int)),
            decreases list@.len() - i,
        {
            let ghost before = index@;
            insert_id(&mut index, list[i].name.index, i);
            proof {
                let part = names.take(i as int);
                let next = names.take(i + 1);
                let key = list@[i as int].name.index;
                assert(names[i as int].0.index == key);
                assert(!before.dom().contains(key)) by {
                    if before.dom().contains(key) {
                        assert(part[before[key] as int].0.index == key);
                        assert(names[before[key] as int].0.index == key);
                    }
                }
                assert forall|k: int| 0 <= k < next.len() implies index@.dom().contains(
                    (#[trigger] next[k]).0.index,
                ) && index@[next[k].0.index] == k by {
                    if k < i {
                        assert(part[k] == next[k]);
                    }
                }
                assert forall|k: usize| #[trigger] index@.dom().contains(k) implies index@[k]
                    < next.len() && next[index@[k] as int].0.index == k by {
                    if k != key {
                        assert(before.dom().contains(k));
                        assert(part[before[k] as int] == next[before[k] as int]);
                    }
                }
            }
            i = i + 1;
        }
        assert(names.take(i as int) =~= names);
        SchemaList { list, index }
    }

    /// The number of schemas.
    pub fn len(&self) -> (len: usize)
        ensures
            len == self@.len(),
            by_name(self@),
    {
        proof {
            use_type_invariant(self);
        }
        self.list.len()
    }

    /// The schema at a place.
    pub fn at(&self, place: usize) -> (schema: &SchemaDefinition)
        requires
            place < self@.len(),
        ensures
            schema@ == self@[place as int],
    {
        assert(self@[place as int] == self.list@[place as int]@);
        &self.list[place]
    }

    /// The place of the schema `name`, or the number of schemas.
    pub fn place(&self, name: TokenId) -> (at: usize)
        ensures
            at == place_of(self@, name, 0),
            at <= self@.len(),
    {
        proof {
            use_type_invariant(self);
        }
        let ghost names = self@;
        match get_id(&self.index, name.index) {
            Some(at) => {
                proof {
                    assert forall|i: int| 0 <= i < at implies (#[trigger] names[i]).0 != name by {
                        assert(self.index@.dom().contains(names[i].0.index));
                    }
                    lemma_place_of_unique(names, name, at as int);
                }
                at
            },
            None => {
                proof {
                    assert forall|i: int| 0 <= i < names.len() implies (#[trigger] names[i]).0
                        != name by {
                        assert(self.index@.dom().contains(names[i].0.index));
                    }
                    lemma_place_of_unique(names, name, names.len() as int);
                }
                self.list.len()
            },
        }
    }
}

} // verus!
