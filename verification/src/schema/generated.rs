//! Schema definitions read from a generated schema layer.
//!
//! Such a layer holds one root prim per schema, named for it, with the
//! schema's properties, its built-ins as `apiSchemas`, and the names of its
//! overrides in `customData.apiSchemaOverridePropertyNames`. The kind and the
//! base of each schema are declared apart from the layer.

use crate::doc::{copy_option, lemma_entries_view, lemma_values_view, Value, ValueView};
use crate::fields::{
    lemma_place_of_unique, named, FieldValue, FieldView, ItemView, ListItem, ListKind, ListOp,
};
use crate::interner::{extends, first_position, with_entry, TokenId, TokenInterner};
use crate::layer::{Layer, LayerView, PrimSpec, SpecView};
use crate::lists::{chain_items, chained, op_items, ops_view, resolve_list_chain};
use crate::path::{Path, PathId, PathInterner};
use crate::property::{copy_type, PropertyEntry, PropertyKind, PropertyView};
use crate::schema::definition::{
    definitions_view, holds_token, DefinitionView, PropertyDefinition,
};
use crate::schema::kinds::{schemas_view, SchemaDefinition, SchemaKind, SchemaView};
use crate::schema::naming::{placeholder, token_of, INSTANCE_NAME_PLACEHOLDER};
use crate::text::{
    chars_of, find_char, index_of, lemma_index_of, push_text, same_text, string_of,
};
use vstd::prelude::*;

verus! {

/// What is declared of a schema apart from its layer.
#[derive(Clone, Copy, Debug, PartialEq, Eq, Structural)]
pub struct SchemaDeclaration {
    /// The schema's name, which is its prim's name.
    pub name: TokenId,
    pub kind: SchemaKind,
    /// The typed schema that it inherits from.
    pub parent: Option<TokenId>,
}

/// Why a generated schema layer could not be read.
#[derive(Clone, Copy, Debug, PartialEq, Eq, Structural)]
pub enum GeneratedSchemaError {
    /// The layer has no root prim named for a declared schema.
    MissingSchema { name: TokenId },
}

/// The field that holds the built-ins.
pub const API_SCHEMAS: &'static str = "apiSchemas";

/// The field that holds the names of the overrides.
pub const CUSTOM_DATA: &'static str = "customData";

/// The entry of the names of the overrides.
pub const OVERRIDE_NAMES: &'static str = "apiSchemaOverridePropertyNames";

// ── Built-ins ───────────────────────────────────────────────────────────

/// The name that a built-in of a template stands for: its name without the
/// placeholder that follows the schema's. Any other name has none.
pub open spec fn template_text(name: Seq<char>) -> Option<Seq<char>> {
    let at = index_of(name, 0, ':');
    let end = index_of(name, at + 1, ':');
    if at < name.len() && name.subrange(at + 1, end) == placeholder() {
        Some(name.take(at) + name.skip(end))
    } else {
        None
    }
}

/// The tokens and the token of a built-in, once it is converted.
pub open spec fn converted(tokens: Seq<Seq<char>>, name: TokenId) -> (Seq<Seq<char>>, TokenId) {
    match template_text(tokens[name.index as int]) {
        Some(text) => (with_entry(tokens, text), token_of(tokens, text)),
        None => (tokens, name),
    }
}

/// The token of an item of a list of tokens.
pub open spec fn item_token(item: ItemView) -> TokenId {
    item->Token_0
}

/// The tokens and the built-ins, once those of a list are converted in order.
pub open spec fn all_converted(tokens: Seq<Seq<char>>, items: Seq<ItemView>) -> (
    Seq<Seq<char>>,
    Seq<TokenId>,
)
    decreases items.len(),
{
    if items.len() == 0 {
        (tokens, seq![])
    } else {
        let (before, names) = all_converted(tokens, items.drop_last());
        let (after, name) = converted(before, item_token(items.last()));
        (after, names.push(name))
    }
}

/// The tokens and the built-ins that a field comes to.
pub open spec fn built_ins_read(tokens: Seq<Seq<char>>, field: Option<FieldView>) -> (
    Seq<Seq<char>>,
    Seq<TokenId>,
) {
    match field {
        Some(FieldView::List(ListKind::Tokens, op)) => all_converted(tokens, chained(seq![op])),
        _ => (tokens, seq![]),
    }
}

// ── Overrides ───────────────────────────────────────────────────────────

/// The tokens and the names that a list of values comes to: tokens name
/// themselves, strings are interned, and nothing else is a name.
pub open spec fn names_read(tokens: Seq<Seq<char>>, values: Seq<ValueView>) -> (
    Seq<Seq<char>>,
    Seq<TokenId>,
)
    decreases values.len(),
{
    if values.len() == 0 {
        (tokens, seq![])
    } else {
        let (before, names) = names_read(tokens, values.drop_last());
        match values.last() {
            ValueView::Token(token) => (before, names.push(token)),
            ValueView::Text(text) => (
                with_entry(before, text),
                names.push(token_of(before, text)),
            ),
            _ => (before, names),
        }
    }
}

/// The tokens and the names of the overrides that a field comes to.
pub open spec fn overrides_read(tokens: Seq<Seq<char>>, field: Option<FieldView>) -> (
    Seq<Seq<char>>,
    Seq<TokenId>,
) {
    match field {
        Some(FieldView::Value(ValueView::Dictionary(entries))) => match named(
            entries,
            OVERRIDE_NAMES@,
        ) {
            Some(ValueView::Array(values)) => names_read(tokens, values),
            _ => (tokens, seq![]),
        },
        _ => (tokens, seq![]),
    }
}

// ── Properties ──────────────────────────────────────────────────────────

/// The definition that a property comes to: an attribute's default is its
/// fallback.
pub open spec fn definition_read(property: PropertyView) -> DefinitionView {
    DefinitionView {
        kind: property.kind,
        declared_type: property.declared_type,
        variability: property.variability,
        fallback: match property.kind {
            PropertyKind::Attribute => property.default,
            PropertyKind::Relationship => None,
        },
    }
}

/// The definitions of the properties whose names are, or are not, in a list.
pub open spec fn definitions_read(
    properties: Seq<(TokenId, PropertyView)>,
    overrides: Seq<TokenId>,
    listed: bool,
) -> Seq<(TokenId, DefinitionView)>
    decreases properties.len(),
{
    if properties.len() == 0 {
        seq![]
    } else {
        let before = definitions_read(properties.drop_last(), overrides, listed);
        let last = properties.last();
        if overrides.contains(last.0) == listed {
            before.push((last.0, definition_read(last.1)))
        } else {
            before
        }
    }
}

// ── Schemas ─────────────────────────────────────────────────────────────

/// The spec of the root prim of a name.
pub open spec fn root_spec(layer: LayerView, paths: Seq<Seq<TokenId>>, name: TokenId) -> Option<
    SpecView,
> {
    if paths.contains(seq![name]) {
        named(
            layer.prims,
            PathId { index: first_position(paths, seq![name]) as usize },
        )
    } else {
        None
    }
}

/// The tokens and the schema that a spec comes to.
pub open spec fn schema_read(
    tokens: Seq<Seq<char>>,
    fields: (TokenId, TokenId),
    declaration: SchemaDeclaration,
    spec: SpecView,
) -> (Seq<Seq<char>>, (TokenId, SchemaView)) {
    let (between, built_ins) = built_ins_read(tokens, named(spec.fields, fields.0));
    let (after, overrides) = overrides_read(between, named(spec.fields, fields.1));
    (
        after,
        (
            declaration.name,
            SchemaView {
                kind: declaration.kind,
                parent: declaration.parent,
                built_ins,
                properties: definitions_read(spec.properties, overrides, false),
                overrides: definitions_read(spec.properties, overrides, true),
            },
        ),
    )
}

/// The tokens and the schemas, or the first declared name without a root prim,
/// that a layer comes to.
pub open spec fn schemas_read(
    tokens: Seq<Seq<char>>,
    fields: (TokenId, TokenId),
    layer: LayerView,
    declared: Seq<SchemaDeclaration>,
    paths: Seq<Seq<TokenId>>,
) -> (Seq<Seq<char>>, Result<Seq<(TokenId, SchemaView)>, TokenId>)
    decreases declared.len(),
{
    if declared.len() == 0 {
        (tokens, Ok(seq![]))
    } else {
        let (before, read) = schemas_read(tokens, fields, layer, declared.drop_last(), paths);
        match read {
            Err(missing) => (before, Err(missing)),
            Ok(schemas) => match root_spec(layer, paths, declared.last().name) {
                None => (before, Err(declared.last().name)),
                Some(spec) => {
                    let (after, schema) = schema_read(before, fields, declared.last(), spec);
                    (after, Ok(schemas.push(schema)))
                },
            },
        }
    }
}

/// Whether an edit of a list of tokens names tokens alone, and known ones.
pub open spec fn names_tokens(field: FieldView, count: nat) -> bool {
    match field {
        FieldView::List(ListKind::Tokens, op) => forall|i: int|
            0 <= i < op_items(op).len() ==> is_token(#[trigger] op_items(op)[i], count),
        _ => true,
    }
}

/// Whether an item is a known token.
pub open spec fn is_token(item: ItemView, count: nat) -> bool {
    item is Token && item_token(item).index < count
}

/// Whether a spec's built-ins, in the field `api_schemas`, are known tokens.
pub open spec fn names_built_ins(spec: SpecView, api_schemas: TokenId, count: nat) -> bool {
    named(spec.fields, api_schemas) matches Some(field) ==> names_tokens(field, count)
}

/// Whether the built-ins of the declared schemas of a layer are known tokens.
pub open spec fn declared_names_built_ins(
    layer: LayerView,
    declared: Seq<SchemaDeclaration>,
    paths: Seq<Seq<TokenId>>,
    tokens: Seq<Seq<char>>,
) -> bool {
    forall|i: int|
        0 <= i < declared.len() ==> (root_spec(layer, paths, (#[trigger] declared[i]).name) matches
            Some(spec) ==> names_built_ins(spec, token_of(tokens, API_SCHEMAS@), tokens.len()))
}

/// The token of a built-in without the placeholder that follows the schema's
/// name in a template.
pub fn from_template(name: TokenId, tokens: &mut TokenInterner) -> (out: TokenId)
    requires
        old(tokens).has(name),
    ensures
        (final(tokens)@, out) == converted(old(tokens)@, name),
        extends(final(tokens)@, old(tokens)@),
{
    let chars = chars_of(tokens.resolve(name));
    let ghost shown = tokens@[name.index as int];
    let at = find_char(&chars, 0, ':');
    proof {
        lemma_index_of(shown, 0, ':');
    }
    if at >= chars.len() {
        return name;
    }
    let end = find_char(&chars, at + 1, ':');
    proof {
        lemma_index_of(shown, at + 1, ':');
    }
    let segment = string_of(&chars, at + 1, end);
    if !same_text(segment.as_str(), INSTANCE_NAME_PLACEHOLDER) {
        return name;
    }
    let mut out = string_of(&chars, 0, at);
    let rest = string_of(&chars, end, chars.len());
    push_text(&mut out, rest.as_str());
    assert(out@ =~= shown.take(at as int) + shown.skip(end as int));
    tokens.intern(out.as_str())
}

/// The built-ins that a field holds.
fn read_built_ins(field: Option<&FieldValue>, tokens: &mut TokenInterner) -> (out: Vec<TokenId>)
    requires
        match field {
            Some(field) => names_tokens(field@, old(tokens)@.len()),
            None => true,
        },
    ensures
        (final(tokens)@, out@) == built_ins_read(
            old(tokens)@,
            crate::fields::field_ref(field),
        ),
        extends(final(tokens)@, old(tokens)@),
{
    let mut out: Vec<TokenId> = Vec::new();
    let op = match field {
        Some(FieldValue::List(ListKind::Tokens, op)) => op,
        _ => {
            assert(out@ =~= seq![]);
            return out;
        },
    };
    let mut ops: Vec<ListOp> = Vec::new();
    ops.push(op.copy());
    let items = resolve_list_chain(&ops);
    let ghost start = tokens@;
    let ghost shown = crate::fields::items_view(items@);
    proof {
        assert(ops_view(ops@) =~= seq![op@]);
        reveal_with_fuel(chain_items, 2);
        assert(seq![op@].drop_last() =~= seq![]);
        assert(chain_items(seq![op@]) =~= op_items(op@));
        assert forall|k: int| 0 <= k < shown.len() implies is_token(
            #[trigger] shown[k],
            start.len(),
        ) by {
            let m = choose|m: int| 0 <= m < op_items(op@).len() && op_items(op@)[m] == shown[k];
            assert(is_token(op_items(op@)[m], start.len()));
        }
        assert(shown.take(0) =~= seq![]);
    }
    let mut i: usize = 0;
    while i < items.len()
        invariant
            i <= items@.len(),
            shown == crate::fields::items_view(items@),
            forall|k: int| 0 <= k < shown.len() ==> is_token(#[trigger] shown[k], start.len()),
            (tokens@, out@) == all_converted(start, shown.take(i as int)),
            extends(tokens@, start),
        decreases items@.len() - i,
    {
        proof {
            assert(is_token(shown[i as int], start.len()));
            assert(shown.take(i + 1).drop_last() =~= shown.take(i as int));
            assert(shown.take(i + 1).last() == items@[i as int]@);
        }
        match &items[i] {
            ListItem::Token(name) => {
                let token = from_template(*name, tokens);
                out.push(token);
            },
            _ => {},
        }
        i = i + 1;
    }
    assert(shown.take(i as int) =~= shown);
    out
}

/// The names that `customData.apiSchemaOverridePropertyNames` lists.
pub fn override_names(custom_data: Option<&FieldValue>, tokens: &mut TokenInterner) -> (out: Vec<
    TokenId,
>)
    ensures
        (final(tokens)@, out@) == overrides_read(
            old(tokens)@,
            crate::fields::field_ref(custom_data),
        ),
        extends(final(tokens)@, old(tokens)@),
{
    let mut out: Vec<TokenId> = Vec::new();
    assert(out@ =~= seq![]);
    let entries = match custom_data {
        Some(FieldValue::Value(Value::Dictionary(entries))) => entries,
        _ => {
            return out;
        },
    };
    let values = match find_entry(entries, OVERRIDE_NAMES) {
        Some(Value::Array(values)) => values,
        _ => {
            return out;
        },
    };
    let ghost shown = crate::doc::values_view(values@);
    let ghost start = tokens@;
    let mut i: usize = 0;
    proof {
        lemma_values_view(values@);
        assert(shown.take(0) =~= seq![]);
    }
    while i < values.len()
        invariant
            i <= values@.len(),
            shown == crate::doc::values_view(values@),
            shown.len() == values@.len(),
            forall|k: int|
                0 <= k < values@.len() ==> #[trigger] shown[k] == values@[k].view(),
            (tokens@, out@) == names_read(start, shown.take(i as int)),
            extends(tokens@, start),
        decreases values@.len() - i,
    {
        proof {
            assert(shown.take(i + 1).drop_last() =~= shown.take(i as int));
            assert(shown.take(i + 1).last() == values@[i as int].view());
        }
        match &values[i] {
            Value::Token(token) => {
                out.push(*token);
            },
            Value::String(text) => {
                let token = tokens.intern(text.as_str());
                out.push(token);
            },
            _ => {},
        }
        i = i + 1;
    }
    assert(shown.take(i as int) =~= shown);
    out
}

/// The value of the first entry of a key.
fn find_entry<'a>(entries: &'a Vec<(String, Value)>, key: &str) -> (out: Option<&'a Value>)
    ensures
        (match out {
            Some(value) => Some(value.view()),
            None => None,
        }) == named(crate::doc::entries_view(entries@), key@),
{
    let ghost shown = crate::doc::entries_view(entries@);
    proof {
        lemma_entries_view(entries@);
    }
    let mut i: usize = 0;
    while i < entries.len()
        invariant
            i <= entries@.len(),
            shown == crate::doc::entries_view(entries@),
            shown.len() == entries@.len(),
            forall|k: int|
                0 <= k < entries@.len() ==> #[trigger] shown[k] == (
                    entries@[k].0@,
                    entries@[k].1.view(),
                ),
            forall|k: int| 0 <= k < i ==> (#[trigger] shown[k]).0 != key@,
        decreases entries@.len() - i,
    {
        assert(shown[i as int] == (entries@[i as int].0@, entries@[i as int].1.view()));
        if same_text(entries[i].0.as_str(), key) {
            proof {
                lemma_place_of_unique(shown, key@, i as int);
            }
            return Some(&entries[i].1);
        }
        i = i + 1;
    }
    proof {
        lemma_place_of_unique(shown, key@, i as int);
    }
    None
}

/// The definition that a property comes to.
fn read_definition(entry: &PropertyEntry) -> (out: PropertyDefinition)
    ensures
        out@ == (entry.name, definition_read(entry.spec@)),
{
    PropertyDefinition {
        name: entry.name,
        kind: entry.spec.kind,
        declared_type: copy_type(&entry.spec.declared_type),
        variability: entry.spec.variability,
        fallback: match entry.spec.kind {
            PropertyKind::Attribute => copy_option(&entry.spec.default),
            PropertyKind::Relationship => None,
        },
    }
}

/// The schema that a spec comes to.
fn read_schema(
    declaration: &SchemaDeclaration,
    spec: &PrimSpec,
    api_schemas: TokenId,
    custom_data: TokenId,
    tokens: &mut TokenInterner,
) -> (out: SchemaDefinition)
    requires
        names_built_ins(spec@, api_schemas, old(tokens)@.len()),
    ensures
        (final(tokens)@, out@) == schema_read(
            old(tokens)@,
            (api_schemas, custom_data),
            *declaration,
            spec@,
        ),
        extends(final(tokens)@, old(tokens)@),
{
    let ghost start = tokens@;
    let built_ins = read_built_ins(spec.field(api_schemas), tokens);
    let ghost between = tokens@;
    let names = override_names(spec.field(custom_data), tokens);
    let ghost shown = spec@.properties;
    let mut properties: Vec<PropertyDefinition> = Vec::new();
    let mut overrides: Vec<PropertyDefinition> = Vec::new();
    proof {
        assert(shown.take(0) =~= seq![]);
        assert(definitions_view(properties@) =~= seq![]);
        assert(definitions_view(overrides@) =~= seq![]);
    }
    let mut i: usize = 0;
    while i < spec.properties.len()
        invariant
            i <= spec.properties@.len(),
            shown == crate::property::properties_view(spec.properties@),
            definitions_view(properties@) == definitions_read(
                shown.take(i as int),
                names@,
                false,
            ),
            definitions_view(overrides@) == definitions_read(shown.take(i as int), names@, true),
        decreases spec.properties@.len() - i,
    {
        let entry = &spec.properties[i];
        proof {
            assert(shown.take(i + 1).drop_last() =~= shown.take(i as int));
            assert(shown.take(i + 1).last() == (entry.name, entry.spec@));
        }
        let definition = read_definition(entry);
        let ghost kept = properties@;
        let ghost over = overrides@;
        if holds_token(&names, entry.name) {
            overrides.push(definition);
            assert(definitions_view(overrides@) =~= definitions_view(over).push(definition@));
        } else {
            properties.push(definition);
            assert(definitions_view(properties@) =~= definitions_view(kept).push(definition@));
        }
        i = i + 1;
    }
    assert(shown.take(i as int) =~= shown);
    let out = SchemaDefinition {
        name: declaration.name,
        kind: declaration.kind,
        parent: declaration.parent,
        built_ins,
        properties,
        overrides,
    };
    assert(out@.1 =~= schema_read(start, (api_schemas, custom_data), *declaration, spec@).1.1);
    out
}

/// Reads the definitions of the declared schemas from a generated schema
/// layer, in the order they are declared.
///
/// A built-in `Other:__INSTANCE_NAME__` becomes `Other`, and
/// `Other:__INSTANCE_NAME__:sub` becomes `Other:sub`. The properties named in
/// `apiSchemaOverridePropertyNames` become overrides; the default of any other
/// attribute is its fallback.
pub fn read_generated_schema(
    layer: &Layer,
    declared: &Vec<SchemaDeclaration>,
    tokens: &mut TokenInterner,
    paths: &PathInterner,
) -> (out: Result<Vec<SchemaDefinition>, GeneratedSchemaError>)
    requires
        declared_names_built_ins(layer@, declared@, paths@, old(tokens)@),
    ensures
        ({
            let first = with_entry(old(tokens)@, API_SCHEMAS@);
            let both = with_entry(first, CUSTOM_DATA@);
            let fields = (
                token_of(old(tokens)@, API_SCHEMAS@),
                token_of(first, CUSTOM_DATA@),
            );
            let read = schemas_read(both, fields, layer@, declared@, paths@);
            &&& final(tokens)@ == read.0
            &&& match out {
                Ok(schemas) => read.1 == Ok::<Seq<(TokenId, SchemaView)>, TokenId>(
                    schemas_view(schemas@),
                ),
                Err(GeneratedSchemaError::MissingSchema { name }) => read.1 == Err::<
                    Seq<(TokenId, SchemaView)>,
                    TokenId,
                >(name),
            }
        }),
{
    let ghost given = tokens@;
    let api_schemas = tokens.intern(API_SCHEMAS);
    let custom_data = tokens.intern(CUSTOM_DATA);
    let ghost fields = (api_schemas, custom_data);
    let ghost start = tokens@;
    let mut schemas: Vec<SchemaDefinition> = Vec::new();
    let mut i: usize = 0;
    proof {
        assert(declared@.take(0) =~= seq![]);
        assert(schemas_view(schemas@) =~= seq![]);
    }
    while i < declared.len()
        invariant
            i <= declared@.len(),
            fields == (api_schemas, custom_data),
            declared_names_built_ins(layer@, declared@, paths@, given),
            extends(tokens@, given),
            schemas_read(start, fields, layer@, declared@.take(i as int), paths@) == (
                tokens@,
                Ok::<Seq<(TokenId, SchemaView)>, TokenId>(schemas_view(schemas@)),
            ),
            (start, fields) == ({
                let first = with_entry(given, API_SCHEMAS@);
                (
                    with_entry(first, CUSTOM_DATA@),
                    (token_of(given, API_SCHEMAS@), token_of(first, CUSTOM_DATA@)),
                )
            }),
            given == old(tokens)@,
        decreases declared@.len() - i,
    {
        let declaration = &declared[i];
        proof {
            assert(declared@.take(i + 1).drop_last() =~= declared@.take(i as int));
            assert(declared@.take(i + 1).last() == declaration);
        }
        let mut segments: Vec<TokenId> = Vec::new();
        segments.push(declaration.name);
        let root = Path::from_segments(segments);
        assert(root@ =~= seq![declaration.name]);
        let found = match paths.lookup(&root) {
            Some(path) => layer.prim(path),
            None => None,
        };
        let spec = match found {
            Some(spec) => spec,
            None => {
                proof {
                    lemma_missing(start, fields, layer@, declared@, paths@, i as int);
                }
                return Err(GeneratedSchemaError::MissingSchema { name: declaration.name });
            },
        };
        proof {
            assert(declared@[i as int] == declaration);
            lemma_names_more(spec@, api_schemas, given.len(), tokens@.len());
        }
        let ghost before = schemas@;
        let schema = read_schema(declaration, spec, api_schemas, custom_data, tokens);
        schemas.push(schema);
        assert(schemas_view(schemas@) =~= schemas_view(before).push(schema@));
        i = i + 1;
    }
    assert(declared@.take(i as int) =~= declared@);
    Ok(schemas)
}

/// What names known tokens names them still when there are more.
proof fn lemma_names_more(spec: SpecView, api_schemas: TokenId, count: nat, more: nat)
    requires
        names_built_ins(spec, api_schemas, count),
        count <= more,
    ensures
        names_built_ins(spec, api_schemas, more),
{
    match named(spec.fields, api_schemas) {
        Some(FieldView::List(ListKind::Tokens, op)) => {
            assert forall|i: int| 0 <= i < op_items(op).len() implies is_token(
                #[trigger] op_items(op)[i],
                more,
            ) by {
                assert(is_token(op_items(op)[i], count));
            }
        },
        _ => {},
    }
}

/// A missing schema ends the reading.
proof fn lemma_missing(
    tokens: Seq<Seq<char>>,
    fields: (TokenId, TokenId),
    layer: LayerView,
    declared: Seq<SchemaDeclaration>,
    paths: Seq<Seq<TokenId>>,
    count: int,
)
    requires
        0 <= count < declared.len(),
        schemas_read(tokens, fields, layer, declared.take(count), paths).1 is Ok,
        root_spec(layer, paths, declared[count].name) is None,
    ensures
        schemas_read(tokens, fields, layer, declared, paths) == (
            schemas_read(tokens, fields, layer, declared.take(count), paths).0,
            Err::<Seq<(TokenId, SchemaView)>, TokenId>(declared[count].name),
        ),
    decreases declared.len(),
{
    let rest = declared.drop_last();
    if count == declared.len() - 1 {
        assert(rest =~= declared.take(count));
    } else {
        assert(rest.take(count) =~= declared.take(count));
        lemma_missing(tokens, fields, layer, rest, paths, count);
    }
}

} // verus!
