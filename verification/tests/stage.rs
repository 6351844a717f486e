use layerstack::composition_error::{
    CompositionError, InvalidAuthoredRelocation, InvalidRelocationReason,
};
use layerstack::dependency_map::{ArcDependency, CompositionDeps, DependencyGraph};
use layerstack::doc::{ArrayEdit, ArrayPlace, EditOp, EditOperand, Specifier, Value};
use layerstack::fields::{FieldEntry, FieldValue, ListItem, ListKind, ListOp, TargetPath};
use layerstack::interner::{TokenId, TokenInterner};
use layerstack::interpolation::{resolve_sparse_value, settle_arrays, SparseQuery};
use layerstack::opinion::{Opinion, OpinionValue};
use layerstack::path::{Path, PathId, PathInterner, PropertyPath};
use layerstack::prim_index::{LayerId, LayerOffset, OpinionKey};
use layerstack::prim_index_graph::{NodeId, PrimIndexGraph};
use layerstack::property::{PropertySpec, PropertyType};
use layerstack::resolution::{ExpressionFold, ResolvedValue, SparseResolveResult};
use layerstack::schema::definition::PropertyDefinition;
use layerstack::schema::kinds::SchemaDefinition;
use layerstack::schema::registry::SchemaRegistry;
use layerstack::series::InterpolationType;
use layerstack::spec_path::SpecPath;
use layerstack::stage::explain::ValueSource;
use layerstack::stage::sources::SourceSpec;
use layerstack::stage::{PrimIndex, Stage, StageError};
use layerstack::times::TimeTable;

fn samples(samples: Vec<(f64, Value)>) -> OpinionValue {
    OpinionValue::Property(
        PropertySpec::attribute().with_time_samples(
            samples
                .into_iter()
                .map(|(time, value)| (time.to_bits(), value))
                .collect(),
        ),
    )
}

fn array_value(values: &[i32]) -> Value {
    Value::Array(values.iter().copied().map(Value::Int).collect())
}

fn int_array_type() -> PropertyType {
    PropertyType::new("int", true, Value::Int(0))
}

fn test_key(layer: LayerId, lookup_path: PathId) -> OpinionKey {
    let mut tokens = TokenInterner::default();
    let mut paths = PathInterner::default();
    let spec_path = SpecPath::parse("/A", &mut tokens, &mut paths).expect("spec path");
    OpinionKey {
        node: NodeId::root(),
        layer_strength: 0,
        layer_id: layer,
        lookup_path,
        spec_path,
    }
}

fn opinion(key: &OpinionKey, strength: u16, field: TokenId, value: OpinionValue) -> Opinion {
    Opinion {
        key: OpinionKey {
            layer_strength: strength,
            ..key.clone()
        },
        field,
        value,
        layer_offset: LayerOffset::identity(),
    }
}

fn empty_index() -> PrimIndex {
    PrimIndex {
        sources: Vec::new(),
        graph: PrimIndexGraph::default(),
        metadata: Vec::new(),
        properties: Vec::new(),
    }
}

fn field_value(value: Value) -> OpinionValue {
    OpinionValue::Field(FieldValue::Value(value))
}

fn default_value(value: Value) -> OpinionValue {
    OpinionValue::Property(PropertySpec::attribute().with_default(value))
}

/// The opinion that declares a type, weaker than every other.
fn typed(key: &OpinionKey, field: TokenId) -> Opinion {
    opinion(
        key,
        9,
        field,
        OpinionValue::Property(PropertySpec::typed_attribute(int_array_type())),
    )
}

fn write_edit(value: i32, at: i64) -> Value {
    Value::ArrayEdit(ArrayEdit {
        ops: vec![EditOp::Write {
            src: EditOperand::Literal(Value::Int(value)),
            index: ArrayPlace::Position(at),
        }],
    })
}

fn append_edit(value: i32) -> Value {
    Value::ArrayEdit(ArrayEdit {
        ops: vec![EditOp::Insert {
            src: EditOperand::Literal(Value::Int(value)),
            index: ArrayPlace::End,
        }],
    })
}

fn ids() -> (TokenInterner, PathId, TokenId) {
    let mut tokens = TokenInterner::default();
    let mut paths = PathInterner::default();
    let prim = paths.intern(Path::parse_absolute("/A", &mut tokens).expect("valid path"));
    let field = tokens.intern("x");
    (tokens, prim, field)
}

fn no_times() -> TimeTable {
    TimeTable::new()
}

/// What the arrays of a property compose to at a time.
fn arrays_at(
    stage: &Stage,
    property: PropertyPath,
    time: f64,
    interp: InterpolationType,
    fallback: Option<&Value>,
) -> SparseResolveResult {
    match stage.explain_property_path(property) {
        Some(opinions) => settle_arrays(
            resolve_sparse_value(
                opinions,
                SparseQuery::AtTime {
                    time: time.to_bits(),
                    interp,
                    fallback,
                },
                Some(&int_array_type()),
                &no_times(),
            ),
            None,
        ),
        None => SparseResolveResult::NotApplicable,
    }
}

fn unread(stage: &Stage, property: PropertyPath) -> Vec<Option<Value>> {
    let count = stage.explain_property_path(property).map_or(0, Vec::len);
    (0..count).map(|_| None).collect()
}

#[test]
fn resolves_sparse_array_edit_over_dense_default() {
    let (_, prim, field) = ids();
    let key = test_key(LayerId(1), prim);
    let mut index = empty_index();
    index.properties.push((field, vec![typed(&key, field)]));
    index.metadata.push((
        field,
        vec![
            opinion(&key, 0, field, field_value(write_edit(9, 0))),
            opinion(&key, 1, field, field_value(array_value(&[1, 2]))),
        ],
    ));

    let stage = Stage::from_parts(vec![(prim, index)], Vec::new(), false);
    let resolved = stage.resolve_field(prim, field, None).expect("resolved value");
    assert_eq!(resolved.value, array_value(&[9, 2]));
}

#[test]
fn resolves_time_sampled_sparse_array_edits() {
    let (_, prim, field) = ids();
    let identity = || Value::ArrayEdit(ArrayEdit { ops: Vec::new() });
    let key = test_key(LayerId(1), prim);
    let mut index = empty_index();
    index.properties.push((
        field,
        vec![
            opinion(
                &key,
                0,
                field,
                samples(vec![
                    (0.0, identity()),
                    (2.0, write_edit(9, 0)),
                    (3.0, identity()),
                ]),
            ),
            opinion(&key, 1, field, default_value(array_value(&[1, 2]))),
            typed(&key, field),
        ],
    ));

    let stage = Stage::from_parts(vec![(prim, index)], Vec::new(), false);
    let property = PropertyPath::new(prim, field);
    let at = |time: f64| {
        stage
            .resolve_property_path_at_time(
                property,
                None,
                arrays_at(&stage, property, time, InterpolationType::Held, None),
                &unread(&stage, property),
            )
            .map(|resolved| resolved.value)
    };
    assert_eq!(at(2.5), Some(array_value(&[9, 2])));
    assert_eq!(at(3.5), Some(array_value(&[1, 2])));
}

#[test]
fn sampled_block_hides_weaker_array_at_time() {
    let (_, prim, field) = ids();
    let key = test_key(LayerId(1), prim);
    let mut index = empty_index();
    index.properties.push((
        field,
        vec![
            opinion(&key, 0, field, samples(vec![(0.0, Value::Blocked)])),
            opinion(&key, 1, field, default_value(array_value(&[42]))),
            typed(&key, field),
        ],
    ));

    let stage = Stage::from_parts(vec![(prim, index)], Vec::new(), false);
    let property = PropertyPath::new(prim, field);
    for time in [0.0, 1.0] {
        let resolved = stage.resolve_property_path_at_time(
            property,
            None,
            arrays_at(&stage, property, time, InterpolationType::Held, None),
            &unread(&stage, property),
        );
        assert!(
            resolved.is_none(),
            "the sampled block must hide the weaker array at t={time}"
        );
        assert!(stage
            .resolve_value_at_time(
                prim,
                field,
                None,
                SparseResolveResult::NotApplicable,
                &Vec::new()
            )
            .is_none());
    }
}

struct Fixture {
    stage: Stage,
    tokens: TokenInterner,
    registry: SchemaRegistry,
    specs: Vec<Option<SourceSpec>>,
    prim: PathId,
    field: TokenId,
}

fn bare_source(type_label: Option<TokenId>) -> Option<SourceSpec> {
    Some(SourceSpec {
        specifier: Some(Specifier::Def),
        type_label,
        active: None,
        instanceable: None,
        prim_order: None,
        property_order: None,
    })
}

/// Builds a `Mesh`-typed `/A` whose `x` array attribute carries the defaults
/// `opinions` (strongest first) and whose schema fallback is `[5, 6]`.
fn schema_fallback_fixture(opinions: Vec<Value>) -> Fixture {
    let (mut tokens, prim, field) = ids();
    let mesh = tokens.intern("Mesh");
    let mut builder = SchemaRegistry::builder();
    builder.register(SchemaDefinition::typed(mesh).with_property(
        PropertyDefinition::attribute(field).with_fallback(array_value(&[5, 6])),
    ));
    let registry = builder.build(&mut tokens);
    let key = test_key(LayerId(1), prim);
    let mut index = empty_index();
    index.sources.push(key.clone());
    let mut chain: Vec<Opinion> = opinions
        .into_iter()
        .enumerate()
        .map(|(strength, value)| opinion(&key, strength as u16, field, default_value(value)))
        .collect();
    chain.push(typed(&key, field));
    index.properties.push((field, chain));
    let stage = Stage::from_parts(vec![(prim, index)], Vec::new(), false);
    Fixture {
        stage,
        tokens,
        registry,
        specs: vec![bare_source(Some(mesh))],
        prim,
        field,
    }
}

impl Fixture {
    fn without_schema(&self) -> Option<Value> {
        self.stage
            .resolve_property_path(PropertyPath::new(self.prim, self.field), None)
            .map(|resolved| scalar(resolved.value))
    }

    fn with_schema(&self) -> Option<Value> {
        self.stage
            .resolve_value_with_schema(
                self.prim,
                self.field,
                None,
                &self.specs,
                &self.registry,
                None,
                &self.tokens,
            )
            .map(|resolved| scalar(resolved.value))
    }

    fn fallback(&self) -> Option<Value> {
        self.stage.schema_fallback(
            self.prim,
            self.field,
            &self.specs,
            &self.registry,
            None,
            &self.tokens,
        )
    }
}

fn scalar(value: ResolvedValue) -> Value {
    match value {
        ResolvedValue::Scalar(value) => value,
        other => panic!("{other:?}"),
    }
}

#[test]
fn stronger_array_edit_over_block_materializes_over_fallback() {
    let fixture = schema_fallback_fixture(vec![
        append_edit(7),
        Value::Blocked,
        array_value(&[1, 2]),
    ]);
    assert_eq!(
        fixture.without_schema(),
        Some(array_value(&[7])),
        "without a schema fallback the edit materializes over the empty array"
    );
    assert_eq!(
        fixture.with_schema(),
        Some(array_value(&[5, 6, 7])),
        "the edit composes over the schema fallback, never over the blocked [1, 2]"
    );
}

#[test]
fn strongest_array_block_resolves_to_schema_fallback() {
    let fixture = schema_fallback_fixture(vec![
        Value::Blocked,
        append_edit(7),
        array_value(&[1, 2]),
    ]);
    assert_eq!(fixture.without_schema(), None);
    assert_eq!(
        fixture.with_schema(),
        Some(array_value(&[5, 6])),
        "a strongest block yields the schema fallback unmodified"
    );
}

#[test]
fn time_query_with_schema_shares_the_fallback_contract() {
    let resolve = |fixture: &Fixture| {
        let fallback = fixture.fallback();
        [InterpolationType::Held, InterpolationType::Linear].map(|interp| {
            let property = PropertyPath::new(fixture.prim, fixture.field);
            fixture
                .stage
                .resolve_value_at_time_with_schema(
                    fixture.prim,
                    fixture.field,
                    None,
                    arrays_at(&fixture.stage, property, 1.0, interp, fallback.as_ref()),
                    &unread(&fixture.stage, property),
                    &fixture.specs,
                    &fixture.registry,
                    None,
                    &fixture.tokens,
                )
                .map(|resolved| resolved.value)
        })
    };
    let fixture = schema_fallback_fixture(vec![
        append_edit(7),
        Value::Blocked,
        array_value(&[1, 2]),
    ]);
    assert_eq!(
        resolve(&fixture),
        [Some(array_value(&[5, 6, 7])), Some(array_value(&[5, 6, 7]))],
        "the edit composes over the fallback, never over the blocked [1, 2]"
    );
    let property = PropertyPath::new(fixture.prim, fixture.field);
    assert_eq!(
        fixture
            .stage
            .resolve_property_path_at_time(
                property,
                None,
                arrays_at(&fixture.stage, property, 1.0, InterpolationType::Held, None),
                &unread(&fixture.stage, property),
            )
            .map(|resolved| resolved.value),
        Some(array_value(&[7])),
        "without a schema the edit composes over the empty array"
    );

    let fixture = schema_fallback_fixture(vec![Value::Blocked, array_value(&[1, 2])]);
    assert_eq!(
        resolve(&fixture),
        [Some(array_value(&[5, 6])), Some(array_value(&[5, 6]))],
        "a strongest block resolves the fallback unmodified"
    );
}

#[test]
fn path_expressions_compose_over_the_schema_fallback() {
    let expression = |text: &str| Value::PathExpression(text.to_string());
    let (mut tokens, prim, field) = ids();
    let mesh = tokens.intern("Mesh");
    let mut builder = SchemaRegistry::builder();
    builder.register(SchemaDefinition::typed(mesh).with_property(
        PropertyDefinition::attribute(field).with_fallback(expression("/Fallback")),
    ));
    let registry = builder.build(&mut tokens);
    let key = test_key(LayerId(1), prim);
    let mut index = empty_index();
    index.sources.push(key.clone());
    index.properties.push((
        field,
        vec![
            opinion(&key, 0, field, default_value(expression("/Strong %_"))),
            opinion(&key, 1, field, default_value(expression("%_ /Weak"))),
        ],
    ));
    let stage = Stage::from_parts(vec![(prim, index)], Vec::new(), true);
    let specs = vec![bare_source(Some(mesh))];
    let property = PropertyPath::new(prim, field);
    // What the expressions compose to, alone and over the fallback.
    let authored = expression("/Strong /Weak");
    let composed = expression("/Strong (/Fallback /Weak)");
    let alone = ExpressionFold {
        value: Some(authored.copy()),
        contributors: vec![Some(0), Some(1)],
        stopped_at: None,
    };
    let over = ExpressionFold {
        value: Some(composed.copy()),
        contributors: vec![Some(0), Some(1), None],
        stopped_at: None,
    };
    let unread = || vec![None, None];

    let resolved = stage
        .resolve_field_path(property, Some(&alone))
        .expect("resolved");
    assert_eq!(resolved.value, authored);
    let provenance = resolved.provenance.expect("provenance");
    assert_eq!(provenance.layer, LayerId(1));
    assert_eq!(provenance.field, field);
    assert_eq!(
        stage
            .resolve_property_path_at_time(
                property,
                Some(&alone),
                SparseResolveResult::NotApplicable,
                &unread(),
            )
            .map(|r| r.value),
        Some(authored)
    );
    assert_eq!(
        stage
            .resolve_value_with_schema(prim, field, Some(&over), &specs, &registry, None, &tokens)
            .map(|r| scalar(r.value)),
        Some(composed.copy())
    );
    let fallback = stage.schema_fallback(prim, field, &specs, &registry, None, &tokens);
    assert_eq!(fallback, Some(expression("/Fallback")));
    assert_eq!(
        stage
            .resolve_value_at_time_with_schema(
                prim,
                field,
                Some(&over),
                SparseResolveResult::NotApplicable,
                &unread(),
                &specs,
                &registry,
                None,
                &tokens,
            )
            .map(|r| r.value),
        Some(composed.copy())
    );
    let explained = stage
        .explain_value_with_schema(prim, field, Some(&over), &specs, &registry, None, &tokens)
        .expect("authored");
    assert!(explained.seeded_by_fallback);
    assert_eq!(explained.contributors().len(), 2);
    assert_eq!(explained.value.map(scalar), Some(composed.copy()));
    let explained = stage
        .explain_value_at_time_with_schema(
            property,
            Some(&over),
            SparseResolveResult::NotApplicable,
            &Vec::new(),
            &unread(),
            1.0f64.to_bits(),
            InterpolationType::Held,
            &no_times(),
            &specs,
            &registry,
            None,
            &tokens,
        )
        .expect("authored");
    assert_eq!(explained.contributors().len(), 2);
    assert_eq!(explained.value, Some(composed));
}

#[test]
fn explain_prim_keeps_repeated_sites() {
    let mut tokens = TokenInterner::default();
    let mut paths = PathInterner::default();
    let prim = paths.intern(Path::parse_absolute("/B", &mut tokens).expect("path"));
    let spec = SpecPath::from_prim_path(prim, &paths);
    let key = |strength: u16| OpinionKey {
        node: NodeId::root(),
        layer_strength: strength,
        layer_id: LayerId(2),
        lookup_path: prim,
        spec_path: spec.clone(),
    };
    let mut index = empty_index();
    index.sources = vec![key(1), key(2)];
    let stage = Stage::from_parts(vec![(prim, index)], Vec::new(), false);
    let full: Vec<_> = stage
        .explain_prim(prim)
        .expect("composed prim")
        .iter()
        .map(|key| (key.layer_id, key.spec_path.clone()))
        .collect();
    assert_eq!(
        full,
        [(LayerId(2), spec.clone()), (LayerId(2), spec.clone())]
    );
    assert_eq!(stage.prim_stack(prim), Some(vec![(LayerId(2), spec)]));
    assert_eq!(stage.source_sites(prim), vec![(LayerId(2), prim)]);
}

#[test]
fn metadata_and_property_of_one_name_are_apart() {
    let (_, prim, field) = ids();
    let key = test_key(LayerId(1), prim);
    let mut index = empty_index();
    index.metadata.push((
        field,
        vec![opinion(&key, 0, field, field_value(Value::Int(1)))],
    ));
    index.properties.push((
        field,
        vec![opinion(&key, 0, field, default_value(Value::Int(2)))],
    ));
    let stage = Stage::from_parts(vec![(prim, index)], Vec::new(), false);
    let property = PropertyPath::new(prim, field);
    assert_eq!(
        stage.resolve_field(prim, field, None).map(|r| r.value),
        Some(Value::Int(1))
    );
    assert_eq!(
        stage.resolve_field_path(property, None).map(|r| r.value),
        Some(Value::Int(2))
    );
    assert!(stage.has_property_path(property));
    assert!(!stage.has_property_path(PropertyPath::new(prim, TokenId { index: 7 })));
    assert!(stage.has_prim(prim) && stage.prim_count() == 1);
    assert_eq!(stage.prim_paths(), vec![prim]);
}

#[test]
fn list_edits_chain_from_weak_to_strong() {
    let (mut tokens, prim, field) = ids();
    let names: Vec<TokenId> = ["a", "b", "c"].iter().map(|n| tokens.intern(n)).collect();
    let key = test_key(LayerId(1), prim);
    let edit = |op: ListOp| OpinionValue::Field(FieldValue::List(ListKind::Tokens, op));
    let mut prepend = ListOp::replace_with(Vec::new());
    prepend.explicit = None;
    prepend.prepend = vec![ListItem::Token(names[2])];
    prepend.delete = vec![ListItem::Token(names[0])];
    let base = ListOp::replace_with(vec![ListItem::Token(names[0]), ListItem::Token(names[1])]);
    let mut index = empty_index();
    index.metadata.push((
        field,
        vec![
            opinion(&key, 0, field, edit(prepend)),
            opinion(&key, 1, field, edit(base)),
        ],
    ));
    let stage = Stage::from_parts(vec![(prim, index)], Vec::new(), false);
    assert_eq!(
        stage.resolve_token_list(prim, field).map(|r| r.value),
        Some(vec![names[2], names[1]])
    );
}

#[test]
fn targets_chain_over_the_opinions_of_a_property() {
    let (_, prim, field) = ids();
    let key = test_key(LayerId(1), prim);
    let at = |index: usize| ListItem::Target(TargetPath::Prim(PathId { index }));
    let mut append = ListOp::replace_with(Vec::new());
    append.explicit = None;
    append.append = vec![at(5)];
    let relationship =
        |op: ListOp| OpinionValue::Property(PropertySpec::relationship().with_targets(op));
    let mut index = empty_index();
    index.properties.push((
        field,
        vec![
            opinion(&key, 0, field, relationship(append)),
            opinion(
                &key,
                1,
                field,
                relationship(ListOp::replace_with(vec![at(4), at(5)])),
            ),
        ],
    ));
    let stage = Stage::from_parts(vec![(prim, index)], Vec::new(), false);
    let targets = stage
        .resolve_target_list_path(PropertyPath::new(prim, field))
        .expect("targets");
    assert_eq!(
        targets.value,
        vec![
            TargetPath::Prim(PathId { index: 4 }),
            TargetPath::Prim(PathId { index: 5 })
        ]
    );
}

#[test]
fn dictionaries_combine_key_by_key() {
    let (_, prim, field) = ids();
    let key = test_key(LayerId(1), prim);
    let dictionary = |entries: &[(&str, i32)]| {
        Value::Dictionary(
            entries
                .iter()
                .map(|(k, v)| (k.to_string(), Value::Int(*v)))
                .collect(),
        )
    };
    let mut index = empty_index();
    index.metadata.push((
        field,
        vec![
            opinion(&key, 0, field, field_value(dictionary(&[("b", 1), ("a", 2)]))),
            opinion(&key, 1, field, field_value(dictionary(&[("a", 9), ("c", 3)]))),
        ],
    ));
    let stage = Stage::from_parts(vec![(prim, index)], Vec::new(), false);
    let resolved = stage
        .resolve_dictionary(prim, field, None)
        .expect("dictionary")
        .value;
    let get = |name: &str| {
        resolved
            .iter()
            .find(|(k, _)| k == name)
            .map(|(_, v)| v.copy())
    };
    assert_eq!(resolved.len(), 3);
    assert_eq!(get("a"), Some(Value::Int(2)));
    assert_eq!(get("b"), Some(Value::Int(1)));
    assert_eq!(get("c"), Some(Value::Int(3)));
}

#[test]
fn declarations_take_the_strongest_kind_and_the_weakest_variability() {
    let (mut tokens, prim, field) = ids();
    let key = test_key(LayerId(1), prim);
    let doc = tokens.intern("doc");
    let strong = PropertySpec::attribute().custom();
    let weak = PropertySpec::typed_attribute(int_array_type())
        .uniform()
        .with_metadata(doc, FieldValue::Value(Value::Int(4)));
    let mut index = empty_index();
    index.properties.push((
        field,
        vec![
            opinion(&key, 0, field, OpinionValue::Property(strong)),
            opinion(&key, 1, field, OpinionValue::Property(weak)),
        ],
    ));
    let stage = Stage::from_parts(vec![(prim, index)], Vec::new(), false);
    let declared = stage
        .resolve_property_declaration(prim, field)
        .expect("declared");
    assert!(declared.custom);
    assert_eq!(
        declared.variability,
        layerstack::property::Variability::Uniform
    );
    assert_eq!(declared.declared_type.map(|t| t.name), Some("int".to_string()));
    assert_eq!(
        stage
            .resolve_property_metadata(prim, field, doc)
            .map(|r| scalar(r.value)),
        Some(Value::Int(4))
    );
}

#[test]
fn explanations_say_where_a_value_comes_from() {
    let fixture = schema_fallback_fixture(vec![array_value(&[3])]);
    let property = PropertyPath::new(fixture.prim, fixture.field);
    let explained = fixture
        .stage
        .explain_property_value(property, None)
        .expect("authored");
    assert_eq!(explained.source, ValueSource::Default);
    assert!(!explained.seeded_by_fallback);
    assert_eq!(explained.contributors().len(), 1);
    let graph = fixture
        .stage
        .explain_prim_graph(fixture.prim)
        .expect("a graph");
    for consulted in &explained.opinions {
        let node = graph.node(consulted.opinion.key.node);
        assert_eq!(
            consulted.node.map(|node| node.arc_kind()),
            node.map(|node| node.arc_kind())
        );
        assert_eq!(consulted.node.is_some(), node.is_some());
    }

    let fixture = schema_fallback_fixture(vec![append_edit(7)]);
    let explained = fixture
        .stage
        .explain_value_with_schema(
            fixture.prim,
            fixture.field,
            None,
            &fixture.specs,
            &fixture.registry,
            None,
            &fixture.tokens,
        )
        .expect("authored");
    assert_eq!(
        explained.value.map(scalar),
        Some(array_value(&[5, 6, 7])),
        "explaining resolves as resolving does"
    );
    assert!(explained.seeded_by_fallback);

    let unauthored = fixture.stage.explain_value_over(
        fixture.prim,
        TokenId { index: 99 },
        None,
        &Some(Value::Int(1)),
    );
    assert_eq!(
        unauthored.map(|explained| explained.source),
        Some(ValueSource::Fallback)
    );
    // Without opinions, what the schemas of the type define explains itself.
    let elsewhere = schema_fallback_fixture(Vec::new());
    let bare = Stage::from_parts(vec![(elsewhere.prim, empty_index())], Vec::new(), false);
    let by_schema = bare
        .explain_value_with_schema(
            elsewhere.prim,
            elsewhere.field,
            None,
            &elsewhere.specs,
            &elsewhere.registry,
            None,
            &elsewhere.tokens,
        )
        .expect("a fallback");
    assert_eq!(by_schema.source, ValueSource::Fallback);
    assert_eq!(by_schema.value.map(scalar), Some(array_value(&[5, 6])));
    let at_time = bare
        .explain_value_at_time_with_schema(
            PropertyPath::new(elsewhere.prim, elsewhere.field),
            None,
            SparseResolveResult::NotApplicable,
            &Vec::new(),
            &Vec::new(),
            1.0f64.to_bits(),
            InterpolationType::Held,
            &no_times(),
            &elsewhere.specs,
            &elsewhere.registry,
            None,
            &elsewhere.tokens,
        )
        .expect("a fallback");
    assert_eq!(at_time.source, ValueSource::Fallback);
    assert_eq!(at_time.value, Some(array_value(&[5, 6])));
}

#[test]
fn prims_resolve_what_their_strongest_sources_say() {
    let (mut tokens, prim, _) = ids();
    let (mesh, cube) = (tokens.intern("Mesh"), tokens.intern("Cube"));
    let stage = Stage::from_parts(vec![(prim, empty_index())], Vec::new(), false);
    let mut over = bare_source(None);
    if let Some(spec) = &mut over {
        spec.specifier = Some(Specifier::Over);
        spec.property_order = Some(vec![mesh, cube]);
    }
    let specs = vec![over, None, bare_source(Some(mesh)), bare_source(Some(cube))];
    assert_eq!(stage.resolve_specifier(prim, &specs), Some(Specifier::Def));
    assert_eq!(stage.resolve_type_name(prim, &specs), Some(mesh));
    assert!(stage.is_defined(prim, &specs));
    assert!(!stage.is_abstract(prim, &specs));
    assert_eq!(
        stage.resolve_property_order(prim, &specs),
        Some(vec![mesh, cube])
    );
    let absent = PathId { index: 40 };
    assert_eq!(stage.resolve_specifier(absent, &specs), None);
    assert!(!stage.is_defined(absent, &specs));
}

#[test]
fn a_walk_meets_each_prim_before_its_children() {
    let at = |index: usize| PathId { index };
    let stage = Stage::from_parts(
        (0..5).map(|i| (at(i), empty_index())).collect(),
        vec![(at(0), vec![at(1), at(4)]), (at(1), vec![at(2), at(3)])],
        false,
    );
    let mut walk = stage.traverse(at(0));
    let mut met = Vec::new();
    while let Some(prim) = walk.next(&stage) {
        met.push(prim.index);
    }
    assert_eq!(met, vec![0, 1, 2, 3, 4]);
    assert_eq!(stage.children_of(at(1)), Some(&vec![at(2), at(3)]));
    assert_eq!(stage.children_of(at(2)), None);
}

fn error_on(prim: usize) -> StageError {
    let at = PathId { index: prim };
    StageError {
        prim: Some(at),
        error: CompositionError::InvalidAuthoredRelocation(InvalidAuthoredRelocation {
            layer: LayerId(1),
            source: at,
            target: None,
            reason: InvalidRelocationReason::RootPrimSource,
        }),
    }
}

#[test]
fn recomposed_prims_replace_their_indices_errors_and_instances() {
    let at = |index: usize| PathId { index };
    let field = TokenId { index: 0 };
    let with_value = |value: i32| {
        let key = test_key(LayerId(1), at(0));
        let mut index = empty_index();
        index.metadata.push((
            field,
            vec![opinion(&key, 0, field, field_value(Value::Int(value)))],
        ));
        index
    };
    let stage = Stage::from_parts(
        vec![(at(1), with_value(1)), (at(2), with_value(2))],
        vec![(at(0), vec![at(1), at(2)])],
        false,
    )
    .with_instances(vec![at(1)])
    .with_composition_errors(vec![error_on(1), error_on(2)]);
    let partial = Stage::from_parts(
        vec![(at(1), with_value(10)), (at(2), with_value(20))],
        vec![(at(0), vec![at(1)])],
        false,
    )
    .with_instances(vec![at(2)])
    .with_composition_errors(vec![error_on(1), error_on(1), error_on(2)]);
    assert!(stage.hierarchy_diverges(&partial, &vec![at(0)]));
    assert!(stage.hierarchy_diverges(&partial, &vec![at(1)]));
    assert!(!stage.hierarchy_diverges(&partial, &vec![at(3)]));

    let merged = stage.merge_prims_from(partial, &vec![at(1)]);
    let value = |prim: usize| merged.resolve_field(at(prim), field, None).map(|r| r.value);
    assert_eq!(value(1), Some(Value::Int(10)));
    assert_eq!(value(2), Some(Value::Int(2)));
    assert!(!merged.is_instance(at(1)));
    assert!(!merged.is_instance(at(2)));
    let errors: Vec<Option<PathId>> = merged.composition_errors().iter().map(|e| e.prim).collect();
    assert_eq!(errors, vec![Some(at(2)), Some(at(1)), Some(at(1))]);
    assert_eq!(merged.children_of(at(0)), Some(&vec![at(1), at(2)]));
}

#[test]
fn dependencies_are_carried_as_they_were_recorded() {
    let at = |index: usize| PathId { index };
    let mut graph = invalidation::InvalidationGraph::new();
    let channel = invalidation::Channel::new(0);
    graph
        .add_dependency(
            2usize,
            1usize,
            channel,
            invalidation::CycleHandling::Error,
        )
        .expect("no cycle");
    let arc = |source: usize, target: usize| ArcDependency {
        source: at(source),
        target: at(target),
    };
    let stage = Stage::from_parts(Vec::new(), Vec::new(), false);
    assert!(!stage.has_dependencies());
    assert!(stage.graph().is_none());
    assert!(stage.arc_dependencies().is_empty());
    let stage = stage.with_dependencies(CompositionDeps {
        graph: DependencyGraph { graph },
        arcs: vec![arc(2, 1), arc(3, 1), arc(3, 2)],
        layer_to_prims: vec![(LayerId(1), vec![at(2), at(3)])],
        prim_to_layers: vec![(at(3), vec![LayerId(1)])],
    });
    assert!(stage.has_dependencies());
    let recorded = &stage.graph().expect("graph").graph;
    assert!(recorded.has_dependencies(2, channel));
    assert!(!recorded.has_dependencies(1, channel));
    assert_eq!(stage.arc_dependencies().len(), 3);
    assert_eq!(stage.arcs_targeting(at(1)), vec![arc(2, 1), arc(3, 1)]);
    assert_eq!(
        stage.prims_affected_by_layer(LayerId(1)),
        vec![at(2), at(3)]
    );
    assert!(stage.prims_affected_by_layer(LayerId(9)).is_empty());
    assert_eq!(stage.layers_affecting_prim(at(3)), vec![LayerId(1)]);
    let (stage, deps) = stage.take_deps();
    assert!(!stage.has_dependencies());
    assert!(deps.is_some());
}

#[test]
fn fields_of_a_prim_are_found_by_name() {
    let mut spec = layerstack::layer::PrimSpec::bare(Some(Specifier::Def));
    let name = TokenId { index: 3 };
    spec.fields.push(FieldEntry {
        name,
        value: FieldValue::Value(Value::Int(5)),
    });
    assert!(matches!(
        spec.field(name),
        Some(FieldValue::Value(Value::Int(5)))
    ));
    assert!(spec.field(TokenId { index: 4 }).is_none());
}
