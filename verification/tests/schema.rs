use layerstack::doc::Value;
use layerstack::fields::{FieldEntry, FieldValue, ListItem, ListKind, ListOp};
use layerstack::interner::{TokenId, TokenInterner};
use layerstack::layer::{Layer, PrimSpec};
use layerstack::path::{Path, PathInterner};
use layerstack::prim_index::LayerId;
use layerstack::property::{PropertyEntry, PropertyKind, PropertySpec, PropertyType, Variability};
use layerstack::schema::definition::{PrimDefinition, PropertyDefinition};
use layerstack::schema::generated::{
    from_template, read_generated_schema, GeneratedSchemaError, SchemaDeclaration,
};
use layerstack::schema::kinds::{SchemaDefinition, SchemaIssue, SchemaKind};
use layerstack::schema::naming::{fill_in, split_instance};
use layerstack::schema::registry::SchemaRegistry;

fn float(value: f32) -> Value {
    Value::Float(value.to_bits())
}

fn string(value: &str) -> Value {
    Value::String(value.to_string())
}

fn attr(tokens: &mut TokenInterner, name: &str, fallback: Value) -> PropertyDefinition {
    PropertyDefinition::attribute(tokens.intern(name)).with_fallback(fallback)
}

fn applied_names(definition: &PrimDefinition, tokens: &TokenInterner) -> Vec<String> {
    definition
        .applied_schemas()
        .iter()
        .map(|applied| String::from(tokens.resolve(applied.name)))
        .collect()
}

/// The fallback `name` resolves to, through both lookups, which must agree.
fn fallback(
    registry: &SchemaRegistry,
    typed: Option<TokenId>,
    applied: &[TokenId],
    name: &str,
    tokens: &mut TokenInterner,
) -> Option<Value> {
    let applied = applied.to_vec();
    registry.intern_instance_names(&applied, tokens);
    let property = tokens.intern(name);
    let found = registry.property_definition(typed, &applied, property, tokens);
    let definition = registry.prim_definition(typed, &applied, tokens);
    let other = definition.property(property);
    assert_eq!(found.is_some(), other.is_some(), "{name}");
    if let (Some(found), Some(other)) = (&found, other) {
        assert_eq!(found.name, other.name, "{name}");
        assert_eq!(found.kind, other.kind, "{name}");
        assert_eq!(found.variability, other.variability, "{name}");
        assert_eq!(found.fallback, other.fallback, "{name}");
        assert!(found.has_type_of(other), "{name}");
    }
    found.and_then(|p| p.fallback)
}

#[test]
fn typed_schemas_inherit_properties_and_is_a() {
    let mut t = TokenInterner::default();
    let (foo, bar, baz) = (t.intern("Foo"), t.intern("Bar"), t.intern("Baz"));
    let mut builder = SchemaRegistry::builder();
    builder.register(
        SchemaDefinition::new(foo, SchemaKind::AbstractTyped)
            .with_property(attr(&mut t, "fooprop", Value::Int(0))),
    );
    builder.register(
        SchemaDefinition::typed(bar)
            .with_parent(foo)
            .with_property(attr(&mut t, "barprop", float(1.0))),
    );
    builder.register(SchemaDefinition::typed(baz).with_parent(foo));
    let registry = builder.build(&mut t);

    let bar1 = registry.prim_definition(Some(bar), &vec![], &t);
    assert_eq!(bar1.type_label(), Some(bar));
    assert!(bar1.is_a(bar) && bar1.is_a(foo) && !bar1.is_a(baz));
    let baz1 = registry.prim_definition(Some(baz), &vec![], &t);
    assert!(baz1.is_a(baz) && baz1.is_a(foo) && !baz1.is_a(bar));
    assert_eq!(
        fallback(&registry, Some(bar), &[], "fooprop", &mut t),
        Some(Value::Int(0))
    );
    assert_eq!(fallback(&registry, Some(baz), &[], "barprop", &mut t), None);

    // An abstract or unknown type name is typeless.
    let unknown = t.intern("Unknown");
    for label in [foo, unknown] {
        let definition = registry.prim_definition(Some(label), &vec![], &t);
        assert_eq!(definition.type_label(), None);
        assert!(!definition.is_a(foo));
        assert!(definition.properties().is_empty());
    }
    assert!(registry.is_a(bar, foo));
    assert!(registry.issues().is_empty());
}

#[test]
fn inclusions_compose_right_after_their_schema() {
    let mut t = TokenInterner::default();
    let names = [
        "Tile", "LabelAPI", "StyleAPI", "ColorAPI", "OtherAPI", "AutoAPI",
    ];
    let [tile, label, style, color, other, auto] = names.map(|n| t.intern(n));
    let mut builder = SchemaRegistry::builder();
    builder.register(SchemaDefinition::typed(tile));
    builder.register(
        SchemaDefinition::api(label)
            .with_built_in(style)
            .with_property(attr(&mut t, "text", string("label"))),
    );
    builder.register(
        SchemaDefinition::api(style)
            .with_built_in(color)
            .with_property(PropertyDefinition::attribute(t.intern("note"))),
    );
    builder.register(
        SchemaDefinition::api(color)
            .with_property(attr(&mut t, "note", string("color")))
            .with_property(attr(&mut t, "shade", string("color"))),
    );
    builder.register(
        SchemaDefinition::api(other).with_property(attr(&mut t, "shade", string("other"))),
    );
    builder
        .register(SchemaDefinition::api(auto).with_property(attr(&mut t, "text", string("auto"))));
    builder.auto_apply(auto, label);
    let registry = builder.build(&mut t);

    let applied = [label, other];
    let definition = registry.prim_definition(Some(tile), &applied.to_vec(), &t);
    assert_eq!(
        applied_names(&definition, &t),
        ["LabelAPI", "StyleAPI", "ColorAPI", "AutoAPI", "OtherAPI"]
    );
    // `ColorAPI`, nested two deep in `LabelAPI`, outranks `OtherAPI`.
    let shade = fallback(&registry, Some(tile), &applied, "shade", &mut t);
    assert_eq!(shade, Some(string("color")));
    // `StyleAPI` defines `note` without a fallback; `ColorAPI` fills it in.
    let note = fallback(&registry, Some(tile), &applied, "note", &mut t);
    assert_eq!(note, Some(string("color")));
    let text = fallback(&registry, Some(tile), &applied, "text", &mut t);
    assert_eq!(text, Some(string("label")));
}

#[test]
fn overrides_replace_fallbacks_but_not_variability() {
    let mut t = TokenInterner::default();
    let (outer, inner) = (t.intern("OuterAPI"), t.intern("InnerAPI"));
    let size = t.intern("size");
    let int = PropertyType::new("int", false, Value::Int(0));
    let mut builder = SchemaRegistry::builder();
    builder.register(
        SchemaDefinition::api(outer)
            .with_built_in(inner)
            .with_override(
                PropertyDefinition::attribute(size)
                    .with_type(int.copy())
                    .with_fallback(Value::Int(20))
                    .uniform(),
            )
            .with_override(attr(&mut t, "ghost", Value::Int(1))),
    );
    builder.register(
        SchemaDefinition::api(inner).with_property(
            PropertyDefinition::attribute(size)
                .with_type(int)
                .with_fallback(Value::Int(12)),
        ),
    );
    let registry = builder.build(&mut t);

    let definition = registry.prim_definition(None, &vec![outer], &t);
    let size = definition.property(size).expect("size");
    assert_eq!(size.fallback, Some(Value::Int(20)));
    assert_eq!(size.variability, Variability::Varying);
    let ghost = t.intern("ghost");
    assert!(definition.property(ghost).is_none());
    assert_eq!(
        *registry.issues(),
        [SchemaIssue::IgnoredOverride {
            schema: outer,
            property: ghost
        }]
    );
}

#[test]
fn multiple_apply_instances_fill_in_templates() {
    let mut t = TokenInterner::default();
    let (tile, slot, pin) = (t.intern("Tile"), t.intern("SlotAPI"), t.intern("PinAPI"));
    let (pin_extra, slot_main) = (t.intern("PinAPI:extra"), t.intern("SlotAPI:main"));
    let mut builder = SchemaRegistry::builder();
    builder.register(SchemaDefinition::typed(tile).with_built_in(slot_main));
    builder.register(
        SchemaDefinition::new(slot, SchemaKind::MultipleApplyApi)
            .with_built_in(pin)
            .with_built_in(pin_extra)
            .with_property(attr(&mut t, "slot:__INSTANCE_NAME__:index", Value::Int(0))),
    );
    builder.register(
        SchemaDefinition::new(pin, SchemaKind::MultipleApplyApi)
            .with_property(attr(&mut t, "pin:__INSTANCE_NAME__:offset", float(0.25)))
            .with_property(attr(&mut t, "__INSTANCE_NAME__:pinned", string("no"))),
    );
    let registry = builder.build(&mut t);

    let applied = [t.intern("SlotAPI:left:upper"), slot, t.intern("TileAPI")];
    registry.intern_instance_names(&applied.to_vec(), &mut t);
    let definition = registry.prim_definition(Some(tile), &applied.to_vec(), &t);
    assert_eq!(
        applied_names(&definition, &t),
        [
            "SlotAPI:main",
            "PinAPI:main",
            "PinAPI:main:extra",
            "SlotAPI:left:upper",
            "PinAPI:left:upper",
            "PinAPI:left:upper:extra",
        ]
    );
    assert!(definition.has_api(pin));
    let left_upper = t.intern("left:upper");
    assert!(definition.has_api_instance(slot, left_upper));
    assert!(!definition.has_api_instance(pin, t.intern("left")));
    for (name, value) in [
        ("slot:left:upper:index", Value::Int(0)),
        ("pin:left:upper:extra:offset", float(0.25)),
        ("left:upper:extra:pinned", string("no")),
        ("main:pinned", string("no")),
    ] {
        assert_eq!(
            fallback(&registry, Some(tile), &applied, name, &mut t),
            Some(value),
            "{name}"
        );
    }
    assert_eq!(
        fallback(&registry, Some(tile), &applied, "slot:right:index", &mut t),
        None
    );

    // The template itself keeps the placeholder.
    let template = registry.schema_definition(slot).expect("SlotAPI");
    assert_eq!(
        applied_names(template, &t),
        [
            "SlotAPI:__INSTANCE_NAME__",
            "PinAPI:__INSTANCE_NAME__",
            "PinAPI:__INSTANCE_NAME__:extra"
        ]
    );
}

#[test]
fn invalid_inclusions_are_skipped_and_reported() {
    let mut t = TokenInterner::default();
    let (single, multi) = (t.intern("SingleAPI"), t.intern("MultiAPI"));
    let (bad_single, missing) = (t.intern("SingleAPI:named"), t.intern("MissingAPI"));
    let mut builder = SchemaRegistry::builder();
    builder.register(SchemaDefinition::api(single).with_built_in(multi));
    builder.register(
        SchemaDefinition::new(multi, SchemaKind::MultipleApplyApi)
            .with_built_in(bad_single)
            .with_built_in(missing),
    );
    let registry = builder.build(&mut t);
    let issues = registry.issues();
    assert!(issues.contains(&SchemaIssue::InvalidInclusion {
        schema: single,
        included: multi
    }));
    assert!(issues.contains(&SchemaIssue::InvalidInclusion {
        schema: multi,
        included: bad_single
    }));
    assert!(issues.contains(&SchemaIssue::UnknownInclusion {
        schema: multi,
        included: missing
    }));
    let definition = registry.prim_definition(None, &vec![single], &t);
    assert_eq!(applied_names(&definition, &t), ["SingleAPI"]);
}

#[test]
fn inclusion_cycles_build_each_definition_from_the_top() {
    let mut t = TokenInterner::default();
    let (one, two) = (t.intern("OneAPI"), t.intern("TwoAPI"));
    let mut builder = SchemaRegistry::builder();
    builder.register(
        SchemaDefinition::api(one)
            .with_built_in(two)
            .with_property(attr(&mut t, "value", Value::Int(1))),
    );
    builder.register(
        SchemaDefinition::api(two)
            .with_built_in(one)
            .with_property(attr(&mut t, "value", Value::Int(2))),
    );
    let registry = builder.build(&mut t);
    let from_one = registry.prim_definition(None, &vec![one], &t);
    assert_eq!(applied_names(&from_one, &t), ["OneAPI", "TwoAPI"]);
    let from_two = registry.prim_definition(None, &vec![two], &t);
    assert_eq!(applied_names(&from_two, &t), ["TwoAPI", "OneAPI"]);
    assert_eq!(
        fallback(&registry, None, &[two], "value", &mut t),
        Some(Value::Int(2))
    );
    assert!(registry
        .issues()
        .iter()
        .all(|issue| matches!(issue, SchemaIssue::InclusionCycle { .. })));
}

#[test]
fn auto_applies_reach_derived_types_in_reverse_dictionary_order() {
    let mut t = TokenInterner::default();
    let (shape, tile) = (t.intern("Shape"), t.intern("Tile"));
    let (first, second) = (t.intern("AutoFirstAPI"), t.intern("AutoSecondAPI"));
    let mut builder = SchemaRegistry::builder();
    builder.register(SchemaDefinition::new(shape, SchemaKind::AbstractTyped));
    builder.register(SchemaDefinition::typed(tile).with_parent(shape));
    builder.register(
        SchemaDefinition::api(first).with_property(attr(&mut t, "enabled", Value::Bool(true))),
    );
    builder.register(
        SchemaDefinition::api(second).with_property(attr(&mut t, "enabled", Value::Bool(false))),
    );
    builder.auto_apply(first, shape);
    builder.auto_apply(second, shape);
    let registry = builder.build(&mut t);
    let definition = registry.prim_definition(Some(tile), &vec![], &t);
    assert_eq!(
        applied_names(&definition, &t),
        ["AutoSecondAPI", "AutoFirstAPI"]
    );
    assert_eq!(
        fallback(&registry, Some(tile), &[], "enabled", &mut t),
        Some(Value::Bool(false))
    );
}

#[test]
fn a_weaker_definition_of_another_type_is_ignored() {
    let mut t = TokenInterner::default();
    let (strong, weak) = (t.intern("StrongAPI"), t.intern("WeakAPI"));
    let rank = t.intern("rank");
    let mut builder = SchemaRegistry::builder();
    builder.register(SchemaDefinition::api(strong).with_property(
        PropertyDefinition::attribute(rank).with_type(PropertyType::new(
            "int",
            false,
            Value::Int(0),
        )),
    ));
    builder.register(
        SchemaDefinition::api(weak).with_property(
            PropertyDefinition::attribute(rank)
                .with_type(PropertyType::new("float", false, float(0.0)))
                .with_fallback(float(2.0)),
        ),
    );
    let registry = builder.build(&mut t);
    assert_eq!(
        fallback(&registry, None, &[strong, weak], "rank", &mut t),
        None
    );
    assert_eq!(
        fallback(&registry, None, &[weak, strong], "rank", &mut t),
        Some(float(2.0))
    );
}

#[test]
fn instance_names_are_split_at_the_first_colon() {
    assert_eq!(
        split_instance("SlotAPI:left:upper"),
        ("SlotAPI".to_string(), Some("left:upper".to_string()))
    );
    assert_eq!(split_instance("SlotAPI"), ("SlotAPI".to_string(), None));
    assert_eq!(split_instance("SlotAPI:"), ("SlotAPI".to_string(), None));
}

#[test]
fn the_first_placeholder_segment_is_filled_in() {
    assert_eq!(
        fill_in("slot:__INSTANCE_NAME__:index", "left"),
        "slot:left:index"
    );
    assert_eq!(
        fill_in("__INSTANCE_NAME__:__INSTANCE_NAME__", "a:b"),
        "a:b:__INSTANCE_NAME__"
    );
    assert_eq!(
        fill_in("slot:x__INSTANCE_NAME__:index", "left"),
        "slot:x__INSTANCE_NAME__:index"
    );
}

#[test]
fn templates_of_built_ins_lose_their_placeholder() {
    let mut t = TokenInterner::default();
    for (given, expected) in [
        ("Other:__INSTANCE_NAME__", "Other"),
        ("Other:__INSTANCE_NAME__:sub", "Other:sub"),
        ("Other", "Other"),
        ("Other:sub", "Other:sub"),
        ("Other:__INSTANCE_NAME__x", "Other:__INSTANCE_NAME__x"),
    ] {
        let name = t.intern(given);
        let out = from_template(name, &mut t);
        assert_eq!(t.resolve(out), expected);
    }
}

#[test]
fn generated_schema_layers_are_read() {
    let mut t = TokenInterner::default();
    let mut paths = PathInterner::default();
    let (slot, base) = (t.intern("SlotAPI"), t.intern("BaseAPI"));
    let (index, label, pointer) = (t.intern("index"), t.intern("label"), t.intern("pointer"));
    let pin = t.intern("PinAPI:__INSTANCE_NAME__:extra");
    let (api_schemas, custom_data) = (t.intern("apiSchemas"), t.intern("customData"));
    let path = paths.intern(Path::root().join(&[slot]));

    let mut spec = PrimSpec::bare(None);
    spec.fields.push(FieldEntry {
        name: api_schemas,
        value: FieldValue::List(
            ListKind::Tokens,
            ListOp::replace_with(vec![ListItem::Token(base), ListItem::Token(pin)]),
        ),
    });
    spec.fields.push(FieldEntry {
        name: custom_data,
        value: FieldValue::Value(Value::Dictionary(vec![(
            "apiSchemaOverridePropertyNames".to_string(),
            Value::Array(vec![string("label"), Value::Int(3), Value::Token(label)]),
        )])),
    });
    spec.properties.push(PropertyEntry {
        name: index,
        spec: PropertySpec::attribute()
            .uniform()
            .with_default(Value::Int(4)),
    });
    spec.properties.push(PropertyEntry {
        name: label,
        spec: PropertySpec::attribute().with_default(string("none")),
    });
    spec.properties.push(PropertyEntry {
        name: pointer,
        spec: PropertySpec::relationship(),
    });
    let mut layer = Layer::new(LayerId(1));
    layer.insert_prim(path, spec);

    let declared = vec![SchemaDeclaration {
        name: slot,
        kind: SchemaKind::MultipleApplyApi,
        parent: None,
    }];
    let schemas = read_generated_schema(&layer, &declared, &mut t, &paths).expect("schemas");
    assert_eq!(schemas.len(), 1);
    let schema = &schemas[0];
    assert_eq!(schema.name, slot);
    assert_eq!(schema.kind, SchemaKind::MultipleApplyApi);
    let built_ins: Vec<&str> = schema.built_ins.iter().map(|&b| t.resolve(b)).collect();
    assert_eq!(built_ins, ["BaseAPI", "PinAPI:extra"]);
    assert_eq!(schema.properties.len(), 2);
    assert_eq!(schema.properties[0].name, index);
    assert_eq!(schema.properties[0].variability, Variability::Uniform);
    assert_eq!(schema.properties[0].fallback, Some(Value::Int(4)));
    assert_eq!(schema.properties[1].name, pointer);
    assert_eq!(schema.properties[1].kind, PropertyKind::Relationship);
    assert_eq!(schema.properties[1].fallback, None);
    assert_eq!(schema.overrides.len(), 1);
    assert_eq!(schema.overrides[0].name, label);
    assert_eq!(schema.overrides[0].fallback, Some(string("none")));

    let missing = vec![SchemaDeclaration {
        name: base,
        kind: SchemaKind::SingleApplyApi,
        parent: None,
    }];
    assert_eq!(
        read_generated_schema(&layer, &missing, &mut t, &paths).err(),
        Some(GeneratedSchemaError::MissingSchema { name: base })
    );
}
