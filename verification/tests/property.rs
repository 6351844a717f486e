use layerstack::doc::{ArrayEdit, Value};
use layerstack::fields::{FieldValue, ListItem, ListOp, TargetPath};
use layerstack::interner::TokenInterner;
use layerstack::path::PathId;
use layerstack::property::{
    get_property, property_entry, remove_property, set_property_vec, sort_samples, PropertyEntry,
    PropertyKind, PropertySpec, PropertyType, Variability,
};

fn float(value: f32) -> Value {
    Value::Float(value.to_bits())
}

fn time(value: f64) -> u64 {
    value.to_bits()
}

#[test]
fn slots_are_independent() {
    let mut spec = PropertySpec::attribute()
        .with_default(float(1.0))
        .with_time_samples(vec![(time(1.0), float(3.0)), (time(0.0), float(2.0))]);
    assert!(spec.has_value());
    assert_eq!(
        spec.time_samples.as_deref(),
        Some(&[(time(0.0), float(2.0)), (time(1.0), float(3.0))][..]),
        "samples are kept sorted by time"
    );

    spec.time_samples = None;
    assert_eq!(spec.default, Some(float(1.0)));
    spec.default = None;
    assert!(!spec.has_value());
}

#[test]
fn duplicate_sample_times_keep_the_last_authored() {
    let samples = sort_samples(vec![
        (time(1.0), Value::Int(1)),
        (time(0.0), Value::Int(0)),
        (time(1.0), Value::Int(2)),
    ]);
    assert_eq!(
        samples,
        vec![(time(0.0), Value::Int(0)), (time(1.0), Value::Int(2))]
    );
}

#[test]
fn samples_sort_by_the_total_order_of_doubles() {
    let samples = sort_samples(vec![
        (time(f64::NAN), Value::Int(6)),
        (time(f64::INFINITY), Value::Int(5)),
        (time(0.5), Value::Int(4)),
        (time(0.0), Value::Int(3)),
        (time(-1.0), Value::Int(1)),
        (time(f64::NEG_INFINITY), Value::Int(0)),
    ]);
    let order: Vec<Value> = samples.into_iter().map(|(_, value)| value).collect();
    assert_eq!(
        order,
        vec![
            Value::Int(0),
            Value::Int(1),
            Value::Int(3),
            Value::Int(4),
            Value::Int(5),
            Value::Int(6)
        ]
    );
}

#[test]
fn empty_samples_are_not_a_value() {
    let spec = PropertySpec::attribute().with_time_samples(Vec::new());
    assert!(spec.time_samples.is_some());
    assert!(!spec.has_value());
}

#[test]
fn property_list_keeps_authored_order() {
    let mut tokens = TokenInterner::default();
    let b = tokens.intern("b");
    let a = tokens.intern("a");
    let mut properties: Vec<PropertyEntry> = Vec::new();
    property_entry(&mut properties, b, PropertyKind::Attribute).default = Some(Value::Int(1));
    property_entry(&mut properties, a, PropertyKind::Relationship);
    property_entry(&mut properties, b, PropertyKind::Attribute).custom = true;

    let names: Vec<_> = properties.iter().map(|e| e.name).collect();
    assert_eq!(names, vec![b, a]);
    let b_spec = get_property(&properties, b).expect("b");
    assert!(b_spec.custom);
    assert_eq!(b_spec.default, Some(Value::Int(1)));
    assert!(get_property(&properties, a).expect("a").is_relationship());

    assert!(remove_property(&mut properties, b).is_some());
    assert!(get_property(&properties, b).is_none());
}

#[test]
fn setting_a_property_replaces_it_in_place() {
    let mut tokens = TokenInterner::default();
    let (a, b) = (tokens.intern("a"), tokens.intern("b"));
    let mut properties: Vec<PropertyEntry> = Vec::new();
    set_property_vec(&mut properties, a, PropertySpec::attribute());
    set_property_vec(&mut properties, b, PropertySpec::attribute());
    set_property_vec(
        &mut properties,
        a,
        PropertySpec::attribute().with_default(Value::Int(7)),
    );
    assert_eq!(properties.len(), 2);
    assert_eq!(properties[0].name, a);
    assert_eq!(properties[0].spec.default, Some(Value::Int(7)));
}

#[test]
fn builders_set_one_slot_each() {
    let mut tokens = TokenInterner::default();
    let key = tokens.intern("doc");
    let declared = PropertyType::new("float", true, float(0.5));
    assert_eq!(declared.default_property_value(), Value::Array(Vec::new()));
    assert_eq!(declared.default_array_element(), Some(float(0.5)));
    let scalar = PropertyType::new("float", false, float(0.5));
    assert_eq!(scalar.default_property_value(), float(0.5));
    assert_eq!(scalar.default_array_element(), None);

    let mut spec = PropertySpec::typed_attribute(declared)
        .custom()
        .uniform()
        .with_targets(ListOp::replace_with(vec![ListItem::Target(
            TargetPath::Prim(PathId { index: 3 }),
        )]))
        .with_metadata(key, FieldValue::Value(Value::Bool(true)));
    assert!(spec.custom);
    assert_eq!(spec.variability, Variability::Uniform);
    assert!(spec.targets.is_some());
    assert!(!spec.has_value());
    assert!(matches!(
        spec.metadata(key),
        Some(FieldValue::Value(Value::Bool(true)))
    ));
    assert!(spec.remove_metadata(key).is_some());
    assert!(spec.metadata(key).is_none());
    assert!(spec.remove_metadata(key).is_none());
}

#[test]
fn values_equal_as_numbers_do() {
    assert_eq!(float(0.0), float(-0.0));
    assert_ne!(float(f32::NAN), float(f32::NAN));
    assert_ne!(Value::Int(1), Value::UInt(1));
    assert_eq!(
        Value::Array(vec![float(1.0), float(0.0)]),
        Value::Array(vec![float(1.0), float(-0.0)])
    );
    assert_ne!(
        Value::Array(vec![float(1.0)]),
        Value::Array(vec![float(1.0), float(1.0)])
    );
    assert_eq!(
        Value::ArrayEdit(ArrayEdit { ops: Vec::new() }),
        Value::ArrayEdit(ArrayEdit { ops: Vec::new() })
    );
}

#[test]
fn values_read_alike_as_their_texts_do() {
    assert!(float(f32::NAN).alike(&float(-f32::NAN)));
    assert!(!float(0.0).alike(&float(-0.0)));
    assert!(float(2.5).alike(&float(2.5)));
    assert!(!float(2.5).alike(&Value::Double(2.5f64.to_bits())));
}
