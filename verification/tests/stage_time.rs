use layerstack::doc::{ArrayEdit, ArrayPlace, EditOp, EditOperand, Value};
use layerstack::fields::FieldValue;
use layerstack::interner::{TokenId, TokenInterner};
use layerstack::opinion::{Opinion, OpinionValue};
use layerstack::path::{Path, PathId, PathInterner, PropertyPath};
use layerstack::prim_index::{LayerId, LayerOffset, OpinionKey};
use layerstack::prim_index_graph::{NodeId, PrimIndexGraph};
use layerstack::property::{PropertySpec, PropertyType};
use layerstack::spec_path::SpecPath;
use layerstack::stage::{PrimIndex, Stage};
use layerstack::stage_time::{
    holds_timecode, needs_retiming, opinions_in_stage_time, retime_value, StageOpinions,
};
use layerstack::times::TimeTable;

fn offset(offset: f64, scale: f64) -> LayerOffset {
    LayerOffset {
        offset: offset.to_bits(),
        scale: scale.to_bits(),
    }
}

fn timecode(time: f64) -> Value {
    Value::TimeCode(time.to_bits())
}

/// The stage times of layer times read through an offset.
fn table(through: LayerOffset, times: &[f64]) -> TimeTable {
    let shift = f64::from_bits(through.offset);
    let scale = f64::from_bits(through.scale);
    TimeTable {
        to_stage: times
            .iter()
            .map(|time| (through, time.to_bits(), (time * scale + shift).to_bits()))
            .collect(),
        to_layer: times
            .iter()
            .map(|time| (through, (time * scale + shift).to_bits(), time.to_bits()))
            .collect(),
        close: Vec::new(),
    }
}

fn opinion_through(through: LayerOffset, value: OpinionValue) -> Opinion {
    let mut paths = PathInterner::default();
    let path = paths.intern(Path::root());
    Opinion {
        key: OpinionKey {
            node: NodeId::root(),
            layer_strength: 0,
            layer_id: LayerId(1),
            lookup_path: path,
            spec_path: SpecPath::from_prim_path(path, &paths),
        },
        field: TokenInterner::default().intern("a"),
        value,
        layer_offset: through,
    }
}

#[test]
fn opinions_without_timecodes_are_borrowed() {
    let through = offset(5.0, 2.0);
    let opinion = |spec: PropertySpec| opinion_through(through, OpinionValue::Property(spec));
    let samples = || -> Vec<(u64, Value)> {
        (0..10_000)
            .map(|i| (f64::from(i).to_bits(), Value::Double(0.5f64.to_bits())))
            .collect()
    };
    let times = table(through, &[1.0]);
    let doubles = PropertyType::new("double", false, Value::Double(0.0f64.to_bits()));
    let typed = vec![opinion(
        PropertySpec::typed_attribute(doubles.copy()).with_time_samples(samples()),
    )];
    assert!(matches!(
        opinions_in_stage_time(&typed, None, &times),
        StageOpinions::Borrowed(_)
    ));
    // An untyped over is known to be a double from the composed type.
    let untyped = vec![opinion(
        PropertySpec::attribute().with_time_samples(samples()),
    )];
    assert!(matches!(
        opinions_in_stage_time(&untyped, Some(&doubles), &times),
        StageOpinions::Borrowed(_)
    ));
    // A `timecode` attribute is mapped.
    let timecode_type = PropertyType::new("timecode", false, timecode(0.0));
    let timecodes = vec![opinion(
        PropertySpec::typed_attribute(timecode_type).with_default(timecode(1.0)),
    )];
    let StageOpinions::Owned(mapped) = opinions_in_stage_time(&timecodes, None, &times) else {
        panic!("mapped");
    };
    assert_eq!(mapped[0].value.default_value(), Some(&timecode(7.0)));
}

#[test]
fn timecodes_move_into_stage_time_wherever_they_are() {
    let through = offset(2.0, 2.0);
    let times = table(through, &[1.0, 3.0, 4.0, 5.0, 10.0]);
    let stage_time = times.to_stage_time(through, 10.0f64.to_bits());
    assert_eq!(times.to_layer_time(through, stage_time), 10.0f64.to_bits());
    let value = Value::Dictionary(vec![
        ("cue".into(), timecode(5.0)),
        (
            "marks".into(),
            Value::Array(vec![timecode(1.0), timecode(3.0)]),
        ),
        ("count".into(), Value::Int(5)),
    ]);
    assert_eq!(
        retime_value(&value, through, &times),
        Some(Value::Dictionary(vec![
            ("cue".into(), timecode(12.0)),
            (
                "marks".into(),
                Value::Array(vec![timecode(4.0), timecode(8.0)]),
            ),
            ("count".into(), Value::Int(5)),
        ]))
    );
    assert_eq!(retime_value(&Value::Int(5), through, &times), None);
    assert_eq!(
        retime_value(&timecode(5.0), LayerOffset::identity(), &times),
        None
    );
    let edit = |time: f64| {
        Value::ArrayEdit(ArrayEdit {
            ops: vec![EditOp::Insert {
                src: EditOperand::Literal(timecode(time)),
                index: ArrayPlace::Position(0),
            }],
        })
    };
    assert_eq!(
        retime_value(&edit(1.0), through, &times),
        Some(edit(4.0))
    );
}

#[test]
fn only_values_that_hold_times_need_retiming() {
    let through = offset(2.0, 1.0);
    let times = Value::Array(vec![Value::Int(1), timecode(3.0)]);
    assert!(holds_timecode(&times));
    assert!(!holds_timecode(&Value::Array(vec![Value::Int(1)])));
    let field = |value: Value| OpinionValue::Field(FieldValue::Value(value));
    assert!(needs_retiming(
        &opinion_through(through, field(times.copy())),
        None
    ));
    assert!(!needs_retiming(
        &opinion_through(LayerOffset::identity(), field(times)),
        None
    ));
    assert!(!needs_retiming(
        &opinion_through(through, field(Value::Int(1))),
        None
    ));
    // The composed type of a property tells that its values are no times.
    let loose =
        || OpinionValue::Property(PropertySpec::attribute().with_default(timecode(1.0)));
    assert!(needs_retiming(&opinion_through(through, loose()), None));
    let doubles = PropertyType::new("double", false, Value::Double(0));
    assert!(!needs_retiming(
        &opinion_through(through, loose()),
        Some(&doubles)
    ));
}

#[test]
fn stages_resolve_timecodes_in_stage_time() {
    let through = offset(5.0, 2.0);
    let (prim, cue, note) = (
        PathId { index: 0 },
        TokenId { index: 0 },
        TokenId { index: 1 },
    );
    let timecode_type = PropertyType::new("timecode", false, timecode(0.0));
    let spec = PropertySpec::typed_attribute(timecode_type)
        .with_default(timecode(1.0))
        .with_metadata(note, FieldValue::Value(timecode(3.0)));
    let index = PrimIndex {
        sources: Vec::new(),
        graph: PrimIndexGraph::default(),
        metadata: vec![(
            note,
            vec![opinion_through(
                through,
                OpinionValue::Field(FieldValue::Value(Value::Array(vec![timecode(1.0)]))),
            )],
        )],
        properties: vec![(
            cue,
            vec![opinion_through(through, OpinionValue::Property(spec))],
        )],
    };
    let stage = Stage::from_parts(vec![(prim, index)], Vec::new(), false)
        .with_times(table(through, &[1.0, 3.0]));
    let property = PropertyPath::new(prim, cue);
    assert_eq!(
        stage.resolve_field_path(property, None).map(|r| r.value),
        Some(timecode(7.0))
    );
    assert_eq!(
        stage.resolve_field(prim, note, None).map(|r| r.value),
        Some(Value::Array(vec![timecode(7.0)]))
    );
    assert!(matches!(
        stage
            .resolve_property_metadata(prim, cue, note)
            .map(|r| r.value),
        Some(layerstack::resolution::ResolvedValue::Scalar(value)) if value == timecode(11.0)
    ));
    // What is authored stays as it is.
    let authored = stage.explain_property_path(property).expect("authored");
    assert_eq!(authored[0].value.default_value(), Some(&timecode(1.0)));
    assert!(matches!(
        stage
            .explain_property_value(property, None)
            .and_then(|explained| explained.value),
        Some(layerstack::resolution::ResolvedValue::Scalar(value)) if value == timecode(7.0)
    ));
}
