use layerstack::doc::{ArrayEdit, EditOp, Precision, TupleKind, Value};
use layerstack::fields::FieldValue;
use layerstack::interpolation::{lerp_rule, spline_precision, LerpRule};
use layerstack::opinion::{Opinion, OpinionValue};
use layerstack::path::{Path, PathInterner};
use layerstack::prim_index::{LayerId, LayerOffset, OpinionKey};
use layerstack::prim_index_graph::NodeId;
use layerstack::property::{PropertySpec, SplineDataType};
use layerstack::room::{fits_in_memory, fits_in_memory_at, measure_ops};
use layerstack::series::InterpolationType;
use layerstack::spec_path::SpecPath;
use layerstack::times::TimeTable;

#[test]
fn only_numbers_interpolate() {
    let tuple = |kind: TupleKind, count: usize| Value::Tuple(kind, vec![0; count]);
    assert_eq!(
        lerp_rule(&Value::Half(0), &Value::Half(1)),
        Some(LerpRule::Number(Precision::Half))
    );
    assert_eq!(
        lerp_rule(&Value::Float(0), &Value::Float(1)),
        Some(LerpRule::Number(Precision::Single))
    );
    assert_eq!(
        lerp_rule(&Value::TimeCode(0), &Value::TimeCode(1)),
        Some(LerpRule::Number(Precision::Double))
    );
    assert_eq!(
        lerp_rule(&tuple(TupleKind::Vec3h, 3), &tuple(TupleKind::Vec3h, 3)),
        Some(LerpRule::Numbers(Precision::Half))
    );
    assert_eq!(
        lerp_rule(&tuple(TupleKind::Matrix4d, 16), &tuple(TupleKind::Matrix4d, 16)),
        Some(LerpRule::Numbers(Precision::Double))
    );
    assert_eq!(
        lerp_rule(&tuple(TupleKind::Quatf, 4), &tuple(TupleKind::Quatf, 4)),
        Some(LerpRule::Rotation(Precision::Single))
    );
    // Integers hold, and so do values of two kinds, whichever comes first.
    let held = [
        (Value::Int(0), Value::Int(4)),
        (Value::Float(0), Value::Double(0)),
        (tuple(TupleKind::Vec2f, 2), tuple(TupleKind::Vec3f, 3)),
        (Value::Double(0), Value::Blocked),
    ];
    for (a, b) in &held {
        assert_eq!(lerp_rule(a, b), None, "{a:?} {b:?}");
        assert_eq!(lerp_rule(b, a), None, "{a:?} {b:?}");
    }
}

#[test]
fn splines_have_the_precision_of_their_type() {
    assert_eq!(spline_precision(SplineDataType::Half), Precision::Half);
    assert_eq!(spline_precision(SplineDataType::Float), Precision::Single);
    assert_eq!(spline_precision(SplineDataType::Double), Precision::Double);
    assert_eq!(
        spline_precision(SplineDataType::Unspecified),
        Precision::Double
    );
}

fn opinion(value: Value) -> Opinion {
    let mut paths = PathInterner::default();
    let path = paths.intern(Path::root());
    Opinion {
        key: OpinionKey {
            node: NodeId::root(),
            layer_strength: 0,
            layer_id: LayerId(1),
            lookup_path: path,
            spec_path: SpecPath::from_prim_path(path, &paths),
        },
        field: layerstack::interner::TokenId { index: 0 },
        value: OpinionValue::Field(FieldValue::Value(value)),
        layer_offset: LayerOffset::identity(),
    }
}

#[test]
fn arrays_too_large_for_memory_do_not_fit() {
    let sized = |len: usize| {
        Value::ArrayEdit(ArrayEdit {
            ops: vec![EditOp::MinSize { len }],
        })
    };
    let program = |len: usize| vec![EditOp::MinSize { len }];
    assert_eq!(measure_ops(&program(10), true), Some(11));
    assert_eq!(measure_ops(&program(usize::MAX), true), None);
    // Without a fill, an edit that carries no item adds none.
    assert_eq!(measure_ops(&program(usize::MAX), false), Some(1));
    assert!(fits_in_memory(&vec![opinion(sized(10))], None, true));
    assert!(!fits_in_memory(&vec![opinion(sized(usize::MAX))], None, true));
    assert!(fits_in_memory(&vec![opinion(sized(usize::MAX))], None, false));
    let half = sized(isize::MAX as usize / 64 / 2);
    assert!(fits_in_memory(&vec![opinion(half.copy())], None, true));
    assert!(!fits_in_memory(
        &vec![opinion(half.copy()), opinion(half.copy())],
        None,
        true
    ));
    assert!(!fits_in_memory(&vec![opinion(half.copy())], Some(&half), true));
}

#[test]
fn what_a_fold_does_not_visit_takes_no_room() {
    let huge = || {
        opinion(Value::ArrayEdit(ArrayEdit {
            ops: vec![EditOp::MinSize { len: usize::MAX }],
        }))
    };
    let dense = || opinion(Value::Array(vec![Value::Int(1), Value::Int(2)]));
    let block = || opinion(Value::Blocked);
    let small = || {
        opinion(Value::ArrayEdit(ArrayEdit {
            ops: vec![EditOp::MinSize { len: 3 }],
        }))
    };
    // A dense array or a block hides the edit behind it.
    assert!(fits_in_memory(&vec![dense(), huge()], None, true));
    assert!(fits_in_memory(&vec![small(), dense(), huge()], None, true));
    assert!(fits_in_memory(&vec![small(), block(), huge()], None, true));
    assert!(!fits_in_memory(&vec![small(), huge(), dense()], None, true));
    // A sample that is not picked takes none.
    let edit = |len: usize| {
        Value::ArrayEdit(ArrayEdit {
            ops: vec![EditOp::MinSize { len }],
        })
    };
    let mut spec = PropertySpec::attribute();
    spec.time_samples = Some(vec![
        (0.0f64.to_bits(), edit(2)),
        (10.0f64.to_bits(), edit(usize::MAX)),
    ]);
    let mut sampled = dense();
    sampled.value = OpinionValue::Property(spec);
    let chain = vec![sampled, dense()];
    let times = TimeTable::new();
    let at = |time: f64| {
        fits_in_memory_at(
            &chain,
            time.to_bits(),
            InterpolationType::Held,
            None,
            true,
            &times,
        )
    };
    assert!(at(0.0));
    assert!(at(4.0));
    assert!(!at(10.0));
}

#[test]
fn tables_of_times_join() {
    let offset = LayerOffset {
        offset: 1.0f64.to_bits(),
        scale: 1.0f64.to_bits(),
    };
    let one = |staged: u64| TimeTable {
        to_stage: vec![(offset, 1, staged)],
        to_layer: Vec::new(),
        close: vec![(5, 6)],
    };
    assert_eq!(TimeTable::new().to_stage_time(offset, 1), 1);
    let both = one(2).and(one(3));
    assert_eq!(both.to_stage_time(offset, 1), 2);
    assert_eq!(both.to_layer_time(offset, 1), 1);
    assert!(both.times_close(5, 6) && both.times_close(6, 5));
    assert!(!both.times_close(5, 7));
}
