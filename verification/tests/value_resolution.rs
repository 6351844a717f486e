use layerstack::arrays::{apply_to_array, fill_for, fold_array_chain, FoldedArray};
use layerstack::doc::{ArrayEdit, ArrayPlace, EditOp, EditOperand, TupleKind, Value};
use layerstack::fields::FieldValue;
use layerstack::interner::{TokenId, TokenInterner};
use layerstack::interpolation::{
    interpolate_samples, lerp_arrays, resolve_sparse_value, settle_arrays, SparseQuery,
};
use layerstack::opinion::{Opinion, OpinionValue};
use layerstack::path::{Path, PathId, PathInterner};
use layerstack::prim_index::{LayerId, LayerOffset, OpinionKey};
use layerstack::prim_index_graph::NodeId;
use layerstack::property::{PropertySpec, PropertyType};
use layerstack::resolution::SparseResolveResult;
use layerstack::series::{
    plan_brackets, resolve_array_at_time, sample_bracket, ArrayAtTime, InterpolationType,
};
use layerstack::spec_path::SpecPath;
use layerstack::stage::explain::{follow_defaults, FoldEvent, FoldPart};
use layerstack::stage::folds::explain_sparse_value;
use layerstack::times::TimeTable;

// ── Building opinions ───────────────────────────────────────────────────

fn array_value(values: &[i32]) -> Value {
    Value::Array(values.iter().copied().map(Value::Int).collect())
}

fn int_array_type() -> PropertyType {
    PropertyType::new("int", true, Value::Int(0))
}

fn test_key(layer: LayerId, lookup_path: PathId) -> OpinionKey {
    let mut tokens = TokenInterner::default();
    let mut paths = PathInterner::default();
    let spec_path = SpecPath::parse("/A", &mut tokens, &mut paths).expect("spec path");
    OpinionKey {
        node: NodeId::root(),
        layer_strength: 0,
        layer_id: layer,
        lookup_path,
        spec_path,
    }
}

fn test_ids() -> (PathId, TokenId) {
    let mut tokens = TokenInterner::default();
    let mut paths = PathInterner::default();
    let spec_path = paths.intern(Path::parse_absolute("/A", &mut tokens).expect("valid path"));
    let field = tokens.intern("x");
    (spec_path, field)
}

fn array_opinion(
    spec_path: PathId,
    field: TokenId,
    value: OpinionValue,
    layer_strength: u16,
) -> Opinion {
    Opinion {
        key: OpinionKey {
            layer_strength,
            ..test_key(LayerId(1), spec_path)
        },
        field,
        value,
        layer_offset: LayerOffset::identity(),
    }
}

fn value(value: Value) -> OpinionValue {
    OpinionValue::Field(FieldValue::Value(value))
}

/// A property authoring only time samples.
fn samples(samples: Vec<(f64, Value)>) -> OpinionValue {
    OpinionValue::Property(
        PropertySpec::attribute().with_time_samples(
            samples
                .into_iter()
                .map(|(time, value)| (time.to_bits(), value))
                .collect(),
        ),
    )
}

fn insert(value: Value, index: ArrayPlace) -> EditOp {
    EditOp::Insert {
        src: EditOperand::Literal(value),
        index,
    }
}

fn append(value: Value) -> EditOp {
    insert(value, ArrayPlace::End)
}

fn write(value: Value, index: i64) -> EditOp {
    EditOp::Write {
        src: EditOperand::Literal(value),
        index: ArrayPlace::Position(index),
    }
}

fn edit(op: EditOp) -> Value {
    Value::ArrayEdit(ArrayEdit { ops: vec![op] })
}

fn write_edit(value: i32, index: i64) -> Value {
    edit(write(Value::Int(value), index))
}

fn float_array(values: &[f32]) -> Value {
    Value::Array(values.iter().map(|v| Value::Float(v.to_bits())).collect())
}

fn float_array_type() -> PropertyType {
    PropertyType::new("float", true, Value::Float(0.0f32.to_bits()))
}

fn vec3f(value: [f32; 3]) -> Value {
    Value::Tuple(
        TupleKind::Vec3f,
        value.iter().map(|v| u64::from(v.to_bits())).collect(),
    )
}

fn float3_array(values: &[[f32; 3]]) -> Value {
    Value::Array(values.iter().copied().map(vec3f).collect())
}

// ── The arithmetic of times and values ──────────────────────────────────

fn to_stage(offset: LayerOffset, time: f64) -> f64 {
    time * f64::from_bits(offset.scale) + f64::from_bits(offset.offset)
}

fn to_layer(offset: LayerOffset, time: f64) -> f64 {
    (time - f64::from_bits(offset.offset)) / f64::from_bits(offset.scale)
}

/// What the arithmetic of doubles makes of the times of a query.
fn time_table(opinions: &[Opinion], query: f64) -> TimeTable {
    let mut table = TimeTable {
        to_stage: Vec::new(),
        to_layer: Vec::new(),
        close: Vec::new(),
    };
    let mut all = vec![query];
    for opinion in opinions {
        for (time, _) in opinion.value.time_samples().into_iter().flatten() {
            let layer = f64::from_bits(*time);
            let stage = to_stage(opinion.layer_offset, layer);
            table
                .to_stage
                .push((opinion.layer_offset, *time, stage.to_bits()));
            all.push(layer);
            all.push(stage);
        }
    }
    for opinion in opinions {
        for &time in &all {
            table.to_layer.push((
                opinion.layer_offset,
                time.to_bits(),
                to_layer(opinion.layer_offset, time).to_bits(),
            ));
        }
    }
    for &a in &all {
        for &b in &all {
            if a != b && (a - b).abs() < 1e-6 {
                table.close.push((a.to_bits(), b.to_bits()));
            }
        }
    }
    table
}

fn gf_lerp(a: f64, b: f64, alpha: f64) -> f64 {
    (1.0 - alpha) * a + alpha * b
}

fn lerp_element(a: &Value, b: &Value, alpha: f64) -> Option<Value> {
    match (a, b) {
        (Value::Float(a), Value::Float(b)) => {
            let (a, b) = (f32::from_bits(*a), f32::from_bits(*b));
            let lerped = gf_lerp(f64::from(a), f64::from(b), alpha) as f32;
            Some(Value::Float(lerped.to_bits()))
        }
        (Value::Double(a), Value::Double(b)) => {
            let lerped = gf_lerp(f64::from_bits(*a), f64::from_bits(*b), alpha);
            Some(Value::Double(lerped.to_bits()))
        }
        (Value::Tuple(TupleKind::Vec3f, a), Value::Tuple(TupleKind::Vec3f, b)) => {
            let scaled = |bits: u64, scale: f64| {
                (f64::from(f32::from_bits(bits as u32)) * scale) as f32
            };
            let lerped = a
                .iter()
                .zip(b)
                .map(|(a, b)| scaled(*a, 1.0 - alpha) + scaled(*b, alpha))
                .map(|sum| u64::from(sum.to_bits()))
                .collect();
            Some(Value::Tuple(TupleKind::Vec3f, lerped))
        }
        (Value::Tuple(TupleKind::Vec3d, a), Value::Tuple(TupleKind::Vec3d, b)) => {
            let lerped = a
                .iter()
                .zip(b)
                .map(|(a, b)| gf_lerp(f64::from_bits(*a), f64::from_bits(*b), alpha).to_bits())
                .collect();
            Some(Value::Tuple(TupleKind::Vec3d, lerped))
        }
        _ => None,
    }
}

/// Interpolates what is still to interpolate.
fn finish(at: ArrayAtTime, time: f64) -> SparseResolveResult {
    let between = match &at {
        ArrayAtTime::Between(lower, from, upper, to) => {
            let (from, to) = (f64::from_bits(*from), f64::from_bits(*to));
            let alpha = (time - from) / (to - from);
            let items = lower
                .iter()
                .zip(upper)
                .map(|(a, b)| lerp_element(a, b, alpha))
                .collect();
            lerp_arrays(lower, upper, &items)
        }
        _ => None,
    };
    settle_arrays(at, between)
}

fn resolve_sparse(
    opinions: &Vec<Opinion>,
    query: SparseQuery<'_>,
    property_type: &PropertyType,
) -> SparseResolveResult {
    let time = match query {
        SparseQuery::Default { .. } => 0.0,
        SparseQuery::AtTime { time, .. } => f64::from_bits(time),
    };
    let times = time_table(opinions, time);
    finish(
        resolve_sparse_value(opinions, query, Some(property_type), &times),
        time,
    )
}

fn resolve_at(opinions: &Vec<Opinion>, time: f64, interp: InterpolationType) -> SparseResolveResult {
    resolve_sparse(
        opinions,
        SparseQuery::AtTime {
            time: time.to_bits(),
            interp,
            fallback: None,
        },
        &int_array_type(),
    )
}

fn assert_resolved(actual: SparseResolveResult, expected: Value, what: &str) {
    match actual {
        SparseResolveResult::Resolved(value) => assert_eq!(value, expected, "{what}"),
        other => panic!("{what}: {other:?}"),
    }
}

fn assert_blocked(actual: SparseResolveResult, what: &str) {
    assert!(matches!(actual, SparseResolveResult::Blocked), "{what}");
}

// ── Defaults ────────────────────────────────────────────────────────────

#[test]
fn dense_value_terminates_sparse_fold() {
    let (spec_path, field) = test_ids();
    let opinions = vec![
        array_opinion(spec_path, field, value(write_edit(9, 0)), 0),
        array_opinion(spec_path, field, value(array_value(&[1, 2])), 1),
        array_opinion(spec_path, field, value(edit(append(Value::Int(7)))), 2),
    ];

    let resolved = resolve_sparse(
        &opinions,
        SparseQuery::Default { fallback: None },
        &int_array_type(),
    );
    assert_resolved(
        resolved,
        array_value(&[9, 2]),
        "once the fold reaches a dense array, weaker sparse opinions must not affect the result",
    );
}

#[test]
fn fallback_seeds_sparse_default_resolution() {
    let (spec_path, field) = test_ids();
    let opinions = vec![array_opinion(spec_path, field, value(write_edit(9, 0)), 0)];

    let resolved = resolve_sparse(
        &opinions,
        SparseQuery::Default {
            fallback: Some(&array_value(&[1, 2])),
        },
        &int_array_type(),
    );
    assert_resolved(
        resolved,
        array_value(&[9, 2]),
        "schema fallback should act as the weakest dense seed for sparse array resolution",
    );
}

#[test]
fn held_time_samples_use_same_sparse_fold_as_defaults() {
    let (spec_path, field) = test_ids();
    let opinions = vec![
        array_opinion(
            spec_path,
            field,
            samples(vec![
                (0.0, write_edit(9, 0)),
                (2.0, Value::ArrayEdit(ArrayEdit { ops: Vec::new() })),
            ]),
            0,
        ),
        array_opinion(spec_path, field, value(array_value(&[1, 2])), 1),
    ];

    assert_resolved(
        resolve_at(&opinions, 1.0, InterpolationType::Held),
        array_value(&[9, 2]),
        "time-sampled sparse opinions should fold over weaker dense values",
    );
}

#[test]
fn blocking_value_still_blocks_sparse_resolution() {
    let (spec_path, field) = test_ids();
    let opinions = vec![
        array_opinion(spec_path, field, value(Value::Blocked), 0),
        array_opinion(spec_path, field, value(array_value(&[1, 2])), 1),
    ];

    assert_blocked(
        resolve_at(&opinions, 1.0, InterpolationType::Held),
        "blocking opinions must suppress weaker sparse-family values",
    );
}

#[test]
fn stronger_edits_materialize_over_seed_when_block_cuts_chain() {
    let (spec_path, field) = test_ids();
    let opinions = vec![
        array_opinion(spec_path, field, value(edit(append(Value::Int(7)))), 0),
        array_opinion(spec_path, field, value(Value::Blocked), 1),
        array_opinion(spec_path, field, value(array_value(&[1, 2])), 2),
    ];

    let resolved = resolve_sparse(
        &opinions,
        SparseQuery::Default { fallback: None },
        &int_array_type(),
    );
    assert_resolved(
        resolved,
        array_value(&[7]),
        "a block hides weaker opinions, but stronger sparse edits still materialize over the seed",
    );
}

#[test]
fn sparse_over_sparse_fold_matches_grouped_composition() {
    let (spec_path, field) = test_ids();
    let strong = || write(Value::Int(8), 1);
    let weak = || append(Value::Int(7));

    let full_chain = vec![
        array_opinion(spec_path, field, value(edit(strong())), 0),
        array_opinion(spec_path, field, value(edit(weak())), 1),
        array_opinion(spec_path, field, value(array_value(&[1, 2])), 2),
    ];
    let grouped_chain = vec![
        array_opinion(
            spec_path,
            field,
            value(Value::ArrayEdit(ArrayEdit {
                ops: vec![weak(), strong()],
            })),
            0,
        ),
        array_opinion(spec_path, field, value(array_value(&[1, 2])), 1),
    ];

    let resolve = |chain: &Vec<Opinion>| {
        resolve_sparse(
            chain,
            SparseQuery::Default { fallback: None },
            &int_array_type(),
        )
    };
    let expected = array_value(&[1, 8, 7]);
    assert_resolved(resolve(&full_chain), expected.copy(), "full");
    assert_resolved(resolve(&grouped_chain), expected, "grouped");
}

// ── Hidden opinions ─────────────────────────────────────────────────────

/// The stage times that a query plans to compose, and how many opinions take
/// part.
fn plan_counting(
    opinions: &Vec<Opinion>,
    time: f64,
    interp: InterpolationType,
) -> (Vec<f64>, usize) {
    let times = time_table(opinions, time);
    let (brackets, composed, members) = plan_brackets(opinions, time.to_bits(), interp, &times);
    let at = composed.iter().map(|e| f64::from_bits(e.time)).collect();
    assert_eq!(members.len(), brackets.len());
    (at, brackets.len())
}

#[test]
fn opinions_hidden_by_a_dense_value_are_not_sampled() {
    let (spec_path, field) = test_ids();
    let opinions = vec![
        array_opinion(spec_path, field, samples(vec![(0.0, write_edit(9, 0))]), 0),
        array_opinion(spec_path, field, value(array_value(&[1, 2])), 1),
        array_opinion(
            spec_path,
            field,
            samples(vec![(0.0, array_value(&[5, 5, 5]))]),
            2,
        ),
        array_opinion(spec_path, field, value(array_value(&[3])), 3),
    ];
    for interp in [InterpolationType::Held, InterpolationType::Linear] {
        assert_resolved(
            resolve_at(&opinions, 0.0, interp),
            array_value(&[9, 2]),
            "resolved",
        );
        let (_, visited) = plan_counting(&opinions, 0.0, interp);
        assert_eq!(
            visited, 2,
            "the walk must stop at the first dense value without sampling weaker opinions ({interp:?})"
        );
    }
}

#[test]
fn dense_lower_sample_hides_weaker_opinions_until_the_upper_sample() {
    let (spec_path, field) = test_ids();
    let opinions = vec![
        array_opinion(
            spec_path,
            field,
            samples(vec![(0.0, array_value(&[0, 0])), (2.0, write_edit(9, 0))]),
            0,
        ),
        array_opinion(
            spec_path,
            field,
            samples(vec![
                (1.0, array_value(&[1, 1])),
                (3.0, array_value(&[3, 3])),
            ]),
            1,
        ),
        array_opinion(spec_path, field, value(array_value(&[7])), 2),
    ];

    // Held: only the lower sample contributes, and being dense it ends the
    // walk at once.
    let (times, visited) = plan_counting(&opinions, 1.5, InterpolationType::Held);
    assert_eq!((times, visited), (vec![0.0], 1));

    // Linear: the weaker series is bracketed at the upper sample's time (2),
    // where its held sample is dense, so the walk ends there. Its sample at 1
    // is hidden by the stronger dense sample held at 1.
    let (times, visited) = plan_counting(&opinions, 1.5, InterpolationType::Linear);
    assert_eq!((times, visited), (vec![0.0, 2.0], 2));
    assert_resolved(
        resolve_at(&opinions, 1.5, InterpolationType::Held),
        array_value(&[0, 0]),
        "held at 1.5",
    );
    assert_resolved(
        resolve_at(&opinions, 2.0, InterpolationType::Held),
        array_value(&[9, 1]),
        "held at 2",
    );
}

#[test]
fn opinions_hidden_by_a_block_are_not_visited() {
    let (spec_path, field) = test_ids();
    let opinions = vec![
        array_opinion(spec_path, field, value(write_edit(9, 0)), 0),
        array_opinion(spec_path, field, value(Value::Blocked), 1),
        array_opinion(spec_path, field, value(array_value(&[1, 2])), 2),
        array_opinion(spec_path, field, value(write_edit(7, 1)), 3),
    ];
    let visited = follow_defaults(&opinions, false).events;
    assert_eq!(
        visited.len(),
        2,
        "the fold must stop at the first block without visiting weaker opinions"
    );
    let (_, folds) = explain_sparse_value(
        &opinions,
        SparseQuery::Default { fallback: None },
        Some(&int_array_type()),
        &TimeTable::new(),
    );
    assert_eq!(folds.len(), 1);
    assert_eq!(folds[0].events, visited);
}

#[test]
fn values_behind_a_block_have_no_part_in_a_fold() {
    let (strong, weak) = (write_edit(9, 0), write_edit(7, 1));
    let (block, dense) = (Value::Blocked, array_value(&[1, 2]));
    let fill = fill_for(Some(&int_array_type()));
    let seed = Vec::new();
    let all = fold_array_chain(&vec![&strong, &block, &dense, &weak], &seed, &fill);
    let visible = fold_array_chain(&vec![&strong, &block], &seed, &fill);
    match (all, visible) {
        (FoldedArray::Items(all), FoldedArray::Items(visible)) => assert_eq!(all, visible),
        other => panic!("{other:?}"),
    }
}

// ── Blocks at times ─────────────────────────────────────────────────────

#[test]
fn sampled_block_blocks_weaker_dense_array() {
    let (spec_path, field) = test_ids();
    let opinions = vec![
        array_opinion(spec_path, field, samples(vec![(0.0, Value::Blocked)]), 0),
        array_opinion(spec_path, field, value(array_value(&[42])), 1),
    ];

    for time in [-1.0, 0.0, 5.0] {
        for interp in [InterpolationType::Held, InterpolationType::Linear] {
            assert_blocked(
                resolve_at(&opinions, time, interp),
                &format!("a sampled block must hide the weaker array at t={time} ({interp:?})"),
            );
        }
    }
}

#[test]
fn sampled_block_applies_only_where_it_is_the_held_sample() {
    let (spec_path, field) = test_ids();
    let opinions = vec![
        array_opinion(
            spec_path,
            field,
            samples(vec![
                (0.0, write_edit(9, 0)),
                (2.0, Value::Blocked),
                (4.0, array_value(&[7])),
            ]),
            0,
        ),
        array_opinion(spec_path, field, value(array_value(&[1, 2])), 1),
    ];

    let held = InterpolationType::Held;
    assert_resolved(
        resolve_at(&opinions, 1.0, held),
        array_value(&[9, 2]),
        "held edit sample before the block composes over the weaker array",
    );
    assert_blocked(resolve_at(&opinions, 2.0, held), "exact block sample");
    assert_blocked(resolve_at(&opinions, 3.0, held), "held block sample");
    assert_blocked(
        resolve_at(&opinions, 3.0, InterpolationType::Linear),
        "arrays do not interpolate, so a block holds under linear interpolation too",
    );
    assert_resolved(
        resolve_at(&opinions, 4.0, held),
        array_value(&[7]),
        "exact dense sample after the block",
    );
}

#[test]
fn layer_offset_maps_query_time_before_sampling_a_block() {
    let (spec_path, field) = test_ids();
    let mut strong = array_opinion(
        spec_path,
        field,
        samples(vec![(0.0, array_value(&[1])), (1.0, Value::Blocked)]),
        0,
    );
    // Stage time 11 maps to layer time 1, the block sample.
    strong.layer_offset = LayerOffset {
        offset: 10.0f64.to_bits(),
        scale: 1.0f64.to_bits(),
    };
    let opinions = vec![
        strong,
        array_opinion(spec_path, field, value(array_value(&[42])), 1),
    ];

    assert_resolved(
        resolve_at(&opinions, 10.0, InterpolationType::Held),
        array_value(&[1]),
        "layer time 0",
    );
    assert_blocked(
        resolve_at(&opinions, 11.0, InterpolationType::Held),
        "layer time 1",
    );
}

#[test]
fn stronger_edits_materialize_over_fallback_seed_when_block_cuts_chain() {
    let (spec_path, field) = test_ids();
    let opinions = vec![
        array_opinion(spec_path, field, value(edit(append(Value::Int(7)))), 0),
        array_opinion(spec_path, field, value(Value::Blocked), 1),
        array_opinion(spec_path, field, value(array_value(&[1, 2])), 2),
    ];

    let resolved = resolve_sparse(
        &opinions,
        SparseQuery::Default {
            fallback: Some(&array_value(&[5, 6])),
        },
        &int_array_type(),
    );
    assert_resolved(
        resolved,
        array_value(&[5, 6, 7]),
        "the fallback survives the block and seeds the stronger edit; [1, 2] does not",
    );
}

#[test]
fn stronger_sampled_edit_materializes_over_seed_when_sampled_block_cuts_chain() {
    let (spec_path, field) = test_ids();
    let opinions = vec![
        array_opinion(
            spec_path,
            field,
            samples(vec![(0.0, edit(append(Value::Int(7))))]),
            0,
        ),
        array_opinion(
            spec_path,
            field,
            samples(vec![(0.0, Value::Blocked), (2.0, array_value(&[3]))]),
            1,
        ),
        array_opinion(spec_path, field, value(array_value(&[1, 2])), 2),
    ];

    let held = InterpolationType::Held;
    assert_resolved(
        resolve_at(&opinions, 0.0, held),
        array_value(&[7]),
        "exact block sample: the stronger edit materializes over the empty seed",
    );
    assert_resolved(
        resolve_at(&opinions, 1.0, held),
        array_value(&[7]),
        "held block sample: the stronger edit materializes over the empty seed",
    );
    assert_resolved(
        resolve_at(&opinions, 2.0, held),
        array_value(&[3, 7]),
        "once the dense sample takes over, the edit composes over it",
    );
}

// ── Interpolation ───────────────────────────────────────────────────────

#[test]
fn stronger_edit_composes_over_both_bracketing_samples_before_interpolating() {
    let (spec_path, field) = test_ids();
    let resize_four = edit(EditOp::Resize { len: 4 });
    let opinions = vec![
        array_opinion(
            spec_path,
            field,
            samples(vec![(2.0, edit(write(Value::Float(8.0f32.to_bits()), 1)))]),
            0,
        ),
        array_opinion(
            spec_path,
            field,
            samples(vec![
                (1.0, resize_four),
                (3.0, float_array(&[2.0, 4.0, 6.0, 8.0])),
            ]),
            1,
        ),
    ];
    let resolve = |time: f64, interp| {
        resolve_sparse(
            &opinions,
            SparseQuery::AtTime {
                time: time.to_bits(),
                interp,
                fallback: None,
            },
            &float_array_type(),
        )
    };
    for (time, expected) in [
        (0.0, [0.0, 8.0, 0.0, 0.0]),
        (2.0, [0.0, 8.0, 0.0, 0.0]),
        (2.5, [1.0, 8.0, 3.0, 4.0]),
        (3.0, [2.0, 8.0, 6.0, 8.0]),
    ] {
        assert_resolved(
            resolve(time, InterpolationType::Linear),
            float_array(&expected),
            &format!("t={time}"),
        );
    }
    assert_resolved(
        resolve(2.5, InterpolationType::Held),
        float_array(&[0.0, 8.0, 0.0, 0.0]),
        "held",
    );
}

#[test]
fn scalar_samples_follow_the_element_rules() {
    let linear = InterpolationType::Linear;
    let interpolate = |samples: &[(f64, Value)], time: f64| {
        let given: Vec<(u64, Value)> = samples
            .iter()
            .map(|(t, v)| (t.to_bits(), v.copy()))
            .collect();
        let mut times = TimeTable {
            to_stage: Vec::new(),
            to_layer: Vec::new(),
            close: Vec::new(),
        };
        for (a, _) in samples {
            for (b, _) in samples {
                if (a - b).abs() < 1e-6 {
                    times.close.push((a.to_bits(), b.to_bits()));
                }
            }
        }
        let (lower, upper) = sample_bracket(&given, time.to_bits(), linear, &times);
        let alpha = (time - samples[lower].0) / (samples[upper].0 - samples[lower].0);
        let between = lerp_element(&samples[lower].1, &samples[upper].1, alpha);
        interpolate_samples(&given, time.to_bits(), linear, &times, &between)
    };
    let double = |v: f64| Value::Double(v.to_bits());
    let vec3d = |v: f64| Value::Tuple(TupleKind::Vec3d, vec![v.to_bits(); 3]);

    let ints = [(0.0, Value::Int(0)), (2.0, Value::Int(4))];
    assert_eq!(
        interpolate(&ints, 1.0),
        Some(Value::Int(0)),
        "integers hold, as in OpenUSD"
    );
    let vectors = [(0.0, vec3d(0.0)), (2.0, vec3d(2.0))];
    assert_eq!(interpolate(&vectors, 0.5), Some(vec3d(0.5)));
    let close = [(0.0, double(0.0)), (5e-7, double(10.0))];
    assert_eq!(
        interpolate(&close, 2.5e-7),
        Some(double(0.0)),
        "samples closer than 1e-6 hold the lower one"
    );
    let blocked = [(0.0, double(1.0)), (2.0, Value::Blocked)];
    assert_eq!(
        interpolate(&blocked, 1.0),
        Some(double(1.0)),
        "a blocked upper sample holds the lower one"
    );
}

#[test]
fn outer_samples_hold() {
    let given = vec![
        (1.0f64.to_bits(), Value::Int(10)),
        (2.0f64.to_bits(), Value::Int(20)),
    ];
    let times = time_table(&[], 0.0);
    for interp in [InterpolationType::Held, InterpolationType::Linear] {
        for (time, expected) in [(0.0f64, 10), (1.0, 10), (2.0, 20), (3.0, 20)] {
            let between = Some(Value::Int(99));
            assert_eq!(
                interpolate_samples(&given, time.to_bits(), interp, &times, &between),
                Some(Value::Int(expected)),
                "t={time} {interp:?}"
            );
        }
    }
    let held = interpolate_samples(
        &given,
        1.5f64.to_bits(),
        InterpolationType::Held,
        &times,
        &Some(Value::Int(99)),
    );
    assert_eq!(held, Some(Value::Int(10)));
    assert_eq!(
        interpolate_samples(
            &Vec::new(),
            0,
            InterpolationType::Linear,
            &times,
            &Some(Value::Int(1))
        ),
        None
    );
}

#[test]
fn arrays_of_different_sizes_hold() {
    let one = vec![Value::Int(1)];
    let two = vec![Value::Int(1), Value::Int(2)];
    assert_eq!(lerp_arrays(&one, &two, &vec![Some(Value::Int(1))]), None);
    assert_eq!(
        lerp_arrays(&two, &two, &vec![Some(Value::Int(3)), None]),
        None
    );
    assert_eq!(
        lerp_arrays(&one, &one, &vec![Some(Value::Int(3))]),
        Some(vec![Value::Int(3)])
    );
}

#[test]
fn time_sampled_edits_compose_over_the_fallback_seed() {
    let (spec_path, field) = test_ids();
    let fallback = float3_array(&[[-1.0; 3], [1.0; 3]]);
    let float3_type = PropertyType::new("float3", true, vec3f([0.0; 3]));
    let resolve = |opinions: &Vec<Opinion>, time: f64, interp| {
        resolve_sparse(
            opinions,
            SparseQuery::AtTime {
                time: time.to_bits(),
                interp,
                fallback: Some(&fallback),
            },
            &float3_type,
        )
    };
    let edits = vec![array_opinion(
        spec_path,
        field,
        samples(vec![
            (1.0, edit(write(vec3f([0.0; 3]), 0))),
            (3.0, edit(append(vec3f([5.0; 3])))),
        ]),
        0,
    )];
    let written = float3_array(&[[0.0; 3], [1.0; 3]]);
    let appended = float3_array(&[[-1.0; 3], [1.0; 3], [5.0; 3]]);
    for interp in [InterpolationType::Held, InterpolationType::Linear] {
        for (time, expected) in [
            (0.0, &written),
            (1.0, &written),
            (2.0, &written),
            (3.0, &appended),
            (4.0, &appended),
        ] {
            assert_resolved(
                resolve(&edits, time, interp),
                expected.copy(),
                &format!("t={time} {interp:?}"),
            );
        }
    }

    let over_default_block = vec![
        array_opinion(
            spec_path,
            field,
            samples(vec![(1.0, edit(append(vec3f([5.0; 3]))))]),
            0,
        ),
        array_opinion(spec_path, field, value(Value::Blocked), 1),
        array_opinion(spec_path, field, value(float3_array(&[[2.0; 3]])), 2),
    ];
    for time in [0.0, 1.0, 2.0] {
        assert_resolved(
            resolve(&over_default_block, time, InterpolationType::Linear),
            appended.copy(),
            &format!("the fallback survives the block and seeds the edit at t={time}"),
        );
    }
}

// ── Composing the samples themselves ────────────────────────────────────

#[derive(Debug)]
enum Sample {
    Dense(Vec<Value>),
    Sparse(Vec<EditOp>),
    Block,
}

fn copy_all(items: &[Value]) -> Vec<Value> {
    items.iter().map(|item| item.copy()).collect()
}

fn copy_program(ops: &[EditOp]) -> Vec<EditOp> {
    ops.iter().map(|op| op.copy()).collect()
}

impl Sample {
    fn of(value: &Value) -> Sample {
        match value {
            Value::Array(items) => Sample::Dense(copy_all(items)),
            Value::ArrayEdit(edit) => Sample::Sparse(copy_program(&edit.ops)),
            Value::Blocked => Sample::Block,
            other => panic!("unexpected sample {other:?}"),
        }
    }

    fn copy(&self) -> Sample {
        match self {
            Sample::Dense(items) => Sample::Dense(copy_all(items)),
            Sample::Sparse(ops) => Sample::Sparse(copy_program(ops)),
            Sample::Block => Sample::Block,
        }
    }

    fn is_dense(&self) -> bool {
        !matches!(self, Sample::Sparse(_))
    }
}

type Series = Vec<(f64, Sample)>;

fn close(a: f64, b: f64) -> bool {
    a == b || (a - b).abs() < 1e-6
}

/// The opinion's interpolating samples at stage time `query`.
fn interpolating(opinion: &Opinion, query: f64, interp: InterpolationType) -> Option<Series> {
    let offset = opinion.layer_offset;
    let given = match (opinion.value.time_samples(), opinion.value.default_value()) {
        (Some(samples), _) => samples,
        (None, Some(value)) => return Some(vec![(f64::NEG_INFINITY, Sample::of(value))]),
        (None, None) => return None,
    };
    let at = |i: usize| f64::from_bits(given[i].0);
    let local = to_layer(offset, query);
    let lower = (0..given.len()).rev().find(|&i| at(i) <= local).unwrap_or(0);
    let upper = if at(lower) >= local {
        lower
    } else {
        (lower + 1).min(given.len() - 1)
    };
    let stage = |i: usize| (to_stage(offset, at(i)), Sample::of(&given[i].1));
    if interp == InterpolationType::Held || close(at(lower), at(upper)) {
        Some(vec![stage(lower)])
    } else {
        Some(vec![stage(lower), stage(upper)])
    }
}

fn compose(strong: &Sample, weak: &Sample, fill: &Option<Value>, seed: &Vec<Value>) -> Option<Sample> {
    let Sample::Sparse(s) = strong else {
        return None;
    };
    Some(match weak {
        Sample::Sparse(w) => {
            let mut ops = copy_program(w);
            ops.extend(copy_program(s));
            Sample::Sparse(ops)
        }
        Sample::Dense(d) => Sample::Dense(apply_to_array(d, s, fill)),
        Sample::Block => Sample::Dense(apply_to_array(seed, s, fill)),
    })
}

fn held(series: &Series, next: usize, time: f64) -> &Sample {
    if next == series.len() || (next != 0 && !close(series[next].0, time)) {
        &series[next - 1].1
    } else {
        &series[next].1
    }
}

fn over(strong: &Series, weak: Series, fill: &Option<Value>, seed: &Vec<Value>) -> Series {
    if strong.is_empty() {
        return weak;
    }
    let (mut i, mut j) = (0, 0);
    let mut out = Series::new();
    while i < strong.len() || j < weak.len() {
        let st = strong.get(i).map_or(f64::INFINITY, |e| e.0);
        let wt = weak.get(j).map_or(f64::INFINITY, |e| e.0);
        if st <= wt {
            let composed = compose(&strong[i].1, held(&weak, j, st), fill, seed);
            out.push((st, composed.unwrap_or_else(|| strong[i].1.copy())));
        } else if let Some(composed) = compose(held(strong, i, wt), &weak[j].1, fill, seed) {
            out.push((wt, composed));
        }
        if i == strong.len() {
            j += 1;
        } else if j == weak.len() {
            i += 1;
        } else if close(st, wt) {
            i += 1;
            j += 1;
        } else if st < wt {
            i += 1;
        } else {
            j += 1;
        }
    }
    out
}

fn trim(mut series: Series, time: f64) -> Series {
    let last = series.len() - 1;
    if series.len() == 1 || time <= series[0].0 {
        series.truncate(1);
        return series;
    }
    if time >= series[last].0 {
        return series.split_off(last);
    }
    let next = series.iter().position(|(t, _)| *t >= time).expect("inside");
    let at = series[next].0;
    series.truncate(next + 1);
    if at == time {
        series.split_off(next)
    } else {
        series.split_off(next - 1)
    }
}

fn evaluate(
    opinions: &[Opinion],
    time: f64,
    interp: InterpolationType,
    fill: &Option<Value>,
    fallback: Option<&Vec<Value>>,
) -> SparseResolveResult {
    let seed = fallback.map(|items| copy_all(items)).unwrap_or_default();
    let mut composed = Series::new();
    let mut query = time;
    for opinion in opinions {
        let Some(weaker) = interpolating(opinion, query, interp) else {
            continue;
        };
        let merged = over(&composed, weaker, fill, &seed);
        if merged.is_empty() {
            return SparseResolveResult::Blocked;
        }
        composed = trim(merged, time);
        if composed[0].1.is_dense() {
            if composed[composed.len() - 1].1.is_dense() {
                break;
            }
            query = composed[composed.len() - 1].0;
        }
    }
    if composed.is_empty() {
        return match fallback {
            Some(_) => SparseResolveResult::Resolved(Value::Array(seed)),
            None => SparseResolveResult::NotApplicable,
        };
    }
    let finished = |s: &Sample| match s {
        Sample::Dense(d) => Some(copy_all(d)),
        Sample::Sparse(e) => Some(apply_to_array(&seed, e, fill)),
        Sample::Block => None,
    };
    let (lo_time, lo) = &composed[0];
    let (hi_time, hi) = &composed[composed.len() - 1];
    let Some(lower) = finished(lo) else {
        return SparseResolveResult::Blocked;
    };
    if interp == InterpolationType::Held || hi_time == lo_time || lo_time.is_infinite() {
        return SparseResolveResult::Resolved(Value::Array(lower));
    }
    let alpha = (time - lo_time) / (hi_time - lo_time);
    let value = finished(hi)
        .filter(|upper| upper.len() == lower.len())
        .and_then(|upper| {
            lower
                .iter()
                .zip(&upper)
                .map(|(a, b)| lerp_element(a, b, alpha))
                .collect()
        })
        .unwrap_or(lower);
    SparseResolveResult::Resolved(Value::Array(value))
}

/// Deterministic xorshift generator for the randomized cross-check.
struct Rng(u64);

impl Rng {
    fn next(&mut self) -> u64 {
        self.0 ^= self.0 << 13;
        self.0 ^= self.0 >> 7;
        self.0 ^= self.0 << 17;
        self.0
    }

    fn below(&mut self, n: u64) -> u64 {
        self.next() % n
    }
}

fn random_value(rng: &mut Rng, allow_block: bool) -> Value {
    let k = rng.below(10) as f32;
    let item = || Value::Float(k.to_bits());
    match rng.below(if allow_block { 7 } else { 6 }) {
        0 | 1 => float_array(&[k, k + 1.0]),
        2 => float_array(&[k]),
        3 => edit(write(item(), 0)),
        4 => edit(append(item())),
        5 => edit(insert(item(), ArrayPlace::Position(0))),
        _ => Value::Blocked,
    }
}

/// How [`random_chain`] spaces sample times.
#[derive(Clone, Copy, Debug)]
enum Spacing {
    /// Whole frames.
    Coarse,
    /// Whole frames nudged by amounts below, at and above the 1e-6 closeness
    /// tolerance, and layer scales that compress or spread them.
    NearCoincident,
}

const NUDGES: [f64; 6] = [0.0, 3e-7, 5e-7, 9e-7, 1e-6, 1.5e-6];

fn random_time(rng: &mut Rng, spacing: Spacing) -> f64 {
    let frame = rng.below(if matches!(spacing, Spacing::Coarse) {
        6
    } else {
        3
    }) as f64;
    match spacing {
        Spacing::Coarse => frame,
        Spacing::NearCoincident => frame + NUDGES[rng.below(6) as usize],
    }
}

fn random_chain(rng: &mut Rng, spacing: Spacing, spec_path: PathId, field: TokenId) -> Vec<Opinion> {
    let count = 1 + rng.below(4);
    (0..count)
        .map(|strength| {
            let value = if rng.below(4) == 0 {
                OpinionValue::Property(
                    PropertySpec::attribute().with_default(random_value(rng, true)),
                )
            } else {
                let mut times: Vec<f64> = (0..1 + rng.below(3))
                    .map(|_| random_time(rng, spacing))
                    .collect();
                times.sort_by(f64::total_cmp);
                times.dedup();
                samples(
                    times
                        .into_iter()
                        .map(|t| (t, random_value(rng, true)))
                        .collect(),
                )
            };
            let mut opinion = array_opinion(spec_path, field, value, strength as u16);
            let (offset, scale) = match (spacing, rng.below(3)) {
                (_, 0) => (0.0, 1.0),
                (Spacing::Coarse, 1) => (1.0, 1.0),
                (Spacing::Coarse, _) => (0.5, 2.0),
                (Spacing::NearCoincident, 1) => (5e-7, 1e-7),
                (Spacing::NearCoincident, _) => (0.0, 10.0),
            };
            opinion.layer_offset = LayerOffset {
                offset: f64::to_bits(offset),
                scale: f64::to_bits(scale),
            };
            opinion
        })
        .collect()
}

fn check_planning_matches_series_composition(spacing: Spacing, seed: u64) {
    let (spec_path, field) = test_ids();
    let ty = float_array_type();
    let fill = fill_for(Some(&ty));
    let fallback = vec![Value::Float(100.0f32.to_bits())];
    let mut rng = Rng(seed);
    let times: Vec<f64> = match spacing {
        Spacing::Coarse => (0..=36).map(|step| -1.0 + f64::from(step) * 0.25).collect(),
        Spacing::NearCoincident => [-1.0, 0.0, 1.0, 2.0, 3.0]
            .iter()
            .flat_map(|frame| {
                [0.0, 1e-7, 2.5e-7, 5e-7, 7e-7, 1e-6, 1.2e-6, 2e-6, 0.5]
                    .iter()
                    .map(move |nudge| frame + nudge)
            })
            .collect(),
    };
    for case in 0..2000 {
        let opinions = random_chain(&mut rng, spacing, spec_path, field);
        let seed = if rng.below(2) == 0 {
            Some(&fallback)
        } else {
            None
        };
        let seed_value = seed.map(|s| Value::Array(copy_all(s)));
        for &time in &times {
            let table = time_table(&opinions, time);
            for interp in [InterpolationType::Held, InterpolationType::Linear] {
                let at = resolve_array_at_time(
                    &opinions,
                    time.to_bits(),
                    interp,
                    seed_value.as_ref(),
                    &fill,
                    &table,
                );
                let actual = finish(at, time);
                let expected = evaluate(&opinions, time, interp, &fill, seed);
                let same = match (&actual, &expected) {
                    (SparseResolveResult::NotApplicable, SparseResolveResult::NotApplicable) => {
                        true
                    }
                    (SparseResolveResult::Blocked, SparseResolveResult::Blocked) => true,
                    (SparseResolveResult::Resolved(a), SparseResolveResult::Resolved(b)) => a == b,
                    _ => false,
                };
                assert!(
                    same,
                    "{spacing:?} case {case} at t={time} ({interp:?}), fallback {seed:?}: \
                     {actual:?} != {expected:?}\n{opinions:#?}"
                );
            }
        }
    }
}

#[test]
fn bracket_planning_matches_series_composition() {
    check_planning_matches_series_composition(Spacing::Coarse, 0x9e37_79b9_7f4a_7c15);
}

#[test]
fn bracket_planning_matches_series_composition_near_coincident_times() {
    check_planning_matches_series_composition(Spacing::NearCoincident, 0x2545_f491_4f6c_dd1d);
}

#[test]
fn nan_query_time_resolves_without_panicking() {
    let (spec_path, field) = test_ids();
    let opinions = vec![
        array_opinion(
            spec_path,
            field,
            samples(vec![
                (0.0, write_edit(9, 0)),
                (1.0, write_edit(8, 0)),
                (2.0, write_edit(7, 0)),
            ]),
            0,
        ),
        array_opinion(
            spec_path,
            field,
            samples(vec![(0.0, array_value(&[1])), (2.0, array_value(&[2]))]),
            1,
        ),
    ];
    for interp in [InterpolationType::Held, InterpolationType::Linear] {
        let _ = resolve_at(&opinions, f64::NAN, interp);
    }
}

#[test]
fn a_time_that_is_no_number_takes_a_sample() {
    let given = vec![
        (1.0f64.to_bits(), Value::Int(10)),
        (2.0f64.to_bits(), Value::Int(20)),
        (f64::NAN.to_bits(), Value::Int(30)),
    ];
    let times = time_table(&[], 0.0);
    let between = Some(Value::Int(99));
    for interp in [InterpolationType::Held, InterpolationType::Linear] {
        let at = |samples: &Vec<(u64, Value)>, time: f64| {
            interpolate_samples(samples, time.to_bits(), interp, &times, &between)
        };
        let value = at(&given, f64::NAN);
        assert!(given.iter().any(|sample| Some(&sample.1) == value.as_ref()));
        assert_eq!(at(&given, 5.0), Some(Value::Int(30)));
        assert_eq!(at(&given, 1.0), Some(Value::Int(10)));
    }
}

#[test]
fn halves_are_their_bits() {
    let nan = Value::Half(0x7e00);
    assert!(nan.equals(&Value::Half(0x7e00)));
    assert!(!nan.alike(&Value::Half(0x7e01)));
    assert!(!Value::Half(0x0000).equals(&Value::Half(0x8000)));
    let quath = |bits: u64| Value::Tuple(TupleKind::Quath, vec![0, 0, 0, bits]);
    assert!(quath(0x7e00).equals(&quath(0x7e00)));
    assert!(!quath(0).equals(&quath(0x8000)));
    let float = |value: f32| Value::Float(value.to_bits());
    assert!(float(0.0).equals(&float(-0.0)));
    assert!(!float(f32::NAN).equals(&float(f32::NAN)));
}

#[test]
fn folds_say_which_samples_a_value_is_made_of() {
    let (spec_path, field) = test_ids();
    let opinions = vec![
        array_opinion(
            spec_path,
            field,
            samples(vec![(0.0, write_edit(7, 0)), (10.0, array_value(&[1, 2]))]),
            0,
        ),
        array_opinion(
            spec_path,
            field,
            samples(vec![(0.0, array_value(&[3, 4])), (20.0, Value::Blocked)]),
            1,
        ),
    ];
    let event = |opinion: usize, time: f64, part: FoldPart| FoldEvent {
        opinion,
        time: time.to_bits(),
        part,
    };
    let explain = |query: f64, interp: InterpolationType| {
        let times = time_table(&opinions, query);
        let (resolved, folds) = explain_sparse_value(
            &opinions,
            SparseQuery::AtTime {
                time: query.to_bits(),
                interp,
                fallback: None,
            },
            Some(&int_array_type()),
            &times,
        );
        (finish(resolved, query), folds)
    };
    let (resolved, folds) = explain(0.0, InterpolationType::Held);
    assert_resolved(resolved, array_value(&[7, 4]), "an edit over an array");
    assert_eq!(folds.len(), 1);
    assert_eq!(
        folds[0].events,
        [
            event(0, 0.0, FoldPart::Sparse),
            event(1, 0.0, FoldPart::Dense)
        ]
    );
    assert!(!folds[0].uses_seed);
    let (_, folds) = explain(5.0, InterpolationType::Linear);
    assert_eq!(folds.len(), 2, "two arrays interpolate");
    assert_eq!(folds[1].time, 10.0f64.to_bits());
    assert_eq!(folds[1].events, [event(0, 10.0, FoldPart::Dense)]);
    let seed = array_value(&[0]);
    let (resolved, folds) = explain_sparse_value(
        &vec![array_opinion(spec_path, field, value(write_edit(7, 0)), 0)],
        SparseQuery::Default {
            fallback: Some(&seed),
        },
        Some(&int_array_type()),
        &time_table(&[], 0.0),
    );
    assert_resolved(finish(resolved, 0.0), array_value(&[7]), "over the fallback");
    assert_eq!(folds.len(), 1);
    assert_eq!(folds[0].events.len(), 1);
    assert!(folds[0].uses_seed);
}
