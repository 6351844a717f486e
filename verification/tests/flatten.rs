use layerstack::doc::{
    ArrayEdit, ArrayPlace, EditOp, EditOperand, Specifier, TupleKind, Value,
};
use layerstack::fields::{FieldEntry, FieldValue, ListItem, ListKind, ListOp, TargetPath};
use layerstack::flatten::check::{verify_flattened, Comparison};
use layerstack::flatten::copy::{PrimSource, Scene};
use layerstack::flatten::reading::TimedValues;
use layerstack::flatten::report::{
    AssetPaths, ExternalDependency, Finding, FindingKind, FlattenError, FlattenReport,
    FlattenRequirements, Instancing, Loss, LossPolicy, ObjectPath, Preserved, Requirement,
    Transformation,
};
use layerstack::flatten::values::is_absolute_asset_path;
use layerstack::flatten::seen::ValueTexts;
use layerstack::flatten::verify::{FlattenVerification, Mismatch, MismatchKind, Seen};
use layerstack::flatten::whole::{fits_paths, flatten, Flattened};
use layerstack::interner::{TokenId, TokenInterner};
use layerstack::layer::{Layer, PrimSpec, Reference};
use layerstack::opinion::{Opinion, OpinionValue};
use layerstack::path::{Path, PathId, PathInterner, PropertyPath};
use layerstack::prim_index::{ArcKind, LayerId, LayerOffset, OpinionKey};
use layerstack::prim_index_graph::{NodeArc, NodeId, PrimIndexGraph};
use layerstack::property::{
    CurveType, Extrapolation, KnotInterpolation, LoopParams, PropertyEntry, PropertyKind,
    PropertySpec, PropertyType, SplineData, SplineDataType, SplineKnot, Tangent, Variability,
};
use layerstack::resolution::{PropertyDeclaration, ResolvedValue};
use layerstack::spec_path::SpecPath;
use layerstack::stage::sources::SourceSpec;
use layerstack::stage::{PrimIndex, Stage};
use layerstack::stage_time::retime_value;
use layerstack::times::TimeTable;

// ── Scenes ──────────────────────────────────────────────────────────────

fn double_type() -> PropertyType {
    PropertyType::new("double", false, double(0.0))
}

fn double(value: f64) -> Value {
    Value::Double(value.to_bits())
}

fn offset_of(offset: f64, scale: f64) -> LayerOffset {
    LayerOffset {
        offset: offset.to_bits(),
        scale: scale.to_bits(),
    }
}

fn shifted() -> LayerOffset {
    offset_of(1.0, 1.0)
}

/// The texts of the doubles that the findings of these scenes hold.
fn numbers() -> Vec<(u64, String)> {
    [0.0f64, 1.0, 2.0, 5.0]
        .iter()
        .map(|number| (number.to_bits(), format!("{number}")))
        .collect()
}

/// The stage times of the times that these scenes hold.
fn times_through(offset: LayerOffset) -> TimeTable {
    let (shift, scale) = (f64::from_bits(offset.offset), f64::from_bits(offset.scale));
    let mut table = TimeTable::new();
    for time in [0.0f64, 5.0, 10.0] {
        let staged = (time * scale + shift).to_bits();
        table.to_stage.push((offset, time.to_bits(), staged));
        table.to_layer.push((offset, staged, time.to_bits()));
    }
    table
}

#[derive(Default)]
struct Names {
    tokens: TokenInterner,
    paths: PathInterner,
}

impl Names {
    fn path(&mut self, text: &str) -> PathId {
        let path = Path::parse_absolute(text, &mut self.tokens).expect("path");
        self.paths.intern(path)
    }
}

/// One source of a prim: the layer, the path of the spec in it, the offset it
/// is read through, and the spec.
struct Source<'a> {
    node: NodeId,
    layer: LayerId,
    path: PathId,
    offset: LayerOffset,
    spec: &'a PrimSpec,
}

fn opinion(source: &Source<'_>, field: TokenId, value: OpinionValue, names: &Names) -> Opinion {
    Opinion {
        key: OpinionKey {
            node: source.node,
            layer_strength: 0,
            layer_id: source.layer,
            lookup_path: source.path,
            spec_path: SpecPath::from_prim_path(source.path, &names.paths),
        },
        field,
        value,
        layer_offset: source.offset,
    }
}

fn push(chains: &mut Vec<(TokenId, Vec<Opinion>)>, name: TokenId, opinion: Opinion) {
    match chains.iter_mut().find(|chain| chain.0 == name) {
        Some(chain) => chain.1.push(opinion),
        None => chains.push((name, vec![opinion])),
    }
}

/// Composes a prim from its sources, strongest first.
fn compose_prim(
    sources: &[Source<'_>],
    graph: PrimIndexGraph,
    names: &Names,
) -> (PrimIndex, PrimSource) {
    let nodes = graph.strength_order();
    let mut index = PrimIndex {
        sources: Vec::new(),
        graph,
        metadata: Vec::new(),
        properties: Vec::new(),
    };
    let mut specs = Vec::new();
    for source in sources {
        index
            .sources
            .push(opinion(source, TokenId { index: 0 }, value_of(1), names).key);
        for entry in &source.spec.fields {
            let value = OpinionValue::Field(entry.value.copy());
            let opinion = opinion(source, entry.name, value, names);
            push(&mut index.metadata, entry.name, opinion);
        }
        for entry in &source.spec.properties {
            let value = OpinionValue::Property(entry.spec.copy());
            let opinion = opinion(source, entry.name, value, names);
            push(&mut index.properties, entry.name, opinion);
        }
        specs.push(Some(SourceSpec {
            specifier: source.spec.specifier,
            type_label: source.spec.type_label,
            active: source.spec.active,
            instanceable: source.spec.instanceable,
            prim_order: source.spec.prim_order.clone(),
            property_order: source.spec.property_order.clone(),
        }));
    }
    let mut property_names: Vec<TokenId> = index.properties.iter().map(|p| p.0).collect();
    property_names.sort_by(|a, b| names.tokens.resolve(*a).cmp(names.tokens.resolve(*b)));
    let source = PrimSource {
        specs,
        nodes,
        selections: Vec::new(),
        property_names,
        metadata_folds: Vec::new(),
        property_folds: Vec::new(),
    };
    (index, source)
}

fn value_of(value: i32) -> OpinionValue {
    OpinionValue::Field(FieldValue::Value(Value::Int(value)))
}

fn local_arc(site: PathId, names: &Names) -> NodeArc {
    NodeArc {
        arc_kind: ArcKind::Local,
        layer_stack: LayerId(1),
        site: SpecPath::from_prim_path(site, &names.paths),
        namespace_depth: 0,
        sibling_index: 0,
        implied: false,
        skips_duplicates: false,
    }
}

/// A graph of a prim at `site` that references `target` of layer 2.
fn referencing(
    site: PathId,
    target: PathId,
    depth: u16,
    offset: LayerOffset,
    names: &Names,
) -> PrimIndexGraph {
    let mut graph = PrimIndexGraph::new(local_arc(site, names));
    let node = graph.intern_child(
        NodeId::root(),
        NodeArc {
            arc_kind: ArcKind::References,
            layer_stack: LayerId(2),
            site: SpecPath::from_prim_path(target, &names.paths),
            namespace_depth: depth,
            sibling_index: 0,
            implied: false,
            skips_duplicates: false,
        },
    );
    graph.set_layer_offset(node, offset);
    graph.rank();
    graph
}

struct Composed {
    names: Names,
    root: Layer,
    stage: Stage,
    sources: Vec<(PathId, PrimSource)>,
    times: TimeTable,
}

fn set_property(spec: &mut PrimSpec, name: TokenId, property: PropertySpec) {
    spec.properties.push(PropertyEntry {
        name,
        spec: property,
    });
}

/// Layer 1 references `/Asset` of layer 2 from `/World/Tree` through
/// `offset`; the asset authors `height` with time samples and a child. `edit`
/// changes the asset's `/Asset` spec.
fn referenced_scene_edited(
    offset: LayerOffset,
    edit: impl FnOnce(&mut Names, &mut PrimSpec),
) -> Composed {
    let mut names = Names::default();
    let height = names.tokens.intern("height");
    let (root_path, world, tree, tree_leaf) = (
        names.path("/"),
        names.path("/World"),
        names.path("/World/Tree"),
        names.path("/World/Tree/Leaf"),
    );
    let (asset, leaf) = (names.path("/Asset"), names.path("/Asset/Leaf"));
    let up_axis = names.tokens.intern("upAxis");
    let def = || PrimSpec::bare(Some(Specifier::Def));

    let mut asset_spec = def();
    set_property(
        &mut asset_spec,
        height,
        PropertySpec::typed_attribute(double_type())
            .with_default(double(1.0))
            .with_time_samples(vec![
                (0.0f64.to_bits(), double(1.0)),
                (10.0f64.to_bits(), double(2.0)),
            ]),
    );
    edit(&mut names, &mut asset_spec);
    let (world_spec, tree_spec, leaf_spec) = (def(), def(), def());

    let one = |path: PathId, spec| Source {
        node: NodeId::root(),
        layer: LayerId(1),
        path,
        offset: LayerOffset::identity(),
        spec,
    };
    let referenced = |path: PathId, spec| Source {
        node: NodeId(1),
        layer: LayerId(2),
        path,
        offset,
        spec,
    };
    let composed = vec![
        (
            world,
            compose_prim(
                &[one(world, &world_spec)],
                PrimIndexGraph::new(local_arc(world, &names)),
                &names,
            ),
        ),
        (
            tree,
            compose_prim(
                &[one(tree, &tree_spec), referenced(asset, &asset_spec)],
                referencing(tree, asset, 2, offset, &names),
                &names,
            ),
        ),
        (
            tree_leaf,
            compose_prim(
                &[referenced(leaf, &leaf_spec)],
                referencing(tree_leaf, leaf, 2, offset, &names),
                &names,
            ),
        ),
    ];
    let children = vec![
        (root_path, vec![world]),
        (world, vec![tree]),
        (tree, vec![tree_leaf]),
    ];
    let root = Layer {
        id: LayerId(1),
        default_prim: None,
        metadata: vec![FieldEntry {
            name: up_axis,
            value: FieldValue::Value(Value::String("Z".to_string())),
        }],
        prims: Vec::new(),
    };
    finish_scene(names, root, composed, children, offset)
}

fn finish_scene(
    names: Names,
    root: Layer,
    composed: Vec<(PathId, (PrimIndex, PrimSource))>,
    children: Vec<(PathId, Vec<PathId>)>,
    offset: LayerOffset,
) -> Composed {
    let mut prims = Vec::new();
    let mut sources = Vec::new();
    for (path, (index, source)) in composed {
        prims.push((path, index));
        sources.push((path, source));
    }
    Composed {
        names,
        root,
        stage: Stage::from_parts(prims, children, false).with_times(times_through(offset)),
        sources,
        times: times_through(offset),
    }
}

fn referenced_scene(offset: LayerOffset) -> Composed {
    referenced_scene_edited(offset, |_, _| {})
}

impl Composed {
    fn flatten(
        &mut self,
        requirements: &FlattenRequirements<'_>,
    ) -> Result<Flattened, FlattenError> {
        flatten(
            &Scene {
                stage: &self.stage,
                sources: &self.sources,
            },
            Some(&self.root),
            LayerId(1),
            LayerId(9),
            requirements,
            &self.times,
            &mut self.names.tokens,
            &mut self.names.paths,
        )
    }

    /// Composes a layer on its own.
    fn open(&mut self, layer: &Layer) -> (Stage, Vec<(PathId, PrimSource)>) {
        let root = self.names.path("/");
        let mut prims = Vec::new();
        let mut sources = Vec::new();
        let mut children = Vec::new();
        for (path, spec) in &layer.prims {
            let below: Vec<PathId> = spec
                .authored_children
                .iter()
                .map(|name| {
                    let child = self.names.paths.resolve(*path).join(&[*name]);
                    self.names.paths.intern(child)
                })
                .collect();
            children.push((*path, below));
            if *path == root {
                continue;
            }
            let source = Source {
                node: NodeId::root(),
                layer: layer.id,
                path: *path,
                offset: LayerOffset::identity(),
                spec,
            };
            let graph = PrimIndexGraph::new(local_arc(*path, &self.names));
            let (index, source) = compose_prim(&[source], graph, &self.names);
            prims.push((*path, index));
            sources.push((*path, source));
        }
        (Stage::from_parts(prims, children, false), sources)
    }

    /// Compares the stage with that of a layer composed on its own, the height
    /// of the tree at 5, 7.5 and 25.
    fn verify(
        &mut self,
        layer: &Layer,
        report: &FlattenReport,
        source_values: &[f64; 3],
        flattened_values: &[f64; 3],
    ) -> FlattenVerification {
        let (stage, sources) = self.open(layer);
        let height = self.names.tokens.intern("height");
        let property = PropertyPath::new(self.names.path("/World/Tree"), height);
        let values = |at: &[f64; 3]| -> TimedValues {
            [5.0f64, 7.5, 25.0]
                .iter()
                .zip(at)
                .map(|(time, value)| ((property, time.to_bits()), Some(double(*value))))
                .collect()
        };
        verify_flattened(&Comparison {
            source: Scene {
                stage: &self.stage,
                sources: &self.sources,
            },
            flattened: Scene {
                stage: &stage,
                sources: &sources,
            },
            source_values: &values(source_values),
            flattened_values: &values(flattened_values),
            times: &self.times,
            paths: &self.names.paths,
            tokens: &self.names.tokens,
            report,
            at: &vec![7.5f64.to_bits()],
        })
    }
}

fn spec_at<'l>(layer: &'l Layer, path: PathId) -> &'l PrimSpec {
    &layer
        .prims
        .iter()
        .find(|(at, _)| *at == path)
        .expect("a spec")
        .1
}

fn spec_at_mut<'l>(layer: &'l mut Layer, path: PathId) -> &'l mut PrimSpec {
    &mut layer
        .prims
        .iter_mut()
        .find(|(at, _)| *at == path)
        .expect("a spec")
        .1
}

fn property<'s>(spec: &'s PrimSpec, name: TokenId) -> Option<&'s PropertySpec> {
    spec.properties
        .iter()
        .find(|entry| entry.name == name)
        .map(|entry| &entry.spec)
}

fn shown(findings: Vec<&Finding>) -> Vec<String> {
    findings
        .into_iter()
        .map(|finding| finding.display(&numbers()))
        .collect()
}

/// The unmet requirements of a refused flatten, as (requirement, path, loss,
/// spec).
fn unmet(result: Result<Flattened, FlattenError>) -> Vec<(Requirement, String, Loss, String)> {
    let Err(FlattenError::Refused(refusal)) = result else {
        panic!("expected a refusal, got {result:?}");
    };
    refusal
        .unmet
        .into_iter()
        .map(|unmet| {
            let FindingKind::Lost(loss) = unmet.finding.kind else {
                panic!("an unmet requirement is a loss");
            };
            let spec = unmet.finding.source.map(|s| s.spec).unwrap_or_default();
            (
                unmet.requirement,
                unmet.finding.path.display(),
                loss,
                spec,
            )
        })
        .collect()
}

fn add_spline(names: &mut Names, spec: &mut PrimSpec) {
    let name = names.tokens.intern("curve");
    let spline = SplineData {
        data_type: SplineDataType::Double,
        default_curve_type: CurveType::Bezier,
        pre_extrapolation: Extrapolation::Held,
        post_extrapolation: Extrapolation::Held,
        loop_params: None,
        knots: Vec::new(),
    };
    set_property(
        spec,
        name,
        PropertySpec::typed_attribute(double_type()).with_spline(spline),
    );
}

fn add_clips(names: &mut Names, spec: &mut PrimSpec) {
    let name = names.tokens.intern("clips");
    spec.fields.push(FieldEntry {
        name,
        value: FieldValue::Value(Value::Dictionary(Vec::new())),
    });
}

fn add_untyped(names: &mut Names, spec: &mut PrimSpec) {
    let name = names.tokens.intern("loose");
    set_property(
        spec,
        name,
        PropertySpec::attribute().with_default(Value::Int(1)),
    );
}

fn flatten_edited(
    offset: LayerOffset,
    requirements: &FlattenRequirements<'_>,
    edit: impl FnOnce(&mut Names, &mut PrimSpec),
) -> Result<Flattened, FlattenError> {
    referenced_scene_edited(offset, edit).flatten(requirements)
}

fn requirements() -> FlattenRequirements<'static> {
    FlattenRequirements::default()
}

// ── Flattening ──────────────────────────────────────────────────────────

#[test]
fn flattened_layer_holds_the_composed_stage_without_arcs() {
    let mut scene = referenced_scene(offset_of(5.0, 2.0));
    let flat = scene.flatten(&requirements()).expect("flattens");
    let layer = &flat.layer;
    let names = &mut scene.names;

    assert_eq!(layer.id, LayerId(9));
    assert_eq!(layer.metadata.len(), 1);
    assert_eq!(layer.metadata[0].name, scene.root.metadata[0].name);
    assert!(matches!(
        &layer.metadata[0].value,
        FieldValue::Value(Value::String(text)) if text == "Z"
    ));
    let tree = names.path("/World/Tree");
    let spec = spec_at(layer, tree);
    assert_eq!(spec.specifier, Some(Specifier::Def));
    assert_eq!(spec.references, None, "no arcs remain");
    assert_eq!(spec.authored_children, [names.tokens.intern("Leaf")]);
    let attribute = property(spec, names.tokens.intern("height")).expect("height");
    assert_eq!(attribute.default, Some(double(1.0)));
    assert_eq!(
        attribute.time_samples,
        Some(vec![
            (5.0f64.to_bits(), double(1.0)),
            (25.0f64.to_bits(), double(2.0))
        ])
    );
    let root = names.path("/");
    assert_eq!(
        spec_at(layer, root).authored_children,
        [names.tokens.intern("World")]
    );
    let leaf = names.path("/World/Tree/Leaf");
    assert_eq!(spec_at(layer, leaf).specifier, Some(Specifier::Def));
}

#[test]
fn the_report_counts_what_is_exact_and_lists_what_is_not() {
    let offset = offset_of(5.0, 2.0);
    let report = referenced_scene(offset)
        .flatten(&requirements())
        .expect("flattens")
        .report;
    assert_eq!(
        report.preserved,
        Preserved {
            // The pseudo-root, /World, /World/Tree and its leaf.
            prims: 4,
            properties: 1,
            // `upAxis`.
            metadata_fields: 1,
            defaults: 1,
            time_samples: 0,
            splines: 0,
            targets: 0,
        }
    );
    assert_eq!(report.findings.len(), 1);
    let finding = &report.findings[0];
    assert_eq!(finding.path.prim, "/World/Tree");
    assert_eq!(finding.path.property.as_deref(), Some("height"));
    assert!(matches!(
        &finding.kind,
        FindingKind::Transformed(Transformation::SamplesRetimed { offset: found })
            if *found == offset
    ));
    let source = finding.source.as_ref().expect("a source");
    assert_eq!(source.layer, LayerId(2));
    assert_eq!(source.spec, "/Asset.height");
    assert!(report.is_lossless());
    assert_eq!(
        shown(report.transformed()),
        [
            "/World/Tree.height: transformed: time samples retimed (offset 5, scale 2) (layer 2, /Asset.height)"
        ]
    );
}

#[test]
fn missing_root_layer_is_an_error() {
    let mut scene = referenced_scene(LayerOffset::identity());
    let result = flatten(
        &Scene {
            stage: &scene.stage,
            sources: &scene.sources,
        },
        None,
        LayerId(7),
        LayerId(9),
        &requirements(),
        &scene.times,
        &mut scene.names.tokens,
        &mut scene.names.paths,
    );
    let Err(error) = result else {
        panic!("no layer to flatten");
    };
    assert!(matches!(
        error,
        FlattenError::MissingRootLayer(LayerId(7))
    ));
    assert!(error.display(&numbers()).contains('7'));
}

#[test]
fn a_refusal_lists_every_unmet_requirement() {
    let all = |names: &mut Names, spec: &mut PrimSpec| {
        add_spline(names, spec);
        add_clips(names, spec);
        add_untyped(names, spec);
    };
    assert_eq!(
        unmet(flatten_edited(shifted(), &requirements(), all)),
        [
            (
                Requirement::ExactAnimation,
                "/World/Tree".into(),
                Loss::ValueClips,
                "/Asset".into()
            ),
            (
                Requirement::ExactAnimation,
                "/World/Tree.curve".into(),
                Loss::RetimedSpline,
                "/Asset.curve".into()
            ),
            (
                Requirement::NoLoss,
                "/World/Tree.loose".into(),
                Loss::UntypedAttribute,
                "/Asset.loose".into()
            ),
        ]
    );
}

#[test]
fn relaxed_requirements_report_losses_instead() {
    // Without exact animation every loss still refuses, as `NoLoss`.
    let inexact = FlattenRequirements {
        exact_animation: false,
        ..requirements()
    };
    let named: Vec<Requirement> = unmet(flatten_edited(shifted(), &inexact, add_spline))
        .into_iter()
        .map(|(requirement, ..)| requirement)
        .collect();
    assert_eq!(named, [Requirement::NoLoss]);

    // Accepting losses no requirement names flattens, and reports them.
    let lenient = FlattenRequirements {
        exact_animation: false,
        losses: LossPolicy::RefuseRequired,
        ..requirements()
    };
    let flat = flatten_edited(shifted(), &lenient, |names, spec| {
        add_spline(names, spec);
        add_untyped(names, spec);
    })
    .expect("losses are accepted");
    let lost: Vec<(String, Loss)> = flat
        .report
        .lost()
        .into_iter()
        .map(|finding| {
            let FindingKind::Lost(loss) = &finding.kind else {
                panic!("a loss");
            };
            (finding.path.display(), *loss)
        })
        .collect();
    assert_eq!(
        lost,
        [
            ("/World/Tree.curve".into(), Loss::RetimedSpline),
            ("/World/Tree.loose".into(), Loss::UntypedAttribute),
        ]
    );
    let tree = flat
        .layer
        .prims
        .iter()
        .map(|(_, spec)| spec)
        .find(|spec| spec.properties.len() == 2 && spec.specifier == Some(Specifier::Def));
    let tree = tree.expect("the tree keeps its other properties");
    assert!(
        tree.properties.iter().all(|p| p.spec.spline.is_none()),
        "the lost spline is not written"
    );
}

#[test]
fn accepting_the_unmet_requirements_flattens_with_the_same_losses() {
    let all = |names: &mut Names, spec: &mut PrimSpec| {
        add_spline(names, spec);
        add_clips(names, spec);
        add_untyped(names, spec);
    };
    let strict = requirements();
    let Err(FlattenError::Refused(refusal)) = flatten_edited(shifted(), &strict, all) else {
        panic!("refused");
    };
    let relaxed = strict.accepting(&refusal.unmet);
    assert!(!relaxed.exact_animation);
    assert_eq!(relaxed.losses, LossPolicy::RefuseRequired);
    assert_eq!(relaxed.instancing, strict.instancing);
    assert_eq!(relaxed.asset_paths, strict.asset_paths);
    assert!(relaxed.schemas.is_none());
    let flat = flatten_edited(shifted(), &relaxed, all).expect("the losses are accepted");
    let refused: Vec<&Finding> = refusal.unmet.iter().map(|u| &u.finding).collect();
    assert_eq!(shown(flat.report.lost()), shown(refused));
}

#[test]
fn exact_animation_alone_refuses_under_refuse_required() {
    let required = FlattenRequirements {
        losses: LossPolicy::RefuseRequired,
        ..requirements()
    };
    assert_eq!(
        unmet(flatten_edited(shifted(), &required, |names, spec| {
            add_spline(names, spec);
            add_untyped(names, spec);
        })),
        [(
            Requirement::ExactAnimation,
            "/World/Tree.curve".into(),
            Loss::RetimedSpline,
            "/Asset.curve".into()
        )]
    );
}

#[test]
fn sparse_array_edit_samples_are_lost() {
    let edits = |names: &mut Names, spec: &mut PrimSpec| {
        let name = names.tokens.intern("ids");
        let edit = ArrayEdit {
            ops: vec![EditOp::Write {
                src: EditOperand::Literal(Value::Int(9)),
                index: ArrayPlace::Position(0),
            }],
        };
        set_property(
            spec,
            name,
            PropertySpec::typed_attribute(PropertyType::new("int", true, Value::Int(0)))
                .with_time_samples(vec![(0.0f64.to_bits(), Value::ArrayEdit(edit))]),
        );
    };
    assert_eq!(
        unmet(flatten_edited(
            LayerOffset::identity(),
            &requirements(),
            edits
        )),
        [(
            Requirement::ExactAnimation,
            "/World/Tree.ids".into(),
            Loss::ArrayEditSamples,
            "/Asset.ids".into()
        )]
    );
}

#[test]
fn asset_paths_are_external_and_anchoring_is_required_when_declared() {
    let texture = |names: &mut Names, spec: &mut PrimSpec| {
        let name = names.tokens.intern("texture");
        set_property(
            spec,
            name,
            PropertySpec::typed_attribute(PropertyType::new(
                "asset",
                false,
                Value::Asset(String::new()),
            ))
            .with_default(Value::Asset("./bark.png".to_string())),
        );
    };
    let flat = flatten_edited(LayerOffset::identity(), &requirements(), texture).expect("flattens");
    assert_eq!(
        shown(flat.report.external()),
        ["/World/Tree.texture: external: @./bark.png@ (layer 2, /Asset.texture)"]
    );

    let anchored = FlattenRequirements {
        asset_paths: AssetPaths::Anchored,
        ..requirements()
    };
    assert_eq!(
        unmet(flatten_edited(LayerOffset::identity(), &anchored, texture)),
        [(
            Requirement::AnchoredAssetPaths,
            "/World/Tree.texture".into(),
            Loss::UnanchoredAssetPath,
            "/Asset.texture".into()
        )]
    );
}

#[test]
fn the_flattened_layer_verifies_against_the_stage() {
    let mut scene = referenced_scene(offset_of(5.0, 2.0));
    let mut flat = scene.flatten(&requirements()).expect("flattens");
    let alike = [1.0, 1.125, 2.0];
    let verification = scene.verify(&flat.layer, &flat.report, &alike, &alike);
    assert!(verification.is_equivalent(), "{verification:?}");
    let scope = &verification.scope;
    assert_eq!((scope.prims, scope.properties), (3, 1));
    // `height` at the default time, at its samples (5, 25) and at 7.5.
    assert_eq!((scope.values, scope.sample_times), (4, 2));

    // A flattened layer that lost a value does not verify.
    let tree = scene.names.path("/World/Tree");
    let samples = spec_at_mut(&mut flat.layer, tree).properties[0]
        .spec
        .time_samples
        .take();
    let verification = scene.verify(&flat.layer, &flat.report, &alike, &[1.0, 1.0, 1.0]);
    let times: Vec<f64> = verification
        .mismatches
        .iter()
        .map(|mismatch| match mismatch.kind {
            MismatchKind::ValueAt { time } => f64::from_bits(time),
            _ => panic!("{mismatch:?}"),
        })
        .collect();
    assert_eq!(times, [7.5, 25.0]);

    // Nor does one whose property order or active state differs.
    let height = scene.names.tokens.intern("height");
    let spec = spec_at_mut(&mut flat.layer, tree);
    spec.properties[0].spec.time_samples = samples;
    spec.property_order = Some(vec![height]);
    spec.active = Some(true);
    let verification = scene.verify(&flat.layer, &flat.report, &alike, &alike);
    let fields: Vec<&str> = verification
        .mismatches
        .iter()
        .map(|mismatch| match &mismatch.kind {
            MismatchKind::Metadata { field } => field.as_str(),
            _ => panic!("{mismatch:?}"),
        })
        .collect();
    assert_eq!(fields, ["active", "propertyOrder"]);
}

/// `/A` and `/B`, each an instance of `/Asset` of layer 2.
fn instance_scene() -> Composed {
    let mut names = Names::default();
    let (root_path, a, b) = (names.path("/"), names.path("/A"), names.path("/B"));
    let (a_leaf, b_leaf) = (names.path("/A/Leaf"), names.path("/B/Leaf"));
    let (asset, leaf) = (names.path("/Asset"), names.path("/Asset/Leaf"));
    let def = || PrimSpec::bare(Some(Specifier::Def));
    let mut instance = def();
    instance.instanceable = Some(true);
    let (asset_spec, leaf_spec) = (def(), def());
    let identity = LayerOffset::identity();
    let mut composed = Vec::new();
    for (prim, below) in [(a, a_leaf), (b, b_leaf)] {
        let referenced = |path: PathId, spec| Source {
            node: NodeId(1),
            layer: LayerId(2),
            path,
            offset: identity,
            spec,
        };
        let own = Source {
            node: NodeId::root(),
            layer: LayerId(1),
            path: prim,
            offset: identity,
            spec: &instance,
        };
        composed.push((
            prim,
            compose_prim(
                &[own, referenced(asset, &asset_spec)],
                referencing(prim, asset, 1, identity, &names),
                &names,
            ),
        ));
        composed.push((
            below,
            compose_prim(
                &[referenced(leaf, &leaf_spec)],
                referencing(below, leaf, 1, identity, &names),
                &names,
            ),
        ));
    }
    let children = vec![
        (root_path, vec![a, b]),
        (a, vec![a_leaf]),
        (b, vec![b_leaf]),
    ];
    let root = Layer {
        id: LayerId(1),
        default_prim: None,
        metadata: Vec::new(),
        prims: Vec::new(),
    };
    let mut scene = finish_scene(names, root, composed, children, identity);
    let stage = std::mem::replace(
        &mut scene.stage,
        Stage::from_parts(Vec::new(), Vec::new(), false),
    );
    scene.stage = stage.with_instances(vec![a, b]);
    scene
}

#[test]
fn instances_share_a_prototype_or_expand() {
    let mut scene = instance_scene();
    let shared = scene.flatten(&requirements()).expect("flattens");
    assert_eq!(
        shown(shared.report.transformed()),
        [
            "/A: transformed: instance of /Flattened_Prototype_1",
            "/B: transformed: instance of /Flattened_Prototype_1",
        ]
    );
    assert_eq!(shared.report.prototypes(), ["/Flattened_Prototype_1"]);
    let prototype = scene.names.path("/Flattened_Prototype_1");
    let a = scene.names.path("/A");
    assert_eq!(
        spec_at(&shared.layer, a).references,
        Some(vec![Reference::new(LayerId(9), prototype)])
    );
    assert_eq!(spec_at(&shared.layer, prototype).authored_children.len(), 1);

    let expand = FlattenRequirements {
        instancing: Instancing::Expand,
        ..requirements()
    };
    let mut scene = instance_scene();
    let expanded = scene.flatten(&expand).expect("flattens");
    assert!(expanded.report.prototypes().is_empty());
    let mut written: Vec<String> = expanded
        .layer
        .prims
        .iter()
        .map(|(path, _)| {
            scene
                .names
                .paths
                .resolve(*path)
                .display(&scene.names.tokens)
        })
        .collect();
    written.sort();
    assert_eq!(written, ["/", "/A", "/A/Leaf", "/B", "/B/Leaf"]);
    let transformed = expanded.report.transformed();
    assert_eq!(transformed.len(), 2);
    for finding in transformed {
        assert!(matches!(
            finding.kind,
            FindingKind::Transformed(Transformation::InstanceExpanded)
        ));
    }
}

#[test]
fn stage_time_inverts_map_time() {
    let offset = offset_of(2.0, 2.0);
    let times = times_through(offset);
    let staged = times.to_stage_time(offset, 10.0f64.to_bits());
    assert_eq!(times.to_layer_time(offset, staged), 10.0f64.to_bits());
    assert_eq!(
        retime_value(&Value::TimeCode(5.0f64.to_bits()), offset, &times),
        Some(Value::TimeCode(12.0f64.to_bits())),
        "timecode values move with the samples"
    );
}

#[test]
fn timecode_defaults_are_written_in_stage_time() {
    let offset = offset_of(5.0, 2.0);
    let timecode = |time: f64| Value::TimeCode(time.to_bits());
    let mut scene = referenced_scene_edited(offset, |names, spec| {
        let name = names.tokens.intern("cue");
        let timed = PropertyType::new("timecode", false, Value::TimeCode(0));
        set_property(
            spec,
            name,
            PropertySpec::typed_attribute(timed).with_default(Value::TimeCode(5.0f64.to_bits())),
        );
        let mark = names.tokens.intern("mark");
        spec.fields.push(FieldEntry {
            name: mark,
            value: FieldValue::Value(Value::TimeCode(10.0f64.to_bits())),
        });
    });
    let flat = scene.flatten(&requirements()).expect("flattens");
    let tree = scene.names.path("/World/Tree");
    let (cue, mark) = (
        scene.names.tokens.intern("cue"),
        scene.names.tokens.intern("mark"),
    );
    let spec = spec_at(&flat.layer, tree);
    assert_eq!(
        property(spec, cue).and_then(|p| p.default.as_ref()),
        Some(&timecode(15.0))
    );
    assert!(matches!(
        spec.field(mark),
        Some(FieldValue::Value(value)) if *value == timecode(25.0)
    ));
    assert_eq!(
        scene
            .stage
            .resolve_field_path(PropertyPath::new(tree, cue), None)
            .map(|r| r.value),
        Some(timecode(15.0)),
        "as the stage resolves it"
    );
    let said = shown(flat.report.transformed());
    assert!(said.contains(
        &"/World/Tree.cue: transformed: timecode values retimed (offset 5, scale 2) (layer 2, /Asset.cue)"
            .to_string()
    ));
    assert!(said.contains(
        &"/World/Tree: transformed: timecode values retimed (offset 5, scale 2) (layer 2, /Asset)"
            .to_string()
    ));
}

#[test]
fn lists_are_written_explicitly() {
    let mut scene = referenced_scene_edited(LayerOffset::identity(), |names, spec| {
        let (field, item) = (names.tokens.intern("apiSchemas"), names.tokens.intern("Api"));
        let mut edit = ListOp::replace_with(Vec::new());
        edit.explicit = None;
        edit.prepend = vec![ListItem::Token(item)];
        spec.fields.push(FieldEntry {
            name: field,
            value: FieldValue::List(ListKind::Tokens, edit),
        });
    });
    let flat = scene.flatten(&requirements()).expect("flattens");
    let tree = scene.names.path("/World/Tree");
    let field = scene.names.tokens.intern("apiSchemas");
    let Some(FieldValue::List(_, list)) = spec_at(&flat.layer, tree).field(field) else {
        panic!("a list");
    };
    assert_eq!(list.explicit.as_ref().map(Vec::len), Some(1));
    assert!(list.prepend.is_empty());
    assert!(shown(flat.report.transformed())[0]
        .contains("/World/Tree: transformed: apiSchemas made explicit"));
}

#[test]
fn findings_read_as_words() {
    let finding = |kind: FindingKind| Finding {
        path: ObjectPath::from_composed("/A.b"),
        kind,
        source: None,
    };
    let transformed = |t: Transformation| finding(FindingKind::Transformed(t)).display(&numbers());
    assert_eq!(
        transformed(Transformation::VariantSelectionsBaked {
            selections: vec![
                ("shape".to_string(), "cube".to_string()),
                ("size".to_string(), "large".to_string())
            ]
        }),
        "/A.b: transformed: variant selections baked: shape=cube size=large"
    );
    assert_eq!(
        transformed(Transformation::AssetPathAnchored {
            authored: "./bark.png".to_string(),
            anchored: "/assets/bark.png".to_string()
        }),
        "/A.b: transformed: @./bark.png@ anchored as @/assets/bark.png@"
    );
    assert_eq!(
        transformed(Transformation::CustomFromWeakestOpinion { custom: true }),
        "/A.b: transformed: custom = true, from the weakest opinion"
    );
    let lost = finding(FindingKind::Lost(Loss::ArrayEditSamples));
    assert_eq!(
        lost.display(&numbers()),
        "/A.b: lost: time samples with sparse array edits"
    );
    let external = ExternalDependency::AssetPath("a.png".to_string());
    assert_eq!(external.display(), "@a.png@");
    assert_eq!(Requirement::ExactAnimation.display(), "exact animation");
    assert_eq!(Loss::UntypedAttribute.requirement(), None);
    assert_eq!(
        Loss::ValueClips.requirement(),
        Some(Requirement::ExactAnimation)
    );
}

#[test]
fn a_refusal_reads_as_words() {
    let error = flatten_edited(shifted(), &requirements(), add_untyped).expect_err("refused");
    let words = error.display(&numbers());
    assert!(words.contains("an attribute without a type"), "{words}");
    assert!(words.contains("/World/Tree.loose"), "{words}");
    assert!(words.contains("no loss"), "{words}");
}

#[test]
fn absolute_asset_paths_need_no_anchor() {
    for path in ["/a.png", "\\share\\a.png", "https://host/a.png", "C:/a.png"] {
        assert!(is_absolute_asset_path(path), "{path}");
    }
    for path in ["a.png", "./a.png", "../a.png", ":a", "a b:c", ""] {
        assert!(!is_absolute_asset_path(path), "{path}");
    }
}

#[test]
fn a_flattened_layer_resolves_what_the_stage_resolves() {
    let mut scene = referenced_scene_edited(offset_of(5.0, 2.0), |names, spec| {
        let (cue, ids, info) = (
            names.tokens.intern("cue"),
            names.tokens.intern("ids"),
            names.tokens.intern("info"),
        );
        let timed = PropertyType::new("timecode", false, Value::TimeCode(0));
        set_property(
            spec,
            cue,
            PropertySpec::typed_attribute(timed).with_default(Value::TimeCode(5.0f64.to_bits())),
        );
        let edit = ArrayEdit {
            ops: vec![EditOp::Insert {
                src: EditOperand::Literal(Value::Int(4)),
                index: ArrayPlace::End,
            }],
        };
        set_property(
            spec,
            ids,
            PropertySpec::typed_attribute(PropertyType::new("int", true, Value::Int(0)))
                .with_default(Value::ArrayEdit(edit)),
        );
        spec.fields.push(FieldEntry {
            name: info,
            value: FieldValue::Value(Value::Dictionary(vec![
                ("b".to_string(), Value::Int(1)),
                ("a".to_string(), Value::TimeCode(10.0f64.to_bits())),
            ])),
        });
    });
    let flat = scene.flatten(&requirements()).expect("flattens");
    let (stage, sources) = scene.open(&flat.layer);
    let tree = scene.names.path("/World/Tree");
    for name in ["cue", "ids", "height"] {
        let property = PropertyPath::new(tree, scene.names.tokens.intern(name));
        let resolve = |stage: &Stage| stage.resolve_field_path(property, None).map(|r| r.value);
        assert!(resolve(&scene.stage).is_some(), "{name}");
        assert_eq!(resolve(&stage), resolve(&scene.stage), "{name}");
    }
    let ids = PropertyPath::new(tree, scene.names.tokens.intern("ids"));
    assert_eq!(
        stage.resolve_field_path(ids, None).map(|r| r.value),
        Some(Value::Array(vec![Value::Int(4)]))
    );
    let info = scene.names.tokens.intern("info");
    let resolve = |stage: &Stage| stage.resolve_field(tree, info, None).map(|r| r.value);
    assert_eq!(
        resolve(&stage),
        Some(Value::Dictionary(vec![
            ("a".to_string(), Value::TimeCode(25.0f64.to_bits())),
            ("b".to_string(), Value::Int(1)),
        ]))
    );
    assert_eq!(resolve(&stage), resolve(&scene.stage));
    let specs_of = |sources: &Vec<(PathId, PrimSource)>| {
        let source = &sources.iter().find(|s| s.0 == tree).expect("a source").1;
        source.specs.iter().flatten().map(|s| s.specifier).next()
    };
    assert_eq!(specs_of(&sources), Some(Some(Specifier::Def)));
}

#[test]
fn a_flattened_layer_keeps_targets_and_property_metadata() {
    let mut scene = referenced_scene_edited(LayerOffset::identity(), |names, spec| {
        let (aims, doc) = (
            names.tokens.intern("aims"),
            names.tokens.intern("documentation"),
        );
        let (world, leaf) = (names.path("/World"), names.path("/World/Tree/Leaf"));
        let mut edit = ListOp::replace_with(Vec::new());
        edit.explicit = None;
        edit.append = vec![ListItem::Target(TargetPath::Prim(world))];
        edit.prepend = vec![ListItem::Target(TargetPath::Prim(leaf))];
        set_property(
            spec,
            aims,
            PropertySpec::relationship().with_targets(edit).with_metadata(
                doc,
                FieldValue::Value(Value::String("points out".to_string())),
            ),
        );
    });
    let flat = scene.flatten(&requirements()).expect("flattens");
    let (stage, _) = scene.open(&flat.layer);
    let (tree, world, leaf) = (
        scene.names.path("/World/Tree"),
        scene.names.path("/World"),
        scene.names.path("/World/Tree/Leaf"),
    );
    let (aims, doc) = (
        scene.names.tokens.intern("aims"),
        scene.names.tokens.intern("documentation"),
    );
    for stage in [&scene.stage, &stage] {
        assert_eq!(
            stage
                .resolve_target_list_path(PropertyPath::new(tree, aims))
                .map(|resolved| resolved.value),
            Some(vec![TargetPath::Prim(leaf), TargetPath::Prim(world)])
        );
        let metadata = stage
            .resolve_property_metadata(tree, aims, doc)
            .map(|resolved| resolved.value);
        let Some(ResolvedValue::Scalar(text)) = metadata else {
            panic!("a value");
        };
        assert_eq!(text, Value::String("points out".to_string()));
    }
}

#[test]
fn giving_anchoring_up_keeps_reporting_the_paths() {
    let texture = |names: &mut Names, spec: &mut PrimSpec| {
        let name = names.tokens.intern("texture");
        set_property(
            spec,
            name,
            PropertySpec::typed_attribute(PropertyType::new(
                "asset",
                false,
                Value::Asset(String::new()),
            ))
            .with_default(Value::Asset("./bark.png".to_string())),
        );
        add_clips(names, spec);
    };
    let strict = FlattenRequirements {
        asset_paths: AssetPaths::Anchored,
        ..requirements()
    };
    let mut scene = referenced_scene_edited(LayerOffset::identity(), texture);
    let Err(FlattenError::Refused(refusal)) = scene.flatten(&strict) else {
        panic!("refused");
    };
    let relaxed = strict.accepting(&refusal.unmet);
    assert_eq!(relaxed.asset_paths, AssetPaths::AnchoredOrReported);
    let flat = scene.flatten(&relaxed).expect("the losses are accepted");
    assert_eq!(shown(flat.report.lost()).len(), refusal.unmet.len());
    assert_eq!(shown(flat.report.lost()), shown(refusal.report.lost()));
    assert!(shown(flat.report.lost())
        .iter()
        .any(|line| line.starts_with("/World/Tree.texture: lost")));
}

#[test]
fn a_preserved_spline_keeps_its_shape() {
    let spline = || SplineData {
        data_type: SplineDataType::Double,
        default_curve_type: CurveType::Hermite,
        pre_extrapolation: Extrapolation::Sloped(2.0f64.to_bits()),
        post_extrapolation: Extrapolation::LoopOscillate,
        loop_params: Some(LoopParams {
            start: 0.0f64.to_bits(),
            end: 10.0f64.to_bits(),
            pre_loops: 1,
            post_loops: 2,
            value_offset: 1.0f64.to_bits(),
        }),
        knots: vec![SplineKnot {
            time: 0.0f64.to_bits(),
            value: 1.0f64.to_bits(),
            pre_value: None,
            interpolation: KnotInterpolation::Curve,
            pre_tangent: Tangent { width: 0, slope: 0 },
            post_tangent: Tangent { width: 1.0f64.to_bits(), slope: 0 },
        }],
    };
    let mut scene = referenced_scene_edited(LayerOffset::identity(), |names, spec| {
        let name = names.tokens.intern("curve");
        set_property(
            spec,
            name,
            PropertySpec::typed_attribute(double_type()).with_spline(spline()),
        );
    });
    let flat = scene.flatten(&requirements()).expect("flattens");
    assert_eq!(flat.report.preserved.splines, 1);
    let tree = scene.names.path("/World/Tree");
    let curve = scene.names.tokens.intern("curve");
    let written = property(spec_at(&flat.layer, tree), curve).expect("a property");
    assert_eq!(
        format!("{:?}", written.spline.as_ref().expect("a spline")),
        format!("{:?}", spline())
    );
}

#[test]
fn only_timecodes_are_reported_as_retimed() {
    let nan = double(f64::NAN);
    let scene = |value: Value, of: PropertyType| {
        flatten_edited(shifted(), &requirements(), |names, spec| {
            let name = names.tokens.intern("cue");
            set_property(
                spec,
                name,
                PropertySpec::typed_attribute(of)
                    .with_time_samples(vec![(0.0f64.to_bits(), value)]),
            );
        })
        .expect("flattens")
    };
    let retimed = |flat: &Flattened| {
        shown(flat.report.transformed())
            .iter()
            .filter(|line| line.starts_with("/World/Tree.cue") && line.contains("timecode"))
            .count()
    };
    assert_eq!(retimed(&scene(nan, double_type())), 0);
    assert_eq!(
        retimed(&scene(
            Value::Half(0x7e00),
            PropertyType::new("half", false, Value::Half(0))
        )),
        0
    );
    let timecode = PropertyType::new("timecode", false, Value::TimeCode(0));
    assert_eq!(retimed(&scene(Value::TimeCode(5.0f64.to_bits()), timecode)), 1);
}

// ── Reading alike ───────────────────────────────────────────────────────

/// Paths and targets that differ and read alike: a name may hold what parts
/// names.
fn alike_paths(names: &mut Names) -> [PathId; 3] {
    let (a, b, joined, other) = (
        names.tokens.intern("A"),
        names.tokens.intern("B"),
        names.tokens.intern("A/B"),
        names.tokens.intern("C"),
    );
    let root = Path::root();
    [
        names.paths.intern(root.join(&[a, b])),
        names.paths.intern(root.join(&[joined])),
        names.paths.intern(root.join(&[a, other])),
    ]
}

#[test]
fn paths_and_targets_are_compared_as_they_are_written() {
    let mut names = Names::default();
    let [parted, joined, other] = alike_paths(&mut names);
    let (dotted, rest, whole) = (
        names.tokens.intern("A.b"),
        names.tokens.intern("c"),
        names.tokens.intern("b.c"),
    );
    let root = Path::root();
    let a = names.tokens.intern("A");
    let dotted_prim = names.paths.intern(root.join(&[dotted]));
    let plain_prim = names.paths.intern(root.join(&[a]));
    let slash = names.tokens.intern("/A");
    let none = names.tokens.intern("none");
    let alike = |x: &Seen, y: &Seen| x.alike(y, &names.paths, &names.tokens);

    assert!(alike(&Seen::Paths(vec![parted]), &Seen::Paths(vec![joined])));
    assert!(!alike(&Seen::Paths(vec![parted]), &Seen::Paths(vec![other])));
    assert!(!alike(
        &Seen::Paths(vec![parted]),
        &Seen::Paths(vec![joined, joined])
    ));
    let one = TargetPath::Property(PropertyPath::new(dotted_prim, rest));
    let two = TargetPath::Property(PropertyPath::new(plain_prim, whole));
    assert!(alike(
        &Seen::Targets(vec![one]),
        &Seen::Targets(vec![two])
    ));
    assert!(alike(
        &Seen::Resolved(Some(ResolvedValue::PathList(vec![one]))),
        &Seen::Resolved(Some(ResolvedValue::PathList(vec![two])))
    ));
    assert!(!alike(
        &Seen::Targets(vec![one]),
        &Seen::Targets(vec![TargetPath::Prim(plain_prim)])
    ));
    // A list of tokens reads like one of targets with the same texts.
    assert!(alike(
        &Seen::Resolved(Some(ResolvedValue::TokenList(vec![slash]))),
        &Seen::Resolved(Some(ResolvedValue::PathList(vec![TargetPath::Prim(
            plain_prim
        )])))
    ));
    assert!(!alike(
        &Seen::Resolved(Some(ResolvedValue::TokenList(vec![whole]))),
        &Seen::Resolved(Some(ResolvedValue::PathList(vec![TargetPath::Prim(
            plain_prim
        )])))
    ));
    // A type named as no type is reads like none.
    assert!(alike(&Seen::Label(None), &Seen::Label(Some(none))));
    assert!(!alike(&Seen::Label(None), &Seen::Label(Some(whole))));
    assert!(!alike(&Seen::Label(Some(none)), &Seen::Label(Some(whole))));
}

#[test]
fn what_a_stage_composes_is_written_in_words() {
    let mut names = Names::default();
    let [parted, joined, _] = alike_paths(&mut names);
    let mesh = names.tokens.intern("Me\"sh");
    let doubles = |all: &[f64]| -> Vec<(u64, String)> {
        all.iter().map(|n| (n.to_bits(), format!("{n:?}"))).collect()
    };
    let numbers = ValueTexts {
        halves: vec![(0x3c00, "1.0".to_string())],
        singles: vec![(2.5f32.to_bits() as u64, "2.5".to_string())],
        doubles: doubles(&[0.5, 1.0]),
    };
    let show = |seen: Seen, kind: MismatchKind| {
        seen.display(&kind, &names.paths, &names.tokens, &numbers)
    };
    assert_eq!(show(Seen::Present, MismatchKind::Prim), "a prim");
    assert_eq!(show(Seen::Absent, MismatchKind::Prim), "no prim");
    assert_eq!(show(Seen::Present, MismatchKind::Property), "a property");
    assert_eq!(show(Seen::Absent, MismatchKind::Property), "none");
    assert_eq!(
        show(Seen::Specifier(Some(Specifier::Over)), MismatchKind::Specifier),
        "Some(Over)"
    );
    assert_eq!(show(Seen::Specifier(None), MismatchKind::Specifier), "None");
    assert_eq!(show(Seen::Label(Some(mesh)), MismatchKind::TypeName), "Me\"sh");
    assert_eq!(show(Seen::Label(None), MismatchKind::TypeName), "none");
    assert_eq!(
        show(Seen::Paths(vec![parted, joined]), MismatchKind::Children),
        "[\"/A/B\", \"/A/B\"]"
    );
    let field = || MismatchKind::Metadata {
        field: "f".to_string(),
    };
    assert_eq!(show(Seen::Flag(Some(false)), field()), "Some(false)");
    assert_eq!(show(Seen::Flag(None), field()), "None");
    assert_eq!(
        show(Seen::Order(Some(vec![mesh])), field()),
        "Some([\"Me\\\"sh\"])"
    );
    assert_eq!(show(Seen::Order(None), field()), "None");
    assert_eq!(
        show(
            Seen::Targets(vec![TargetPath::Property(PropertyPath::new(parted, mesh))]),
            MismatchKind::Targets
        ),
        "[\"/A/B.Me\\\"sh\"]"
    );
    let value = |value: Value| show(Seen::Value(Some(value)), MismatchKind::Default);
    assert_eq!(show(Seen::Value(None), MismatchKind::Default), "none");
    assert_eq!(value(Value::Bool(true)), "Bool(true)");
    assert_eq!(value(Value::Int(-5)), "Int(-5)");
    assert_eq!(value(Value::UInt(7)), "UInt(7)");
    assert_eq!(
        value(Value::Int64(i64::MIN)),
        format!("Int64({})", i64::MIN)
    );
    assert_eq!(
        value(Value::UInt64(u64::MAX)),
        format!("UInt64({})", u64::MAX)
    );
    assert_eq!(value(Value::Half(0x3c00)), "Half(1.0)");
    assert_eq!(value(Value::Float(2.5f32.to_bits())), "Float(2.5)");
    assert_eq!(value(double(0.5)), "Double(0.5)");
    assert_eq!(value(Value::TimeCode(1.0f64.to_bits())), "TimeCode(1.0)");
    assert_eq!(value(Value::Token(mesh)), "Token(\"Me\\\"sh\")");
    assert_eq!(
        value(Value::String("a\nb".to_string())),
        format!("String({:?})", "a\nb")
    );
    assert_eq!(
        value(Value::Tuple(
            TupleKind::Vec2d,
            vec![0.5f64.to_bits(), 1.0f64.to_bits()]
        )),
        "Vec2d([0.5, 1.0])"
    );
    assert_eq!(
        value(Value::Array(vec![Value::Int(1), Value::Blocked])),
        "[Int(1), Blocked, ]"
    );
    assert_eq!(
        value(Value::Dictionary(vec![(
            "k".to_string(),
            Value::Array(Vec::new())
        )])),
        "{\"k\": [], }"
    );
    let resolved = |value| show(Seen::Resolved(value), MismatchKind::Default);
    assert_eq!(resolved(None), "none");
    assert_eq!(
        resolved(Some(ResolvedValue::TokenList(vec![mesh, mesh]))),
        "[\"Me\\\"sh\", \"Me\\\"sh\"]"
    );
    assert_eq!(
        resolved(Some(ResolvedValue::ValueList(vec![Value::Int(2)]))),
        "[Int(2), ]"
    );
    let declaration = PropertyDeclaration {
        kind: PropertyKind::Attribute,
        declared_type: Some(PropertyType::new("int", false, Value::Int(0))),
        variability: Variability::Uniform,
        custom: true,
    };
    assert_eq!(
        show(Seen::Declaration(declaration), MismatchKind::Declaration),
        "PropertyDeclaration { kind: Attribute, type_name: Some(PropertyType { type_name: \
         \"int\", is_array: false, default_scalar: Int(0) }), variability: Uniform, custom: true }"
    );
    // What reads alike is written alike.
    let alike = Mismatch {
        path: ObjectPath::from_composed("/A"),
        kind: MismatchKind::Children,
        expected: Seen::Paths(vec![parted]),
        found: Seen::Paths(vec![joined]),
    };
    assert!(alike
        .expected
        .alike(&alike.found, &names.paths, &names.tokens));
    let (expected, found) = alike.texts(&names.paths, &names.tokens, &numbers);
    assert_eq!(expected, found);
}

#[test]
fn a_stage_is_no_deeper_than_its_paths() {
    let mut scene = referenced_scene(shifted());
    assert!(fits_paths(&scene.stage, &scene.names.paths));
    let flat = scene.flatten(&requirements()).expect("flattens");
    assert!(fits_paths(&scene.stage, &scene.names.paths));
    let (stage, _) = scene.open(&flat.layer);
    assert!(fits_paths(&stage, &scene.names.paths));

    // A prim that is its own descendant lies deeper than any path.
    let mut names = Names::default();
    let (root, prim) = (names.path("/"), names.path("/A"));
    let endless = Stage::from_parts(Vec::new(), vec![(root, vec![prim]), (prim, vec![root])], false);
    assert!(!fits_paths(&endless, &names.paths));
    let shallow = Stage::from_parts(Vec::new(), vec![(root, vec![prim])], false);
    assert!(fits_paths(&shallow, &names.paths));
}
