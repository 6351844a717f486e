//! How a composed stage is written, prim by prim.

use crate::fields::{named, with_named};
use crate::flatten::prims::{
    baked_selections, copy_prim_metadata, find_fold, folds_view, prim_known, prim_metadata_copied,
    selections_baked, FoldTable,
};
use crate::flatten::properties::{
    copy_property, property_written, Progress, Writing, WritingView,
};
use crate::flatten::prototypes::PrototypeTable;
use crate::flatten::report::{
    counted, FindingKind, FlattenReport, Preserved, ReportView, Transformation, TransformationView,
};
use crate::flatten::values::{
    keeps_names, lemma_entry_named, note, paths_named, remap_known, transformed,
};
use crate::interner::{extends, first_position, lemma_with_entry, with_entry, TokenId};
use crate::layer::{bare_spec, set_spec, specs_view, PrimSpec, Reference, SpecView};
use crate::path::{
    all_known, prim_display, property_display, Path, PathId, PathInterner, PropertyPath,
};
use crate::prim_index::LayerId;
use crate::prim_index_graph::NodeId;
use crate::property::{properties_view, PropertyEntry, PropertyView};
use crate::resolution::FoldView;
use crate::stage::sources::{
    active_of, instanceable_of, prim_order_of, property_order_of, resolve_declared, sources_view,
    specifier_of, type_of, SourceSpec, SourceView,
};
use crate::stage::{children_in, Lookup, Stage, StageView};
use vstd::prelude::*;

verus! {

/// What flattening reads of a prim besides its index.
#[derive(Debug)]
pub struct PrimSource {
    /// The specs that the prim's sources read, strongest first.
    pub specs: Vec<Option<SourceSpec>>,
    /// The nodes of the prim's graph, in strength order.
    pub nodes: Vec<NodeId>,
    /// The variant selections that govern the prim.
    pub selections: Vec<(TokenId, TokenId)>,
    /// The names of the prim's properties, in order.
    pub property_names: Vec<TokenId>,
    /// What the path expressions of its metadata compose to.
    pub metadata_folds: FoldTable,
    /// What the path expressions of its properties compose to.
    pub property_folds: FoldTable,
}

/// The mathematical value of a [`PrimSource`].
#[verifier::ext_equal]
pub struct PrimSourceView {
    pub specs: Seq<Option<SourceView>>,
    pub nodes: Seq<NodeId>,
    pub selections: Seq<(TokenId, TokenId)>,
    pub property_names: Seq<TokenId>,
    pub metadata_folds: Seq<(TokenId, FoldView)>,
    pub property_folds: Seq<(TokenId, FoldView)>,
}

impl View for PrimSource {
    type V = PrimSourceView;

    open spec fn view(&self) -> PrimSourceView {
        PrimSourceView {
            specs: sources_view(self.specs@),
            nodes: self.nodes@,
            selections: self.selections@,
            property_names: self.property_names@,
            metadata_folds: folds_view(self.metadata_folds@),
            property_folds: folds_view(self.property_folds@),
        }
    }
}

/// The sources of a list, by prim.
pub open spec fn source_table(sources: Seq<(PathId, PrimSource)>) -> Seq<(PathId, PrimSourceView)> {
    sources.map_values(|s: (PathId, PrimSource)| (s.0, s.1@))
}

/// What flattening reads.
#[derive(Clone, Copy, Debug)]
pub struct Scene<'a> {
    pub stage: &'a Stage,
    /// What it reads of each prim; a prim that is not listed is not written.
    pub sources: &'a Vec<(PathId, PrimSource)>,
}

/// The mathematical value of a [`Scene`].
pub struct SceneView {
    pub stage: StageView,
    pub sources: Seq<(PathId, PrimSourceView)>,
}

impl<'a> View for Scene<'a> {
    type V = SceneView;

    open spec fn view(&self) -> SceneView {
        SceneView { stage: self.stage@, sources: source_table(self.sources@) }
    }
}

impl<'a> Scene<'a> {
    /// What flattening reads of a prim.
    pub fn source(&self, prim: PathId) -> (out: Option<&PrimSource>)
        ensures
            (match out {
                Some(source) => Some(source@),
                None => None,
            }) == named(self@.sources, prim),
    {
        let ghost all = self@.sources;
        let mut i: usize = 0;
        while i < self.sources.len()
            invariant
                i <= self.sources@.len(),
                all == source_table(self.sources@),
                forall|k: int| 0 <= k < i ==> (#[trigger] all[k]).0 != prim,
            decreases self.sources@.len() - i,
        {
            if self.sources[i].0 == prim {
                proof {
                    crate::fields::lemma_place_of_unique(all, prim, i as int);
                    assert(all[i as int].1 == self.sources@[i as int].1@);
                }
                return Some(&self.sources[i].1);
            }
            i = i + 1;
        }
        proof {
            crate::fields::lemma_place_of_unique(all, prim, i as int);
        }
        None
    }
}

/// Whether what flattening reads of a stage is known and fits in memory.
pub open spec fn scene_known(scene: SceneView, tokens: Seq<Seq<char>>, path_count: nat) -> bool {
    &&& forall|i: int|
        0 <= i < scene.stage.prims.len() ==> prim_known(
            (#[trigger] scene.stage.prims[i]).1,
            tokens,
        )
    &&& forall|i: int|
        0 <= i < scene.stage.children.len() ==> ids_below(
            (#[trigger] scene.stage.children[i]).1,
            path_count,
        )
    &&& forall|i: int|
        0 <= i < scene.sources.len() ==> names_below(
            (#[trigger] scene.sources[i]).1.property_names,
            tokens.len(),
        )
}

/// Whether the paths of a list are interned.
pub open spec fn ids_below(paths: Seq<PathId>, count: nat) -> bool {
    forall|i: int| 0 <= i < paths.len() ==> (#[trigger] paths[i]).index < count
}

/// Whether the names of a list are interned.
pub open spec fn names_below(names: Seq<TokenId>, count: nat) -> bool {
    forall|i: int| 0 <= i < names.len() ==> (#[trigger] names[i]).index < count
}

/// Whether the prototypes of a list are interned.
pub open spec fn prototypes_below(prototypes: Seq<(PathId, PathId)>, count: nat) -> bool {
    forall|i: int| 0 <= i < prototypes.len() ==> (#[trigger] prototypes[i]).1.index < count
}

/// How far copying prims has come: the specs written so far.
#[verifier::ext_equal]
pub struct Copied {
    pub progress: Progress,
    pub specs: Seq<(PathId, SpecView)>,
}

/// The namespace depth of a path, as arcs count it.
pub open spec fn arc_depth(path: Seq<TokenId>) -> u16 {
    if path.len() <= u16::MAX {
        path.len() as u16
    } else {
        u16::MAX
    }
}

/// A report that counts one more prim.
pub open spec fn prim_preserved(report: ReportView) -> ReportView {
    ReportView {
        preserved: Preserved {
            prims: counted(report.preserved.prims, 1),
            ..report.preserved
        },
        ..report
    }
}

/// A report that counts one more property.
pub open spec fn property_preserved(report: ReportView) -> ReportView {
    ReportView {
        preserved: Preserved {
            properties: counted(report.preserved.properties, 1),
            ..report.preserved
        },
        ..report
    }
}

/// Writing one property of a prim: what the stage does not hold or cannot be
/// written is left out.
pub open spec fn property_copied(
    before: (Progress, Seq<(TokenId, PropertyView)>),
    scene: SceneView,
    prim: PathId,
    name: TokenId,
    w: WritingView,
) -> (Progress, Seq<(TokenId, PropertyView)>) {
    match scene.stage.opinions(prim, name, Lookup::Property) {
        None => before,
        Some(opinions) => {
            let folds = match named(scene.sources, prim) {
                Some(source) => source.property_folds,
                None => seq![],
            };
            let (progress, written) = property_written(
                before.0,
                opinions,
                named(folds, name),
                property_display(
                    PropertyPath { prim_path: prim, property: name },
                    before.0.paths,
                    w.tokens,
                ),
                w,
            );
            match written {
                Some(spec) => (
                    Progress { report: property_preserved(progress.report), ..progress },
                    before.1.push((name, spec)),
                ),
                None => (progress, before.1),
            }
        },
    }
}

/// Writing properties of a prim.
pub open spec fn properties_copied(
    before: Progress,
    scene: SceneView,
    prim: PathId,
    names: Seq<TokenId>,
    w: WritingView,
) -> (Progress, Seq<(TokenId, PropertyView)>)
    decreases names.len(),
{
    if names.len() == 0 {
        (before, seq![])
    } else {
        property_copied(
            properties_copied(before, scene, prim, names.drop_last(), w),
            scene,
            prim,
            names.last(),
            w,
        )
    }
}

/// The report and the paths after a prim's own opinions are written.
pub open spec fn own_copied(
    before: Progress,
    scene: SceneView,
    prim: PathId,
    w: WritingView,
) -> (Progress, SpecView) {
    match (named(scene.stage.prims, prim), named(scene.sources, prim)) {
        (Some(index), Some(source)) => {
            let path = prim_display(prim, before.paths, w.tokens);
            let metadata = prim_metadata_copied(before, index, source.metadata_folds, path, w);
            let baked = selections_baked(
                index.graph,
                source.nodes,
                arc_depth(before.paths[prim.index as int]),
                w.tokens,
            );
            let said = if baked.len() > 0 {
                Progress {
                    report: transformed(
                        metadata.progress.report,
                        path,
                        TransformationView::VariantSelectionsBaked { selections: baked },
                        None,
                    ),
                    ..metadata.progress
                }
            } else {
                metadata.progress
            };
            (
                said,
                SpecView {
                    specifier: Some(specifier_of(source.specs)),
                    type_label: type_of(source.specs),
                    active: active_of(source.specs),
                    instanceable: instanceable_of(source.specs),
                    prim_order: prim_order_of(source.specs),
                    property_order: property_order_of(source.specs),
                    fields: metadata.fields,
                    ..bare_spec(None)
                },
            )
        },
        _ => (before, bare_spec(None)),
    }
}

/// What is written as a prim's contents: a reference to its prototype, or its
/// children.
pub open spec fn contents_copied(
    before: (Copied, SpecView),
    scene: SceneView,
    prototypes: Seq<(PathId, PathId)>,
    layer: LayerId,
    source: PathId,
    dest: PathId,
    w: WritingView,
    depth: nat,
) -> (Copied, SpecView)
    decreases depth, 1nat, 0nat,
{
    let progress = before.0.progress;
    let path = prim_display(source, progress.paths, w.tokens);
    match named(prototypes, source) {
        Some(prototype) => (
            Copied {
                progress: Progress {
                    report: transformed(
                        progress.report,
                        path,
                        TransformationView::InstanceShared {
                            prototype: prim_display(prototype, progress.paths, w.tokens),
                        },
                        None,
                    ),
                    ..progress
                },
                ..before.0
            },
            SpecView { references: Some(seq![Reference { layer, prim: prototype }]), ..before.1 },
        ),
        None => {
            let said = if scene.stage.instances.contains(source) {
                Copied {
                    progress: Progress {
                        report: transformed(
                            progress.report,
                            path,
                            TransformationView::InstanceExpanded,
                            None,
                        ),
                        ..progress
                    },
                    ..before.0
                }
            } else {
                before.0
            };
            if depth == 0 {
                (said, before.1)
            } else {
                let (done, names) = children_copied(
                    said,
                    scene,
                    prototypes,
                    layer,
                    children_in(scene.stage, source),
                    dest,
                    w,
                    (depth - 1) as nat,
                );
                (done, SpecView { authored_children: names, ..before.1 })
            }
        },
    }
}

/// Writing a composed prim as the spec at `dest`, with its descendants to a
/// depth below it, or with a reference to its prototype.
pub open spec fn prim_copied(
    before: Copied,
    scene: SceneView,
    prototypes: Seq<(PathId, PathId)>,
    layer: LayerId,
    source: PathId,
    dest: PathId,
    w: WritingView,
    depth: nat,
) -> Copied
    decreases depth, 2nat, 0nat,
{
    let (own, spec) = own_copied(before.progress, scene, source, w);
    let (inner, filled) = contents_copied(
        (Copied { progress: own, ..before }, spec),
        scene,
        prototypes,
        layer,
        source,
        dest,
        w,
        depth,
    );
    let names = match named(scene.sources, source) {
        Some(source) => source.property_names,
        None => seq![],
    };
    let (last, properties) = properties_copied(inner.progress, scene, source, names, w);
    Copied {
        progress: Progress { report: prim_preserved(last.report), ..last },
        specs: with_named(inner.specs, dest, SpecView { properties, ..filled }),
    }
}

/// Writing prims as children of `dest`, with the names of those written.
pub open spec fn children_copied(
    before: Copied,
    scene: SceneView,
    prototypes: Seq<(PathId, PathId)>,
    layer: LayerId,
    children: Seq<PathId>,
    dest: PathId,
    w: WritingView,
    depth: nat,
) -> (Copied, Seq<TokenId>)
    decreases depth, 3nat, children.len(),
{
    if children.len() == 0 {
        (before, seq![])
    } else {
        let (earlier, names) = children_copied(
            before,
            scene,
            prototypes,
            layer,
            children.drop_last(),
            dest,
            w,
            depth,
        );
        let child = children.last();
        let paths = earlier.progress.paths;
        let path = paths[child.index as int];
        if path.len() == 0 {
            (earlier, names)
        } else {
            let target = paths[dest.index as int].push(path.last());
            let done = prim_copied(
                Copied {
                    progress: Progress {
                        paths: with_entry(paths, target),
                        ..earlier.progress
                    },
                    ..earlier
                },
                scene,
                prototypes,
                layer,
                child,
                PathId { index: first_position(paths, target) as usize },
                w,
                depth,
            );
            (done, names.push(path.last()))
        }
    }
}

/// The namespace depth of a path, as arcs count it.
pub fn depth_of(path: &Path) -> (depth: u16)
    ensures
        depth == arc_depth(path@),
{
    let depth = path.depth();
    if depth <= 65535 {
        depth as u16
    } else {
        u16::MAX
    }
}

/// Counts one more prim.
pub fn preserve_prim(report: &mut FlattenReport)
    ensures
        final(report)@ == prim_preserved(old(report)@),
{
    if report.preserved.prims < usize::MAX {
        report.preserved.prims = report.preserved.prims + 1;
    }
}

/// Writes one property of a prim.
fn copy_property_of(
    properties: &mut Vec<PropertyEntry>,
    report: &mut FlattenReport,
    paths: &mut PathInterner,
    scene: &Scene<'_>,
    prim: PathId,
    name: TokenId,
    writing: &Writing<'_>,
)
    requires
        scene_known(scene@, writing.tokens@, old(paths)@.len()),
        paths_named(old(paths)@, writing.tokens@),
        remap_known(writing.remap, old(paths)@.len()),
        prim.index < old(paths)@.len(),
        name.index < writing.tokens@.len(),
    ensures
        (
            (Progress { paths: final(paths)@, report: final(report)@ }),
            properties_view(final(properties)@),
        ) == property_copied(
            (
                Progress { paths: old(paths)@, report: old(report)@ },
                properties_view(old(properties)@),
            ),
            scene@,
            prim,
            name,
            writing@,
        ),
        extends(final(paths)@, old(paths)@),
        keeps_names(final(paths)@, old(paths)@),
{
    let index = match scene.stage.prim(prim) {
        Some(index) => index,
        None => {
            return ;
        },
    };
    let opinions = match index.property_opinions(name) {
        Some(opinions) => opinions,
        None => {
            return ;
        },
    };
    proof {
        crate::fields::lemma_place_of(scene@.stage.prims, prim, 0);
        crate::fields::lemma_place_of(index@.properties, name, 0);
        assert(prim_known(index@, writing.tokens@));
    }
    let none: FoldTable = Vec::new();
    assert(folds_view(none@) =~= seq![]);
    let folds = match scene.source(prim) {
        Some(source) => &source.property_folds,
        None => &none,
    };
    let fold = find_fold(folds, name);
    let path = PropertyPath::new(prim, name).display(paths, writing.tokens);
    match copy_property(report, paths, opinions, fold, path.as_str(), writing) {
        Some(spec) => {
            let ghost had = properties@;
            let entry = PropertyEntry { name, spec };
            properties.push(entry);
            assert(properties_view(properties@) =~= properties_view(had).push((name, entry.spec@)));
            if report.preserved.properties < usize::MAX {
                report.preserved.properties = report.preserved.properties + 1;
            }
        },
        None => {},
    }
}

/// Writes the properties of a prim.
fn copy_properties(
    report: &mut FlattenReport,
    paths: &mut PathInterner,
    scene: &Scene<'_>,
    prim: PathId,
    names: &Vec<TokenId>,
    writing: &Writing<'_>,
) -> (properties: Vec<PropertyEntry>)
    requires
        scene_known(scene@, writing.tokens@, old(paths)@.len()),
        paths_named(old(paths)@, writing.tokens@),
        remap_known(writing.remap, old(paths)@.len()),
        prim.index < old(paths)@.len(),
        names_below(names@, writing.tokens@.len()),
    ensures
        (
            (Progress { paths: final(paths)@, report: final(report)@ }),
            properties_view(properties@),
        ) == properties_copied(
            Progress { paths: old(paths)@, report: old(report)@ },
            scene@,
            prim,
            names@,
            writing@,
        ),
        extends(final(paths)@, old(paths)@),
        keeps_names(final(paths)@, old(paths)@),
{
    let ghost before = Progress { paths: paths@, report: report@ };
    let mut properties: Vec<PropertyEntry> = Vec::new();
    let mut i: usize = 0;
    assert(names@.take(0) =~= seq![]);
    assert(properties_view(properties@) =~= seq![]);
    while i < names.len()
        invariant
            i <= names@.len(),
            scene_known(scene@, writing.tokens@, before.paths.len()),
            paths_named(before.paths, writing.tokens@),
            remap_known(writing.remap, before.paths.len()),
            prim.index < before.paths.len(),
            names_below(names@, writing.tokens@.len()),
            extends(paths@, before.paths),
            keeps_names(paths@, before.paths),
            (
                (Progress { paths: paths@, report: report@ }),
                properties_view(properties@),
            ) == properties_copied(before, scene@, prim, names@.take(i as int), writing@),
        decreases names@.len() - i,
    {
        proof {
            assert(names@.take(i + 1).drop_last() =~= names@.take(i as int));
            assert(names@.take(i + 1).last() == names@[i as int]);
            lemma_scene_grows(scene@, writing.tokens@, before.paths.len(), paths@.len());
            assert(paths_named(paths@, writing.tokens@));
        }
        copy_property_of(&mut properties, report, paths, scene, prim, names[i], writing);
        i = i + 1;
    }
    assert(names@.take(i as int) =~= names@);
    properties
}

proof fn lemma_scene_grows(scene: SceneView, tokens: Seq<Seq<char>>, fewer: nat, more: nat)
    requires
        scene_known(scene, tokens, fewer),
        fewer <= more,
    ensures
        scene_known(scene, tokens, more),
{
    assert forall|i: int| 0 <= i < scene.stage.children.len() implies ids_below(
        (#[trigger] scene.stage.children[i]).1,
        more,
    ) by {
        assert(ids_below(scene.stage.children[i].1, fewer));
    }
}

/// Writes a prim's own opinions, but for its properties.
fn copy_own(
    report: &mut FlattenReport,
    paths: &mut PathInterner,
    scene: &Scene<'_>,
    prim: PathId,
    writing: &Writing<'_>,
) -> (spec: PrimSpec)
    requires
        scene_known(scene@, writing.tokens@, old(paths)@.len()),
        paths_named(old(paths)@, writing.tokens@),
        remap_known(writing.remap, old(paths)@.len()),
        prim.index < old(paths)@.len(),
    ensures
        ((Progress { paths: final(paths)@, report: final(report)@ }), spec@) == own_copied(
            Progress { paths: old(paths)@, report: old(report)@ },
            scene@,
            prim,
            writing@,
        ),
        extends(final(paths)@, old(paths)@),
        keeps_names(final(paths)@, old(paths)@),
{
    let index = match scene.stage.prim(prim) {
        Some(index) => index,
        None => {
            return PrimSpec::bare(None);
        },
    };
    let source = match scene.source(prim) {
        Some(source) => source,
        None => {
            return PrimSpec::bare(None);
        },
    };
    proof {
        crate::fields::lemma_place_of(scene@.stage.prims, prim, 0);
        assert(prim_known(index@, writing.tokens@));
    }
    let ghost before = Progress { paths: paths@, report: report@ };
    let path = paths.resolve(prim).display(writing.tokens);
    let depth = depth_of(paths.resolve(prim));
    let declared = resolve_declared(&source.specs);
    let fields = copy_prim_metadata(
        report,
        paths,
        index,
        &source.metadata_folds,
        path.as_str(),
        writing,
    );
    let selections = baked_selections(&index.graph, &source.nodes, depth, writing.tokens);
    if selections.len() > 0 {
        note(
            report,
            path.as_str(),
            FindingKind::Transformed(Transformation::VariantSelectionsBaked { selections }),
            None,
        );
    }
    let mut spec = PrimSpec::bare(Some(declared.specifier));
    spec.type_label = declared.type_label;
    spec.active = declared.active;
    spec.instanceable = declared.instanceable;
    spec.prim_order = declared.prim_order;
    spec.property_order = declared.property_order;
    spec.fields = fields;
    assert(spec@ =~= own_copied(before, scene@, prim, writing@).1);
    spec
}

/// Writes a composed prim as the spec at `dest`, with its descendants to a
/// depth below it, or with a reference to its prototype.
pub fn copy_prim(
    specs: &mut Vec<(PathId, PrimSpec)>,
    report: &mut FlattenReport,
    paths: &mut PathInterner,
    scene: &Scene<'_>,
    prototypes: &PrototypeTable,
    layer: LayerId,
    source: PathId,
    dest: PathId,
    writing: &Writing<'_>,
    depth: usize,
)
    requires
        scene_known(scene@, writing.tokens@, old(paths)@.len()),
        paths_named(old(paths)@, writing.tokens@),
        remap_known(writing.remap, old(paths)@.len()),
        prototypes_below(prototypes@, old(paths)@.len()),
        source.index < old(paths)@.len(),
        dest.index < old(paths)@.len(),
    ensures
        (Copied {
            progress: Progress { paths: final(paths)@, report: final(report)@ },
            specs: specs_view(final(specs)@),
        }) == prim_copied(
            Copied {
                progress: Progress { paths: old(paths)@, report: old(report)@ },
                specs: specs_view(old(specs)@),
            },
            scene@,
            prototypes@,
            layer,
            source,
            dest,
            writing@,
            depth as nat,
        ),
        extends(final(paths)@, old(paths)@),
        keeps_names(final(paths)@, old(paths)@),
    decreases depth, 2nat,
{
    let ghost start = paths@;
    let mut spec = copy_own(report, paths, scene, source, writing);
    let ghost own = Copied {
        progress: Progress { paths: paths@, report: report@ },
        specs: specs_view(specs@),
    };
    let ghost bare = spec@;
    proof {
        assert(paths_named(paths@, writing.tokens@));
        lemma_scene_grows(scene@, writing.tokens@, start.len(), paths@.len());
    }
    let path = paths.resolve(source).display(writing.tokens);
    match prototypes.get(source) {
        Some(prototype) => {
            proof {
                crate::fields::lemma_place_of(prototypes@, source, 0);
                assert(prototype.index < start.len());
            }
            let mut references: Vec<Reference> = Vec::new();
            references.push(Reference::new(layer, prototype));
            assert(references@ =~= seq![Reference { layer, prim: prototype }]);
            spec.references = Some(references);
            let prototype = paths.resolve(prototype).display(writing.tokens);
            note(
                report,
                path.as_str(),
                FindingKind::Transformed(Transformation::InstanceShared { prototype }),
                None,
            );
        },
        None => {
            if scene.stage.is_instance(source) {
                note(
                    report,
                    path.as_str(),
                    FindingKind::Transformed(Transformation::InstanceExpanded),
                    None,
                );
            }
            if depth > 0 {
                let none: Vec<PathId> = Vec::new();
                assert(none@ =~= seq![]);
                let children = match scene.stage.children_of(source) {
                    Some(children) => children,
                    None => &none,
                };
                proof {
                    crate::fields::lemma_place_of(scene@.stage.children, source, 0);
                    assert(ids_below(children@, paths@.len()));
                }
                let names = copy_children(
                    specs,
                    report,
                    paths,
                    scene,
                    prototypes,
                    layer,
                    children,
                    dest,
                    writing,
                    depth - 1,
                );
                spec.authored_children = names;
            }
        },
    }
    let ghost filled = contents_copied(
        (own, bare),
        scene@,
        prototypes@,
        layer,
        source,
        dest,
        writing@,
        depth as nat,
    );
    proof {
        assert(filled.0 =~= Copied {
            progress: Progress { paths: paths@, report: report@ },
            specs: specs_view(specs@),
        });
        assert(filled.1 =~= spec@);
        assert(paths_named(paths@, writing.tokens@));
        lemma_scene_grows(scene@, writing.tokens@, start.len(), paths@.len());
    }
    let none: Vec<TokenId> = Vec::new();
    assert(none@ =~= seq![]);
    let names = match scene.source(source) {
        Some(source) => &source.property_names,
        None => &none,
    };
    proof {
        crate::fields::lemma_place_of(scene@.sources, source, 0);
    }
    let properties = copy_properties(report, paths, scene, source, names, writing);
    let ghost shown = properties_view(properties@);
    spec.properties = properties;
    assert(spec@ =~= SpecView { properties: shown, ..filled.1 });
    preserve_prim(report);
    set_spec(specs, dest, spec);
}

/// Writes prims as children of `dest`, and returns the names of those written.
pub fn copy_children(
    specs: &mut Vec<(PathId, PrimSpec)>,
    report: &mut FlattenReport,
    paths: &mut PathInterner,
    scene: &Scene<'_>,
    prototypes: &PrototypeTable,
    layer: LayerId,
    children: &Vec<PathId>,
    dest: PathId,
    writing: &Writing<'_>,
    depth: usize,
) -> (names: Vec<TokenId>)
    requires
        scene_known(scene@, writing.tokens@, old(paths)@.len()),
        paths_named(old(paths)@, writing.tokens@),
        remap_known(writing.remap, old(paths)@.len()),
        prototypes_below(prototypes@, old(paths)@.len()),
        ids_below(children@, old(paths)@.len()),
        dest.index < old(paths)@.len(),
    ensures
        (
            (Copied {
                progress: Progress { paths: final(paths)@, report: final(report)@ },
                specs: specs_view(final(specs)@),
            }),
            names@,
        ) == children_copied(
            Copied {
                progress: Progress { paths: old(paths)@, report: old(report)@ },
                specs: specs_view(old(specs)@),
            },
            scene@,
            prototypes@,
            layer,
            children@,
            dest,
            writing@,
            depth as nat,
        ),
        extends(final(paths)@, old(paths)@),
        keeps_names(final(paths)@, old(paths)@),
    decreases depth, 3nat,
{
    let ghost start = Copied {
        progress: Progress { paths: paths@, report: report@ },
        specs: specs_view(specs@),
    };
    let mut names: Vec<TokenId> = Vec::new();
    let mut i: usize = 0;
    assert(children@.take(0) =~= seq![]);
    assert(names@ =~= seq![]);
    while i < children.len()
        invariant
            i <= children@.len(),
            scene_known(scene@, writing.tokens@, start.progress.paths.len()),
            paths_named(start.progress.paths, writing.tokens@),
            remap_known(writing.remap, start.progress.paths.len()),
            prototypes_below(prototypes@, start.progress.paths.len()),
            ids_below(children@, start.progress.paths.len()),
            dest.index < start.progress.paths.len(),
            extends(paths@, start.progress.paths),
            keeps_names(paths@, start.progress.paths),
            (
                (Copied {
                    progress: Progress { paths: paths@, report: report@ },
                    specs: specs_view(specs@),
                }),
                names@,
            ) == children_copied(
                start,
                scene@,
                prototypes@,
                layer,
                children@.take(i as int),
                dest,
                writing@,
                depth as nat,
            ),
        decreases children@.len() - i,
    {
        let child = children[i];
        let ghost reached = paths@;
        proof {
            assert(children@.take(i + 1).drop_last() =~= children@.take(i as int));
            assert(children@.take(i + 1).last() == child);
            assert(paths_named(paths@, writing.tokens@));
        }
        match paths.resolve(child).leaf() {
            Some(name) => {
                let mut below: Vec<TokenId> = Vec::new();
                below.push(name);
                let target = paths.resolve(dest).join(below.as_slice());
                proof {
                    let whole = reached[child.index as int];
                    let onto = reached[dest.index as int];
                    assert(name == whole.last());
                    assert(target@ =~= onto.push(name));
                    assert(all_known(whole, writing.tokens@) && all_known(onto, writing.tokens@));
                    assert(name == whole[whole.len() - 1]);
                    lemma_with_entry(reached, target@);
                    assert forall|tokens: Seq<Seq<char>>|
                        #![trigger paths_named(with_entry(reached, target@), tokens)]
                        paths_named(reached, tokens) implies paths_named(
                        with_entry(reached, target@),
                        tokens,
                    ) by {
                        assert(all_known(whole, tokens) && all_known(onto, tokens));
                        assert(name == whole[whole.len() - 1]);
                        assert forall|k: int| 0 <= k < target@.len() implies (#[trigger] target@[k]).index
                            < tokens.len() by {
                            if k < onto.len() {
                                assert(target@[k] == onto[k]);
                            }
                        }
                        lemma_entry_named(reached, target@, tokens);
                    }
                }
                let child_dest = paths.intern(target);
                proof {
                    lemma_scene_grows(
                        scene@,
                        writing.tokens@,
                        start.progress.paths.len(),
                        paths@.len(),
                    );
                }
                copy_prim(
                    specs,
                    report,
                    paths,
                    scene,
                    prototypes,
                    layer,
                    child,
                    child_dest,
                    writing,
                    depth,
                );
                names.push(name);
            },
            None => {},
        }
        i = i + 1;
    }
    assert(children@.take(i as int) =~= children@);
    names
}

} // verus!
