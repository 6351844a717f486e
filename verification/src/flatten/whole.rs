//! Flattening a whole stage.

use crate::doc::{Specifier, Value, ValueView};
use crate::fields::{copy_fields, fields_view, named, with_named, FieldEntry, FieldValue, FieldView};
use crate::flatten::copy::{
    children_copied, contents_copied, copy_children, copy_prim, ids_below, prim_copied,
    prim_preserved, preserve_prim, prototypes_below, scene_known, Copied, Scene, SceneView,
};
use crate::flatten::prims::{chains_known, prim_known};
use crate::flatten::properties::{chain_known, opinion_known, Progress, Writing, WritingView};
use crate::flatten::prototypes::{
    collect_instances, find_prototypes, instances_below, instances_shared, Naming, PrototypeTable,
    Sharing,
};
use crate::flatten::report::{
    counted, empty_report, in_category, is_unmet, law_accepting_accepts,
    lemma_anchoring_was_required, relaxed, unmet_by, unmet_view, FindingCategory, FlattenError,
    FlattenRefusal, FlattenReport, FlattenRequirements, Instancing, Preserved, ReportView,
    Requirement,
};
use crate::flatten::values::{
    assets_noted, keeps_names, lemma_entry_named, note_assets, paths_named, Remap,
};
use crate::interner::{
    extends, first_position, lemma_first_position, with_entry, TokenId, TokenInterner,
};
use crate::layer::{
    bare_spec, set_spec, specs_view, Layer, LayerView, PrimSpec, SpecView,
};
use crate::opinion::OpinionView;
use crate::path::{all_known, Path, PathId, PathInterner};
use crate::prim_index::LayerId;
use crate::stage::sources::copy_order;
use crate::stage::{children_in, Stage, StageView};
use crate::times::{TimeTable, Times};
use vstd::prelude::*;

verus! {

/// A flattened stage: the layer, and the report of how it was written.
#[derive(Debug)]
pub struct Flattened {
    pub layer: Layer,
    pub report: FlattenReport,
}

// ── Layer metadata ──────────────────────────────────────────────────────

/// The plain values among the fields of a layer.
pub open spec fn plain_values(fields: Seq<(TokenId, FieldView)>) -> Seq<ValueView>
    decreases fields.len(),
{
    if fields.len() == 0 {
        seq![]
    } else {
        match fields.last().1 {
            FieldView::Value(value) => plain_values(fields.drop_last()).push(value),
            FieldView::List(_, _) => plain_values(fields.drop_last()),
        }
    }
}

/// A report with what is to be said of the values of a layer's metadata.
pub open spec fn layer_assets(
    report: ReportView,
    values: Seq<ValueView>,
    anchoring: bool,
) -> ReportView
    decreases values.len(),
{
    if values.len() == 0 {
        report
    } else {
        assets_noted(
            layer_assets(report, values.drop_last(), anchoring),
            "/"@,
            values.last(),
            anchoring,
            None,
        )
    }
}

/// The report once a layer's metadata is written.
pub open spec fn layer_reported(
    fields: Seq<(TokenId, FieldView)>,
    anchoring: bool,
) -> ReportView {
    let values = plain_values(fields);
    let said = layer_assets(empty_report(), values, anchoring);
    ReportView {
        preserved: Preserved {
            metadata_fields: counted(said.preserved.metadata_fields, values.len()),
            ..said.preserved
        },
        ..said
    }
}

/// Starts the report with a layer's metadata.
fn report_layer(fields: &Vec<FieldEntry>, anchoring: bool) -> (report: FlattenReport)
    ensures
        report@ == layer_reported(fields_view(fields@), anchoring),
{
    let ghost all = fields_view(fields@);
    let mut report = FlattenReport::default();
    let mut count: usize = 0;
    let mut i: usize = 0;
    assert(all.take(0) =~= seq![]);
    while i < fields.len()
        invariant
            i <= fields@.len(),
            all == fields_view(fields@),
            count == plain_values(all.take(i as int)).len(),
            count <= i,
            report@ == layer_assets(
                empty_report(),
                plain_values(all.take(i as int)),
                anchoring,
            ),
        decreases fields@.len() - i,
    {
        proof {
            assert(all.take(i + 1).drop_last() =~= all.take(i as int));
            assert(all.take(i + 1).last() == (fields@[i as int].name, fields@[i as int].value@));
        }
        match &fields[i].value {
            FieldValue::Value(value) => {
                proof {
                    let earlier = plain_values(all.take(i as int));
                    assert(earlier.push(value.view()).drop_last() =~= earlier);
                }
                note_assets(&mut report, "/", value, anchoring, &None);
                count = count + 1;
            },
            FieldValue::List(_, _) => {},
        }
        i = i + 1;
    }
    assert(all.take(i as int) =~= all);
    if count <= usize::MAX - report.preserved.metadata_fields {
        report.preserved.metadata_fields = report.preserved.metadata_fields + count;
    } else {
        report.preserved.metadata_fields = usize::MAX;
    }
    report
}

// ── Prototypes and root prims ───────────────────────────────────────────

/// Writing a prototype: an `over` that holds the descendants of the first
/// instance that it stands for.
pub open spec fn prototype_copied(
    before: Copied,
    scene: SceneView,
    shared: Seq<(PathId, PathId)>,
    layer: LayerId,
    source: PathId,
    prototype: PathId,
    w: WritingView,
    depth: nat,
) -> Copied {
    let remap = Some(Remap { from: source, to: prototype });
    let (done, names) = children_copied(
        before,
        scene,
        shared,
        layer,
        children_in(scene.stage, source),
        prototype,
        WritingView { remap, ..w },
        depth,
    );
    Copied {
        progress: Progress { report: prim_preserved(done.progress.report), ..done.progress },
        specs: with_named(
            done.specs,
            prototype,
            SpecView { authored_children: names, ..bare_spec(Some(Specifier::Over)) },
        ),
    }
}

/// Writing prototypes, with their names.
pub open spec fn prototypes_copied(
    before: Copied,
    scene: SceneView,
    shared: Seq<(PathId, PathId)>,
    layer: LayerId,
    found: Seq<(PathId, PathId)>,
    w: WritingView,
    depth: nat,
) -> (Copied, Seq<TokenId>)
    decreases found.len(),
{
    if found.len() == 0 {
        (before, seq![])
    } else {
        let (earlier, names) = prototypes_copied(
            before,
            scene,
            shared,
            layer,
            found.drop_last(),
            w,
            depth,
        );
        let (source, prototype) = found.last();
        (
            prototype_copied(earlier, scene, shared, layer, source, prototype, w, depth),
            with_leaf(names, earlier.progress.paths[prototype.index as int]),
        )
    }
}

/// Names, with the last one of a path that has one.
pub open spec fn with_leaf(names: Seq<TokenId>, path: Seq<TokenId>) -> Seq<TokenId> {
    if path.len() > 0 {
        names.push(path.last())
    } else {
        names
    }
}

/// Writing the prims right below the root, with their names.
pub open spec fn roots_copied(
    before: (Copied, Seq<TokenId>),
    scene: SceneView,
    shared: Seq<(PathId, PathId)>,
    layer: LayerId,
    children: Seq<PathId>,
    w: WritingView,
    depth: nat,
) -> (Copied, Seq<TokenId>)
    decreases children.len(),
{
    if children.len() == 0 {
        before
    } else {
        let (earlier, names) = roots_copied(
            before,
            scene,
            shared,
            layer,
            children.drop_last(),
            w,
            depth,
        );
        let child = children.last();
        (
            prim_copied(earlier, scene, shared, layer, child, child, w, depth),
            with_leaf(names, earlier.progress.paths[child.index as int]),
        )
    }
}

/// The names known with fewer tokens are known with more.
pub proof fn lemma_scene_tokens(
    scene: SceneView,
    fewer: Seq<Seq<char>>,
    more: Seq<Seq<char>>,
    count: nat,
    larger: nat,
)
    requires
        scene_known(scene, fewer, count),
        fewer.len() <= more.len(),
        count <= larger,
    ensures
        scene_known(scene, more, larger),
{
    assert forall|i: int| 0 <= i < scene.stage.prims.len() implies prim_known(
        (#[trigger] scene.stage.prims[i]).1,
        more,
    ) by {
        let prim = scene.stage.prims[i].1;
        assert(prim_known(prim, fewer));
        lemma_chains_tokens(prim.metadata, fewer, more);
        lemma_chains_tokens(prim.properties, fewer, more);
        assert forall|k: int|
            0 <= k < prim.graph.len() implies crate::spec_path::components_known(
            (#[trigger] prim.graph[k]).arc.site.components,
            more,
        ) by {
            lemma_components_tokens(prim.graph[k].arc.site.components, fewer, more);
        }
    }
    assert forall|i: int| 0 <= i < scene.stage.children.len() implies ids_below(
        (#[trigger] scene.stage.children[i]).1,
        larger,
    ) by {
        assert(ids_below(scene.stage.children[i].1, count));
    }
}

proof fn lemma_components_tokens(
    components: Seq<crate::spec_path::SpecComponent>,
    fewer: Seq<Seq<char>>,
    more: Seq<Seq<char>>,
)
    requires
        crate::spec_path::components_known(components, fewer),
        fewer.len() <= more.len(),
    ensures
        crate::spec_path::components_known(components, more),
{
    assert forall|i: int|
        0 <= i < components.len() implies crate::spec_path::component_known(
        #[trigger] components[i],
        more,
    ) by {
        assert(crate::spec_path::component_known(components[i], fewer));
    }
}

proof fn lemma_chains_tokens(
    chains: Seq<(TokenId, Seq<OpinionView>)>,
    fewer: Seq<Seq<char>>,
    more: Seq<Seq<char>>,
)
    requires
        chains_known(chains, fewer),
        fewer.len() <= more.len(),
    ensures
        chains_known(chains, more),
{
    assert forall|i: int| 0 <= i < chains.len() implies (#[trigger] chains[i]).0.index < more.len()
        && chain_known(chains[i].1, more) by {
        let opinions = chains[i].1;
        assert(chain_known(opinions, fewer));
        assert forall|k: int| 0 <= k < opinions.len() implies opinion_known(
            #[trigger] opinions[k],
            more,
        ) by {
            assert(opinion_known(opinions[k], fewer));
            lemma_components_tokens(opinions[k].key.spec_path.components, fewer, more);
        }
    }
}

/// Writes a prototype.
fn copy_prototype(
    specs: &mut Vec<(PathId, PrimSpec)>,
    report: &mut FlattenReport,
    paths: &mut PathInterner,
    scene: &Scene<'_>,
    shared: &PrototypeTable,
    layer: LayerId,
    source: PathId,
    prototype: PathId,
    writing: &Writing<'_>,
    depth: usize,
)
    requires
        scene_known(scene@, writing.tokens@, old(paths)@.len()),
        paths_named(old(paths)@, writing.tokens@),
        prototypes_below(shared@, old(paths)@.len()),
        source.index < old(paths)@.len(),
        prototype.index < old(paths)@.len(),
    ensures
        (Copied {
            progress: Progress { paths: final(paths)@, report: final(report)@ },
            specs: specs_view(final(specs)@),
        }) == prototype_copied(
            Copied {
                progress: Progress { paths: old(paths)@, report: old(report)@ },
                specs: specs_view(old(specs)@),
            },
            scene@,
            shared@,
            layer,
            source,
            prototype,
            writing@,
            depth as nat,
        ),
        extends(final(paths)@, old(paths)@),
        keeps_names(final(paths)@, old(paths)@),
{
    let none: Vec<PathId> = Vec::new();
    assert(none@ =~= seq![]);
    let children = match scene.stage.children_of(source) {
        Some(children) => children,
        None => &none,
    };
    proof {
        crate::fields::lemma_place_of(scene@.stage.children, source, 0);
        assert(ids_below(children@, paths@.len()));
    }
    let beneath = Writing {
        tokens: writing.tokens,
        times: writing.times,
        anchoring: writing.anchoring,
        remap: Some(Remap { from: source, to: prototype }),
    };
    let names = copy_children(
        specs,
        report,
        paths,
        scene,
        shared,
        layer,
        children,
        prototype,
        &beneath,
        depth,
    );
    let mut spec = PrimSpec::bare(Some(Specifier::Over));
    spec.authored_children = names;
    assert(spec@ =~= SpecView {
        authored_children: names@,
        ..bare_spec(Some(Specifier::Over))
    });
    preserve_prim(report);
    set_spec(specs, prototype, spec);
}

/// Writes prototypes, and returns their names.
fn copy_prototypes(
    specs: &mut Vec<(PathId, PrimSpec)>,
    report: &mut FlattenReport,
    paths: &mut PathInterner,
    scene: &Scene<'_>,
    shared: &PrototypeTable,
    layer: LayerId,
    found: &Vec<(PathId, PathId)>,
    writing: &Writing<'_>,
    depth: usize,
) -> (names: Vec<TokenId>)
    requires
        scene_known(scene@, writing.tokens@, old(paths)@.len()),
        paths_named(old(paths)@, writing.tokens@),
        prototypes_below(shared@, old(paths)@.len()),
        forall|i: int|
            0 <= i < found@.len() ==> (#[trigger] found@[i]).0.index < old(paths)@.len()
                && found@[i].1.index < old(paths)@.len(),
    ensures
        (
            (Copied {
                progress: Progress { paths: final(paths)@, report: final(report)@ },
                specs: specs_view(final(specs)@),
            }),
            names@,
        ) == prototypes_copied(
            Copied {
                progress: Progress { paths: old(paths)@, report: old(report)@ },
                specs: specs_view(old(specs)@),
            },
            scene@,
            shared@,
            layer,
            found@,
            writing@,
            depth as nat,
        ),
        extends(final(paths)@, old(paths)@),
        keeps_names(final(paths)@, old(paths)@),
{
    let ghost start = Copied {
        progress: Progress { paths: paths@, report: report@ },
        specs: specs_view(specs@),
    };
    let mut names: Vec<TokenId> = Vec::new();
    let mut i: usize = 0;
    assert(found@.take(0) =~= seq![]);
    assert(names@ =~= seq![]);
    while i < found.len()
        invariant
            i <= found@.len(),
            scene_known(scene@, writing.tokens@, start.progress.paths.len()),
            paths_named(start.progress.paths, writing.tokens@),
            prototypes_below(shared@, start.progress.paths.len()),
            forall|k: int|
                0 <= k < found@.len() ==> (#[trigger] found@[k]).0.index
                    < start.progress.paths.len() && found@[k].1.index
                    < start.progress.paths.len(),
            extends(paths@, start.progress.paths),
            keeps_names(paths@, start.progress.paths),
            (
                (Copied {
                    progress: Progress { paths: paths@, report: report@ },
                    specs: specs_view(specs@),
                }),
                names@,
            ) == prototypes_copied(
                start,
                scene@,
                shared@,
                layer,
                found@.take(i as int),
                writing@,
                depth as nat,
            ),
        decreases found@.len() - i,
    {
        let (source, prototype) = found[i];
        proof {
            assert(found@.take(i + 1).drop_last() =~= found@.take(i as int));
            assert(found@.take(i + 1).last() == found@[i as int]);
            assert(paths_named(paths@, writing.tokens@));
            lemma_scene_tokens(
                scene@,
                writing.tokens@,
                writing.tokens@,
                start.progress.paths.len(),
                paths@.len(),
            );
        }
        match paths.resolve(prototype).leaf() {
            Some(name) => {
                names.push(name);
            },
            None => {},
        }
        copy_prototype(
            specs,
            report,
            paths,
            scene,
            shared,
            layer,
            source,
            prototype,
            writing,
            depth,
        );
        i = i + 1;
    }
    assert(found@.take(i as int) =~= found@);
    names
}

/// Writes the prims right below the root, and adds their names.
fn copy_roots(
    specs: &mut Vec<(PathId, PrimSpec)>,
    report: &mut FlattenReport,
    paths: &mut PathInterner,
    names: &mut Vec<TokenId>,
    scene: &Scene<'_>,
    shared: &PrototypeTable,
    layer: LayerId,
    children: &Vec<PathId>,
    writing: &Writing<'_>,
    depth: usize,
)
    requires
        scene_known(scene@, writing.tokens@, old(paths)@.len()),
        paths_named(old(paths)@, writing.tokens@),
        prototypes_below(shared@, old(paths)@.len()),
        ids_below(children@, old(paths)@.len()),
        writing.remap is None,
    ensures
        (
            (Copied {
                progress: Progress { paths: final(paths)@, report: final(report)@ },
                specs: specs_view(final(specs)@),
            }),
            final(names)@,
        ) == roots_copied(
            (
                Copied {
                    progress: Progress { paths: old(paths)@, report: old(report)@ },
                    specs: specs_view(old(specs)@),
                },
                old(names)@,
            ),
            scene@,
            shared@,
            layer,
            children@,
            writing@,
            depth as nat,
        ),
        extends(final(paths)@, old(paths)@),
        keeps_names(final(paths)@, old(paths)@),
{
    let ghost start = (
        Copied {
            progress: Progress { paths: paths@, report: report@ },
            specs: specs_view(specs@),
        },
        names@,
    );
    let mut i: usize = 0;
    assert(children@.take(0) =~= seq![]);
    while i < children.len()
        invariant
            i <= children@.len(),
            scene_known(scene@, writing.tokens@, start.0.progress.paths.len()),
            paths_named(start.0.progress.paths, writing.tokens@),
            prototypes_below(shared@, start.0.progress.paths.len()),
            ids_below(children@, start.0.progress.paths.len()),
            writing.remap is None,
            extends(paths@, start.0.progress.paths),
            keeps_names(paths@, start.0.progress.paths),
            (
                (Copied {
                    progress: Progress { paths: paths@, report: report@ },
                    specs: specs_view(specs@),
                }),
                names@,
            ) == roots_copied(
                start,
                scene@,
                shared@,
                layer,
                children@.take(i as int),
                writing@,
                depth as nat,
            ),
        decreases children@.len() - i,
    {
        let child = children[i];
        proof {
            assert(children@.take(i + 1).drop_last() =~= children@.take(i as int));
            assert(children@.take(i + 1).last() == child);
            assert(paths_named(paths@, writing.tokens@));
            lemma_scene_tokens(
                scene@,
                writing.tokens@,
                writing.tokens@,
                start.0.progress.paths.len(),
                paths@.len(),
            );
        }
        match paths.resolve(child).leaf() {
            Some(name) => {
                names.push(name);
            },
            None => {},
        }
        copy_prim(specs, report, paths, scene, shared, layer, child, child, writing, depth);
        i = i + 1;
    }
    assert(children@.take(i as int) =~= children@);
}

// ── The whole stage ─────────────────────────────────────────────────────

/// The length of the longest path.
pub open spec fn longest(paths: Seq<Seq<TokenId>>) -> nat
    decreases paths.len(),
{
    if paths.len() == 0 {
        0
    } else {
        let rest = longest(paths.drop_last());
        if paths.last().len() > rest {
            paths.last().len()
        } else {
            rest
        }
    }
}

/// The length of the longest path.
pub fn longest_path(paths: &PathInterner) -> (depth: usize)
    ensures
        depth == longest(paths@),
        paths@.len() <= usize::MAX,
{
    let ghost all = paths@;
    let count = paths.len();
    let mut depth: usize = 0;
    let mut i: usize = 0;
    assert(all.take(0) =~= seq![]);
    while i < count
        invariant
            i <= count,
            count == all.len(),
            all == paths@,
            depth == longest(all.take(i as int)),
        decreases count - i,
    {
        proof {
            assert(all.take(i + 1).drop_last() =~= all.take(i as int));
            assert(all.take(i + 1).last() == all[i as int]);
        }
        let length = paths.resolve(PathId { index: i }).depth();
        if length > depth {
            depth = length;
        }
        i = i + 1;
    }
    assert(all.take(i as int) =~= all);
    depth
}

// ── Depth ───────────────────────────────────────────────────────────────

/// Whether no descendant of a prim lies deeper than `depth` below it.
pub open spec fn reaches(stage: StageView, prim: PathId, depth: nat) -> bool
    decreases depth,
{
    if depth == 0 {
        children_in(stage, prim).len() == 0
    } else {
        forall|i: int|
            0 <= i < children_in(stage, prim).len() ==> reaches(
                stage,
                #[trigger] children_in(stage, prim)[i],
                (depth - 1) as nat,
            )
    }
}

/// The path of the pseudo-root, interned or yet to be.
pub open spec fn top(paths: Seq<Seq<TokenId>>) -> PathId {
    PathId { index: first_position(paths, seq![]) as usize }
}

/// Whether no prim of a stage lies deeper than the longest path.
pub open spec fn within_paths(stage: StageView, paths: Seq<Seq<TokenId>>) -> bool {
    reaches(stage, top(paths), longest(paths))
}

/// Whether no descendant of a prim lies deeper than `depth` below it.
fn reaches_all(stage: &Stage, prim: PathId, depth: usize) -> (yes: bool)
    ensures
        yes == reaches(stage@, prim, depth as nat),
    decreases depth,
{
    let children = match stage.children_of(prim) {
        Some(children) => children,
        None => {
            return true;
        },
    };
    if depth == 0 {
        return children.len() == 0;
    }
    let mut i: usize = 0;
    while i < children.len()
        invariant
            i <= children@.len(),
            depth > 0,
            children@ == children_in(stage@, prim),
            forall|k: int|
                0 <= k < i ==> reaches(
                    stage@,
                    #[trigger] children_in(stage@, prim)[k],
                    (depth - 1) as nat,
                ),
        decreases children@.len() - i,
    {
        assert(children_in(stage@, prim)[i as int] == children@[i as int]);
        if !reaches_all(stage, children[i], depth - 1) {
            return false;
        }
        i = i + 1;
    }
    true
}

/// Whether no prim of a stage lies deeper than the longest path.
pub fn fits_paths(stage: &Stage, paths: &PathInterner) -> (yes: bool)
    ensures
        yes == within_paths(stage@, paths@),
{
    let none = Path::root();
    assert(none@ =~= seq![]);
    proof {
        lemma_first_position(paths@, seq![]);
    }
    let root = match paths.lookup(&none) {
        Some(root) => root,
        None => PathId { index: paths.len() },
    };
    reaches_all(stage, root, longest_path(paths))
}

/// What flattening a stage gives, refused or not.
#[verifier::ext_equal]
pub struct Outcome {
    pub tokens: Seq<Seq<char>>,
    pub paths: Seq<Seq<TokenId>>,
    pub report: ReportView,
    pub layer: LayerView,
}

/// The prototypes of a stage, where instances keep sharing.
pub open spec fn sharing(
    scene: SceneView,
    instancing: Instancing,
    naming: Naming,
    root: PathId,
) -> Sharing {
    match instancing {
        Instancing::Preserve => instances_shared(
            naming,
            scene,
            instances_below(scene.stage, root, longest(naming.paths)),
        ),
        Instancing::Expand => Sharing { naming, prototypes: seq![], found: seq![], shared: seq![] },
    }
}

/// What flattening a stage gives: the metadata of the root layer, the
/// prototypes first, and then the composed prims, each as one spec.
pub open spec fn flattened(
    scene: SceneView,
    root: LayerView,
    id: LayerId,
    instancing: Instancing,
    anchoring: bool,
    times: Times,
    tokens: Seq<Seq<char>>,
    paths: Seq<Seq<TokenId>>,
) -> Outcome {
    let none: Seq<TokenId> = seq![];
    let pseudo_root = top(paths);
    let naming = Naming { tokens, paths: with_entry(paths, none), next: 1 };
    let shares = sharing(scene, instancing, naming, pseudo_root);
    let w = WritingView { tokens: shares.naming.tokens, times, anchoring, remap: None };
    let depth = longest(shares.naming.paths);
    let start = Copied {
        progress: Progress {
            paths: shares.naming.paths,
            report: layer_reported(root.metadata, anchoring),
        },
        specs: seq![],
    };
    let prototypes = prototypes_copied(start, scene, shares.shared, id, shares.found, w, depth);
    let (done, names) = roots_copied(
        prototypes,
        scene,
        shares.shared,
        id,
        children_in(scene.stage, pseudo_root),
        w,
        depth,
    );
    let spec = SpecView {
        authored_children: names,
        prim_order: match named(root.prims, pseudo_root) {
            Some(spec) => spec.prim_order,
            None => None,
        },
        ..bare_spec(None)
    };
    Outcome {
        tokens: w.tokens,
        paths: done.progress.paths,
        report: prim_preserved(done.progress.report),
        layer: LayerView {
            id,
            default_prim: root.default_prim,
            metadata: root.metadata,
            prims: with_named(done.specs, pseudo_root, spec),
        },
    }
}

/// The paths that are interned once the prototypes are named.
pub open spec fn paths_shared(
    scene: SceneView,
    instancing: Instancing,
    tokens: Seq<Seq<char>>,
    paths: Seq<Seq<TokenId>>,
) -> Seq<Seq<TokenId>> {
    let naming = Naming { tokens, paths: with_entry(paths, seq![]), next: 1 };
    sharing(scene, instancing, naming, top(paths)).naming.paths
}

/// Whether a stage can be flattened: what it reads is known, its hierarchy is
/// no deeper than its paths, and there is room for its paths.
pub open spec fn can_flatten(
    scene: SceneView,
    instancing: Instancing,
    tokens: Seq<Seq<char>>,
    paths: Seq<Seq<TokenId>>,
) -> bool {
    &&& scene_known(scene, tokens, paths.len())
    &&& within_paths(scene.stage, paths)
    &&& paths_shared(scene, instancing, tokens, paths).len() <= usize::MAX
}

/// Flattens a stage into one layer with no composition arcs.
///
/// `root` is the root layer of the stage, if there is one; `id` is the id of
/// the flattened layer, which the references of instances name.
#[verifier::rlimit(60)]
pub fn flatten(
    scene: &Scene<'_>,
    root: Option<&Layer>,
    root_id: LayerId,
    id: LayerId,
    requirements: &FlattenRequirements<'_>,
    times: &TimeTable,
    tokens: &mut TokenInterner,
    paths: &mut PathInterner,
) -> (out: Result<Flattened, FlattenError>)
    requires
        scene_known(scene@, old(tokens)@, old(paths)@.len()),
        paths_named(old(paths)@, old(tokens)@),
        within_paths(scene@.stage, old(paths)@),
    ensures
        extends(final(tokens)@, old(tokens)@),
        extends(final(paths)@, old(paths)@),
        paths_named(final(paths)@, final(tokens)@),
        match root {
            None => out == Err::<Flattened, FlattenError>(FlattenError::MissingRootLayer(root_id))
                && final(tokens)@ == old(tokens)@ && final(paths)@ == old(paths)@,
            Some(root) => {
                let done = flattened(
                    scene@,
                    root@,
                    id,
                    requirements.instancing,
                    requirements.asset_paths.reports_unanchored(),
                    times@,
                    old(tokens)@,
                    old(paths)@,
                );
                let unmet = unmet_by(done.report.findings, *requirements);
                &&& can_flatten(scene@, requirements.instancing, old(tokens)@, old(paths)@)
                &&& final(tokens)@ == done.tokens
                &&& final(paths)@ == done.paths
                &&& match out {
                    Ok(flat) => unmet.len() == 0 && flat.layer@ == done.layer && flat.report@
                        == done.report,
                    Err(FlattenError::Refused(refusal)) => unmet.len() > 0 && unmet_view(
                        refusal.unmet@,
                    ) == unmet && refusal.report@ == done.report,
                    Err(FlattenError::MissingRootLayer(_)) => false,
                }
            },
        },
{
    let root = match root {
        Some(root) => root,
        None => {
            return Err(FlattenError::MissingRootLayer(root_id));
        },
    };
    let ghost first_paths = paths@;
    let ghost first_tokens = tokens@;
    let ghost none: Seq<TokenId> = seq![];
    proof {
        assert(all_known(none, tokens@));
        lemma_entry_named(paths@, none, tokens@);
    }
    let empty = Path::root();
    assert(empty@ =~= none);
    let pseudo_root = paths.intern(empty);
    let ghost naming = Naming { tokens: tokens@, paths: paths@, next: 1 };
    let mut report = report_layer(&root.metadata, requirements.asset_paths.reports_unanchored());
    let mut found: Vec<(PathId, PathId)> = Vec::new();
    let mut shared: Vec<(PathId, PathId)> = Vec::new();
    assert(found@ =~= seq![]);
    assert(shared@ =~= seq![]);
    proof {
        lemma_scene_tokens(scene@, first_tokens, tokens@, first_paths.len(), paths@.len());
    }
    let ghost known = paths@.len();
    match requirements.instancing {
        Instancing::Preserve => {
            let mut instances: Vec<PathId> = Vec::new();
            collect_instances(scene.stage, pseudo_root, longest_path(paths), &mut instances);
            proof {
                assert(instances@ =~= instances_below(
                    scene@.stage,
                    pseudo_root,
                    longest(naming.paths),
                ));
                lemma_instances_known(scene@, pseudo_root, longest(naming.paths), known, tokens@);
            }
            let listed = find_prototypes(scene, &instances, tokens, paths);
            found = listed.0;
            shared = listed.1;
            proof {
                assert forall|i: int| 0 <= i < found@.len() implies (#[trigger] found@[i]).0.index
                    < paths@.len() && found@[i].1.index < paths@.len() by {
                    assert(instances@.contains(found@[i].0));
                }
            }
        },
        Instancing::Expand => {},
    }
    let ghost shares = sharing(scene@, requirements.instancing, naming, pseudo_root);
    proof {
        assert(found@ == shares.found && shared@ == shares.shared);
        assert(tokens@ == shares.naming.tokens && paths@ == shares.naming.paths);
        assert(paths_named(paths@, tokens@)) by {
            assert forall|i: int| 0 <= i < paths@.len() implies all_known(
                #[trigger] paths@[i],
                tokens@,
            ) by {
                if i < naming.paths.len() {
                    assert(paths@[i] == naming.paths[i]);
                    assert(all_known(naming.paths[i], first_tokens));
                }
            }
        }
        lemma_scene_tokens(scene@, first_tokens, tokens@, known, paths@.len());
        assert(prototypes_below(shared@, paths@.len()));
    }
    let depth = longest_path(paths);
    let writing = Writing {
        tokens: &*tokens,
        times,
        anchoring: requirements.asset_paths.reports_unanchored(),
        remap: None,
    };
    let shared = PrototypeTable::new(shared);
    let mut specs: Vec<(PathId, PrimSpec)> = Vec::new();
    assert(specs_view(specs@) =~= seq![]);
    let mut names = copy_prototypes(
        &mut specs,
        &mut report,
        paths,
        scene,
        &shared,
        id,
        &found,
        &writing,
        depth,
    );
    let no_children: Vec<PathId> = Vec::new();
    assert(no_children@ =~= seq![]);
    let children = match scene.stage.children_of(pseudo_root) {
        Some(children) => children,
        None => &no_children,
    };
    proof {
        crate::fields::lemma_place_of(scene@.stage.children, pseudo_root, 0);
        assert(ids_below(children@, known));
        assert(paths_named(paths@, writing.tokens@));
        lemma_scene_tokens(scene@, writing.tokens@, writing.tokens@, shares.naming.paths.len(), paths@.len());
    }
    copy_roots(
        &mut specs,
        &mut report,
        paths,
        &mut names,
        scene,
        &shared,
        id,
        children,
        &writing,
        depth,
    );
    let mut spec = PrimSpec::bare(None);
    spec.prim_order = match root.prim(pseudo_root) {
        Some(spec) => copy_order(&spec.prim_order),
        None => None,
    };
    let ghost shown = names@;
    spec.authored_children = names;
    proof {
        assert(spec@ =~= SpecView {
            authored_children: shown,
            prim_order: match named(root@.prims, pseudo_root) {
                Some(spec) => spec.prim_order,
                None => None,
            },
            ..bare_spec(None)
        });
    }
    preserve_prim(&mut report);
    set_spec(&mut specs, pseudo_root, spec);
    let layer = Layer {
        id,
        default_prim: root.default_prim,
        metadata: copy_fields(&root.metadata),
        prims: specs,
    };
    let ghost done = flattened(
        scene@,
        root@,
        id,
        requirements.instancing,
        requirements.asset_paths.reports_unanchored(),
        times@,
        first_tokens,
        first_paths,
    );
    proof {
        assert(layer@ =~= done.layer);
        assert(report@ == done.report);
        assert(paths_named(paths@, tokens@));
        assert(extends(paths@, shares.naming.paths));
        assert(extends(shares.naming.paths, naming.paths));
        assert(extends(paths@, first_paths));
        assert(shares.naming.paths == paths_shared(
            scene@,
            requirements.instancing,
            first_tokens,
            first_paths,
        ));
    }
    finish(layer, report, requirements)
}

/// The flattened layer, or the refusal when a requirement is unmet.
pub fn finish(layer: Layer, report: FlattenReport, requirements: &FlattenRequirements<'_>) -> (out:
    Result<Flattened, FlattenError>)
    ensures
        ({
            let unmet = unmet_by(report@.findings, *requirements);
            match out {
                Ok(flat) => unmet.len() == 0 && flat.layer@ == layer@ && flat.report@ == report@,
                Err(FlattenError::Refused(refusal)) => unmet.len() > 0 && unmet_view(
                    refusal.unmet@,
                ) == unmet && refusal.report@ == report@,
                Err(FlattenError::MissingRootLayer(_)) => false,
            }
        }),
{
    let unmet = requirements.unmet_in(&report);
    assert(unmet_view(unmet@).len() == unmet@.len());
    if unmet.len() == 0 {
        Ok(Flattened { layer, report })
    } else {
        Err(FlattenError::Refused(FlattenRefusal { unmet, report }))
    }
}

pub proof fn lemma_instances_known(
    scene: SceneView,
    prim: PathId,
    depth: nat,
    count: nat,
    tokens: Seq<Seq<char>>,
)
    requires
        scene_known(scene, tokens, count),
        prim.index < count,
    ensures
        forall|p: PathId| #[trigger]
            instances_below(scene.stage, prim, depth).contains(p) ==> p.index < count,
    decreases depth, 0nat, 0nat,
{
    let all = instances_below(scene.stage, prim, depth);
    if depth > 0 {
        crate::fields::lemma_place_of(scene.stage.children, prim, 0);
        let children = children_in(scene.stage, prim);
        assert(ids_below(children, count));
        lemma_among_known(scene, children, (depth - 1) as nat, count, tokens);
        let rest = crate::flatten::prototypes::instances_among(
            scene.stage,
            children,
            (depth - 1) as nat,
        );
        assert forall|p: PathId| #[trigger] all.contains(p) implies p.index < count by {
            let i = choose|i: int| 0 <= i < all.len() && all[i] == p;
            let head = all.len() - rest.len();
            if i >= head {
                assert(rest[i - head] == p);
                assert(rest.contains(p));
            }
        }
    }
}

proof fn lemma_among_known(
    scene: SceneView,
    prims: Seq<PathId>,
    depth: nat,
    count: nat,
    tokens: Seq<Seq<char>>,
)
    requires
        scene_known(scene, tokens, count),
        ids_below(prims, count),
    ensures
        forall|p: PathId| #[trigger]
            crate::flatten::prototypes::instances_among(scene.stage, prims, depth).contains(p)
                ==> p.index < count,
    decreases depth, 1nat, prims.len(),
{
    if prims.len() > 0 {
        let rest = prims.drop_last();
        assert(prims[prims.len() - 1].index < count);
        assert forall|i: int| 0 <= i < rest.len() implies (#[trigger] rest[i]).index < count by {
            assert(rest[i] == prims[i]);
        }
        lemma_among_known(scene, rest, depth, count, tokens);
        lemma_instances_known(scene, prims.last(), depth, count, tokens);
        let a = crate::flatten::prototypes::instances_among(scene.stage, rest, depth);
        let b = instances_below(scene.stage, prims.last(), depth);
        assert forall|p: PathId| #[trigger]
            crate::flatten::prototypes::instances_among(scene.stage, prims, depth).contains(
                p,
            ) implies p.index < count by {
            let all = a + b;
            let i = choose|i: int| 0 <= i < all.len() && all[i] == p;
            if i < a.len() {
                assert(a[i] == p);
                assert(a.contains(p));
            } else {
                assert(b[i - a.len()] == p);
                assert(b.contains(p));
            }
        }
    }
}

// ── Laws ────────────────────────────────────────────────────────────────

/// Flattening a stage with the requirements relaxed to accept what was unmet
/// leaves nothing unmet and gives the same layer and the same report, its
/// losses among it, where the same names and paths are interned.
pub proof fn law_relaxed_flatten_gives_the_same(
    scene: SceneView,
    root: LayerView,
    id: LayerId,
    requirements: FlattenRequirements<'_>,
    times: Times,
    tokens: Seq<Seq<char>>,
    paths: Seq<Seq<TokenId>>,
)
    ensures
        ({
            let done = flattened(
                scene,
                root,
                id,
                requirements.instancing,
                requirements.asset_paths.reports_unanchored(),
                times,
                tokens,
                paths,
            );
            let less = relaxed(requirements, unmet_by(done.report.findings, requirements));
            let again = flattened(
                scene,
                root,
                id,
                less.instancing,
                less.asset_paths.reports_unanchored(),
                times,
                tokens,
                paths,
            );
            &&& again == done
            &&& in_category(again.report.findings, FindingCategory::Lost) == in_category(
                done.report.findings,
                FindingCategory::Lost,
            )
            &&& unmet_by(again.report.findings, less).len() == 0
        }),
{
    let done = flattened(
        scene,
        root,
        id,
        requirements.instancing,
        requirements.asset_paths.reports_unanchored(),
        times,
        tokens,
        paths,
    );
    let unmet = unmet_by(done.report.findings, requirements);
    law_accepting_accepts(done.report.findings, requirements);
    if is_unmet(unmet, Requirement::AnchoredAssetPaths) {
        lemma_anchoring_was_required(done.report.findings, requirements);
    }
}

/// Copying a prim to a depth that reaches every descendant is copying it to
/// any greater depth: nothing below is left out.
pub proof fn law_depth_suffices(
    before: Copied,
    scene: SceneView,
    prototypes: Seq<(PathId, PathId)>,
    layer: LayerId,
    source: PathId,
    dest: PathId,
    w: WritingView,
    depth: nat,
    more: nat,
)
    requires
        reaches(scene.stage, source, depth),
        depth <= more,
    ensures
        prim_copied(before, scene, prototypes, layer, source, dest, w, depth) == prim_copied(
            before,
            scene,
            prototypes,
            layer,
            source,
            dest,
            w,
            more,
        ),
    decreases depth, 0nat, 0nat,
{
    let (own, spec) = crate::flatten::copy::own_copied(before.progress, scene, source, w);
    let inner = (Copied { progress: own, ..before }, spec);
    let children = children_in(scene.stage, source);
    reveal_with_fuel(contents_copied, 2);
    reveal_with_fuel(children_copied, 2);
    if named(prototypes, source) is None {
        let said = if scene.stage.instances.contains(source) {
            Copied {
                progress: Progress {
                    report: crate::flatten::values::transformed(
                        own.report,
                        crate::path::prim_display(source, own.paths, w.tokens),
                        crate::flatten::report::TransformationView::InstanceExpanded,
                        None,
                    ),
                    ..own
                },
                ..inner.0
            }
        } else {
            inner.0
        };
        if depth == 0 {
            if children.len() > 0 {
                assert(children_in(scene.stage, source)[0] == children[0]);
            }
            assert(children =~= seq![]);
            if more > 0 {
                let again = contents_copied(
                    inner,
                    scene,
                    prototypes,
                    layer,
                    source,
                    dest,
                    w,
                    more,
                );
                assert(again.1 =~= SpecView { authored_children: seq![], ..spec });
                assert(spec.authored_children =~= seq![]);
                assert(again.1 =~= spec);
            }
        } else {
            lemma_children_depth(
                said,
                scene,
                prototypes,
                layer,
                children,
                dest,
                w,
                (depth - 1) as nat,
                (more - 1) as nat,
            );
        }
    }
}

pub proof fn lemma_children_depth(
    before: Copied,
    scene: SceneView,
    prototypes: Seq<(PathId, PathId)>,
    layer: LayerId,
    children: Seq<PathId>,
    dest: PathId,
    w: WritingView,
    depth: nat,
    more: nat,
)
    requires
        forall|i: int| 0 <= i < children.len() ==> reaches(scene.stage, #[trigger] children[i], depth),
        depth <= more,
    ensures
        children_copied(before, scene, prototypes, layer, children, dest, w, depth)
            == children_copied(before, scene, prototypes, layer, children, dest, w, more),
    decreases depth, 1nat, children.len(),
{
    if children.len() > 0 {
        let rest = children.drop_last();
        assert forall|i: int| 0 <= i < rest.len() implies reaches(
            scene.stage,
            #[trigger] rest[i],
            depth,
        ) by {
            assert(rest[i] == children[i]);
        }
        lemma_children_depth(before, scene, prototypes, layer, rest, dest, w, depth, more);
        assert(reaches(scene.stage, children[children.len() - 1], depth));
        let (earlier, names) = children_copied(
            before,
            scene,
            prototypes,
            layer,
            rest,
            dest,
            w,
            depth,
        );
        let child = children.last();
        let paths = earlier.progress.paths;
        let path = paths[child.index as int];
        if path.len() > 0 {
            let target = paths[dest.index as int].push(path.last());
            law_depth_suffices(
                Copied {
                    progress: Progress { paths: with_entry(paths, target), ..earlier.progress },
                    ..earlier
                },
                scene,
                prototypes,
                layer,
                child,
                PathId { index: first_position(paths, target) as usize },
                w,
                depth,
                more,
            );
        }
    }
}

} // verus!
