//! What flattening a stage twice reports.
//!
//! A flatten interns the names and the paths that it writes. A later one finds
//! them interned, and reports what the first did.

use crate::flatten::copy::{
    children_copied, contents_copied, ids_below, own_copied, prim_copied, properties_copied,
    property_copied, prototypes_below, scene_known, Copied, SceneView,
};
use crate::flatten::prims::{field_copied, fields_copied};
use crate::flatten::properties::{
    by_text, key_written, keys_written, metadata_keys, metadata_written, property_written, Progress,
    WritingView,
};
use crate::flatten::prototypes::{
    free_prototype, instance_shared, instances_among, instances_below, instances_shared, numbered,
    prototype_name, Naming, Sharing,
};
use crate::flatten::report::{
    in_category, is_unmet, law_accepting_accepts, lemma_anchoring_was_required, relaxed, unmet_by,
    FindingCategory, FlattenRequirements, Instancing, Requirement,
};
use crate::flatten::values::{all_remapped, field_written, remapped, Remap};
use crate::flatten::whole::{
    can_flatten, flattened, lemma_children_depth, lemma_instances_known, lemma_scene_tokens,
    longest, prototypes_copied, reaches, roots_copied, sharing, top, within_paths,
};
use crate::fields::{named, FieldView};
use crate::interner::{
    extends, first_position, lemma_first_position, lemma_first_position_unique, lemma_with_entry,
    with_entry, TokenId,
};
use crate::layer::LayerView;
use crate::opinion::OpinionView;
use crate::path::PathId;
use crate::prim_index::LayerId;
use crate::resolution::{FoldView, ResolvedView};
use crate::sorting::stable_sorted;
use crate::stage::{children_in, PrimView, StageView};
use crate::times::Times;
use vstd::prelude::*;

verus! {

// ── Entries ─────────────────────────────────────────────────────────────

proof fn lemma_extends_through<T>(a: Seq<T>, b: Seq<T>, c: Seq<T>)
    requires
        extends(a, b),
        extends(b, c),
    ensures
        extends(a, c),
{
    assert forall|i: int| 0 <= i < c.len() implies #[trigger] a[i] == c[i] by {
        assert(b[i] == c[i]);
    }
}

/// What was entered keeps its place, and is not entered again.
proof fn lemma_entered<T>(s: Seq<T>, later: Seq<T>, x: T)
    requires
        extends(later, with_entry(s, x)),
    ensures
        first_position(later, x) == first_position(s, x),
        with_entry(later, x) == later,
{
    lemma_with_entry(s, x);
    let entered = with_entry(s, x);
    let at = first_position(s, x);
    lemma_first_position(entered, x);
    assert forall|i: int| 0 <= i < at implies later[i] != x by {
        assert(later[i] == entered[i]);
    }
    assert(later[at] == entered[at]);
    lemma_first_position_unique(later, x, at);
}

// ── Writing ─────────────────────────────────────────────────────────────

/// Whether two flattens have reported the same, and know the paths of `base`.
spec fn alike(a: Progress, b: Progress, base: Seq<Seq<TokenId>>) -> bool {
    a.report == b.report && extends(a.paths, base) && extends(b.paths, base)
}

proof fn lemma_remapped(
    targets: Seq<crate::fields::TargetPath>,
    remap: Option<Remap>,
    paths: Seq<Seq<TokenId>>,
)
    ensures
        extends(all_remapped(targets, remap, paths).1, paths),
    decreases targets.len(),
{
    if targets.len() > 0 {
        let earlier = all_remapped(targets.drop_last(), remap, paths);
        lemma_remapped(targets.drop_last(), remap, paths);
        let last = remapped(targets.last(), remap, earlier.1);
        match remap {
            Some(remap) => {
                let from = earlier.1[remap.from.index as int];
                let prim = earlier.1[crate::flatten::values::target_prim(
                    targets.last(),
                ).index as int];
                let mapped = earlier.1[remap.to.index as int] + prim.skip(from.len() as int);
                lemma_with_entry(earlier.1, mapped);
            },
            None => {},
        }
        assert(extends(last.1, earlier.1));
        lemma_extends_through(last.1, earlier.1, paths);
    }
}

/// Only the lists of targets that are written depend on the paths.
proof fn lemma_field(
    resolved: ResolvedView,
    authored: Option<FieldView>,
    remap: Option<Remap>,
    a: Seq<Seq<TokenId>>,
    b: Seq<Seq<TokenId>>,
    base: Seq<Seq<TokenId>>,
)
    requires
        extends(a, base),
        extends(b, base),
    ensures
        ({
            let x = field_written(resolved, authored, remap, a);
            let y = field_written(resolved, authored, remap, b);
            &&& extends(x.1, base)
            &&& extends(y.1, base)
            &&& x.0 == y.0 || (x.0 is List && y.0 is List)
        }),
{
    match resolved {
        ResolvedView::PathList(items) => {
            lemma_remapped(items, remap, a);
            lemma_remapped(items, remap, b);
            lemma_extends_through(all_remapped(items, remap, a).1, a, base);
            lemma_extends_through(all_remapped(items, remap, b).1, b, base);
        },
        _ => {},
    }
}

proof fn lemma_keys(
    a: Progress,
    b: Progress,
    opinions: Seq<OpinionView>,
    keys: Seq<TokenId>,
    path: Seq<char>,
    w: WritingView,
    base: Seq<Seq<TokenId>>,
)
    requires
        alike(a, b, base),
    ensures
        alike(
            keys_written(a, opinions, keys, path, w).0,
            keys_written(b, opinions, keys, path, w).0,
            base,
        ),
    decreases keys.len(),
{
    if keys.len() > 0 {
        let rest = keys.drop_last();
        lemma_keys(a, b, opinions, rest, path, w, base);
        let x = keys_written(a, opinions, rest, path, w);
        let y = keys_written(b, opinions, rest, path, w);
        match crate::resolution::resolved_metadata(
            crate::flatten::properties::as_read(opinions, w),
            keys.last(),
        ) {
            Some(outcome) => {
                let strongest = opinions[crate::resolution::metadata_place(
                    opinions,
                    keys.last(),
                    0,
                )];
                let authored = crate::resolution::metadata_field(strongest, keys.last())->0;
                lemma_field(outcome.value, Some(authored), w.remap, x.0.paths, y.0.paths, base);
            },
            None => {},
        }
        assert(alike(
            key_written(x, opinions, keys.last(), path, w).0,
            key_written(y, opinions, keys.last(), path, w).0,
            base,
        ));
    }
}

proof fn lemma_property(
    a: Progress,
    b: Progress,
    opinions: Seq<OpinionView>,
    fold: Option<FoldView>,
    path: Seq<char>,
    w: WritingView,
    base: Seq<Seq<TokenId>>,
)
    requires
        alike(a, b, base),
    ensures
        alike(
            property_written(a, opinions, fold, path, w).0,
            property_written(b, opinions, fold, path, w).0,
            base,
        ),
        property_written(a, opinions, fold, path, w).1 is Some == (property_written(
            b,
            opinions,
            fold,
            path,
            w,
        ).1 is Some),
{
    let keys = stable_sorted(metadata_keys(opinions), by_text(w.tokens));
    lemma_keys(a, b, opinions, keys, path, w, base);
    let x = metadata_written(a, opinions, path, w).0;
    let y = metadata_written(b, opinions, path, w).0;
    let targets = crate::resolution::targets_of(opinions);
    lemma_remapped(targets, w.remap, x.paths);
    lemma_remapped(targets, w.remap, y.paths);
    lemma_extends_through(all_remapped(targets, w.remap, x.paths).1, x.paths, base);
    lemma_extends_through(all_remapped(targets, w.remap, y.paths).1, y.paths, base);
}

proof fn lemma_properties(
    a: Progress,
    b: Progress,
    scene: SceneView,
    prim: PathId,
    names: Seq<TokenId>,
    w: WritingView,
    base: Seq<Seq<TokenId>>,
)
    requires
        alike(a, b, base),
        prim.index < base.len(),
    ensures
        alike(
            properties_copied(a, scene, prim, names, w).0,
            properties_copied(b, scene, prim, names, w).0,
            base,
        ),
    decreases names.len(),
{
    if names.len() > 0 {
        let rest = names.drop_last();
        lemma_properties(a, b, scene, prim, rest, w, base);
        let x = properties_copied(a, scene, prim, rest, w);
        let y = properties_copied(b, scene, prim, rest, w);
        let name = names.last();
        match scene.stage.opinions(prim, name, crate::stage::Lookup::Property) {
            Some(opinions) => {
                let folds = match named(scene.sources, prim) {
                    Some(source) => source.property_folds,
                    None => seq![],
                };
                let path = crate::path::PropertyPath { prim_path: prim, property: name };
                let text = crate::path::property_display(path, x.0.paths, w.tokens);
                assert(x.0.paths[prim.index as int] == base[prim.index as int]);
                assert(y.0.paths[prim.index as int] == base[prim.index as int]);
                assert(text == crate::path::property_display(path, y.0.paths, w.tokens));
                lemma_property(x.0, y.0, opinions, named(folds, name), text, w, base);
            },
            None => {},
        }
        assert(alike(
            property_copied(x, scene, prim, name, w).0,
            property_copied(y, scene, prim, name, w).0,
            base,
        ));
    }
}

proof fn lemma_fields(
    a: Progress,
    b: Progress,
    prim: PrimView,
    folds: Seq<(TokenId, FoldView)>,
    keys: Seq<TokenId>,
    path: Seq<char>,
    w: WritingView,
    base: Seq<Seq<TokenId>>,
)
    requires
        alike(a, b, base),
    ensures
        ({
            let x = fields_copied(a, prim, folds, keys, path, w);
            let y = fields_copied(b, prim, folds, keys, path, w);
            alike(x.progress, y.progress, base) && x.clips_noted == y.clips_noted
        }),
    decreases keys.len(),
{
    if keys.len() > 0 {
        let rest = keys.drop_last();
        lemma_fields(a, b, prim, folds, rest, path, w, base);
        let x = fields_copied(a, prim, folds, rest, path, w);
        let y = fields_copied(b, prim, folds, rest, path, w);
        let key = keys.last();
        let opinions = match named(prim.metadata, key) {
            Some(opinions) => opinions,
            None => seq![],
        };
        let read = crate::stage_time::all_in_stage_time(
            opinions,
            prim.property_type(key),
            w.times,
        );
        match crate::resolution::resolved_value(
            read,
            named(folds, key),
            crate::arrays::fill_of(prim.property_type(key)),
        ) {
            Some(outcome) => {
                lemma_field(
                    outcome.value,
                    crate::flatten::prims::authored_field(opinions[0]),
                    w.remap,
                    x.progress.paths,
                    y.progress.paths,
                    base,
                );
            },
            None => {},
        }
        let more = field_copied(x, prim, folds, key, path, w);
        let other = field_copied(y, prim, folds, key, path, w);
        assert(alike(more.progress, other.progress, base));
    }
}

proof fn lemma_own(
    a: Progress,
    b: Progress,
    scene: SceneView,
    prim: PathId,
    w: WritingView,
    base: Seq<Seq<TokenId>>,
)
    requires
        alike(a, b, base),
        prim.index < base.len(),
    ensures
        alike(own_copied(a, scene, prim, w).0, own_copied(b, scene, prim, w).0, base),
{
    match (named(scene.stage.prims, prim), named(scene.sources, prim)) {
        (Some(index), Some(source)) => {
            assert(a.paths[prim.index as int] == base[prim.index as int]);
            assert(b.paths[prim.index as int] == base[prim.index as int]);
            let path = crate::path::prim_display(prim, a.paths, w.tokens);
            lemma_fields(
                a,
                b,
                index,
                source.metadata_folds,
                stable_sorted(
                    crate::flatten::prims::chain_names(index.metadata),
                    by_text(w.tokens),
                ),
                path,
                w,
                base,
            );
        },
        _ => {},
    }
}

// ── Copying ─────────────────────────────────────────────────────────────

proof fn lemma_children_known(
    scene: SceneView,
    prim: PathId,
    tokens: Seq<Seq<char>>,
    count: nat,
)
    requires
        scene_known(scene, tokens, count),
    ensures
        ids_below(children_in(scene.stage, prim), count),
{
    crate::fields::lemma_place_of(scene.stage.children, prim, 0);
    let at = crate::fields::place_of(scene.stage.children, prim, 0);
    if at < scene.stage.children.len() {
        assert(ids_below(scene.stage.children[at].1, count));
    }
}

proof fn lemma_prim(
    a: Copied,
    b: Copied,
    scene: SceneView,
    prototypes: Seq<(PathId, PathId)>,
    layer: LayerId,
    source: PathId,
    dests: (PathId, PathId),
    w: WritingView,
    depth: nat,
    base: Seq<Seq<TokenId>>,
    tokens: Seq<Seq<char>>,
)
    requires
        alike(a.progress, b.progress, base),
        source.index < base.len(),
        scene_known(scene, tokens, base.len()),
        prototypes_below(prototypes, base.len()),
    ensures
        alike(
            prim_copied(a, scene, prototypes, layer, source, dests.0, w, depth).progress,
            prim_copied(b, scene, prototypes, layer, source, dests.1, w, depth).progress,
            base,
        ),
    decreases depth, 2nat, 0nat,
{
    lemma_own(a.progress, b.progress, scene, source, w, base);
    let (own_a, spec_a) = own_copied(a.progress, scene, source, w);
    let (own_b, spec_b) = own_copied(b.progress, scene, source, w);
    let x = (Copied { progress: own_a, ..a }, spec_a);
    let y = (Copied { progress: own_b, ..b }, spec_b);
    lemma_contents(x, y, scene, prototypes, layer, source, dests, w, depth, base, tokens);
    let names = match named(scene.sources, source) {
        Some(source) => source.property_names,
        None => seq![],
    };
    let inner_a = contents_copied(x, scene, prototypes, layer, source, dests.0, w, depth).0;
    let inner_b = contents_copied(y, scene, prototypes, layer, source, dests.1, w, depth).0;
    lemma_properties(inner_a.progress, inner_b.progress, scene, source, names, w, base);
}

proof fn lemma_contents(
    a: (Copied, crate::layer::SpecView),
    b: (Copied, crate::layer::SpecView),
    scene: SceneView,
    prototypes: Seq<(PathId, PathId)>,
    layer: LayerId,
    source: PathId,
    dests: (PathId, PathId),
    w: WritingView,
    depth: nat,
    base: Seq<Seq<TokenId>>,
    tokens: Seq<Seq<char>>,
)
    requires
        alike(a.0.progress, b.0.progress, base),
        source.index < base.len(),
        scene_known(scene, tokens, base.len()),
        prototypes_below(prototypes, base.len()),
    ensures
        alike(
            contents_copied(a, scene, prototypes, layer, source, dests.0, w, depth).0.progress,
            contents_copied(b, scene, prototypes, layer, source, dests.1, w, depth).0.progress,
            base,
        ),
    decreases depth, 1nat, 0nat,
{
    let p = a.0.progress;
    let q = b.0.progress;
    assert(p.paths[source.index as int] == base[source.index as int]);
    assert(q.paths[source.index as int] == base[source.index as int]);
    let path = crate::path::prim_display(source, p.paths, w.tokens);
    assert(path == crate::path::prim_display(source, q.paths, w.tokens));
    match named(prototypes, source) {
        Some(prototype) => {
            crate::fields::lemma_place_of(prototypes, source, 0);
            let at = crate::fields::place_of(prototypes, source, 0);
            assert(prototypes[at].1 == prototype);
            assert(p.paths[prototype.index as int] == base[prototype.index as int]);
            assert(q.paths[prototype.index as int] == base[prototype.index as int]);
        },
        None => {
            if depth > 0 {
                let expanded = scene.stage.instances.contains(source);
                let said = |c: Copied| if expanded {
                    Copied {
                        progress: Progress {
                            report: crate::flatten::values::transformed(
                                c.progress.report,
                                path,
                                crate::flatten::report::TransformationView::InstanceExpanded,
                                None,
                            ),
                            ..c.progress
                        },
                        ..c
                    }
                } else {
                    c
                };
                lemma_children_known(scene, source, tokens, base.len());
                lemma_children(
                    said(a.0),
                    said(b.0),
                    scene,
                    prototypes,
                    layer,
                    children_in(scene.stage, source),
                    dests,
                    w,
                    (depth - 1) as nat,
                    base,
                    tokens,
                );
            }
        },
    }
}

proof fn lemma_children(
    a: Copied,
    b: Copied,
    scene: SceneView,
    prototypes: Seq<(PathId, PathId)>,
    layer: LayerId,
    children: Seq<PathId>,
    dests: (PathId, PathId),
    w: WritingView,
    depth: nat,
    base: Seq<Seq<TokenId>>,
    tokens: Seq<Seq<char>>,
)
    requires
        alike(a.progress, b.progress, base),
        ids_below(children, base.len()),
        scene_known(scene, tokens, base.len()),
        prototypes_below(prototypes, base.len()),
    ensures
        alike(
            children_copied(a, scene, prototypes, layer, children, dests.0, w, depth).0.progress,
            children_copied(b, scene, prototypes, layer, children, dests.1, w, depth).0.progress,
            base,
        ),
    decreases depth, 3nat, children.len(),
{
    if children.len() > 0 {
        let rest = children.drop_last();
        assert(ids_below(rest, base.len())) by {
            assert forall|i: int| 0 <= i < rest.len() implies (#[trigger] rest[i]).index
                < base.len() by {
                assert(rest[i] == children[i]);
            }
        }
        lemma_children(a, b, scene, prototypes, layer, rest, dests, w, depth, base, tokens);
        let x = children_copied(a, scene, prototypes, layer, rest, dests.0, w, depth).0;
        let y = children_copied(b, scene, prototypes, layer, rest, dests.1, w, depth).0;
        let child = children.last();
        assert(children[children.len() - 1].index < base.len());
        let path = base[child.index as int];
        assert(x.progress.paths[child.index as int] == path);
        assert(y.progress.paths[child.index as int] == path);
        if path.len() > 0 {
            let to_x = x.progress.paths[dests.0.index as int].push(path.last());
            let to_y = y.progress.paths[dests.1.index as int].push(path.last());
            lemma_with_entry(x.progress.paths, to_x);
            lemma_with_entry(y.progress.paths, to_y);
            lemma_extends_through(
                with_entry(x.progress.paths, to_x),
                x.progress.paths,
                base,
            );
            lemma_extends_through(
                with_entry(y.progress.paths, to_y),
                y.progress.paths,
                base,
            );
            lemma_prim(
                Copied {
                    progress: Progress {
                        paths: with_entry(x.progress.paths, to_x),
                        ..x.progress
                    },
                    ..x
                },
                Copied {
                    progress: Progress {
                        paths: with_entry(y.progress.paths, to_y),
                        ..y.progress
                    },
                    ..y
                },
                scene,
                prototypes,
                layer,
                child,
                (
                    PathId { index: first_position(x.progress.paths, to_x) as usize },
                    PathId { index: first_position(y.progress.paths, to_y) as usize },
                ),
                w,
                depth,
                base,
                tokens,
            );
        }
    }
}

// ── Names ───────────────────────────────────────────────────────────────

/// Whether what is interned holds what was, the next number aside.
spec fn naming_extends(later: Naming, earlier: Naming) -> bool {
    extends(later.tokens, earlier.tokens) && extends(later.paths, earlier.paths)
}

proof fn lemma_naming_through(a: Naming, b: Naming, c: Naming)
    requires
        naming_extends(a, b),
        naming_extends(b, c),
    ensures
        naming_extends(a, c),
{
    lemma_extends_through(a.tokens, b.tokens, c.tokens);
    lemma_extends_through(a.paths, b.paths, c.paths);
}

proof fn lemma_numbered(before: Naming)
    ensures
        naming_extends(numbered(before).1, before),
        numbered(before).1.paths.len() <= usize::MAX ==> numbered(before).0.index < numbered(
            before,
        ).1.paths.len(),
{
    let name = prototype_name(before.next as nat);
    let path = seq![TokenId { index: first_position(before.tokens, name) as usize }];
    lemma_with_entry(before.tokens, name);
    lemma_with_entry(before.paths, path);
}

proof fn lemma_numbered_again(first: Naming, later: Naming)
    requires
        first.next == later.next,
        naming_extends(later, numbered(first).1),
    ensures
        numbered(later) == (
            numbered(first).0,
            (Naming { next: numbered(first).1.next, ..later }),
        ),
{
    let name = prototype_name(first.next as nat);
    let path = seq![TokenId { index: first_position(first.tokens, name) as usize }];
    lemma_entered(first.tokens, later.tokens, name);
    lemma_entered(first.paths, later.paths, path);
}

proof fn lemma_free(stage: StageView, before: Naming, tries: nat)
    ensures
        naming_extends(free_prototype(stage, before, tries).1, before),
        free_prototype(stage, before, tries).1.paths.len() <= usize::MAX ==> free_prototype(
            stage,
            before,
            tries,
        ).0.index < free_prototype(stage, before, tries).1.paths.len(),
    decreases tries,
{
    let (path, after) = numbered(before);
    lemma_numbered(before);
    if tries > 0 && named(stage.prims, path) is Some {
        lemma_free(stage, after, (tries - 1) as nat);
        lemma_naming_through(
            free_prototype(stage, after, (tries - 1) as nat).1,
            after,
            before,
        );
    }
}

proof fn lemma_free_again(stage: StageView, first: Naming, later: Naming, tries: nat)
    requires
        first.next == later.next,
        naming_extends(later, free_prototype(stage, first, tries).1),
    ensures
        free_prototype(stage, later, tries) == (
            free_prototype(stage, first, tries).0,
            (Naming { next: free_prototype(stage, first, tries).1.next, ..later }),
        ),
    decreases tries,
{
    let (path, after) = numbered(first);
    if tries > 0 && named(stage.prims, path) is Some {
        let rest = (tries - 1) as nat;
        lemma_free(stage, after, rest);
        lemma_naming_through(later, free_prototype(stage, after, rest).1, after);
        lemma_numbered_again(first, later);
        lemma_free_again(stage, after, numbered(later).1, rest);
    } else {
        lemma_numbered_again(first, later);
    }
}

/// Whether the prototypes of a sharing are interned.
spec fn sharing_known(s: Sharing) -> bool {
    let count = s.naming.paths.len();
    &&& forall|i: int|
        0 <= i < s.prototypes.len() ==> (#[trigger] s.prototypes[i]).1.index < count
    &&& forall|i: int| 0 <= i < s.found.len() ==> (#[trigger] s.found[i]).1.index < count
    &&& prototypes_below(s.shared, count)
}

proof fn lemma_shared(naming: Naming, scene: SceneView, instances: Seq<PathId>)
    requires
        instances_shared(naming, scene, instances).naming.paths.len() <= usize::MAX,
    ensures
        naming_extends(instances_shared(naming, scene, instances).naming, naming),
        sharing_known(instances_shared(naming, scene, instances)),
        forall|i: int|
            0 <= i < instances_shared(naming, scene, instances).found.len()
                ==> instances.contains(
                (#[trigger] instances_shared(naming, scene, instances).found[i]).0,
            ),
    decreases instances.len(),
{
    if instances.len() > 0 {
        let rest = instances.drop_last();
        let before = instances_shared(naming, scene, rest);
        let after = instances_shared(naming, scene, instances);
        let instance = instances.last();
        let key = crate::flatten::prototypes::instance_key_in(
            scene,
            instance,
            before.naming.paths,
        );
        lemma_free(scene.stage, before.naming, scene.stage.prims.len());
        assert(before.naming.paths.len() <= after.naming.paths.len());
        lemma_shared(naming, scene, rest);
        lemma_naming_through(after.naming, before.naming, naming);
        assert(instances[instances.len() - 1] == instance);
        assert forall|i: int| 0 <= i < after.found.len() implies instances.contains(
            (#[trigger] after.found[i]).0,
        ) by {
            if i < before.found.len() {
                assert(after.found[i] == before.found[i]);
                assert(rest.contains(before.found[i].0));
                let k = choose|k: int| 0 <= k < rest.len() && rest[k] == before.found[i].0;
                assert(instances[k] == rest[k]);
            }
        }
        match named(before.prototypes, key) {
            Some(prototype) => {
                crate::fields::lemma_place_of(before.prototypes, key, 0);
                let at = crate::fields::place_of(before.prototypes, key, 0);
                assert(before.prototypes[at].1 == prototype);
            },
            None => {},
        }
        assert(sharing_known(after)) by {
            let count = after.naming.paths.len();
            assert forall|i: int| 0 <= i < after.prototypes.len() implies (
            #[trigger] after.prototypes[i]).1.index < count by {
                if i < before.prototypes.len() {
                    assert(after.prototypes[i] == before.prototypes[i]);
                }
            }
            assert forall|i: int| 0 <= i < after.found.len() implies (
            #[trigger] after.found[i]).1.index < count by {
                if i < before.found.len() {
                    assert(after.found[i] == before.found[i]);
                }
            }
            assert forall|i: int| 0 <= i < after.shared.len() implies (
            #[trigger] after.shared[i]).1.index < count by {
                if i < before.shared.len() {
                    assert(after.shared[i] == before.shared[i]);
                }
            }
        }
    }
}

proof fn lemma_shared_again(
    first: Naming,
    later: Naming,
    scene: SceneView,
    instances: Seq<PathId>,
)
    requires
        first.next == later.next,
        instances_shared(first, scene, instances).naming.paths.len() <= usize::MAX,
        naming_extends(later, instances_shared(first, scene, instances).naming),
        ids_below(instances, first.paths.len()),
    ensures
        instances_shared(later, scene, instances) == (Sharing {
            naming: Naming {
                next: instances_shared(first, scene, instances).naming.next,
                ..later
            },
            ..instances_shared(first, scene, instances)
        }),
    decreases instances.len(),
{
    if instances.len() > 0 {
        let rest = instances.drop_last();
        let before = instances_shared(first, scene, rest);
        let after = instances_shared(first, scene, instances);
        let instance = instances.last();
        lemma_free(scene.stage, before.naming, scene.stage.prims.len());
        lemma_shared(first, scene, rest);
        assert(naming_extends(after.naming, before.naming));
        lemma_naming_through(later, after.naming, before.naming);
        lemma_naming_through(later, before.naming, first);
        assert(ids_below(rest, first.paths.len())) by {
            assert forall|i: int| 0 <= i < rest.len() implies (#[trigger] rest[i]).index
                < first.paths.len() by {
                assert(rest[i] == instances[i]);
            }
        }
        lemma_shared_again(first, later, scene, rest);
        let again = instances_shared(later, scene, rest);
        assert(instances[instances.len() - 1].index < first.paths.len());
        assert(later.paths[instance.index as int] == first.paths[instance.index as int]);
        assert(before.naming.paths[instance.index as int] == first.paths[instance.index as int]);
        assert(crate::flatten::prototypes::instance_key_in(scene, instance, before.naming.paths)
            == crate::flatten::prototypes::instance_key_in(scene, instance, again.naming.paths));
        let key = crate::flatten::prototypes::instance_key_in(
            scene,
            instance,
            before.naming.paths,
        );
        if named(before.prototypes, key) is None {
            lemma_free_again(
                scene.stage,
                before.naming,
                again.naming,
                scene.stage.prims.len(),
            );
        }
        assert(instance_shared(again, scene, instance) == instances_shared(
            later,
            scene,
            instances,
        ));
    }
}

// ── Depths ──────────────────────────────────────────────────────────────

proof fn lemma_reaches_more(stage: StageView, prim: PathId, depth: nat, more: nat)
    requires
        reaches(stage, prim, depth),
        depth <= more,
    ensures
        reaches(stage, prim, more),
    decreases depth,
{
    assert forall|i: int| 0 <= i < children_in(stage, prim).len() implies more > 0 && reaches(
        stage,
        #[trigger] children_in(stage, prim)[i],
        (more - 1) as nat,
    ) by {
        assert(reaches(stage, children_in(stage, prim)[i], (depth - 1) as nat));
        lemma_reaches_more(
            stage,
            children_in(stage, prim)[i],
            (depth - 1) as nat,
            (more - 1) as nat,
        );
    }
}

/// Every instance below a prim reaches as deep as the prim, at most, and none
/// is found deeper.
proof fn lemma_instances(stage: StageView, prim: PathId, depth: nat, more: nat)
    requires
        reaches(stage, prim, depth),
        depth <= more,
    ensures
        instances_below(stage, prim, more) == instances_below(stage, prim, depth),
        forall|p: PathId| #[trigger]
            instances_below(stage, prim, depth).contains(p) ==> reaches(stage, p, depth),
    decreases depth, 0nat, 0nat,
{
    let children = children_in(stage, prim);
    let all = instances_below(stage, prim, depth);
    if depth == 0 {
        if children.len() > 0 {
            assert(children_in(stage, prim)[0] == children[0]);
        }
        if more > 0 {
            assert(instances_among(stage, children, (more - 1) as nat) =~= seq![]);
            assert(instances_below(stage, prim, more) =~= all);
        }
    } else {
        assert forall|i: int| 0 <= i < children.len() implies reaches(
            stage,
            #[trigger] children[i],
            (depth - 1) as nat,
        ) by {
            assert(reaches(stage, children_in(stage, prim)[i], (depth - 1) as nat));
        }
        lemma_instances_among(stage, children, (depth - 1) as nat, (more - 1) as nat);
        let among = instances_among(stage, children, (depth - 1) as nat);
        assert forall|p: PathId| #[trigger] all.contains(p) implies reaches(stage, p, depth) by {
            let at = choose|at: int| 0 <= at < all.len() && all[at] == p;
            let here = all.len() - among.len();
            if at >= here {
                assert(among[at - here] == p);
                assert(among.contains(p));
                lemma_reaches_more(stage, p, (depth - 1) as nat, depth);
            }
        }
    }
}

proof fn lemma_instances_among(stage: StageView, prims: Seq<PathId>, depth: nat, more: nat)
    requires
        forall|i: int| 0 <= i < prims.len() ==> reaches(stage, #[trigger] prims[i], depth),
        depth <= more,
    ensures
        instances_among(stage, prims, more) == instances_among(stage, prims, depth),
        forall|p: PathId| #[trigger]
            instances_among(stage, prims, depth).contains(p) ==> reaches(stage, p, depth),
    decreases depth, 1nat, prims.len(),
{
    if prims.len() > 0 {
        let rest = prims.drop_last();
        assert forall|i: int| 0 <= i < rest.len() implies reaches(
            stage,
            #[trigger] rest[i],
            depth,
        ) by {
            assert(rest[i] == prims[i]);
        }
        assert(reaches(stage, prims[prims.len() - 1], depth));
        lemma_instances_among(stage, rest, depth, more);
        lemma_instances(stage, prims.last(), depth, more);
        let a = instances_among(stage, rest, depth);
        let b = instances_below(stage, prims.last(), depth);
        assert forall|p: PathId| #[trigger]
            instances_among(stage, prims, depth).contains(p) implies reaches(stage, p, depth) by {
            let all = a + b;
            let at = choose|at: int| 0 <= at < all.len() && all[at] == p;
            if at < a.len() {
                assert(a[at] == p);
                assert(a.contains(p));
            } else {
                assert(b[at - a.len()] == p);
                assert(b.contains(p));
            }
        }
    }
}

proof fn lemma_longest(earlier: Seq<Seq<TokenId>>, later: Seq<Seq<TokenId>>)
    requires
        extends(later, earlier),
    ensures
        longest(earlier) <= longest(later),
    decreases later.len(),
{
    if later.len() > earlier.len() {
        assert(extends(later.drop_last(), earlier)) by {
            assert forall|i: int| 0 <= i < earlier.len() implies #[trigger] later.drop_last()[i]
                == earlier[i] by {
                assert(later[i] == earlier[i]);
            }
        }
        lemma_longest(earlier, later.drop_last());
    } else {
        assert(later =~= earlier);
    }
}

/// The children of a prim reach where the prim does.
proof fn lemma_children_reach(stage: StageView, prim: PathId, depth: nat, more: nat)
    requires
        reaches(stage, prim, depth),
        depth <= more,
    ensures
        forall|i: int|
            0 <= i < children_in(stage, prim).len() ==> reaches(
                stage,
                #[trigger] children_in(stage, prim)[i],
                more,
            ),
{
    assert forall|i: int| 0 <= i < children_in(stage, prim).len() implies reaches(
        stage,
        #[trigger] children_in(stage, prim)[i],
        more,
    ) by {
        let child = children_in(stage, prim)[i];
        assert(child == children_in(stage, prim)[i]);
        assert(depth > 0);
        assert(reaches(stage, child, (depth - 1) as nat));
        lemma_reaches_more(stage, child, (depth - 1) as nat, more);
    }
}

// ── The whole stage ─────────────────────────────────────────────────────

proof fn lemma_prototypes(
    a: Copied,
    b: Copied,
    scene: SceneView,
    shared: Seq<(PathId, PathId)>,
    layer: LayerId,
    found: Seq<(PathId, PathId)>,
    w: WritingView,
    depth: nat,
    more: nat,
    base: Seq<Seq<TokenId>>,
    tokens: Seq<Seq<char>>,
)
    requires
        alike(a.progress, b.progress, base),
        scene_known(scene, tokens, base.len()),
        prototypes_below(shared, base.len()),
        depth <= more,
        forall|i: int|
            0 <= i < found.len() ==> reaches(scene.stage, (#[trigger] found[i]).0, depth),
    ensures
        alike(
            prototypes_copied(a, scene, shared, layer, found, w, depth).0.progress,
            prototypes_copied(b, scene, shared, layer, found, w, more).0.progress,
            base,
        ),
    decreases found.len(),
{
    if found.len() > 0 {
        let rest = found.drop_last();
        assert forall|i: int| 0 <= i < rest.len() implies reaches(
            scene.stage,
            (#[trigger] rest[i]).0,
            depth,
        ) by {
            assert(rest[i] == found[i]);
        }
        lemma_prototypes(a, b, scene, shared, layer, rest, w, depth, more, base, tokens);
        let x = prototypes_copied(a, scene, shared, layer, rest, w, depth).0;
        let y = prototypes_copied(b, scene, shared, layer, rest, w, more).0;
        let (source, prototype) = found.last();
        assert(reaches(scene.stage, found[found.len() - 1].0, depth));
        let children = children_in(scene.stage, source);
        let under = WritingView { remap: Some(Remap { from: source, to: prototype }), ..w };
        lemma_children_reach(scene.stage, source, depth, depth);
        lemma_children_known(scene, source, tokens, base.len());
        lemma_children_depth(y, scene, shared, layer, children, prototype, under, depth, more);
        lemma_children(
            x,
            y,
            scene,
            shared,
            layer,
            children,
            (prototype, prototype),
            under,
            depth,
            base,
            tokens,
        );
    }
}

proof fn lemma_roots(
    a: (Copied, Seq<TokenId>),
    b: (Copied, Seq<TokenId>),
    scene: SceneView,
    shared: Seq<(PathId, PathId)>,
    layer: LayerId,
    children: Seq<PathId>,
    w: WritingView,
    depth: nat,
    more: nat,
    base: Seq<Seq<TokenId>>,
    tokens: Seq<Seq<char>>,
)
    requires
        alike(a.0.progress, b.0.progress, base),
        scene_known(scene, tokens, base.len()),
        prototypes_below(shared, base.len()),
        ids_below(children, base.len()),
        depth <= more,
        forall|i: int|
            0 <= i < children.len() ==> reaches(scene.stage, #[trigger] children[i], depth),
    ensures
        alike(
            roots_copied(a, scene, shared, layer, children, w, depth).0.progress,
            roots_copied(b, scene, shared, layer, children, w, more).0.progress,
            base,
        ),
    decreases children.len(),
{
    if children.len() > 0 {
        let rest = children.drop_last();
        assert forall|i: int| 0 <= i < rest.len() implies reaches(
            scene.stage,
            #[trigger] rest[i],
            depth,
        ) && rest[i].index < base.len() by {
            assert(rest[i] == children[i]);
        }
        lemma_roots(a, b, scene, shared, layer, rest, w, depth, more, base, tokens);
        let x = roots_copied(a, scene, shared, layer, rest, w, depth).0;
        let y = roots_copied(b, scene, shared, layer, rest, w, more).0;
        let child = children[children.len() - 1];
        assert(child.index < base.len() && reaches(scene.stage, child, depth));
        crate::flatten::whole::law_depth_suffices(
            y,
            scene,
            shared,
            layer,
            child,
            child,
            w,
            depth,
            more,
        );
        lemma_prim(
            x,
            y,
            scene,
            shared,
            layer,
            child,
            (child, child),
            w,
            depth,
            base,
            tokens,
        );
    }
}

/// A stage can be flattened again with the names and the paths that a flatten
/// left interned, and the second flatten reports the same.
pub proof fn law_flattening_again_reports_the_same(
    scene: SceneView,
    root: LayerView,
    id: LayerId,
    instancing: Instancing,
    anchoring: bool,
    times: Times,
    tokens: Seq<Seq<char>>,
    paths: Seq<Seq<TokenId>>,
)
    requires
        can_flatten(scene, instancing, tokens, paths),
    ensures
        ({
            let first = flattened(scene, root, id, instancing, anchoring, times, tokens, paths);
            let again = flattened(
                scene,
                root,
                id,
                instancing,
                anchoring,
                times,
                first.tokens,
                first.paths,
            );
            &&& scene_known(scene, first.tokens, first.paths.len())
            &&& within_paths(scene.stage, first.paths)
            &&& again.report == first.report
        }),
{
    let none: Seq<TokenId> = seq![];
    let first = flattened(scene, root, id, instancing, anchoring, times, tokens, paths);
    let pseudo_root = top(paths);
    let naming = Naming { tokens, paths: with_entry(paths, none), next: 1 };
    let shares = sharing(scene, instancing, naming, pseudo_root);
    let base = shares.naming.paths;
    let reach = longest(naming.paths);
    let instances = instances_below(scene.stage, pseudo_root, reach);
    lemma_with_entry(paths, none);
    assert(longest(naming.paths) == longest(paths)) by {
        if naming.paths != paths {
            assert(naming.paths.drop_last() =~= paths);
        }
    }
    lemma_scene_tokens(scene, tokens, tokens, paths.len(), naming.paths.len());
    match instancing {
        Instancing::Preserve => {
            lemma_shared(naming, scene, instances);
        },
        Instancing::Expand => {},
    }
    assert(naming_extends(shares.naming, naming) && sharing_known(shares));
    assert(pseudo_root.index < naming.paths.len());
    lemma_scene_tokens(scene, tokens, tokens, naming.paths.len(), base.len());
    lemma_instances(scene.stage, pseudo_root, reach, reach);
    lemma_instances_known(scene, pseudo_root, reach, naming.paths.len(), tokens);
    assert(ids_below(instances, naming.paths.len())) by {
        assert forall|i: int| 0 <= i < instances.len() implies (#[trigger] instances[i]).index
            < naming.paths.len() by {
            assert(instances.contains(instances[i]));
        }
    }
    let w = WritingView { tokens: shares.naming.tokens, times, anchoring, remap: None };
    let depth = longest(base);
    lemma_longest(naming.paths, base);
    let report = crate::flatten::whole::layer_reported(root.metadata, anchoring);
    let start = Copied { progress: Progress { paths: base, report }, specs: seq![] };
    let children = children_in(scene.stage, pseudo_root);
    lemma_children_known(scene, pseudo_root, tokens, base.len());
    lemma_children_reach(scene.stage, pseudo_root, reach, depth);
    assert forall|i: int| 0 <= i < children.len() implies reaches(
        scene.stage,
        #[trigger] children[i],
        depth,
    ) by {
        assert(children_in(scene.stage, pseudo_root)[i] == children[i]);
    }
    assert forall|i: int| 0 <= i < shares.found.len() implies reaches(
        scene.stage,
        (#[trigger] shares.found[i]).0,
        depth,
    ) by {
        assert(instances.contains(shares.found[i].0));
        lemma_reaches_more(scene.stage, shares.found[i].0, reach, depth);
    }
    lemma_prototypes(
        start,
        start,
        scene,
        shares.shared,
        id,
        shares.found,
        w,
        depth,
        depth,
        base,
        tokens,
    );
    let copied = prototypes_copied(start, scene, shares.shared, id, shares.found, w, depth);
    lemma_roots(
        copied,
        copied,
        scene,
        shares.shared,
        id,
        children,
        w,
        depth,
        depth,
        base,
        tokens,
    );
    assert(extends(first.paths, base));
    lemma_extends_through(first.paths, base, naming.paths);
    lemma_entered(paths, first.paths, none);
    assert(top(first.paths) == pseudo_root);
    let later = Naming { tokens: first.tokens, paths: first.paths, next: 1 };
    lemma_longest(naming.paths, first.paths);
    lemma_longest(base, first.paths);
    lemma_reaches_more(scene.stage, pseudo_root, reach, longest(first.paths));
    lemma_scene_tokens(scene, tokens, first.tokens, paths.len(), first.paths.len());
    lemma_instances(scene.stage, pseudo_root, reach, longest(first.paths));
    match instancing {
        Instancing::Preserve => {
            lemma_shared_again(naming, later, scene, instances);
        },
        Instancing::Expand => {},
    }
    let more = longest(first.paths);
    let start_again = Copied {
        progress: Progress { paths: first.paths, report },
        specs: seq![],
    };
    lemma_prototypes(
        start,
        start_again,
        scene,
        shares.shared,
        id,
        shares.found,
        w,
        depth,
        more,
        base,
        tokens,
    );
    let copied_again = prototypes_copied(
        start_again,
        scene,
        shares.shared,
        id,
        shares.found,
        w,
        more,
    );
    lemma_roots(
        copied,
        copied_again,
        scene,
        shares.shared,
        id,
        children,
        w,
        depth,
        more,
        base,
        tokens,
    );
}

/// Where a flatten is refused, the same stage can be flattened again with the
/// requirements relaxed to accept what was unmet. That leaves nothing unmet,
/// and reports the same losses, in the same order.
pub proof fn law_relaxed_flatten_reports_the_same_losses(
    scene: SceneView,
    root: LayerView,
    id: LayerId,
    requirements: FlattenRequirements<'_>,
    times: Times,
    tokens: Seq<Seq<char>>,
    paths: Seq<Seq<TokenId>>,
)
    requires
        can_flatten(scene, requirements.instancing, tokens, paths),
    ensures
        ({
            let first = flattened(
                scene,
                root,
                id,
                requirements.instancing,
                requirements.asset_paths.reports_unanchored(),
                times,
                tokens,
                paths,
            );
            let less = relaxed(requirements, unmet_by(first.report.findings, requirements));
            let again = flattened(
                scene,
                root,
                id,
                less.instancing,
                less.asset_paths.reports_unanchored(),
                times,
                first.tokens,
                first.paths,
            );
            &&& scene_known(scene, first.tokens, first.paths.len())
            &&& within_paths(scene.stage, first.paths)
            &&& unmet_by(again.report.findings, less).len() == 0
            &&& in_category(again.report.findings, FindingCategory::Lost) == in_category(
                first.report.findings,
                FindingCategory::Lost,
            )
        }),
{
    let anchoring = requirements.asset_paths.reports_unanchored();
    let first = flattened(
        scene,
        root,
        id,
        requirements.instancing,
        anchoring,
        times,
        tokens,
        paths,
    );
    let unmet = unmet_by(first.report.findings, requirements);
    law_accepting_accepts(first.report.findings, requirements);
    if is_unmet(unmet, Requirement::AnchoredAssetPaths) {
        lemma_anchoring_was_required(first.report.findings, requirements);
    }
    law_flattening_again_reports_the_same(
        scene,
        root,
        id,
        requirements.instancing,
        anchoring,
        times,
        tokens,
        paths,
    );
}

} // verus!
