//! How a composed prim's own opinions are written, and which instances share
//! a prototype.

use crate::arrays::fill_of;
use crate::fields::{fields_view, named, FieldEntry, FieldValue, FieldView};
use crate::flatten::properties::{
    by_text, chain_known, default_retimed, field_assets, field_preserved, finding_source,
    note_retimed, opinion_known, opinion_source, preserve_field, sort_tokens, Progress, Writing,
    WritingView,
};
use crate::flatten::report::{
    copy_source, selections_view, FindingKind, FlattenReport, Loss, Transformation,
    TransformationView,
};
use crate::flatten::values::{
    field_value, field_written, is_explicit, is_explicit_field, keeps_names, lost, note,
    note_assets, remap_known, transformed,
};
use crate::interner::{extends, lemma_first_position_unique, with_entry, TokenId, TokenInterner};
use crate::opinion::{opinions_view, Opinion, OpinionValueView, OpinionView};
use crate::path::{PathId, PathInterner};
use crate::prim_index::{ArcKind, LayerId, LayerOffset};
use crate::prim_index_graph::model::{in_graph, node_at, Graph};
use crate::prim_index_graph::{NodeId, PrimIndexGraph};
use crate::resolution::{
    default_fits, fold_ref, resolve_value, resolved_value, ExpressionFold, FoldView, ResolvedView,
};
use crate::sorting::{sort_stable, stable_sorted};
use crate::spec_path::{components_known, SpecComponent, SpecPath, SpecPathView};
use crate::stage::{Lookup, PrimIndex, PrimView, ProvenanceView, StageView};
use crate::stage_time::{all_in_stage_time, lemma_read_fits, opinions_in_stage_time};
use crate::text::{same_text, text};
use vstd::prelude::*;

verus! {

// ── Metadata ────────────────────────────────────────────────────────────

/// Whether a prim metadata field holds value clips.
pub open spec fn is_clip_name(name: Seq<char>) -> bool {
    ||| name == "clips"@
    ||| name == "clipSets"@
    ||| name == "clipActive"@
    ||| name == "clipAssetPaths"@
    ||| name == "clipManifestAssetPath"@
    ||| name == "clipPrimPath"@
    ||| name == "clipTemplateAssetPath"@
    ||| name == "clipTemplateEndTime"@
    ||| name == "clipTemplateStartTime"@
    ||| name == "clipTemplateStride"@
    ||| name == "clipTemplateActiveOffset"@
    ||| name == "clipTimes"@
}

/// Whether a prim metadata field holds value clips.
pub fn is_clip_field(name: &str) -> (yes: bool)
    ensures
        yes == is_clip_name(name@),
{
    same_text(name, "clips") || same_text(name, "clipSets") || same_text(name, "clipActive")
        || same_text(name, "clipAssetPaths") || same_text(name, "clipManifestAssetPath")
        || same_text(name, "clipPrimPath") || same_text(name, "clipTemplateAssetPath")
        || same_text(name, "clipTemplateEndTime") || same_text(name, "clipTemplateStartTime")
        || same_text(name, "clipTemplateStride") || same_text(name, "clipTemplateActiveOffset")
        || same_text(name, "clipTimes")
}

/// What the path expressions of a prim's fields compose to.
pub type FoldTable = Vec<(TokenId, ExpressionFold)>;

/// The values of a table of folds.
pub open spec fn folds_view(folds: Seq<(TokenId, ExpressionFold)>) -> Seq<(TokenId, FoldView)> {
    folds.map_values(|f: (TokenId, ExpressionFold)| (f.0, f.1@))
}

/// What the path expressions of a field compose to, where it holds any.
pub fn find_fold(folds: &FoldTable, name: TokenId) -> (out: Option<&ExpressionFold>)
    ensures
        fold_ref(out) == named(folds_view(folds@), name),
{
    let ghost all = folds_view(folds@);
    let mut i: usize = 0;
    while i < folds.len()
        invariant
            i <= folds@.len(),
            all == folds_view(folds@),
            forall|k: int| 0 <= k < i ==> (#[trigger] all[k]).0 != name,
        decreases folds@.len() - i,
    {
        if folds[i].0 == name {
            proof {
                crate::fields::lemma_place_of_unique(all, name, i as int);
                assert(all[i as int].1 == folds@[i as int].1@);
            }
            return Some(&folds[i].1);
        }
        i = i + 1;
    }
    proof {
        crate::fields::lemma_place_of_unique(all, name, i as int);
    }
    None
}

/// How far writing a prim's metadata has come: the fields written, and whether
/// its value clips are reported.
#[verifier::ext_equal]
pub struct Fields {
    pub progress: Progress,
    pub fields: Seq<(TokenId, FieldView)>,
    pub clips_noted: bool,
}

/// The field that an opinion authors.
pub open spec fn authored_field(opinion: OpinionView) -> Option<FieldView> {
    match opinion.value {
        OpinionValueView::Field(field) => Some(field),
        OpinionValueView::Property(_) => None,
    }
}

/// Writing one metadata field of a prim.
pub open spec fn field_copied(
    before: Fields,
    prim: PrimView,
    folds: Seq<(TokenId, FoldView)>,
    key: TokenId,
    path: Seq<char>,
    w: WritingView,
) -> Fields {
    let opinions = match named(prim.metadata, key) {
        Some(opinions) => opinions,
        None => seq![],
    };
    let source = if opinions.len() > 0 {
        Some(opinion_source(opinions[0], false, w.tokens))
    } else {
        None
    };
    let report = before.progress.report;
    if is_clip_name(w.tokens[key.index as int]) {
        if before.clips_noted {
            before
        } else {
            Fields {
                progress: Progress {
                    report: lost(report, path, Loss::ValueClips, source),
                    ..before.progress
                },
                clips_noted: true,
                ..before
            }
        }
    } else {
        let read = all_in_stage_time(opinions, prim.property_type(key), w.times);
        match resolved_value(read, named(folds, key), fill_of(prim.property_type(key))) {
            None => before,
            Some(outcome) => {
                let authored = authored_field(opinions[0]);
                let said = if authored matches Some(field) && !is_explicit_field(field) {
                    transformed(
                        report,
                        path,
                        TransformationView::ListOpMadeExplicit {
                            field: w.tokens[key.index as int],
                        },
                        source,
                    )
                } else if default_retimed(opinions[0], w.times) {
                    transformed(
                        report,
                        path,
                        TransformationView::TimeCodesRetimed { offset: opinions[0].layer_offset },
                        source,
                    )
                } else {
                    field_preserved(report)
                };
                let field = field_written(
                    outcome.value,
                    authored,
                    w.remap,
                    before.progress.paths,
                );
                Fields {
                    progress: Progress {
                        paths: field.1,
                        report: field_assets(said, path, field.0, w.anchoring, source),
                    },
                    fields: before.fields.push((key, field.0)),
                    ..before
                }
            },
        }
    }
}

/// Writing metadata fields of a prim.
pub open spec fn fields_copied(
    before: Progress,
    prim: PrimView,
    folds: Seq<(TokenId, FoldView)>,
    keys: Seq<TokenId>,
    path: Seq<char>,
    w: WritingView,
) -> Fields
    decreases keys.len(),
{
    if keys.len() == 0 {
        Fields { progress: before, fields: seq![], clips_noted: false }
    } else {
        field_copied(
            fields_copied(before, prim, folds, keys.drop_last(), path, w),
            prim,
            folds,
            keys.last(),
            path,
            w,
        )
    }
}

/// The names of a list of chains.
pub open spec fn chain_names(chains: Seq<(TokenId, Seq<OpinionView>)>) -> Seq<TokenId> {
    chains.map_values(|c: (TokenId, Seq<OpinionView>)| c.0)
}

/// Writing the metadata of a prim, in the order of the names.
pub open spec fn prim_metadata_copied(
    before: Progress,
    prim: PrimView,
    folds: Seq<(TokenId, FoldView)>,
    path: Seq<char>,
    w: WritingView,
) -> Fields {
    fields_copied(
        before,
        prim,
        folds,
        stable_sorted(chain_names(prim.metadata), by_text(w.tokens)),
        path,
        w,
    )
}

/// Whether what writing a list of chains reads is known.
pub open spec fn chains_known(
    chains: Seq<(TokenId, Seq<OpinionView>)>,
    tokens: Seq<Seq<char>>,
) -> bool {
    forall|i: int|
        0 <= i < chains.len() ==> (#[trigger] chains[i]).0.index < tokens.len() && chain_known(
            chains[i].1,
            tokens,
        )
}

/// Whether what the chains of a list compose fits in memory.
pub open spec fn chains_fit(prim: PrimView, chains: Seq<(TokenId, Seq<OpinionView>)>) -> bool {
    forall|i: int|
        0 <= i < chains.len() ==> default_fits(
            (#[trigger] chains[i]).1,
            None,
            fill_of(prim.property_type(chains[i].0)) is Some,
        )
}

/// Whether every site of a graph is known.
pub open spec fn sites_known(graph: Graph, tokens: Seq<Seq<char>>) -> bool {
    forall|i: int|
        0 <= i < graph.len() ==> components_known((#[trigger] graph[i]).arc.site.components, tokens)
}

/// Whether what writing a prim reads is known and fits in memory.
pub open spec fn prim_known(prim: PrimView, tokens: Seq<Seq<char>>) -> bool {
    &&& chains_known(prim.metadata, tokens)
    &&& chains_known(prim.properties, tokens)
    &&& sites_known(prim.graph, tokens)
    &&& chains_fit(prim, prim.metadata)
    &&& chains_fit(prim, prim.properties)
}

/// Writes one metadata field of a prim.
fn copy_field(
    fields: &mut Vec<FieldEntry>,
    clips_noted: &mut bool,
    report: &mut FlattenReport,
    paths: &mut PathInterner,
    prim: &PrimIndex,
    folds: &FoldTable,
    key: TokenId,
    path: &str,
    writing: &Writing<'_>,
)
    requires
        chains_known(prim@.metadata, writing.tokens@),
        chains_fit(prim@, prim@.metadata),
        key.index < writing.tokens@.len(),
        remap_known(writing.remap, old(paths)@.len()),
    ensures
        (Fields {
            progress: Progress { paths: final(paths)@, report: final(report)@ },
            fields: fields_view(final(fields)@),
            clips_noted: *final(clips_noted),
        }) == field_copied(
            Fields {
                progress: Progress { paths: old(paths)@, report: old(report)@ },
                fields: fields_view(old(fields)@),
                clips_noted: *old(clips_noted),
            },
            prim@,
            folds_view(folds@),
            key,
            path@,
            writing@,
        ),
        extends(final(paths)@, old(paths)@),
        keeps_names(final(paths)@, old(paths)@),
{
    let none: Vec<Opinion> = Vec::new();
    assert(opinions_view(none@) =~= seq![]);
    let opinions = match prim.metadata_opinions(key) {
        Some(opinions) => opinions,
        None => &none,
    };
    let ghost all = opinions_view(opinions@);
    proof {
        crate::fields::lemma_place_of(prim@.metadata, key, 0);
        assert(chain_known(all, writing.tokens@));
        assert(default_fits(all, None, fill_of(prim@.property_type(key)) is Some));
    }
    let source = if opinions.len() > 0 {
        assert(all[0] == opinions@[0]@);
        assert(opinion_known(all[0], writing.tokens@));
        Some(finding_source(&opinions[0], false, writing.tokens))
    } else {
        None
    };
    if is_clip_field(writing.tokens.resolve(key)) {
        if !*clips_noted {
            note(report, path, FindingKind::Lost(Loss::ValueClips), source);
            *clips_noted = true;
        }
        return ;
    }
    let fold = find_fold(folds, key);
    proof {
        lemma_read_fits(all, prim@.property_type(key), writing.times@, None);
    }
    let read = opinions_in_stage_time(opinions, prim.property_type_for(key), writing.times);
    let resolved = match resolve_value(read.list(), fold, prim.property_type_for(key)) {
        Some((resolved, _)) => resolved,
        None => {
            return ;
        },
    };
    assert(opinions@.len() > 0);
    let strongest = &opinions[0];
    let authored = strongest.value.as_field();
    let is_listed = match authored {
        Some(field) => !is_explicit(field),
        None => false,
    };
    if is_listed {
        note(
            report,
            path,
            FindingKind::Transformed(
                Transformation::ListOpMadeExplicit { field: text(writing.tokens.resolve(key)) },
            ),
            copy_source(&source),
        );
    } else if note_retimed(report, path, strongest, &source, writing.times) {
        preserve_field(report);
    }
    let value = field_value(resolved, authored, writing.remap, paths);
    match &value {
        FieldValue::Value(value) => {
            note_assets(report, path, value, writing.anchoring, &source);
        },
        FieldValue::List(_, _) => {},
    }
    let ghost had = fields@;
    let entry = FieldEntry { name: key, value };
    fields.push(entry);
    assert(fields_view(fields@) =~= fields_view(had).push((key, entry.value@)));
}

/// Writes the composed metadata of a prim.
pub fn copy_prim_metadata(
    report: &mut FlattenReport,
    paths: &mut PathInterner,
    prim: &PrimIndex,
    folds: &FoldTable,
    path: &str,
    writing: &Writing<'_>,
) -> (fields: Vec<FieldEntry>)
    requires
        prim_known(prim@, writing.tokens@),
        remap_known(writing.remap, old(paths)@.len()),
    ensures
        ({
            let done = prim_metadata_copied(
                Progress { paths: old(paths)@, report: old(report)@ },
                prim@,
                folds_view(folds@),
                path@,
                writing@,
            );
            &&& done.progress == (Progress { paths: final(paths)@, report: final(report)@ })
            &&& done.fields == fields_view(fields@)
        }),
        extends(final(paths)@, old(paths)@),
        keeps_names(final(paths)@, old(paths)@),
{
    let ghost before = Progress { paths: paths@, report: report@ };
    let mut keys: Vec<TokenId> = Vec::new();
    let mut i: usize = 0;
    while i < prim.metadata.len()
        invariant
            i <= prim.metadata@.len(),
            chains_known(prim@.metadata, writing.tokens@),
            chains_fit(prim@, prim@.metadata),
            keys@ == chain_names(prim@.metadata).take(i as int),
            forall|k: int|
                0 <= k < keys@.len() ==> (#[trigger] keys@[k]).index < writing.tokens@.len(),
        decreases prim.metadata@.len() - i,
    {
        proof {
            assert(prim@.metadata[i as int].0 == prim.metadata@[i as int].0);
        }
        keys.push(prim.metadata[i].0);
        assert(keys@ =~= chain_names(prim@.metadata).take(i + 1));
        i = i + 1;
    }
    assert(chain_names(prim@.metadata).take(i as int) =~= chain_names(prim@.metadata));
    sort_tokens(&mut keys, writing.tokens);
    let mut fields: Vec<FieldEntry> = Vec::new();
    let mut clips_noted = false;
    i = 0;
    assert(keys@.take(0) =~= seq![]);
    assert(fields_view(fields@) =~= seq![]);
    while i < keys.len()
        invariant
            i <= keys@.len(),
            chains_known(prim@.metadata, writing.tokens@),
            chains_fit(prim@, prim@.metadata),
            forall|k: int|
                0 <= k < keys@.len() ==> (#[trigger] keys@[k]).index < writing.tokens@.len(),
            remap_known(writing.remap, before.paths.len()),
            extends(paths@, before.paths),
            keeps_names(paths@, before.paths),
            (Fields {
                progress: Progress { paths: paths@, report: report@ },
                fields: fields_view(fields@),
                clips_noted,
            }) == fields_copied(
                before,
                prim@,
                folds_view(folds@),
                keys@.take(i as int),
                path@,
                writing@,
            ),
        decreases keys@.len() - i,
    {
        proof {
            assert(keys@.take(i + 1).drop_last() =~= keys@.take(i as int));
            assert(keys@.take(i + 1).last() == keys@[i as int]);
        }
        let key = keys[i];
        copy_field(
            &mut fields,
            &mut clips_noted,
            report,
            paths,
            prim,
            folds,
            key,
            path,
            writing,
        );
        i = i + 1;
    }
    assert(keys@.take(i as int) =~= keys@);
    fields
}

// ── Variant selections ──────────────────────────────────────────────────

/// The variant that a node selects, where it is a variant arc authored at a
/// namespace depth.
pub open spec fn node_selection(
    graph: Graph,
    id: NodeId,
    depth: u16,
    tokens: Seq<Seq<char>>,
) -> Option<(Seq<char>, Seq<char>)> {
    let node = node_at(graph, id);
    let components = node.arc.site.components;
    if !in_graph(graph, id) || node.arc.arc_kind != ArcKind::Variants || node.arc.namespace_depth
        != depth || components.len() == 0 {
        None
    } else {
        match components.last() {
            SpecComponent::VariantSelection { set, variant } => Some(
                (tokens[set.index as int], tokens[variant.index as int]),
            ),
            SpecComponent::Prim(_) => None,
        }
    }
}

/// The variant selections that the nodes of a list make at a namespace depth,
/// each once, in order.
pub open spec fn selections_baked(
    graph: Graph,
    order: Seq<NodeId>,
    depth: u16,
    tokens: Seq<Seq<char>>,
) -> Seq<(Seq<char>, Seq<char>)>
    decreases order.len(),
{
    if order.len() == 0 {
        seq![]
    } else {
        let earlier = selections_baked(graph, order.drop_last(), depth, tokens);
        match node_selection(graph, order.last(), depth, tokens) {
            Some(selection) => with_entry(earlier, selection),
            None => earlier,
        }
    }
}

/// Enters a selection, unless it is there.
fn enter_selection(list: &mut Vec<(String, String)>, set: &str, variant: &str)
    ensures
        selections_view(final(list)@) == with_entry(selections_view(old(list)@), (set@, variant@)),
{
    let ghost all = selections_view(list@);
    let mut i: usize = 0;
    while i < list.len()
        invariant
            i <= list@.len(),
            list@ == old(list)@,
            all == selections_view(list@),
            forall|k: int| 0 <= k < i ==> all[k] != (set@, variant@),
        decreases list@.len() - i,
    {
        assert(all[i as int] == (list@[i as int].0@, list@[i as int].1@));
        if same_text(list[i].0.as_str(), set) && same_text(list[i].1.as_str(), variant) {
            proof {
                lemma_first_position_unique(all, (set@, variant@), i as int);
            }
            return ;
        }
        i = i + 1;
    }
    proof {
        lemma_first_position_unique(all, (set@, variant@), i as int);
    }
    let pair = (text(set), text(variant));
    list.push(pair);
    assert(selections_view(list@) =~= all.push((set@, variant@)));
}

/// The variant selections whose arcs are authored at a prim, strongest first,
/// as names; `order` lists the nodes of the prim's graph in strength order.
pub fn baked_selections(
    graph: &PrimIndexGraph,
    order: &Vec<NodeId>,
    depth: u16,
    tokens: &TokenInterner,
) -> (out: Vec<(String, String)>)
    requires
        sites_known(graph@, tokens@),
    ensures
        selections_view(out@) == selections_baked(graph@, order@, depth, tokens@),
{
    let mut out: Vec<(String, String)> = Vec::new();
    let mut i: usize = 0;
    assert(order@.take(0) =~= seq![]);
    assert(selections_view(out@) =~= seq![]);
    while i < order.len()
        invariant
            i <= order@.len(),
            sites_known(graph@, tokens@),
            selections_view(out@) == selections_baked(
                graph@,
                order@.take(i as int),
                depth,
                tokens@,
            ),
        decreases order@.len() - i,
    {
        let id = order[i];
        proof {
            assert(order@.take(i + 1).drop_last() =~= order@.take(i as int));
            assert(order@.take(i + 1).last() == id);
        }
        match graph.node(id) {
            Some(node) => {
                let components = node.site().components();
                let is_variant = match node.arc_kind() {
                    ArcKind::Variants => true,
                    _ => false,
                };
                if is_variant && node.namespace_depth() == depth && components.len() > 0 {
                    proof {
                        assert(components_known(graph@[id.0 as int].arc.site.components, tokens@));
                        let last = components@[components@.len() - 1];
                        assert(last == components@.last());
                        assert(crate::spec_path::component_known(last, tokens@));
                    }
                    match components[components.len() - 1] {
                        SpecComponent::VariantSelection { set, variant } => {
                            enter_selection(&mut out, tokens.resolve(set), tokens.resolve(variant));
                        },
                        SpecComponent::Prim(_) => {},
                    }
                }
            },
            None => {},
        }
        i = i + 1;
    }
    assert(order@.take(i as int) =~= order@);
    out
}

// ── Instances ───────────────────────────────────────────────────────────

/// An arc that brings in the descendants of an instance.
#[derive(Debug)]
pub struct InstanceArc {
    pub kind: ArcKind,
    pub layer: LayerId,
    pub site: SpecPath,
    pub offset: LayerOffset,
}

/// The mathematical value of an [`InstanceArc`].
pub struct InstanceArcView {
    pub kind: ArcKind,
    pub layer: LayerId,
    pub site: SpecPathView,
    pub offset: LayerOffset,
}

impl View for InstanceArc {
    type V = InstanceArcView;

    open spec fn view(&self) -> InstanceArcView {
        InstanceArcView {
            kind: self.kind,
            layer: self.layer,
            site: self.site@,
            offset: self.offset,
        }
    }
}

/// What makes two instances share a prototype: the arcs that bring in their
/// descendants, and their variant selections.
#[derive(Debug)]
pub struct InstanceKey {
    pub arcs: Vec<InstanceArc>,
    /// The selections, in the order of their sets.
    pub selections: Vec<(TokenId, TokenId)>,
}

/// The mathematical value of an [`InstanceKey`].
#[verifier::ext_equal]
pub struct InstanceKeyView {
    pub arcs: Seq<InstanceArcView>,
    pub selections: Seq<(TokenId, TokenId)>,
}

/// The arcs of a list.
pub open spec fn arcs_view(arcs: Seq<InstanceArc>) -> Seq<InstanceArcView> {
    arcs.map_values(|a: InstanceArc| a@)
}

impl View for InstanceKey {
    type V = InstanceKeyView;

    open spec fn view(&self) -> InstanceKeyView {
        InstanceKeyView { arcs: arcs_view(self.arcs@), selections: self.selections@ }
    }
}

impl InstanceArc {
    fn same(&self, other: &InstanceArc) -> (yes: bool)
        ensures
            yes == (self@ == other@),
    {
        self.kind == other.kind && self.layer == other.layer && self.site.same(&other.site)
            && self.offset == other.offset
    }
}

impl InstanceKey {
    /// Whether two instances share a prototype.
    pub fn same(&self, other: &InstanceKey) -> (yes: bool)
        ensures
            yes == (self@ == other@),
    {
        assert(self@.arcs.len() == self.arcs@.len() && other@.arcs.len() == other.arcs@.len());
        if self.arcs.len() != other.arcs.len() || self.selections.len() != other.selections.len() {
            return false;
        }
        let mut i: usize = 0;
        while i < self.arcs.len()
            invariant
                i <= self.arcs@.len() == other.arcs@.len(),
                forall|k: int| 0 <= k < i ==> #[trigger] self@.arcs[k] == other@.arcs[k],
            decreases self.arcs@.len() - i,
        {
            assert(self@.arcs[i as int] == self.arcs@[i as int]@);
            assert(other@.arcs[i as int] == other.arcs@[i as int]@);
            if !self.arcs[i].same(&other.arcs[i]) {
                assert(self@.arcs[i as int] != other@.arcs[i as int]);
                return false;
            }
            i = i + 1;
        }
        assert(self@.arcs =~= other@.arcs);
        i = 0;
        while i < self.selections.len()
            invariant
                i <= self.selections@.len() == other.selections@.len(),
                forall|k: int| 0 <= k < i ==> self.selections@[k] == other.selections@[k],
            decreases self.selections@.len() - i,
        {
            let a = self.selections[i];
            let b = other.selections[i];
            if a.0 != b.0 || a.1 != b.1 {
                assert(self.selections@[i as int] != other.selections@[i as int]);
                return false;
            }
            i = i + 1;
        }
        assert(self.selections@ =~= other.selections@);
        true
    }
}

/// Whether the arc to a node is authored at a prim of a namespace depth, so
/// that its descendants come through the arc.
pub open spec fn is_instanceable(graph: Graph, id: NodeId, depth: u16) -> bool {
    id != NodeId(0) && in_graph(graph, id) && node_at(graph, id).arc.namespace_depth >= depth
}

/// Whether a node is instanceable and no node right above it is.
pub open spec fn starts_instance(graph: Graph, id: NodeId, depth: u16) -> bool {
    is_instanceable(graph, id, depth) && !(node_at(graph, id).parent matches Some(parent)
        && is_instanceable(graph, parent, depth))
}

/// The arcs of an instance: those of the nodes of a list that are authored at
/// the instance, beneath nodes that are not.
pub open spec fn instance_arcs(
    graph: Graph,
    offsets: Seq<Option<LayerOffset>>,
    order: Seq<NodeId>,
    depth: u16,
) -> Seq<InstanceArcView>
    decreases order.len(),
{
    if order.len() == 0 {
        seq![]
    } else {
        let earlier = instance_arcs(graph, offsets, order.drop_last(), depth);
        let id = order.last();
        if starts_instance(graph, id, depth) {
            let arc = node_at(graph, id).arc;
            earlier.push(
                InstanceArcView {
                    kind: arc.arc_kind,
                    layer: arc.layer_stack,
                    site: arc.site,
                    offset: match offsets[id.0 as int] {
                        Some(offset) => offset,
                        None => LayerOffset::spec_identity(),
                    },
                },
            )
        } else {
            earlier
        }
    }
}

/// The order of selections.
pub open spec fn selection_before() -> spec_fn((TokenId, TokenId), (TokenId, TokenId)) -> bool {
    |a: (TokenId, TokenId), b: (TokenId, TokenId)|
        a.0.index < b.0.index || (a.0.index == b.0.index && a.1.index < b.1.index)
}

/// The key of an instance.
pub open spec fn key_of_instance(
    graph: Graph,
    offsets: Seq<Option<LayerOffset>>,
    order: Seq<NodeId>,
    depth: u16,
    selections: Seq<(TokenId, TokenId)>,
) -> InstanceKeyView {
    InstanceKeyView {
        arcs: instance_arcs(graph, offsets, order, depth),
        selections: stable_sorted(selections, selection_before()),
    }
}

/// The key of an instance; `order` lists the nodes of its graph in strength
/// order, `selections` its variant selections.
pub fn instance_key(
    graph: &PrimIndexGraph,
    order: &Vec<NodeId>,
    depth: u16,
    selections: &Vec<(TokenId, TokenId)>,
) -> (out: InstanceKey)
    ensures
        out@ == key_of_instance(graph@, graph.offsets(), order@, depth, selections@),
{
    let ghost g = graph@;
    let mut arcs: Vec<InstanceArc> = Vec::new();
    let mut i: usize = 0;
    assert(order@.take(0) =~= seq![]);
    assert(arcs_view(arcs@) =~= seq![]);
    while i < order.len()
        invariant
            i <= order@.len(),
            g == graph@,
            arcs_view(arcs@) == instance_arcs(g, graph.offsets(), order@.take(i as int), depth),
        decreases order@.len() - i,
    {
        let id = order[i];
        proof {
            assert(order@.take(i + 1).drop_last() =~= order@.take(i as int));
            assert(order@.take(i + 1).last() == id);
        }
        match graph.node(id) {
            Some(node) => {
                if id != NodeId::root() && node.namespace_depth() >= depth {
                    let mut is_beneath = false;
                    match node.parent() {
                        Some(parent) => {
                            if parent != NodeId::root() {
                                match graph.node(parent) {
                                    Some(above) => {
                                        is_beneath = above.namespace_depth() >= depth;
                                    },
                                    None => {},
                                }
                            }
                        },
                        None => {},
                    }
                    if !is_beneath {
                        let ghost had = arcs@;
                        let arc = InstanceArc {
                            kind: node.arc_kind(),
                            layer: node.layer_stack(),
                            site: node.site().copy(),
                            offset: node.layer_offset(),
                        };
                        arcs.push(arc);
                        assert(arcs_view(arcs@) =~= arcs_view(had).push(arc@));
                    }
                }
            },
            None => {},
        }
        i = i + 1;
    }
    assert(order@.take(i as int) =~= order@);
    let mut sorted: Vec<(TokenId, TokenId)> = Vec::new();
    i = 0;
    while i < selections.len()
        invariant
            i <= selections@.len(),
            sorted@ == selections@.take(i as int),
        decreases selections@.len() - i,
    {
        sorted.push(selections[i]);
        assert(sorted@ =~= selections@.take(i + 1));
        i = i + 1;
    }
    assert(selections@.take(i as int) =~= selections@);
    let before = |a: &(TokenId, TokenId), b: &(TokenId, TokenId)| -> (first: bool)
        ensures
            first == (a.0.index < b.0.index || (a.0.index == b.0.index && a.1.index < b.1.index)),
    {
        a.0.index < b.0.index || (a.0.index == b.0.index && a.1.index < b.1.index)
    };
    sort_stable(&mut sorted, before, Ghost(selection_before()));
    InstanceKey { arcs, selections: sorted }
}

/// Whether a query resolves to a value.
pub open spec fn reads_as(
    resolved: Option<(ResolvedView, Option<ProvenanceView>)>,
    value: ResolvedView,
) -> bool {
    resolved matches Some((found, _)) && found == value
}

/// Where the strongest opinion on a metadata field of a prim is a value and no
/// path expressions compose, a stage that holds the written field alone, read
/// through no offset, resolves it to what the stage resolves. Nothing is
/// written exactly where the stage resolves nothing.
pub proof fn law_written_field_resolves_alike(
    stage: StageView,
    flat: StageView,
    prim: PathId,
    index: PrimView,
    key: TokenId,
    opinions: Seq<OpinionView>,
    alone: OpinionView,
    before: Fields,
    path: Seq<char>,
    w: WritingView,
)
    requires
        w.times == stage.times,
        named(stage.prims, prim) == Some(index),
        stage.opinions(prim, key, Lookup::Metadata) == Some(opinions),
        opinions.len() > 0,
        opinions[0].value matches OpinionValueView::Field(FieldView::Value(_)),
        !is_clip_name(w.tokens[key.index as int]),
        flat.property_type(prim, key) == stage.property_type(prim, key),
        flat.opinions(prim, key, Lookup::Metadata) == Some(seq![alone]),
        alone.layer_offset.spec_is_identity(),
    ensures
        ({
            let after = field_copied(before, index, seq![], key, path, w);
            match stage.resolution(prim, key, Lookup::Metadata, None) {
                Some((value, _)) => after.fields.len() == before.fields.len() + 1
                    && after.fields.last().0 == key && (alone.value == OpinionValueView::Field(
                    after.fields.last().1,
                ) ==> reads_as(flat.resolution(prim, key, Lookup::Metadata, None), value)),
                None => after.fields == before.fields,
            }
        }),
{
    let read = all_in_stage_time(opinions, index.property_type(key), w.times);
    let chain: Seq<OpinionView> = seq![alone];
    crate::fields::lemma_place_of(Seq::<(TokenId, FoldView)>::empty(), key, 0);
    assert(read[0] == crate::stage_time::in_stage_time(
        opinions[0],
        index.property_type(key),
        w.times,
    ));
    crate::stage_time::law_identity_offsets_change_nothing(
        chain,
        flat.property_type(prim, key),
        flat.times,
    );
    let fill = fill_of(index.property_type(key));
    let after = field_copied(before, index, seq![], key, path, w);
    match resolved_value(read, None, fill) {
        Some(outcome) => {
            if alone.value == OpinionValueView::Field(after.fields.last().1) {
                crate::flatten::properties::law_written_default_resolves_alike(read, fill, alone);
            }
        },
        None => {},
    }
}

} // verus!
