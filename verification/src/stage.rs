//! A composed stage: the prims that composition found, and queries on them.

pub mod explain;
pub mod fallback;
pub mod folds;
pub mod roles;
pub mod sources;

use crate::arrays::fill_of;
use crate::composition_error::{CompositionError, ErrorView};
use crate::dependency_map::{
    arcs_to, listed, ArcDependency, CompositionDeps, DependencyGraph, DepsView,
};
use crate::fields::{lemma_place_of, lemma_place_of_unique, named, place_of, with_named};
use crate::id_map::{get_id, insert_id, new_id_map, IdMap};
use crate::interner::{
    lemma_first_position_unique, with_entries, with_entry, TokenId,
};
use crate::opinion::{declared_type, find_declared_type, opinions_view, Opinion, OpinionView};
use crate::path::{PathId, PropertyPath};
use crate::prim_index::{LayerId, LayerOffset, OpinionKey};
use crate::prim_index_graph::model::Graph;
use crate::prim_index_graph::{KeyView, PrimIndexGraph};
use crate::property::{type_ref, PropertyType, TypeView};
use crate::resolution::{
    default_fits, declaration_option, declared_as, fold_ref, resolve_declaration, resolve_metadata,
    resolve_targets, resolve_value, resolved_metadata, resolved_targets, resolved_value,
    ExpressionFold, FoldView, PropertyDeclaration, ResolvedValue, ResolvedView,
};
use crate::doc::Value;
use crate::fields::TargetPath;
use crate::spec_path::{SpecPath, SpecPathView};
use crate::stage_time::{
    all_in_stage_time, lemma_read_fits, opinions_in_stage_time, StageOpinions,
};
use crate::times::{both_times, no_times, TimeTable, Times};
use crate::variant_fallbacks::{
    apply_variant_fallbacks, declared_sets, fallbacks_view, keep_strongest, sets_completed,
    strongest_selections, variants_view, VariantFallbacks, VariantSpecs,
};
use crate::stage::fallback::is_value_chain;
use vstd::prelude::*;

verus! {

/// Where a resolved value comes from.
#[derive(Debug)]
pub struct Provenance {
    /// The layer whose opinion was strongest.
    pub layer: LayerId,
    /// The spec in that layer.
    pub spec_path: SpecPath,
    /// The field that was resolved.
    pub field: TokenId,
}

/// The mathematical value of a [`Provenance`].
pub struct ProvenanceView {
    pub layer: LayerId,
    pub spec_path: SpecPathView,
    pub field: TokenId,
}

impl View for Provenance {
    type V = ProvenanceView;

    open spec fn view(&self) -> ProvenanceView {
        ProvenanceView { layer: self.layer, spec_path: self.spec_path@, field: self.field }
    }
}

/// The view of an optional provenance.
pub open spec fn provenance_option(p: Option<Provenance>) -> Option<ProvenanceView> {
    match p {
        Some(p) => Some(p@),
        None => None,
    }
}

/// A resolved value, with where it comes from where that is asked for.
#[derive(Debug)]
pub struct Resolved<T> {
    pub value: T,
    pub provenance: Option<Provenance>,
}

impl<T> Resolved<T> {
    /// The resolved value.
    pub fn value(&self) -> (value: &T)
        ensures
            *value == self.value,
    {
        &self.value
    }
}

/// What composition found for one prim.
#[derive(Debug)]
pub struct PrimIndex {
    /// The sources that contribute, strongest first.
    pub sources: Vec<OpinionKey>,
    pub graph: PrimIndexGraph,
    /// The opinions on each metadata field, strongest first.
    pub metadata: Vec<(TokenId, Vec<Opinion>)>,
    /// The opinions on each property, strongest first.
    pub properties: Vec<(TokenId, Vec<Opinion>)>,
}

/// The mathematical value of a [`PrimIndex`].
#[verifier::ext_equal]
pub struct PrimView {
    pub sources: Seq<KeyView>,
    pub graph: Graph,
    /// The layer offset of each node of the graph, where it is recorded.
    pub offsets: Seq<Option<LayerOffset>>,
    /// The ranks of the nodes of the graph that were computed last.
    pub ranks: Seq<u32>,
    pub metadata: Seq<(TokenId, Seq<OpinionView>)>,
    pub properties: Seq<(TokenId, Seq<OpinionView>)>,
}

/// The values of a list of keys.
pub open spec fn keys_view(keys: Seq<OpinionKey>) -> Seq<KeyView> {
    keys.map_values(|k: OpinionKey| k.view())
}

/// The names and opinions of a list.
pub open spec fn chains_view(chains: Seq<(TokenId, Vec<Opinion>)>) -> Seq<
    (TokenId, Seq<OpinionView>),
> {
    chains.map_values(|c: (TokenId, Vec<Opinion>)| (c.0, opinions_view(c.1@)))
}

impl View for PrimIndex {
    type V = PrimView;

    open spec fn view(&self) -> PrimView {
        PrimView {
            sources: keys_view(self.sources@),
            graph: self.graph@,
            offsets: self.graph.offsets(),
            ranks: self.graph.spec_ranks(),
            metadata: chains_view(self.metadata@),
            properties: chains_view(self.properties@),
        }
    }
}

/// Which of a prim's objects of one name a query reads.
#[derive(Clone, Copy, Debug, PartialEq, Eq, Structural)]
pub enum Lookup {
    /// Only the property.
    Property,
    /// Only the metadata field.
    Metadata,
}

/// The view of optional borrowed opinions.
pub open spec fn chain_ref(opinions: Option<&Vec<Opinion>>) -> Option<Seq<OpinionView>> {
    match opinions {
        Some(opinions) => Some(opinions_view(opinions@)),
        None => None,
    }
}

/// The opinions of that name in a list.
fn find_chain(chains: &Vec<(TokenId, Vec<Opinion>)>, name: TokenId) -> (out: Option<&Vec<Opinion>>)
    ensures
        chain_ref(out) == named(chains_view(chains@), name),
{
    let ghost all = chains_view(chains@);
    let mut i: usize = 0;
    while i < chains.len()
        invariant
            i <= chains@.len(),
            all == chains_view(chains@),
            forall|k: int| 0 <= k < i ==> (#[trigger] all[k]).0 != name,
        decreases chains@.len() - i,
    {
        if chains[i].0 == name {
            proof {
                lemma_place_of_unique(all, name, i as int);
            }
            return Some(&chains[i].1);
        }
        i = i + 1;
    }
    proof {
        lemma_place_of_unique(all, name, i as int);
    }
    None
}

impl PrimView {
    /// The opinions that a lookup selects.
    pub open spec fn opinions(self, name: TokenId, lookup: Lookup) -> Option<Seq<OpinionView>> {
        match lookup {
            Lookup::Property => named(self.properties, name),
            Lookup::Metadata => named(self.metadata, name),
        }
    }

    /// The type that the property of that name is declared with.
    pub open spec fn property_type(self, name: TokenId) -> Option<TypeView> {
        match named(self.properties, name) {
            Some(opinions) => declared_type(opinions),
            None => None,
        }
    }
}

impl PrimIndex {
    /// The opinions on the property of that name.
    pub fn property_opinions(&self, name: TokenId) -> (out: Option<&Vec<Opinion>>)
        ensures
            chain_ref(out) == named(self@.properties, name),
    {
        find_chain(&self.properties, name)
    }

    /// The opinions on the metadata field of that name.
    pub fn metadata_opinions(&self, name: TokenId) -> (out: Option<&Vec<Opinion>>)
        ensures
            chain_ref(out) == named(self@.metadata, name),
    {
        find_chain(&self.metadata, name)
    }

    /// The type that the property of that name is declared with.
    pub fn property_type_for(&self, name: TokenId) -> (out: Option<&PropertyType>)
        ensures
            type_ref(out) == self@.property_type(name),
    {
        match self.property_opinions(name) {
            Some(opinions) => find_declared_type(opinions),
            None => None,
        }
    }
}

/// An error found while composing, with the prim that it is on, if one.
#[derive(Debug)]
pub struct StageError {
    pub prim: Option<PathId>,
    pub error: CompositionError,
}

/// The mathematical value of a list of errors.
pub open spec fn stage_errors(errors: Seq<StageError>) -> Seq<
    (Option<PathId>, ErrorView),
> {
    errors.map_values(|e: StageError| (e.prim, e.error.view()))
}

/// Which prims are populated.
#[derive(Debug)]
pub struct PopulationMask {
    /// These prims, and their ancestors.
    pub included: Vec<PathId>,
}

/// How a stage is composed and populated.
#[derive(Debug)]
pub struct StageOptions {
    /// Which prims are populated; all of them where there is none.
    pub mask: Option<PopulationMask>,
    /// Whether queries say where their values come from.
    pub with_provenance: bool,
    /// Whether what the composition depends on is recorded.
    pub with_dependencies: bool,
    /// The variants to select where no opinion selects one.
    pub variant_fallbacks: VariantFallbacks,
}

/// A composed stage.
#[derive(Debug)]
pub struct Stage {
    prims: Vec<(PathId, PrimIndex)>,
    places: IdMap,
    children: Vec<(PathId, Vec<PathId>)>,
    child_places: IdMap,
    with_provenance: bool,
    errors: Vec<StageError>,
    instances: Vec<PathId>,
    deps: Option<CompositionDeps>,
    times: TimeTable,
    variant_fallbacks: VariantFallbacks,
}

/// The mathematical value of a [`Stage`].
#[verifier::ext_equal]
pub struct StageView {
    pub prims: Seq<(PathId, PrimView)>,
    pub children: Seq<(PathId, Seq<PathId>)>,
    pub with_provenance: bool,
    pub errors: Seq<(Option<PathId>, ErrorView)>,
    /// The prims composed as instances.
    pub instances: Set<PathId>,
    /// The stage times of the times that its layers hold.
    pub times: Times,
    /// The variants to select for each set where no opinion selects one.
    pub variant_fallbacks: Seq<(TokenId, Seq<TokenId>)>,
}

/// The paths and contents of a list of prims.
pub open spec fn prims_view(prims: Seq<(PathId, PrimIndex)>) -> Seq<(PathId, PrimView)> {
    prims.map_values(|p: (PathId, PrimIndex)| (p.0, p.1@))
}

/// The paths and children of a list of prims.
pub open spec fn children_view(children: Seq<(PathId, Vec<PathId>)>) -> Seq<(PathId, Seq<PathId>)> {
    children.map_values(|c: (PathId, Vec<PathId>)| (c.0, c.1@))
}

/// Whether `map` gives the place of each path.
pub open spec fn path_places<T>(map: Map<usize, usize>, entries: Seq<(PathId, T)>) -> bool {
    &&& forall|i: int|
        0 <= i < entries.len() ==> map.dom().contains((#[trigger] entries[i]).0.index)
            && map[entries[i].0.index] == i
    &&& forall|k: usize| #[trigger]
        map.dom().contains(k) ==> map[k] < entries.len() && entries[map[k] as int].0.index == k
}

/// Whether no path occurs twice.
pub open spec fn paths_distinct<T>(entries: Seq<(PathId, T)>) -> bool {
    forall|i: int, j: int|
        0 <= i < j < entries.len() ==> (#[trigger] entries[i]).0 != (#[trigger] entries[j]).0
}

/// Indexes a list by its paths.
fn index_paths<T>(entries: &Vec<(PathId, T)>) -> (map: IdMap)
    requires
        paths_distinct(entries@),
    ensures
        path_places(map@, entries@),
{
    let mut map = new_id_map();
    let mut i: usize = 0;
    while i < entries.len()
        invariant
            i <= entries@.len(),
            paths_distinct(entries@),
            path_places(map@, entries@.take(i as int)),
        decreases entries@.len() - i,
    {
        let ghost before = map@;
        let key = entries[i].0.index;
        insert_id(&mut map, key, i);
        proof {
            lemma_places_grow(before, entries@, i as int);
        }
        i = i + 1;
    }
    assert(entries@.take(i as int) =~= entries@);
    map
}

proof fn lemma_places_grow<T>(before: Map<usize, usize>, entries: Seq<(PathId, T)>, i: int)
    requires
        0 <= i < entries.len() <= usize::MAX,
        paths_distinct(entries),
        path_places(before, entries.take(i)),
    ensures
        path_places(before.insert(entries[i].0.index, i as usize), entries.take(i + 1)),
{
    let part = entries.take(i);
    let next = entries.take(i + 1);
    let key = entries[i].0.index;
    let map = before.insert(key, i as usize);
    assert(!before.dom().contains(key)) by {
        if before.dom().contains(key) {
            let k = before[key] as int;
            assert(part[k].0.index == key);
            assert(entries[k].0 == entries[i].0);
        }
    }
    assert forall|k: int| 0 <= k < next.len() implies map.dom().contains(
        (#[trigger] next[k]).0.index,
    ) && map[next[k].0.index] == k by {
        if k < i {
            assert(part[k] == next[k]);
        }
    }
    assert forall|k: usize| #[trigger] map.dom().contains(k) implies map[k] < next.len()
        && next[map[k] as int].0.index == k by {
        if k != key {
            assert(before.dom().contains(k));
            assert(part[before[k] as int] == next[before[k] as int]);
        }
    }
}

/// The place of a path in a list, or the length.
fn find_path<T>(map: &IdMap, entries: &Vec<(PathId, T)>, path: PathId) -> (at: usize)
    requires
        path_places(map@, entries@),
    ensures
        at == place_of(entries@, path, 0),
        at <= entries@.len(),
{
    match get_id(map, path.index) {
        Some(at) => {
            proof {
                assert forall|i: int| 0 <= i < at implies (#[trigger] entries@[i]).0 != path by {
                    assert(map@.dom().contains(entries@[i].0.index));
                }
                lemma_place_of_unique(entries@, path, at as int);
            }
            at
        },
        None => {
            proof {
                assert forall|i: int| 0 <= i < entries@.len() implies (#[trigger] entries@[i]).0
                    != path by {
                    assert(map@.dom().contains(entries@[i].0.index));
                }
                lemma_place_of_unique(entries@, path, entries@.len() as int);
            }
            entries.len()
        },
    }
}

/// A place found by path does not depend on what the entries hold.
proof fn lemma_same_place<S, T>(a: Seq<(PathId, S)>, b: Seq<(PathId, T)>, path: PathId)
    requires
        a.len() == b.len(),
        forall|i: int| 0 <= i < a.len() ==> (#[trigger] a[i]).0 == (#[trigger] b[i]).0,
    ensures
        place_of(a, path, 0) == place_of(b, path, 0),
{
    lemma_place_of(a, path, 0);
    let at = place_of(a, path, 0);
    assert forall|i: int| 0 <= i < at implies (#[trigger] b[i]).0 != path by {
        assert(a[i].0 == b[i].0);
    }
    if at < b.len() {
        assert(a[at].0 == b[at].0);
    }
    lemma_place_of_unique(b, path, at);
}

impl View for Stage {
    type V = StageView;

    closed spec fn view(&self) -> StageView {
        StageView {
            prims: prims_view(self.prims@),
            children: children_view(self.children@),
            with_provenance: self.with_provenance,
            errors: stage_errors(self.errors@),
            instances: self.instances@.to_set(),
            times: self.times@,
            variant_fallbacks: fallbacks_view(self.variant_fallbacks@),
        }
    }
}

impl StageView {
    /// The opinions that a lookup selects.
    pub open spec fn opinions(self, prim: PathId, name: TokenId, lookup: Lookup) -> Option<
        Seq<OpinionView>,
    > {
        match named(self.prims, prim) {
            Some(index) => index.opinions(name, lookup),
            None => None,
        }
    }

    /// The opinions that a lookup selects, as the stage reads them: with their
    /// `timecode` values in stage time.
    pub open spec fn read(self, prim: PathId, name: TokenId, lookup: Lookup) -> Option<
        Seq<OpinionView>,
    > {
        match self.opinions(prim, name, lookup) {
            Some(opinions) => Some(
                all_in_stage_time(opinions, self.property_type(prim, name), self.times),
            ),
            None => None,
        }
    }

    /// The type that a property is declared with.
    pub open spec fn property_type(self, prim: PathId, name: TokenId) -> Option<TypeView> {
        match named(self.prims, prim) {
            Some(index) => index.property_type(name),
            None => None,
        }
    }

    /// Where a value that is due to an opinion comes from, where that is asked
    /// for.
    pub open spec fn provenance(
        self,
        opinions: Seq<OpinionView>,
        due_to: Option<int>,
        field: TokenId,
    ) -> Option<ProvenanceView> {
        match due_to {
            Some(at) => if self.with_provenance && 0 <= at < opinions.len() {
                Some(
                    ProvenanceView {
                        layer: opinions[at].key.layer_id,
                        spec_path: opinions[at].key.spec_path,
                        field,
                    },
                )
            } else {
                None
            },
            None => None,
        }
    }

    /// Whether the values that a query reads fit in memory, once composed.
    pub open spec fn fits(self, prim: PathId, name: TokenId, lookup: Lookup) -> bool {
        self.opinions(prim, name, lookup) matches Some(opinions) ==> default_fits(
            opinions,
            None,
            fill_of(self.property_type(prim, name)) is Some,
        )
    }

    /// Where the authored values fit in memory, those that the stage reads do.
    pub proof fn lemma_read_fits(
        self,
        prim: PathId,
        name: TokenId,
        lookup: Lookup,
        fallback: Option<crate::doc::ValueView>,
    )
        ensures
            match (self.read(prim, name, lookup), self.opinions(prim, name, lookup)) {
                (Some(read), Some(opinions)) => {
                    &&& forall|filled: bool|
                        #![trigger default_fits(read, fallback, filled)]
                        default_fits(read, fallback, filled) == default_fits(
                            opinions,
                            fallback,
                            filled,
                        )
                    &&& read.len() == opinions.len()
                    &&& read.len() > 0 ==> is_value_chain(read[0].value) == is_value_chain(
                        opinions[0].value,
                    )
                },
                (None, None) => true,
                _ => false,
            },
    {
        match self.opinions(prim, name, lookup) {
            Some(opinions) => lemma_read_fits(
                opinions,
                self.property_type(prim, name),
                self.times,
                fallback,
            ),
            None => {},
        }
    }

    /// What a query resolves to, with where it comes from.
    pub open spec fn resolution(
        self,
        prim: PathId,
        name: TokenId,
        lookup: Lookup,
        fold: Option<FoldView>,
    ) -> Option<(ResolvedView, Option<ProvenanceView>)> {
        match self.read(prim, name, lookup) {
            Some(opinions) => match resolved_value(
                opinions,
                fold,
                fill_of(self.property_type(prim, name)),
            ) {
                Some(outcome) => Some(
                    (outcome.value, self.provenance(opinions, outcome.due_to, name)),
                ),
                None => None,
            },
            None => None,
        }
    }
}

/// The view of a resolved value.
pub open spec fn resolved_option(out: Option<Resolved<ResolvedValue>>) -> Option<
    (ResolvedView, Option<ProvenanceView>),
> {
    match out {
        Some(resolved) => Some((resolved.value@, provenance_option(resolved.provenance))),
        None => None,
    }
}

/// A resolved value, where it is a scalar or a dictionary.
pub open spec fn as_value(resolved: ResolvedView) -> Option<crate::doc::ValueView> {
    match resolved {
        ResolvedView::Scalar(value) => Some(value),
        ResolvedView::Dictionary(entries) => Some(crate::doc::ValueView::Dictionary(entries)),
        _ => None,
    }
}

impl Stage {
    #[verifier::type_invariant]
    spec fn is_indexed(&self) -> bool {
        &&& path_places(self.places@, self.prims@)
        &&& path_places(self.child_places@, self.children@)
    }

    /// A stage of composed prims and the children of each.
    pub fn from_parts(
        prims: Vec<(PathId, PrimIndex)>,
        children: Vec<(PathId, Vec<PathId>)>,
        with_provenance: bool,
    ) -> (stage: Stage)
        requires
            paths_distinct(prims@),
            paths_distinct(children@),
        ensures
            stage@ == (StageView {
                prims: prims_view(prims@),
                children: children_view(children@),
                with_provenance,
                errors: seq![],
                instances: Set::empty(),
                times: no_times(),
                variant_fallbacks: seq![],
            }),
            stage.dependencies() is None,
    {
        let places = index_paths(&prims);
        let child_places = index_paths(&children);
        let stage = Stage {
            prims,
            places,
            children,
            child_places,
            with_provenance,
            errors: Vec::new(),
            instances: Vec::new(),
            deps: None,
            times: TimeTable::new(),
            variant_fallbacks: Vec::new(),
        };
        assert(stage@.errors =~= seq![]);
        assert(stage@.variant_fallbacks =~= seq![]);
        assert(stage@.instances =~= Set::empty());
        stage
    }

    /// This stage, with the prims composed as instances.
    pub fn with_instances(self, instances: Vec<PathId>) -> (stage: Stage)
        ensures
            stage@ == (StageView { instances: instances@.to_set(), ..self@ }),
            stage.dependencies() == self.dependencies(),
    {
        proof {
            use_type_invariant(&self);
        }
        let mut stage = self;
        stage.instances = instances;
        stage
    }

    /// This stage, with the stage times of the times that its layers hold.
    pub fn with_times(self, times: TimeTable) -> (stage: Stage)
        ensures
            stage@ == (StageView { times: times@, ..self@ }),
            stage.dependencies() == self.dependencies(),
    {
        proof {
            use_type_invariant(&self);
        }
        let mut stage = self;
        stage.times = times;
        stage
    }

    /// This stage, with the variants that it was composed with where no opinion
    /// selects one.
    pub fn with_variant_fallbacks(self, fallbacks: VariantFallbacks) -> (stage: Stage)
        ensures
            stage@ == (StageView { variant_fallbacks: fallbacks_view(fallbacks@), ..self@ }),
            stage.dependencies() == self.dependencies(),
    {
        proof {
            use_type_invariant(&self);
        }
        let mut stage = self;
        stage.variant_fallbacks = fallbacks;
        stage
    }

    /// The variant selections that govern a prim: for each set, the strongest
    /// of those that are authored, and for a declared set without one, the
    /// variant that the fallbacks select. Nothing is selected for a prim that
    /// is not on the stage.
    ///
    /// `authored` lists the selections authored on the sites of the prim,
    /// those inside selected variants among them, and `specs` what its specs
    /// say of variants, both strongest first. An authored selection stands
    /// whether or not the variant that it names exists.
    pub fn variant_selections(
        &self,
        prim: PathId,
        authored: &Vec<(TokenId, TokenId)>,
        specs: &Vec<VariantSpecs>,
    ) -> (selections: Vec<(TokenId, TokenId)>)
        ensures
            selections@ == (if named(self@.prims, prim) is Some {
                sets_completed(
                    strongest_selections(authored@),
                    self@.variant_fallbacks,
                    variants_view(specs@),
                    declared_sets(variants_view(specs@)),
                )
            } else {
                seq![]
            }),
    {
        if !self.has_prim(prim) {
            return Vec::new();
        }
        let mut selections = keep_strongest(authored);
        apply_variant_fallbacks(&self.variant_fallbacks, &mut selections, specs);
        selections
    }

    /// This stage, with the errors found while composing it.
    pub fn with_composition_errors(self, errors: Vec<StageError>) -> (stage: Stage)
        ensures
            stage@ == (StageView { errors: stage_errors(errors@), ..self@ }),
            stage.dependencies() == self.dependencies(),
    {
        proof {
            use_type_invariant(&self);
        }
        let mut stage = self;
        stage.errors = errors;
        stage
    }

    /// The errors found while composing, in the order they were found.
    pub fn composition_errors(&self) -> (errors: &Vec<StageError>)
        ensures
            stage_errors(errors@) == self@.errors,
    {
        &self.errors
    }

    /// What the composition of this stage depends on, where it was recorded.
    pub closed spec fn dependencies(&self) -> Option<DepsView> {
        match self.deps {
            Some(deps) => Some(deps@),
            None => None,
        }
    }

    /// This stage, with what its composition depends on.
    pub fn with_dependencies(self, deps: CompositionDeps) -> (stage: Stage)
        ensures
            stage@ == self@,
            stage.dependencies() == Some(deps@),
    {
        proof {
            use_type_invariant(&self);
        }
        let mut stage = self;
        stage.deps = Some(deps);
        stage
    }

    /// Takes what the composition of this stage depends on.
    pub fn take_deps(self) -> (out: (Stage, Option<CompositionDeps>))
        ensures
            out.0@ == self@,
            out.0.dependencies() is None,
            (match out.1 {
                Some(deps) => Some(deps@),
                None => None,
            }) == self.dependencies(),
    {
        proof {
            use_type_invariant(&self);
        }
        let stage = Stage {
            prims: self.prims,
            places: self.places,
            children: self.children,
            child_places: self.child_places,
            with_provenance: self.with_provenance,
            errors: self.errors,
            instances: self.instances,
            deps: None,
            times: self.times,
            variant_fallbacks: self.variant_fallbacks,
        };
        (stage, self.deps)
    }

    /// Whether what the composition depends on was recorded.
    pub fn has_dependencies(&self) -> (yes: bool)
        ensures
            yes == (self.dependencies() is Some),
    {
        self.deps.is_some()
    }

    /// The graph of dependencies between prims.
    pub fn graph(&self) -> (out: Option<&DependencyGraph>)
        ensures
            (match out {
                Some(graph) => Some(*graph),
                None => None,
            }) == (match self.dependencies() {
                Some(deps) => Some(deps.graph),
                None => None,
            }),
    {
        match &self.deps {
            Some(deps) => Some(&deps.graph),
            None => None,
        }
    }

    /// The arcs that composition followed.
    pub fn arc_dependencies(&self) -> (out: Vec<ArcDependency>)
        ensures
            out@ == (match self.dependencies() {
                Some(deps) => deps.arcs,
                None => seq![],
            }),
    {
        match &self.deps {
            Some(deps) => {
                let out = deps.arcs.clone();
                assert(out@ =~= deps.arcs@);
                out
            },
            None => {
                let out: Vec<ArcDependency> = Vec::new();
                assert(out@ =~= seq![]);
                out
            },
        }
    }

    /// The arcs that lead to a prim.
    pub fn arcs_targeting(&self, prim: PathId) -> (out: Vec<ArcDependency>)
        ensures
            out@ == (match self.dependencies() {
                Some(deps) => arcs_to(deps.arcs, prim),
                None => seq![],
            }),
    {
        match &self.deps {
            Some(deps) => deps.arcs_targeting(prim),
            None => {
                let out: Vec<ArcDependency> = Vec::new();
                assert(out@ =~= seq![]);
                out
            },
        }
    }

    /// The prims that a layer affects: those with opinions of it, and those
    /// that an arc it authors reaches.
    pub fn prims_affected_by_layer(&self, layer: LayerId) -> (out: Vec<PathId>)
        ensures
            out@ == (match self.dependencies() {
                Some(deps) => listed(deps.layer_to_prims, layer),
                None => seq![],
            }),
    {
        match &self.deps {
            Some(deps) => deps.prims_affected_by_layer(layer),
            None => {
                let out: Vec<PathId> = Vec::new();
                assert(out@ =~= seq![]);
                out
            },
        }
    }

    /// The layers that affect a prim.
    pub fn layers_affecting_prim(&self, prim: PathId) -> (out: Vec<LayerId>)
        ensures
            out@ == (match self.dependencies() {
                Some(deps) => listed(deps.prim_to_layers, prim),
                None => seq![],
            }),
    {
        match &self.deps {
            Some(deps) => deps.layers_affecting_prim(prim),
            None => {
                let out: Vec<LayerId> = Vec::new();
                assert(out@ =~= seq![]);
                out
            },
        }
    }

    /// The place of a prim, or the number of prims.
    fn place(&self, prim: PathId) -> (at: usize)
        ensures
            at == place_of(self@.prims, prim, 0),
            at <= self.prims@.len(),
            self.prims@.len() == self@.prims.len(),
    {
        proof {
            use_type_invariant(self);
            lemma_same_place(self.prims@, self@.prims, prim);
        }
        find_path(&self.places, &self.prims, prim)
    }

    /// What composition found for a prim.
    pub fn prim(&self, prim: PathId) -> (out: Option<&PrimIndex>)
        ensures
            (match out {
                Some(index) => Some(index@),
                None => None,
            }) == named(self@.prims, prim),
    {
        let at = self.place(prim);
        if at < self.prims.len() {
            assert(self@.prims[at as int].1 == self.prims@[at as int].1@);
            Some(&self.prims[at].1)
        } else {
            None
        }
    }

    /// Whether the stage holds a prim.
    pub fn has_prim(&self, prim: PathId) -> (yes: bool)
        ensures
            yes == (named(self@.prims, prim) is Some),
    {
        self.place(prim) < self.prims.len()
    }

    /// The number of prims.
    pub fn prim_count(&self) -> (count: usize)
        ensures
            count == self@.prims.len(),
    {
        self.prims.len()
    }

    /// Every prim, in no particular order.
    pub fn prim_paths(&self) -> (out: Vec<PathId>)
        ensures
            out@ == self@.prims.map_values(|p: (PathId, PrimView)| p.0),
    {
        let ghost expected = self@.prims.map_values(|p: (PathId, PrimView)| p.0);
        let mut out: Vec<PathId> = Vec::new();
        let mut i: usize = 0;
        while i < self.prims.len()
            invariant
                i <= self.prims@.len(),
                expected == self@.prims.map_values(|p: (PathId, PrimView)| p.0),
                out@ == expected.take(i as int),
            decreases self.prims@.len() - i,
        {
            out.push(self.prims[i].0);
            i = i + 1;
            assert(out@ =~= expected.take(i as int));
        }
        assert(expected.take(i as int) =~= expected);
        out
    }

    /// The children of a prim, in order.
    pub fn children_of(&self, prim: PathId) -> (children: Option<&Vec<PathId>>)
        ensures
            (match children {
                Some(children) => Some(children@),
                None => None,
            }) == named(self@.children, prim),
    {
        proof {
            use_type_invariant(self);
            lemma_same_place(self.children@, self@.children, prim);
        }
        let at = find_path(&self.child_places, &self.children, prim);
        if at < self.children.len() {
            assert(self@.children[at as int].1 == self.children@[at as int].1@);
            Some(&self.children[at].1)
        } else {
            None
        }
    }

    /// Whether a prim was composed as an instance.
    pub fn is_instance(&self, prim: PathId) -> (yes: bool)
        ensures
            yes == self@.instances.contains(prim),
    {
        holds_path(&self.instances, prim)
    }

    /// The opinions that a lookup selects, strongest first.
    fn opinions(&self, prim: PathId, name: TokenId, lookup: Lookup) -> (out: Option<&Vec<Opinion>>)
        ensures
            chain_ref(out) == self@.opinions(prim, name, lookup),
    {
        match self.prim(prim) {
            Some(index) => match lookup {
                Lookup::Property => index.property_opinions(name),
                Lookup::Metadata => index.metadata_opinions(name),
            },
            None => None,
        }
    }

    /// The opinions that a lookup selects, strongest first, as the stage reads
    /// them: with their `timecode` values in stage time.
    pub fn read_opinions(&self, prim: PathId, name: TokenId, lookup: Lookup) -> (out: Option<
        StageOpinions<'_>,
    >)
        ensures
            (match out {
                Some(opinions) => Some(opinions@),
                None => None,
            }) == self@.read(prim, name, lookup),
    {
        let property_type = match self.prim(prim) {
            Some(index) => index.property_type_for(name),
            None => None,
        };
        match self.opinions(prim, name, lookup) {
            Some(opinions) => Some(opinions_in_stage_time(opinions, property_type, &self.times)),
            None => None,
        }
    }

    /// Where a value that is due to an opinion comes from.
    fn provenance_for(&self, opinions: &Vec<Opinion>, due_to: Option<usize>, field: TokenId) -> (
    out: Option<Provenance>)
        ensures
            provenance_option(out) == self@.provenance(
                opinions_view(opinions@),
                match due_to {
                    Some(at) => Some(at as int),
                    None => None,
                },
                field,
            ),
    {
        if !self.with_provenance {
            return None;
        }
        match due_to {
            Some(at) => {
                if at >= opinions.len() {
                    return None;
                }
                assert(opinions_view(opinions@)[at as int] == opinions@[at as int]@);
                Some(
                    Provenance {
                        layer: opinions[at].key.layer_id,
                        spec_path: opinions[at].key.spec_path.copy(),
                        field,
                    },
                )
            },
            None => None,
        }
    }

    fn resolve_value_by(
        &self,
        prim: PathId,
        field: TokenId,
        lookup: Lookup,
        fold: Option<&ExpressionFold>,
    ) -> (out: Option<Resolved<ResolvedValue>>)
        requires
            self@.fits(prim, field, lookup),
        ensures
            resolved_option(out) == self@.resolution(prim, field, lookup, fold_ref(fold)),
    {
        let read = match self.read_opinions(prim, field, lookup) {
            Some(read) => read,
            None => {
                return None;
            },
        };
        let opinions = read.list();
        proof {
            self@.lemma_read_fits(prim, field, lookup, None);
        }
        let property_type = match self.prim(prim) {
            Some(index) => index.property_type_for(field),
            None => None,
        };
        match resolve_value(opinions, fold, property_type) {
            Some((value, due_to)) => Some(
                Resolved { value, provenance: self.provenance_for(opinions, due_to, field) },
            ),
            None => None,
        }
    }

    /// Resolves a prim metadata field.
    ///
    /// `fold` is what the path expressions of the field compose to, where it
    /// holds any.
    pub fn resolve_value(&self, prim: PathId, field: TokenId, fold: Option<&ExpressionFold>) -> (
    out: Option<Resolved<ResolvedValue>>)
        requires
            self@.fits(prim, field, Lookup::Metadata),
        ensures
            resolved_option(out) == self@.resolution(prim, field, Lookup::Metadata, fold_ref(fold)),
    {
        self.resolve_value_by(prim, field, Lookup::Metadata, fold)
    }

    /// Resolves a property.
    pub fn resolve_property_path(&self, path: PropertyPath, fold: Option<&ExpressionFold>) -> (out:
        Option<Resolved<ResolvedValue>>)
        requires
            self@.fits(path.prim_path, path.property, Lookup::Property),
        ensures
            resolved_option(out) == self@.resolution(
                path.prim_path,
                path.property,
                Lookup::Property,
                fold_ref(fold),
            ),
    {
        self.resolve_value_by(path.prim_path, path.property, Lookup::Property, fold)
    }

    fn resolve_field_by(
        &self,
        prim: PathId,
        field: TokenId,
        lookup: Lookup,
        fold: Option<&ExpressionFold>,
    ) -> (out: Option<Resolved<Value>>)
        requires
            self@.fits(prim, field, lookup),
        ensures
            (match out {
                Some(resolved) => Some(
                    (resolved.value.view(), provenance_option(resolved.provenance)),
                ),
                None => None,
            }) == (match self@.resolution(prim, field, lookup, fold_ref(fold)) {
                Some((value, provenance)) => match as_value(value) {
                    Some(value) => Some((value, provenance)),
                    None => None,
                },
                None => None,
            }),
    {
        match self.resolve_value_by(prim, field, lookup, fold) {
            Some(resolved) => match resolved.value {
                ResolvedValue::Scalar(value) => Some(
                    Resolved { value, provenance: resolved.provenance },
                ),
                ResolvedValue::Dictionary(entries) => Some(
                    Resolved {
                        value: Value::Dictionary(entries),
                        provenance: resolved.provenance,
                    },
                ),
                _ => None,
            },
            None => None,
        }
    }

    /// Resolves a prim metadata field to a scalar or a dictionary.
    pub fn resolve_field(&self, prim: PathId, field: TokenId, fold: Option<&ExpressionFold>) -> (
    out: Option<Resolved<Value>>)
        requires
            self@.fits(prim, field, Lookup::Metadata),
        ensures
            (match out {
                Some(resolved) => Some(
                    (resolved.value.view(), provenance_option(resolved.provenance)),
                ),
                None => None,
            }) == (match self@.resolution(prim, field, Lookup::Metadata, fold_ref(fold)) {
                Some((value, provenance)) => match as_value(value) {
                    Some(value) => Some((value, provenance)),
                    None => None,
                },
                None => None,
            }),
    {
        self.resolve_field_by(prim, field, Lookup::Metadata, fold)
    }

    /// Resolves a property to a scalar or a dictionary.
    pub fn resolve_field_path(&self, path: PropertyPath, fold: Option<&ExpressionFold>) -> (out:
        Option<Resolved<Value>>)
        requires
            self@.fits(path.prim_path, path.property, Lookup::Property),
        ensures
            (match out {
                Some(resolved) => Some(
                    (resolved.value.view(), provenance_option(resolved.provenance)),
                ),
                None => None,
            }) == (match self@.resolution(
                path.prim_path,
                path.property,
                Lookup::Property,
                fold_ref(fold),
            ) {
                Some((value, provenance)) => match as_value(value) {
                    Some(value) => Some((value, provenance)),
                    None => None,
                },
                None => None,
            }),
    {
        self.resolve_field_by(path.prim_path, path.property, Lookup::Property, fold)
    }

    /// Resolves a prim metadata field to a list of tokens.
    pub fn resolve_token_list(&self, prim: PathId, field: TokenId) -> (out: Option<
        Resolved<Vec<TokenId>>,
    >)
        requires
            self@.fits(prim, field, Lookup::Metadata),
        ensures
            (match out {
                Some(resolved) => Some((resolved.value@, provenance_option(resolved.provenance))),
                None => None,
            }) == (match self@.resolution(prim, field, Lookup::Metadata, None) {
                Some((ResolvedView::TokenList(tokens), provenance)) => Some((tokens, provenance)),
                _ => None,
            }),
    {
        match self.resolve_value_by(prim, field, Lookup::Metadata, None) {
            Some(resolved) => match resolved.value {
                ResolvedValue::TokenList(value) => Some(
                    Resolved { value, provenance: resolved.provenance },
                ),
                _ => None,
            },
            None => None,
        }
    }

    fn resolve_targets_by(&self, prim: PathId, field: TokenId, lookup: Lookup) -> (out: Option<
        Resolved<Vec<TargetPath>>,
    >)
        ensures
            (match out {
                Some(resolved) => Some((resolved.value@, provenance_option(resolved.provenance))),
                None => None,
            }) == targets_resolution(self@, prim, field, lookup),
    {
        let opinions = match self.opinions(prim, field, lookup) {
            Some(opinions) => opinions,
            None => {
                return None;
            },
        };
        match resolve_targets(opinions) {
            Some((value, at)) => Some(
                Resolved { value, provenance: self.provenance_for(opinions, Some(at), field) },
            ),
            None => None,
        }
    }

    /// Resolves a prim metadata field to a list of targets.
    pub fn resolve_target_list(&self, prim: PathId, field: TokenId) -> (out: Option<
        Resolved<Vec<TargetPath>>,
    >)
        ensures
            (match out {
                Some(resolved) => Some((resolved.value@, provenance_option(resolved.provenance))),
                None => None,
            }) == targets_resolution(self@, prim, field, Lookup::Metadata),
    {
        self.resolve_targets_by(prim, field, Lookup::Metadata)
    }

    /// Resolves a prim metadata field to a list of targets.
    pub fn resolve_path_list(&self, prim: PathId, field: TokenId) -> (out: Option<
        Resolved<Vec<TargetPath>>,
    >)
        ensures
            (match out {
                Some(resolved) => Some((resolved.value@, provenance_option(resolved.provenance))),
                None => None,
            }) == targets_resolution(self@, prim, field, Lookup::Metadata),
    {
        self.resolve_target_list(prim, field)
    }

    /// Resolves the connections of an attribute, or the targets of a
    /// relationship.
    pub fn resolve_target_list_path(&self, path: PropertyPath) -> (out: Option<
        Resolved<Vec<TargetPath>>,
    >)
        ensures
            (match out {
                Some(resolved) => Some((resolved.value@, provenance_option(resolved.provenance))),
                None => None,
            }) == targets_resolution(self@, path.prim_path, path.property, Lookup::Property),
    {
        self.resolve_targets_by(path.prim_path, path.property, Lookup::Property)
    }

    /// Resolves a prim metadata field to a dictionary.
    pub fn resolve_dictionary(&self, prim: PathId, field: TokenId, fold: Option<&ExpressionFold>) -> (
    out: Option<Resolved<Vec<(String, Value)>>>)
        requires
            self@.fits(prim, field, Lookup::Metadata),
        ensures
            (match out {
                Some(resolved) => Some(
                    (
                        crate::doc::entries_view(resolved.value@),
                        provenance_option(resolved.provenance),
                    ),
                ),
                None => None,
            }) == (match self@.resolution(prim, field, Lookup::Metadata, fold_ref(fold)) {
                Some((ResolvedView::Dictionary(entries), provenance)) => Some(
                    (entries, provenance),
                ),
                _ => None,
            }),
    {
        match self.resolve_value_by(prim, field, Lookup::Metadata, fold) {
            Some(resolved) => match resolved.value {
                ResolvedValue::Dictionary(value) => Some(
                    Resolved { value, provenance: resolved.provenance },
                ),
                _ => None,
            },
            None => None,
        }
    }

    /// Resolves a metadata field of a property.
    pub fn resolve_property_metadata(&self, prim: PathId, property: TokenId, key: TokenId) -> (out:
        Option<Resolved<ResolvedValue>>)
        ensures
            resolved_option(out) == (match self@.read(prim, property, Lookup::Property) {
                Some(opinions) => match resolved_metadata(opinions, key) {
                    Some(outcome) => Some(
                        (outcome.value, self@.provenance(opinions, outcome.due_to, property)),
                    ),
                    None => None,
                },
                None => None,
            }),
    {
        let read = match self.read_opinions(prim, property, Lookup::Property) {
            Some(read) => read,
            None => {
                return None;
            },
        };
        let opinions = read.list();
        match resolve_metadata(opinions, key) {
            Some((value, due_to)) => Some(
                Resolved { value, provenance: self.provenance_for(opinions, due_to, property) },
            ),
            None => None,
        }
    }

    /// Resolves how a property is declared.
    pub fn resolve_property_declaration(&self, prim: PathId, property: TokenId) -> (out: Option<
        PropertyDeclaration,
    >)
        ensures
            declaration_option(out) == (match self@.opinions(prim, property, Lookup::Property) {
                Some(opinions) => declared_as(opinions),
                None => None,
            }),
    {
        match self.opinions(prim, property, Lookup::Property) {
            Some(opinions) => resolve_declaration(opinions),
            None => None,
        }
    }

    /// The opinions on a prim metadata field, strongest first.
    pub fn explain_field(&self, prim: PathId, field: TokenId) -> (out: Option<&Vec<Opinion>>)
        ensures
            chain_ref(out) == self@.opinions(prim, field, Lookup::Metadata),
    {
        self.opinions(prim, field, Lookup::Metadata)
    }

    /// The opinions on a property, strongest first.
    pub fn explain_property_path(&self, path: PropertyPath) -> (out: Option<&Vec<Opinion>>)
        ensures
            chain_ref(out) == self@.opinions(path.prim_path, path.property, Lookup::Property),
    {
        self.opinions(path.prim_path, path.property, Lookup::Property)
    }

    /// Whether the stage holds opinions on a property.
    pub fn has_property_path(&self, path: PropertyPath) -> (yes: bool)
        ensures
            yes == (self@.opinions(path.prim_path, path.property, Lookup::Property) is Some),
    {
        self.explain_property_path(path).is_some()
    }

    /// Every source that contributes to a prim, strongest first.
    pub fn explain_prim(&self, prim: PathId) -> (out: Option<&Vec<OpinionKey>>)
        ensures
            (match out {
                Some(sources) => Some(keys_view(sources@)),
                None => None,
            }) == (match named(self@.prims, prim) {
                Some(index) => Some(index.sources),
                None => None,
            }),
    {
        match self.prim(prim) {
            Some(index) => Some(&index.sources),
            None => None,
        }
    }

    /// The composition graph of a prim.
    pub fn explain_prim_graph(&self, prim: PathId) -> (out: Option<&PrimIndexGraph>)
        ensures
            (match out {
                Some(graph) => Some((graph@, graph.offsets(), graph.spec_ranks())),
                None => None,
            }) == (match named(self@.prims, prim) {
                Some(index) => Some((index.graph, index.offsets, index.ranks)),
                None => None,
            }),
    {
        match self.prim(prim) {
            Some(index) => Some(&index.graph),
            None => None,
        }
    }

    /// The layers and specs that contribute to a prim, strongest first, each
    /// once, at its strongest position.
    pub fn prim_stack(&self, prim: PathId) -> (out: Option<Vec<(LayerId, SpecPath)>>)
        ensures
            (match out {
                Some(stack) => Some(sites_view(stack@)),
                None => None,
            }) == (match named(self@.prims, prim) {
                Some(index) => Some(
                    with_entries(
                        seq![],
                        index.sources.map_values(|k: KeyView| (k.layer_id, k.spec_path)),
                    ),
                ),
                None => None,
            }),
    {
        let index = match self.prim(prim) {
            Some(index) => index,
            None => {
                return None;
            },
        };
        let ghost all = index@.sources.map_values(|k: KeyView| (k.layer_id, k.spec_path));
        let mut out: Vec<(LayerId, SpecPath)> = Vec::new();
        let mut i: usize = 0;
        assert(all.take(0) =~= seq![]);
        assert(sites_view(out@) =~= seq![]);
        while i < index.sources.len()
            invariant
                i <= index.sources@.len(),
                all == index@.sources.map_values(|k: KeyView| (k.layer_id, k.spec_path)),
                sites_view(out@) == with_entries(seq![], all.take(i as int)),
            decreases index.sources@.len() - i,
        {
            let key = &index.sources[i];
            proof {
                assert(all.take(i + 1).drop_last() =~= all.take(i as int));
                assert(index@.sources[i as int] == key.view());
                assert(all[i as int] == (key.layer_id, key.spec_path@));
            }
            let mut found = false;
            let mut k: usize = 0;
            let ghost shown = sites_view(out@);
            while k < out.len()
                invariant
                    k <= out@.len(),
                    shown == sites_view(out@),
                    !found ==> forall|m: int|
                        0 <= m < k ==> shown[m] != (key.layer_id, key.spec_path@),
                    found ==> shown.contains((key.layer_id, key.spec_path@)),
                decreases out@.len() - k,
            {
                assert(shown[k as int] == (out@[k as int].0, out@[k as int].1@));
                if out[k].0 == key.layer_id && out[k].1.same(&key.spec_path) {
                    found = true;
                }
                k = k + 1;
            }
            proof {
                crate::interner::lemma_first_position(shown, (key.layer_id, key.spec_path@));
                if found {
                    let m = choose|m: int|
                        0 <= m < shown.len() && shown[m] == (key.layer_id, key.spec_path@);
                    if crate::interner::first_position(shown, (key.layer_id, key.spec_path@))
                        >= shown.len() {
                        assert(shown[m] != (key.layer_id, key.spec_path@));
                    }
                }
            }
            if !found {
                let ghost had = out@;
                let pair = (key.layer_id, key.spec_path.copy());
                out.push(pair);
                assert(sites_view(out@) =~= sites_view(had).push((pair.0, pair.1@)));
            }
            i = i + 1;
        }
        assert(all.take(i as int) =~= all);
        Some(out)
    }

    /// Whether recomposing the listed prims, as `partial` did, changes the
    /// hierarchy: one appears or disappears, its children differ, or it
    /// becomes or stops being an instance.
    pub fn hierarchy_diverges(&self, partial: &Stage, recomposed: &Vec<PathId>) -> (yes: bool)
        ensures
            yes == exists|i: int|
                0 <= i < recomposed@.len() && diverges_at(
                    self@,
                    partial@,
                    #[trigger] recomposed@[i],
                ),
    {
        let mut i: usize = 0;
        while i < recomposed.len()
            invariant
                i <= recomposed@.len(),
                forall|k: int| 0 <= k < i ==> !diverges_at(
                    self@,
                    partial@,
                    #[trigger] recomposed@[k],
                ),
            decreases recomposed@.len() - i,
        {
            let prim = recomposed[i];
            let none: Vec<PathId> = Vec::new();
            let ours = match self.children_of(prim) {
                Some(children) => children,
                None => &none,
            };
            let theirs = match partial.children_of(prim) {
                Some(children) => children,
                None => &none,
            };
            assert(none@ =~= seq![]);
            let differs = self.has_prim(prim) != partial.has_prim(prim) || !same_paths(
                ours,
                theirs,
            ) || self.is_instance(prim) != partial.is_instance(prim);
            if differs {
                assert(diverges_at(self@, partial@, recomposed@[i as int]));
                return true;
            }
            i = i + 1;
        }
        false
    }

    /// The sites that contribute specs or opinions to a prim: the layer, and
    /// both the path that is looked up and the path of the spec, each once.
    pub fn source_sites(&self, prim: PathId) -> (out: Vec<(LayerId, PathId)>)
        ensures
            out@ == (match named(self@.prims, prim) {
                Some(index) => with_entries(seq![], key_sites(prim_keys(index))),
                None => seq![],
            }),
    {
        let mut out: Vec<(LayerId, PathId)> = Vec::new();
        let index = match self.prim(prim) {
            Some(index) => index,
            None => {
                assert(out@ =~= seq![]);
                return out;
            },
        };
        let ghost sources = index@.sources;
        let ghost metadata = chain_keys(index@.metadata);
        let ghost properties = chain_keys(index@.properties);
        let mut i: usize = 0;
        assert(sources.take(0) =~= seq![]);
        assert(out@ =~= seq![]);
        while i < index.sources.len()
            invariant
                i <= index.sources@.len(),
                sources == keys_view(index.sources@),
                out@ == with_entries(seq![], key_sites(sources.take(i as int))),
            decreases index.sources@.len() - i,
        {
            proof {
                assert(sources.take(i as int).push(index.sources@[i as int].view()) =~= sources.take(
                    i + 1,
                ));
            }
            enter_key(&mut out, &index.sources[i], Ghost(sources.take(i as int)));
            i = i + 1;
        }
        assert(sources.take(i as int) =~= sources);
        enter_chains(&mut out, &index.metadata, Ghost(sources));
        enter_chains(&mut out, &index.properties, Ghost(sources + metadata));
        out
    }

    /// Starts a traversal at `root`.
    pub fn traverse(&self, root: PathId) -> (out: Traverse)
        ensures
            out@ == seq![root],
    {
        let mut stack: Vec<PathId> = Vec::new();
        stack.push(root);
        assert(stack@ =~= seq![root]);
        Traverse { stack }
    }

    /// This stage, with what a partial composition found for the listed prims
    /// in place of what this one found, with their errors, and with what it
    /// says of which of them are instances.
    pub fn merge_prims_from(self, partial: Stage, recomposed: &Vec<PathId>) -> (out: Stage)
        ensures
            out@ == merged_stage(self@, partial@, recomposed@),
            out.dependencies() == self.dependencies(),
    {
        proof {
            use_type_invariant(&self);
            use_type_invariant(&partial);
        }
        let ghost before = self@;
        let ghost other = partial@;
        let instances = merge_instances(&self.instances, &partial.instances, recomposed);
        let (prims, places) = merge_prims(
            self.prims,
            self.places,
            partial.prims,
            recomposed,
        );
        let errors = merge_errors(self.errors, partial.errors, recomposed);
        let out = Stage {
            prims,
            places,
            children: self.children,
            child_places: self.child_places,
            with_provenance: self.with_provenance,
            errors,
            instances,
            deps: self.deps,
            times: self.times.and(partial.times),
            variant_fallbacks: self.variant_fallbacks,
        };
        assert(out@ =~= merged_stage(before, other, recomposed@));
        out
    }
}

/// What a target query resolves to.
pub open spec fn targets_resolution(
    stage: StageView,
    prim: PathId,
    field: TokenId,
    lookup: Lookup,
) -> Option<(Seq<TargetPath>, Option<ProvenanceView>)> {
    match stage.opinions(prim, field, lookup) {
        Some(opinions) => match resolved_targets(opinions) {
            Some((targets, at)) => Some((targets, stage.provenance(opinions, Some(at), field))),
            None => None,
        },
        None => None,
    }
}

/// The layers and paths of a list of sites.
pub open spec fn sites_view(sites: Seq<(LayerId, SpecPath)>) -> Seq<(LayerId, SpecPathView)> {
    sites.map_values(|s: (LayerId, SpecPath)| (s.0, s.1@))
}

/// Whether a list holds a path.
fn holds_path(paths: &Vec<PathId>, path: PathId) -> (yes: bool)
    ensures
        yes == paths@.contains(path),
{
    let mut i: usize = 0;
    while i < paths.len()
        invariant
            i <= paths@.len(),
            forall|k: int| 0 <= k < i ==> paths@[k] != path,
        decreases paths@.len() - i,
    {
        if paths[i] == path {
            assert(paths@[i as int] == path);
            return true;
        }
        i = i + 1;
    }
    false
}

/// Whether two lists hold the same paths in the same order.
fn same_paths(a: &Vec<PathId>, b: &Vec<PathId>) -> (yes: bool)
    ensures
        yes == (a@ == b@),
{
    if a.len() != b.len() {
        return false;
    }
    let mut i: usize = 0;
    while i < a.len()
        invariant
            i <= a@.len(),
            a@.len() == b@.len(),
            forall|k: int| 0 <= k < i ==> a@[k] == b@[k],
        decreases a@.len() - i,
    {
        if a[i] != b[i] {
            assert(a@[i as int] != b@[i as int]);
            return false;
        }
        i = i + 1;
    }
    assert(a@ =~= b@);
    true
}

/// The children of a prim: none, where nothing is recorded.
pub open spec fn children_in(stage: StageView, prim: PathId) -> Seq<PathId> {
    match named(stage.children, prim) {
        Some(children) => children,
        None => seq![],
    }
}

/// Whether two compositions of a prim differ in hierarchy.
pub open spec fn diverges_at(stage: StageView, partial: StageView, prim: PathId) -> bool {
    ||| (named(stage.prims, prim) is Some) != (named(partial.prims, prim) is Some)
    ||| children_in(stage, prim) != children_in(partial, prim)
    ||| stage.instances.contains(prim) != partial.instances.contains(prim)
}

/// The keys of the opinions in a list, in order.
pub open spec fn chain_keys(chains: Seq<(TokenId, Seq<OpinionView>)>) -> Seq<KeyView>
    decreases chains.len(),
{
    if chains.len() == 0 {
        seq![]
    } else {
        chain_keys(chains.drop_last()) + chains.last().1.map_values(|o: OpinionView| o.key)
    }
}

/// Every key of a prim: of its sources, its metadata and its properties.
pub open spec fn prim_keys(prim: PrimView) -> Seq<KeyView> {
    prim.sources + chain_keys(prim.metadata) + chain_keys(prim.properties)
}

/// The sites of a list of keys, two for each.
pub open spec fn key_sites(keys: Seq<KeyView>) -> Seq<(LayerId, PathId)>
    decreases keys.len(),
{
    if keys.len() == 0 {
        seq![]
    } else {
        key_sites(keys.drop_last()).push((keys.last().layer_id, keys.last().lookup_path)).push(
            (keys.last().layer_id, keys.last().spec_path.prim_path),
        )
    }
}

/// Enters a site, unless it is there.
fn enter(sites: &mut Vec<(LayerId, PathId)>, site: (LayerId, PathId))
    ensures
        final(sites)@ == with_entry(old(sites)@, site),
{
    let mut i: usize = 0;
    while i < sites.len()
        invariant
            i <= sites@.len(),
            sites@ == old(sites)@,
            forall|k: int| 0 <= k < i ==> sites@[k] != site,
        decreases sites@.len() - i,
    {
        if sites[i].0 == site.0 && sites[i].1 == site.1 {
            proof {
                lemma_first_position_unique(sites@, site, i as int);
            }
            return ;
        }
        i = i + 1;
    }
    proof {
        lemma_first_position_unique(sites@, site, i as int);
    }
    sites.push(site);
}

/// Enters the two sites of a key.
fn enter_key(sites: &mut Vec<(LayerId, PathId)>, key: &OpinionKey, Ghost(before): Ghost<Seq<KeyView>>)
    requires
        old(sites)@ == with_entries(seq![], key_sites(before)),
    ensures
        final(sites)@ == with_entries(seq![], key_sites(before.push(key.view()))),
{
    let lookup = (key.layer_id, key.lookup_path);
    let spec = (key.layer_id, key.spec_path.prim_path());
    proof {
        let next = before.push(key.view());
        assert(next.drop_last() =~= before);
        let first = key_sites(before).push(lookup);
        assert(key_sites(next) == first.push(spec));
        assert(first.push(spec).drop_last() =~= first);
        assert(first.drop_last() =~= key_sites(before));
        assert(with_entries(seq![], first) == with_entry(
            with_entries(seq![], key_sites(before)),
            lookup,
        ));
        assert(with_entries(seq![], first.push(spec)) == with_entry(
            with_entries(seq![], first),
            spec,
        ));
    }
    enter(sites, lookup);
    enter(sites, spec);
}

/// Enters the sites of the keys of each opinion in a list.
fn enter_chains(
    sites: &mut Vec<(LayerId, PathId)>,
    chains: &Vec<(TokenId, Vec<Opinion>)>,
    Ghost(before): Ghost<Seq<KeyView>>,
)
    requires
        old(sites)@ == with_entries(seq![], key_sites(before)),
    ensures
        final(sites)@ == with_entries(
            seq![],
            key_sites(before + chain_keys(chains_view(chains@))),
        ),
{
    let ghost all = chains_view(chains@);
    let mut i: usize = 0;
    assert(before + chain_keys(all.take(0)) =~= before);
    while i < chains.len()
        invariant
            i <= chains@.len(),
            all == chains_view(chains@),
            sites@ == with_entries(seq![], key_sites(before + chain_keys(all.take(i as int)))),
        decreases chains@.len() - i,
    {
        let opinions = &chains[i].1;
        let ghost reached = before + chain_keys(all.take(i as int));
        let ghost keys = opinions_view(opinions@).map_values(|o: OpinionView| o.key);
        let mut k: usize = 0;
        assert(reached + keys.take(0) =~= reached);
        while k < opinions.len()
            invariant
                k <= opinions@.len(),
                keys == opinions_view(opinions@).map_values(|o: OpinionView| o.key),
                sites@ == with_entries(seq![], key_sites(reached + keys.take(k as int))),
            decreases opinions@.len() - k,
        {
            enter_key(sites, &opinions[k].key, Ghost(reached + keys.take(k as int)));
            assert((reached + keys.take(k as int)).push(opinions@[k as int].key.view()) =~= reached
                + keys.take(k + 1));
            k = k + 1;
        }
        assert(keys.take(k as int) =~= keys);
        assert(all.take(i + 1).drop_last() =~= all.take(i as int));
        assert(all.take(i + 1).last() == (chains@[i as int].0, opinions_view(opinions@)));
        assert(reached + keys =~= before + chain_keys(all.take(i + 1)));
        i = i + 1;
    }
    assert(all.take(i as int) =~= all);
}

/// A walk over a stage's prims, each before its children, which come in order.
#[derive(Debug)]
pub struct Traverse {
    stack: Vec<PathId>,
}

impl View for Traverse {
    /// The prims still to be walked, the next one first. Their descendants
    /// come in as each is reached.
    type V = Seq<PathId>;

    closed spec fn view(&self) -> Seq<PathId> {
        self.stack@.reverse()
    }
}

impl Traverse {
    /// The next prim.
    pub fn next(&mut self, stage: &Stage) -> (out: Option<PathId>)
        ensures
            old(self)@.len() == 0 ==> out is None && final(self)@ == old(self)@,
            old(self)@.len() > 0 ==> out == Some(old(self)@[0]) && final(self)@ == children_in(
                stage@,
                old(self)@[0],
            ) + old(self)@.skip(1),
    {
        let ghost before = self.stack@;
        match self.stack.pop() {
            Some(next) => {
                let ghost rest = self.stack@;
                match stage.children_of(next) {
                    Some(children) => {
                        let mut i: usize = children.len();
                        while i > 0
                            invariant
                                i <= children@.len(),
                                self.stack@.reverse() =~= children@.skip(i as int)
                                    + rest.reverse(),
                            decreases i,
                        {
                            i = i - 1;
                            let ghost had = self.stack@;
                            self.stack.push(children[i]);
                            proof {
                                let child = children@[i as int];
                                assert(self.stack@.reverse() =~= seq![child] + had.reverse());
                                assert(children@.skip(i as int) =~= seq![child] + children@.skip(
                                    i + 1,
                                ));
                            }
                        }
                        assert(children@.skip(0) =~= children@);
                    },
                    None => {},
                }
                assert(before.reverse().skip(1) =~= rest.reverse());
                Some(next)
            },
            None => None,
        }
    }
}

/// A stage with the prims `recomposed` taken from `partial`.
pub open spec fn merged_stage(
    stage: StageView,
    partial: StageView,
    recomposed: Seq<PathId>,
) -> StageView {
    StageView {
        prims: merged_prims(stage.prims, partial.prims, recomposed),
        errors: errors_where(stage.errors, recomposed, false) + errors_where(
            partial.errors,
            recomposed,
            true,
        ),
        instances: Set::new(
            |prim: PathId|
                if recomposed.contains(prim) {
                    partial.instances.contains(prim)
                } else {
                    stage.instances.contains(prim)
                },
        ),
        times: both_times(stage.times, partial.times),
        ..stage
    }
}

/// The prims of a stage, with those of `partial` that `recomposed` lists in
/// their place.
pub open spec fn merged_prims(
    prims: Seq<(PathId, PrimView)>,
    partial: Seq<(PathId, PrimView)>,
    recomposed: Seq<PathId>,
) -> Seq<(PathId, PrimView)>
    decreases partial.len(),
{
    if partial.len() == 0 {
        prims
    } else {
        let earlier = merged_prims(prims, partial.drop_last(), recomposed);
        if recomposed.contains(partial.last().0) {
            with_named(earlier, partial.last().0, partial.last().1)
        } else {
            earlier
        }
    }
}

/// Merges the prims of two stages.
fn merge_prims(
    prims: Vec<(PathId, PrimIndex)>,
    places: IdMap,
    partial: Vec<(PathId, PrimIndex)>,
    recomposed: &Vec<PathId>,
) -> (out: (Vec<(PathId, PrimIndex)>, IdMap))
    requires
        path_places(places@, prims@),
    ensures
        prims_view(out.0@) == merged_prims(
            prims_view(prims@),
            prims_view(partial@),
            recomposed@,
        ),
        path_places(out.1@, out.0@),
{
    let ghost start = partial@;
    let ghost all = prims_view(partial@);
    let ghost before = prims_view(prims@);
    let mut prims = prims;
    let mut places = places;
    let mut rest = partial;
    let count = rest.len();
    let mut i: usize = 0;
    assert(all.take(0) =~= seq![]);
    assert(start.skip(0) =~= start);
    while i < count
        invariant
            i <= count,
            count == start.len(),
            rest@ == start.skip(i as int),
            all == prims_view(start),
            path_places(places@, prims@),
            prims_view(prims@) == merged_prims(before, all.take(i as int), recomposed@),
        decreases count - i,
    {
        let (path, index) = rest.remove(0);
        let ghost had = prims@;
        proof {
            assert((path, index) == start[i as int]);
            assert(rest@ =~= start.skip(i + 1));
            assert(all.take(i + 1).drop_last() =~= all.take(i as int));
            assert(all.take(i + 1).last() == (path, index@));
        }
        if holds_path(recomposed, path) {
            let place = find_path(&places, &prims, path);
            proof {
                lemma_same_place(prims@, prims_view(prims@), path);
                lemma_place_of(prims@, path, 0);
            }
            if place < prims.len() {
                prims.set(place, (path, index));
                assert(prims_view(prims@) =~= prims_view(had).update(
                    place as int,
                    (path, index@),
                ));
                proof {
                    assert forall|k: int| 0 <= k < prims@.len() implies (#[trigger] prims@[k]).0
                        == had[k].0 by {}
                    assert(path_places(places@, prims@)) by {
                        assert forall|k: int| 0 <= k < prims@.len() implies places@.dom().contains(
                            (#[trigger] prims@[k]).0.index,
                        ) && places@[prims@[k].0.index] == k by {
                            assert(had[k].0 == prims@[k].0);
                        }
                    }
                }
            } else {
                let ghost map = places@;
                insert_id(&mut places, path.index, prims.len());
                prims.push((path, index));
                let grown = prims.len();
                proof {
                    assert(prims@.len() == grown);
                    assert(prims_view(prims@) =~= prims_view(had).push((path, index@)));
                    assert(prims@.take(had.len() as int) =~= had);
                    assert(prims@.take((had.len() + 1) as int) =~= prims@);
                    assert(paths_distinct(prims@)) by {
                        assert forall|a: int, b: int| 0 <= a < b < prims@.len() implies (
                        #[trigger] prims@[a]).0 != (#[trigger] prims@[b]).0 by {
                            assert(had[a] == prims@[a]);
                            if b < had.len() {
                                assert(had[b] == prims@[b]);
                                assert(map[had[a].0.index] == a);
                                assert(map[had[b].0.index] == b);
                            }
                        }
                    }
                    lemma_places_grow(map, prims@, had.len() as int);
                }
            }
        }
        i = i + 1;
    }
    assert(all.take(i as int) =~= all);
    (prims, places)
}

/// The errors that are, or are not, on a listed prim.
pub open spec fn errors_where(
    errors: Seq<(Option<PathId>, ErrorView)>,
    listed: Seq<PathId>,
    on_listed: bool,
) -> Seq<(Option<PathId>, ErrorView)>
    decreases errors.len(),
{
    if errors.len() == 0 {
        seq![]
    } else {
        let earlier = errors_where(errors.drop_last(), listed, on_listed);
        let is_listed = errors.last().0 matches Some(prim) && listed.contains(prim);
        if is_listed == on_listed {
            earlier.push(errors.last())
        } else {
            earlier
        }
    }
}

/// Merges the instances of two stages.
fn merge_instances(ours: &Vec<PathId>, theirs: &Vec<PathId>, recomposed: &Vec<PathId>) -> (out: Vec<
    PathId,
>)
    ensures
        forall|prim: PathId| #[trigger] out@.contains(prim) == (if recomposed@.contains(prim) {
            theirs@.contains(prim)
        } else {
            ours@.contains(prim)
        }),
{
    let mut out: Vec<PathId> = Vec::new();
    let mut i: usize = 0;
    while i < ours.len()
        invariant
            i <= ours@.len(),
            forall|prim: PathId| #[trigger] out@.contains(prim) == (!recomposed@.contains(prim)
                && ours@.take(i as int).contains(prim)),
        decreases ours@.len() - i,
    {
        let prim = ours[i];
        let ghost had = out@;
        if !holds_path(recomposed, prim) {
            out.push(prim);
        }
        proof {
            assert(ours@.take(i + 1) =~= ours@.take(i as int).push(prim));
            lemma_contains_push(ours@.take(i as int), prim);
            lemma_contains_push(had, prim);
        }
        i = i + 1;
    }
    assert(ours@.take(i as int) =~= ours@);
    let ghost kept = out@;
    i = 0;
    while i < theirs.len()
        invariant
            i <= theirs@.len(),
            forall|prim: PathId| #[trigger]
                kept.contains(prim) == (!recomposed@.contains(prim) && ours@.contains(prim)),
            forall|prim: PathId| #[trigger] out@.contains(prim) == (kept.contains(prim) || (
            recomposed@.contains(prim) && theirs@.take(i as int).contains(prim))),
        decreases theirs@.len() - i,
    {
        let prim = theirs[i];
        let ghost had = out@;
        if holds_path(recomposed, prim) {
            out.push(prim);
        }
        proof {
            assert(theirs@.take(i + 1) =~= theirs@.take(i as int).push(prim));
            lemma_contains_push(theirs@.take(i as int), prim);
            lemma_contains_push(had, prim);
        }
        i = i + 1;
    }
    assert(theirs@.take(i as int) =~= theirs@);
    out
}

proof fn lemma_contains_push(list: Seq<PathId>, path: PathId)
    ensures
        forall|p: PathId| #[trigger] list.push(path).contains(p) == (list.contains(p) || p == path),
{
    assert forall|p: PathId| #[trigger]
        list.push(path).contains(p) == (list.contains(p) || p == path) by {
        if list.contains(p) {
            let k = choose|k: int| 0 <= k < list.len() && list[k] == p;
            assert(list.push(path)[k] == p);
        }
        if p == path {
            assert(list.push(path)[list.len() as int] == p);
        }
        if list.push(path).contains(p) && p != path {
            let k = choose|k: int| 0 <= k < list.push(path).len() && list.push(path)[k] == p;
            assert(list[k] == p);
        }
    }
}

/// The errors that are, or are not, on a listed prim.
fn keep_errors(errors: Vec<StageError>, listed: &Vec<PathId>, on_listed: bool) -> (out: Vec<
    StageError,
>)
    ensures
        stage_errors(out@) == errors_where(stage_errors(errors@), listed@, on_listed),
{
    let ghost all = stage_errors(errors@);
    let ghost start = errors@;
    let mut rest = errors;
    let mut out: Vec<StageError> = Vec::new();
    let mut i: usize = 0;
    let count = rest.len();
    assert(all.take(0) =~= seq![]);
    assert(stage_errors(out@) =~= seq![]);
    assert(start.skip(0) =~= start);
    while i < count
        invariant
            i <= count,
            count == start.len(),
            rest@ == start.skip(i as int),
            all == stage_errors(start),
            stage_errors(out@) == errors_where(all.take(i as int), listed@, on_listed),
        decreases count - i,
    {
        let error = rest.remove(0);
        proof {
            assert(error == start[i as int]);
            assert(rest@ =~= start.skip(i + 1));
            assert(all.take(i + 1).drop_last() =~= all.take(i as int));
            assert(all.take(i + 1).last() == (error.prim, error.error.view()));
        }
        let is_listed = match error.prim {
            Some(prim) => holds_path(listed, prim),
            None => false,
        };
        if is_listed == on_listed {
            let ghost had = out@;
            out.push(error);
            assert(stage_errors(out@) =~= stage_errors(had).push((error.prim, error.error.view())));
        }
        i = i + 1;
    }
    assert(all.take(i as int) =~= all);
    out
}

/// Merges the errors of two stages.
fn merge_errors(ours: Vec<StageError>, theirs: Vec<StageError>, recomposed: &Vec<PathId>) -> (out:
    Vec<StageError>)
    ensures
        stage_errors(out@) == errors_where(stage_errors(ours@), recomposed@, false) + errors_where(
            stage_errors(theirs@),
            recomposed@,
            true,
        ),
{
    let mut out = keep_errors(ours, recomposed, false);
    let mut added = keep_errors(theirs, recomposed, true);
    let ghost kept = out@;
    let ghost more = added@;
    out.append(&mut added);
    assert(stage_errors(out@) =~= stage_errors(kept) + stage_errors(more));
    out
}

// ── Laws ────────────────────────────────────────────────────────────────

/// A property is read from the opinions on the property of its name, and a
/// metadata field from those on the field, of the prim that is asked.
pub proof fn law_lookups_read_their_own_chains(
    stage: StageView,
    prim: PathId,
    name: TokenId,
    p: int,
    c: int,
)
    requires
        0 <= p < stage.prims.len(),
        stage.prims[p].0 == prim,
        forall|k: int| 0 <= k < p ==> (#[trigger] stage.prims[k]).0 != prim,
    ensures
        ({
            let index = stage.prims[p].1;
            &&& 0 <= c < index.properties.len() && index.properties[c].0 == name && (forall|k: int|
                0 <= k < c ==> (#[trigger] index.properties[k]).0 != name) ==> stage.opinions(
                prim,
                name,
                Lookup::Property,
            ) == Some(index.properties[c].1)
            &&& 0 <= c < index.metadata.len() && index.metadata[c].0 == name && (forall|k: int|
                0 <= k < c ==> (#[trigger] index.metadata[k]).0 != name) ==> stage.opinions(
                prim,
                name,
                Lookup::Metadata,
            ) == Some(index.metadata[c].1)
            &&& (forall|k: int|
                0 <= k < index.properties.len() ==> (#[trigger] index.properties[k]).0 != name)
                ==> stage.opinions(prim, name, Lookup::Property) is None
            &&& (forall|k: int|
                0 <= k < index.metadata.len() ==> (#[trigger] index.metadata[k]).0 != name)
                ==> stage.opinions(prim, name, Lookup::Metadata) is None
        }),
{
    let index = stage.prims[p].1;
    lemma_place_of_unique(stage.prims, prim, p);
    if 0 <= c < index.properties.len() && index.properties[c].0 == name && (forall|k: int|
        0 <= k < c ==> (#[trigger] index.properties[k]).0 != name) {
        lemma_place_of_unique(index.properties, name, c);
    }
    if 0 <= c < index.metadata.len() && index.metadata[c].0 == name && (forall|k: int|
        0 <= k < c ==> (#[trigger] index.metadata[k]).0 != name) {
        lemma_place_of_unique(index.metadata, name, c);
    }
    lemma_place_of(index.properties, name, 0);
    lemma_place_of(index.metadata, name, 0);
}

/// A resolved value comes with the layer and the spec of the opinion that it is
/// due to, where the stage records that.
pub proof fn law_provenance_names_the_opinion(
    stage: StageView,
    opinions: Seq<OpinionView>,
    at: int,
    field: TokenId,
)
    requires
        0 <= at < opinions.len(),
    ensures
        stage.with_provenance ==> stage.provenance(opinions, Some(at), field) == Some(
            ProvenanceView {
                layer: opinions[at].key.layer_id,
                spec_path: opinions[at].key.spec_path,
                field,
            },
        ),
        !stage.with_provenance ==> stage.provenance(opinions, Some(at), field) is None,
{
}

proof fn lemma_with_named<T>(entries: Seq<(PathId, T)>, name: PathId, value: T, other: PathId)
    ensures
        named(with_named(entries, name, value), other) == (if other == name {
            Some(value)
        } else {
            named(entries, other)
        }),
{
    let out = with_named(entries, name, value);
    lemma_place_of(entries, name, 0);
    lemma_place_of(entries, other, 0);
    let at = place_of(entries, name, 0);
    let found = place_of(entries, other, 0);
    if other == name {
        assert forall|k: int| 0 <= k < at implies (#[trigger] out[k]).0 != name by {
            assert(out[k] == entries[k]);
        }
        lemma_place_of_unique(out, name, at);
    } else if found < entries.len() {
        assert forall|k: int| 0 <= k < found implies (#[trigger] out[k]).0 != other by {
            if k != at {
                assert(out[k] == entries[k]);
            }
        }
        assert(out[found] == entries[found]);
        lemma_place_of_unique(out, other, found);
    } else {
        assert forall|k: int| 0 <= k < out.len() implies (#[trigger] out[k]).0 != other by {
            if k < entries.len() && k != at {
                assert(out[k] == entries[k]);
            }
        }
        lemma_place_of_unique(out, other, out.len() as int);
    }
}

proof fn lemma_merged_prims(
    prims: Seq<(PathId, PrimView)>,
    partial: Seq<(PathId, PrimView)>,
    recomposed: Seq<PathId>,
    prim: PathId,
)
    ensures
        !recomposed.contains(prim) ==> named(merged_prims(prims, partial, recomposed), prim)
            == named(prims, prim),
        (forall|k: int| 0 <= k < partial.len() ==> (#[trigger] partial[k]).0 != prim) ==> named(
            merged_prims(prims, partial, recomposed),
            prim,
        ) == named(prims, prim),
    decreases partial.len(),
{
    if partial.len() > 0 {
        let rest = partial.drop_last();
        lemma_merged_prims(prims, rest, recomposed, prim);
        assert(partial[partial.len() - 1] == partial.last());
        if forall|k: int| 0 <= k < partial.len() ==> (#[trigger] partial[k]).0 != prim {
            assert forall|k: int| 0 <= k < rest.len() implies (#[trigger] rest[k]).0 != prim by {
                assert(rest[k] == partial[k]);
            }
        }
        lemma_with_named(
            merged_prims(prims, rest, recomposed),
            partial.last().0,
            partial.last().1,
            prim,
        );
    }
}

/// Recomposing part of a stage takes the listed prims from the partial
/// composition, and leaves every other prim, and its errors, as they were.
pub proof fn law_recomposing_replaces_the_listed_prims(
    stage: StageView,
    partial: StageView,
    recomposed: Seq<PathId>,
    prim: PathId,
    p: int,
)
    ensures
        ({
            let out = merged_stage(stage, partial, recomposed);
            &&& recomposed.contains(prim) && 0 <= p < partial.prims.len() && partial.prims[p].0
                == prim && (forall|k: int|
                p < k < partial.prims.len() ==> (#[trigger] partial.prims[k]).0 != prim) ==> named(
                out.prims,
                prim,
            ) == Some(partial.prims[p].1)
            &&& !recomposed.contains(prim) ==> named(out.prims, prim) == named(stage.prims, prim)
            &&& recomposed.contains(prim) ==> (out.instances.contains(prim)
                <==> partial.instances.contains(prim))
            &&& !recomposed.contains(prim) ==> (out.instances.contains(prim)
                <==> stage.instances.contains(prim))
            &&& out.children == stage.children
        }),
{
    lemma_merged_prims(stage.prims, partial.prims, recomposed, prim);
    if recomposed.contains(prim) && 0 <= p < partial.prims.len() && partial.prims[p].0 == prim && (
    forall|k: int| p < k < partial.prims.len() ==> (#[trigger] partial.prims[k]).0 != prim) {
        lemma_merged_prim(stage.prims, partial.prims, recomposed, p);
    }
}

proof fn lemma_merged_prim(
    prims: Seq<(PathId, PrimView)>,
    partial: Seq<(PathId, PrimView)>,
    recomposed: Seq<PathId>,
    p: int,
)
    requires
        0 <= p < partial.len(),
        recomposed.contains(partial[p].0),
        forall|k: int| p < k < partial.len() ==> (#[trigger] partial[k]).0 != partial[p].0,
    ensures
        named(merged_prims(prims, partial, recomposed), partial[p].0) == Some(partial[p].1),
    decreases partial.len(),
{
    let rest = partial.drop_last();
    let n = partial.len() - 1;
    lemma_with_named(
        merged_prims(prims, rest, recomposed),
        partial.last().0,
        partial.last().1,
        partial[p].0,
    );
    if p < n {
        assert(rest[p] == partial[p]);
        assert(partial[n].0 != partial[p].0);
        assert forall|k: int| p < k < rest.len() implies (#[trigger] rest[k]).0 != rest[p].0 by {
            assert(rest[k] == partial[k]);
        }
        lemma_merged_prim(prims, rest, recomposed, p);
    }
}

proof fn lemma_errors_where(
    errors: Seq<(Option<PathId>, ErrorView)>,
    listed: Seq<PathId>,
    on_listed: bool,
    error: (Option<PathId>, ErrorView),
)
    ensures
        errors_where(errors, listed, on_listed).contains(error) <==> errors.contains(error) && (
        error.0 matches Some(prim) && listed.contains(prim)) == on_listed,
    decreases errors.len(),
{
    if errors.len() > 0 {
        let rest = errors.drop_last();
        lemma_errors_where(rest, listed, on_listed, error);
        let before = errors_where(rest, listed, on_listed);
        let out = errors_where(errors, listed, on_listed);
        assert(errors[errors.len() - 1] == errors.last());
        if before.contains(error) {
            let k = choose|k: int| 0 <= k < before.len() && before[k] == error;
            assert(out[k] == error);
        }
        if rest.contains(error) {
            let k = choose|k: int| 0 <= k < rest.len() && rest[k] == error;
            assert(errors[k] == error);
        }
        if out.len() > before.len() {
            assert(out[before.len() as int] == errors.last());
        }
        if out.contains(error) && !before.contains(error) {
            let k = choose|k: int| 0 <= k < out.len() && out[k] == error;
            if k < before.len() {
                assert(before[k] == error);
            }
        }
        if errors.contains(error) && !rest.contains(error) {
            let k = choose|k: int| 0 <= k < errors.len() && errors[k] == error;
            if k < rest.len() {
                assert(rest[k] == error);
            }
        }
    } else {
        assert(!errors.contains(error));
        assert(!errors_where(errors, listed, on_listed).contains(error));
    }
}

/// Recomposing part of a stage keeps the errors of the other prims and of none,
/// and takes those of the listed prims from the partial composition.
pub proof fn law_recomposing_replaces_the_listed_errors(
    stage: StageView,
    partial: StageView,
    recomposed: Seq<PathId>,
    error: (Option<PathId>, ErrorView),
)
    ensures
        merged_stage(stage, partial, recomposed).errors.contains(error) <==> (if error.0 matches Some(
            prim,
        ) && recomposed.contains(prim) {
            partial.errors.contains(error)
        } else {
            stage.errors.contains(error)
        }),
{
    let a = errors_where(stage.errors, recomposed, false);
    let b = errors_where(partial.errors, recomposed, true);
    lemma_errors_where(stage.errors, recomposed, false, error);
    lemma_errors_where(partial.errors, recomposed, true, error);
    let all = a + b;
    if a.contains(error) {
        let k = choose|k: int| 0 <= k < a.len() && a[k] == error;
        assert(all[k] == error);
    }
    if b.contains(error) {
        let k = choose|k: int| 0 <= k < b.len() && b[k] == error;
        assert(all[a.len() + k] == error);
    }
    if all.contains(error) {
        let k = choose|k: int| 0 <= k < all.len() && all[k] == error;
        if k < a.len() {
            assert(a[k] == error);
        } else {
            assert(b[k - a.len()] == error);
        }
    }
}

} // verus!
