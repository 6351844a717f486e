//! What a stage composes, as it is compared with another stage.

use crate::doc::{numbers_equal, same_number, total_before, total_place, Precision, Value, ValueView};
use crate::fields::{lemma_place_of, lemma_place_of_unique, named, place_of, TargetPath};
use crate::flatten::copy::{own_copied, scene_known, Scene, SceneView};
use crate::flatten::prims::{chains_known, find_fold, prim_known};
use crate::flatten::properties::{
    chain_known, names_known, opinion_known, Progress, WritingView,
};
use crate::flatten::verify::{resolved_view, Seen, SeenView};
use crate::interner::TokenId;
use crate::layer::SpecView;
use crate::opinion::{opinions_view, OpinionValueView, OpinionView};
use crate::path::{PathId, PropertyPath};
use crate::resolution::{
    declared_as, resolved_metadata, DeclarationView, ResolvedValue, ResolvedView,
};
use crate::sorting::{sort_stable, stable_sorted};
use crate::stage::sources::{
    active_of, instanceable_of, prim_order_of, property_order_of, resolve_declared, sources_view,
    specifier_of, strongest, type_of, SourceSpec, SourceView,
};
use crate::stage::{chains_view, Lookup, StageView};
use crate::times::{stage_time, TimeTable, Times};
use vstd::prelude::*;

verus! {

// ── Prims ───────────────────────────────────────────────────────────────

/// The specs that a prim's sources read.
pub open spec fn specs_of(scene: SceneView, prim: PathId) -> Seq<Option<SourceView>> {
    match named(scene.sources, prim) {
        Some(source) => source.specs,
        None => seq![],
    }
}

/// The names of a prim's properties.
pub open spec fn names_of(scene: SceneView, prim: PathId) -> Seq<TokenId> {
    match named(scene.sources, prim) {
        Some(source) => source.property_names,
        None => seq![],
    }
}

/// What a prim's sources declare of it, in the order it is compared: the
/// specifier, the type, whether it is active and instanceable, and the orders
/// of its children and of its properties.
pub open spec fn members_of(scene: SceneView, prim: PathId) -> Seq<SeenView> {
    let specs = specs_of(scene, prim);
    seq![
        SeenView::Specifier(Some(specifier_of(specs))),
        SeenView::Label(type_of(specs)),
        SeenView::Flag(active_of(specs)),
        SeenView::Flag(instanceable_of(specs)),
        SeenView::Order(prim_order_of(specs)),
        SeenView::Order(property_order_of(specs)),
    ]
}

/// What the spec that is written of a prim declares, read as the only source.
pub open spec fn source_of(spec: SpecView) -> SourceView {
    SourceView {
        specifier: spec.specifier,
        type_label: spec.type_label,
        active: spec.active,
        instanceable: spec.instanceable,
        prim_order: spec.prim_order,
        property_order: spec.property_order,
    }
}

/// A scene that reads of a prim only the spec that is written of it reads of
/// it what the scene reads.
pub proof fn law_written_members_read_back(
    scene: SceneView,
    flat: SceneView,
    prim: PathId,
    before: Progress,
    w: WritingView,
)
    requires
        named(scene.stage.prims, prim) is Some,
        named(scene.sources, prim) is Some,
        specs_of(flat, prim) == seq![Some(source_of(own_copied(before, scene, prim, w).1))],
    ensures
        members_of(flat, prim) == members_of(scene, prim),
{
    let specs = specs_of(flat, prim);
    reveal_with_fuel(strongest, 2);
    assert(specs.drop_last() =~= seq![]);
    assert(members_of(flat, prim) =~= members_of(scene, prim));
}

/// What a prim's sources declare of it.
#[derive(Debug)]
pub struct Members {
    pub specifier: Seen,
    pub type_label: Seen,
    pub active: Seen,
    pub instanceable: Seen,
    pub prim_order: Seen,
    pub property_order: Seen,
}

impl View for Members {
    type V = Seq<SeenView>;

    open spec fn view(&self) -> Seq<SeenView> {
        seq![
            self.specifier@,
            self.type_label@,
            self.active@,
            self.instanceable@,
            self.prim_order@,
            self.property_order@,
        ]
    }
}

/// Reads what a prim's sources declare of it.
pub fn read_members(scene: &Scene<'_>, prim: PathId) -> (out: Members)
    ensures
        out@ == members_of(scene@, prim),
{
    let declared = match scene.source(prim) {
        Some(source) => resolve_declared(&source.specs),
        None => {
            let none: Vec<Option<SourceSpec>> = Vec::new();
            assert(sources_view(none@) =~= seq![]);
            resolve_declared(&none)
        },
    };
    Members {
        specifier: Seen::Specifier(Some(declared.specifier)),
        type_label: Seen::Label(declared.type_label),
        active: Seen::Flag(declared.active),
        instanceable: Seen::Flag(declared.instanceable),
        prim_order: Seen::Order(declared.prim_order),
        property_order: Seen::Order(declared.property_order),
    }
}

/// What a prim metadata field composes to.
pub open spec fn metadata_seen(scene: SceneView, prim: PathId, key: TokenId) -> Option<
    ResolvedView,
> {
    let fold = match named(scene.sources, prim) {
        Some(source) => named(source.metadata_folds, key),
        None => None,
    };
    match scene.stage.resolution(prim, key, Lookup::Metadata, fold) {
        Some((value, _)) => Some(value),
        None => None,
    }
}

/// What known prims compose fits in memory.
pub proof fn lemma_scene_fits(
    scene: SceneView,
    tokens: Seq<Seq<char>>,
    count: nat,
    prim: PathId,
    name: TokenId,
    lookup: Lookup,
)
    requires
        scene_known(scene, tokens, count),
    ensures
        scene.stage.fits(prim, name, lookup),
        scene.stage.opinions(prim, name, lookup) matches Some(opinions) ==> chain_known(
            opinions,
            tokens,
        ),
{
    lemma_place_of(scene.stage.prims, prim, 0);
    let at = place_of(scene.stage.prims, prim, 0);
    if at < scene.stage.prims.len() {
        assert(prim_known(scene.stage.prims[at].1, tokens));
        let chains = match lookup {
            Lookup::Property => scene.stage.prims[at].1.properties,
            Lookup::Metadata => scene.stage.prims[at].1.metadata,
        };
        lemma_place_of(chains, name, 0);
        let k = place_of(chains, name, 0);
        if k < chains.len() {
            assert(chain_known(chains[k].1, tokens));
        }
    }
}

/// Reads what a prim metadata field composes to.
pub fn read_metadata(
    scene: &Scene<'_>,
    prim: PathId,
    key: TokenId,
    Ghost(tokens): Ghost<Seq<Seq<char>>>,
    Ghost(count): Ghost<nat>,
) -> (out: Option<ResolvedValue>)
    requires
        scene_known(scene@, tokens, count),
    ensures
        resolved_view(out) == metadata_seen(scene@, prim, key),
{
    let fold = match scene.source(prim) {
        Some(source) => find_fold(&source.metadata_folds, key),
        None => None,
    };
    proof {
        lemma_scene_fits(scene@, tokens, count, prim, key, Lookup::Metadata);
    }
    match scene.stage.resolve_value(prim, key, fold) {
        Some(resolved) => Some(resolved.value),
        None => None,
    }
}

// ── Properties ──────────────────────────────────────────────────────────

/// What a property composes to at the default time.
pub open spec fn default_seen(scene: SceneView, property: PropertyPath) -> Option<ResolvedView> {
    let fold = match named(scene.sources, property.prim_path) {
        Some(source) => named(source.property_folds, property.property),
        None => None,
    };
    match scene.stage.resolution(property.prim_path, property.property, Lookup::Property, fold) {
        Some((value, _)) => Some(value),
        None => None,
    }
}

/// Reads what a property composes to at the default time.
pub fn read_default(
    scene: &Scene<'_>,
    property: PropertyPath,
    Ghost(tokens): Ghost<Seq<Seq<char>>>,
    Ghost(count): Ghost<nat>,
) -> (out: Option<ResolvedValue>)
    requires
        scene_known(scene@, tokens, count),
    ensures
        resolved_view(out) == default_seen(scene@, property),
{
    let fold = match scene.source(property.prim_path) {
        Some(source) => find_fold(&source.property_folds, property.property),
        None => None,
    };
    proof {
        lemma_scene_fits(
            scene@,
            tokens,
            count,
            property.prim_path,
            property.property,
            Lookup::Property,
        );
    }
    match scene.stage.resolve_property_path(property, fold) {
        Some(resolved) => Some(resolved.value),
        None => None,
    }
}

/// How a property is declared.
pub open spec fn declaration_seen(scene: SceneView, property: PropertyPath) -> Option<
    DeclarationView,
> {
    match scene.stage.opinions(property.prim_path, property.property, Lookup::Property) {
        Some(opinions) => declared_as(opinions),
        None => None,
    }
}

/// What a property metadata field composes to.
pub open spec fn field_seen(scene: SceneView, property: PropertyPath, key: TokenId) -> Option<
    ResolvedView,
> {
    match scene.stage.read(property.prim_path, property.property, Lookup::Property) {
        Some(opinions) => match resolved_metadata(opinions, key) {
            Some(outcome) => Some(outcome.value),
            None => None,
        },
        None => None,
    }
}

/// Reads what a property metadata field composes to.
pub fn read_field(scene: &Scene<'_>, property: PropertyPath, key: TokenId) -> (out: Option<
    ResolvedValue,
>)
    ensures
        resolved_view(out) == field_seen(scene@, property, key),
{
    match scene.stage.resolve_property_metadata(property.prim_path, property.property, key) {
        Some(resolved) => Some(resolved.value),
        None => None,
    }
}

/// What a property points at; nothing where it has no list.
pub open spec fn targets_seen(scene: SceneView, property: PropertyPath) -> Seq<TargetPath> {
    match crate::stage::targets_resolution(
        scene.stage,
        property.prim_path,
        property.property,
        Lookup::Property,
    ) {
        Some((targets, _)) => targets,
        None => seq![],
    }
}

/// Reads what a property points at.
pub fn read_targets(scene: &Scene<'_>, property: PropertyPath) -> (out: Vec<TargetPath>)
    ensures
        out@ == targets_seen(scene@, property),
{
    match scene.stage.resolve_target_list_path(property) {
        Some(resolved) => resolved.value,
        None => {
            let out: Vec<TargetPath> = Vec::new();
            assert(out@ =~= seq![]);
            out
        },
    }
}

/// What properties compose to at times, by the bits of the time.
pub type TimedValues = Vec<((PropertyPath, u64), Option<Value>)>;

/// The values of a table of values at times.
pub open spec fn timed_view(table: Seq<((PropertyPath, u64), Option<Value>)>) -> Seq<
    ((PropertyPath, u64), Option<ValueView>),
> {
    table.map_values(
        |e: ((PropertyPath, u64), Option<Value>)| (e.0, crate::doc::value_option(e.1)),
    )
}

/// What a property composes to at a time.
pub open spec fn value_at(
    table: Seq<((PropertyPath, u64), Option<ValueView>)>,
    property: PropertyPath,
    time: u64,
) -> Option<ValueView> {
    match named(table, (property, time)) {
        Some(value) => value,
        None => None,
    }
}

/// What a property composes to at a time.
pub fn find_value(table: &TimedValues, property: PropertyPath, time: u64) -> (out: Option<Value>)
    ensures
        crate::doc::value_option(out) == value_at(timed_view(table@), property, time),
{
    let ghost all = timed_view(table@);
    let mut i: usize = 0;
    while i < table.len()
        invariant
            i <= table@.len(),
            all == timed_view(table@),
            forall|k: int| 0 <= k < i ==> (#[trigger] all[k]).0 != (property, time),
        decreases table@.len() - i,
    {
        assert(all[i as int] == (
            table@[i as int].0,
            crate::doc::value_option(table@[i as int].1),
        ));
        if table[i].0.0 == property && table[i].0.1 == time {
            proof {
                lemma_place_of_unique(all, (property, time), i as int);
            }
            return crate::doc::copy_option(&table[i].1);
        }
        i = i + 1;
    }
    proof {
        lemma_place_of_unique(all, (property, time), i as int);
    }
    None
}

// ── Runs ────────────────────────────────────────────────────────────────

/// The first of every run of the same items.
pub open spec fn first_of_runs<T>(items: Seq<T>, same: spec_fn(T, T) -> bool) -> Seq<T>
    decreases items.len(),
{
    if items.len() == 0 {
        seq![]
    } else {
        let earlier = first_of_runs(items.drop_last(), same);
        if earlier.len() > 0 && same(earlier.last(), items.last()) {
            earlier
        } else {
            earlier.push(items.last())
        }
    }
}

/// Tokens by their place.
pub open spec fn by_place() -> spec_fn(TokenId, TokenId) -> bool {
    |a: TokenId, b: TokenId| a.index < b.index
}

/// Whether two tokens are the same.
pub open spec fn is_token_same() -> spec_fn(TokenId, TokenId) -> bool {
    |a: TokenId, b: TokenId| a == b
}

/// Tokens, by their place, each once.
pub open spec fn placed_tokens(tokens: Seq<TokenId>) -> Seq<TokenId> {
    first_of_runs(stable_sorted(tokens, by_place()), is_token_same())
}

/// Times in the total order of doubles.
pub open spec fn by_time() -> spec_fn(u64, u64) -> bool {
    |a: u64, b: u64| total_place(a) < total_place(b)
}

/// Whether two times are equal.
pub open spec fn is_time_same() -> spec_fn(u64, u64) -> bool {
    |a: u64, b: u64| numbers_equal(Precision::Double, a, b)
}

/// Times in order, equal ones once.
pub open spec fn placed_times(times: Seq<u64>) -> Seq<u64> {
    first_of_runs(stable_sorted(times, by_time()), is_time_same())
}

/// Tokens, by their place, each once.
pub fn place_tokens(tokens: Vec<TokenId>) -> (out: Vec<TokenId>)
    ensures
        out@ == placed_tokens(tokens@),
        forall|i: int| 0 <= i < out@.len() ==> tokens@.contains(#[trigger] out@[i]),
{
    let ghost given = tokens@;
    let mut tokens = tokens;
    let before = |a: &TokenId, b: &TokenId| -> (first: bool)
        ensures
            first == (a.index < b.index),
    { a.index < b.index };
    sort_stable(&mut tokens, before, Ghost(by_place()));
    let ghost sorted = tokens@;
    proof {
        crate::sorting::lemma_stable_sorted(given, by_place());
    }
    let mut out: Vec<TokenId> = Vec::new();
    let mut i: usize = 0;
    assert(sorted.take(0) =~= seq![]);
    while i < tokens.len()
        invariant
            i <= tokens@.len(),
            sorted == tokens@,
            forall|k: int| 0 <= k < sorted.len() ==> given.contains(#[trigger] sorted[k]),
            out@ == first_of_runs(sorted.take(i as int), is_token_same()),
            forall|k: int| 0 <= k < out@.len() ==> given.contains(#[trigger] out@[k]),
        decreases tokens@.len() - i,
    {
        proof {
            assert(sorted.take(i + 1).drop_last() =~= sorted.take(i as int));
            assert(sorted.take(i + 1).last() == tokens@[i as int]);
        }
        let n = out.len();
        if n == 0 || out[n - 1] != tokens[i] {
            out.push(tokens[i]);
        }
        i = i + 1;
    }
    assert(sorted.take(i as int) =~= sorted);
    out
}

/// Times in order, equal ones once.
pub fn place_times(times: Vec<u64>) -> (out: Vec<u64>)
    ensures
        out@ == placed_times(times@),
{
    let mut times = times;
    let before = |a: &u64, b: &u64| -> (first: bool)
        ensures
            first == (total_place(*a) < total_place(*b)),
    { total_before(*a, *b) };
    sort_stable(&mut times, before, Ghost(by_time()));
    let ghost sorted = times@;
    let mut out: Vec<u64> = Vec::new();
    let mut i: usize = 0;
    assert(sorted.take(0) =~= seq![]);
    while i < times.len()
        invariant
            i <= times@.len(),
            sorted == times@,
            out@ == first_of_runs(sorted.take(i as int), is_time_same()),
        decreases times@.len() - i,
    {
        proof {
            assert(sorted.take(i + 1).drop_last() =~= sorted.take(i as int));
            assert(sorted.take(i + 1).last() == times@[i as int]);
        }
        let n = out.len();
        if n == 0 || !same_number(Precision::Double, out[n - 1], times[i]) {
            out.push(times[i]);
        }
        i = i + 1;
    }
    assert(sorted.take(i as int) =~= sorted);
    out
}

// ── Keys and times ──────────────────────────────────────────────────────

/// The metadata fields that a stage composes for a prim.
pub open spec fn keys_of(stage: StageView, prim: PathId) -> Seq<TokenId> {
    match named(stage.prims, prim) {
        Some(index) => index.metadata.map_values(|c: (TokenId, Seq<OpinionView>)| c.0),
        None => seq![],
    }
}

/// The metadata fields that a chain of opinions on a property authors.
pub open spec fn authored_keys(opinions: Seq<OpinionView>) -> Seq<TokenId>
    decreases opinions.len(),
{
    if opinions.len() == 0 {
        seq![]
    } else {
        authored_keys(opinions.drop_last()) + match opinions.last().value {
            OpinionValueView::Property(spec) => spec.metadata.map_values(
                |f: (TokenId, crate::fields::FieldView)| f.0,
            ),
            OpinionValueView::Field(_) => seq![],
        }
    }
}

/// The stage times of the samples that a chain of opinions authors.
pub open spec fn authored_times(opinions: Seq<OpinionView>, times: Times) -> Seq<u64>
    decreases opinions.len(),
{
    if opinions.len() == 0 {
        seq![]
    } else {
        let last = opinions.last();
        authored_times(opinions.drop_last(), times) + match last.value.time_samples() {
            Some(samples) => samples.map_values(
                |s: (u64, ValueView)| stage_time(times, last.layer_offset, s.0),
            ),
            None => seq![],
        }
    }
}

/// The opinions on a property.
pub open spec fn chain_of(stage: StageView, property: PropertyPath) -> Seq<OpinionView> {
    match stage.opinions(property.prim_path, property.property, Lookup::Property) {
        Some(opinions) => opinions,
        None => seq![],
    }
}

/// Collects the metadata fields that a stage composes for a prim.
pub fn collect_keys(
    scene: &Scene<'_>,
    prim: PathId,
    keys: &mut Vec<TokenId>,
    Ghost(tokens): Ghost<Seq<Seq<char>>>,
    Ghost(count): Ghost<nat>,
)
    requires
        scene_known(scene@, tokens, count),
        forall|i: int| 0 <= i < old(keys)@.len() ==> (#[trigger] old(keys)@[i]).index < tokens.len(),
    ensures
        final(keys)@ == old(keys)@ + keys_of(scene@.stage, prim),
        forall|i: int|
            0 <= i < final(keys)@.len() ==> (#[trigger] final(keys)@[i]).index < tokens.len(),
{
    let ghost start = keys@;
    let index = match scene.stage.prim(prim) {
        Some(index) => index,
        None => {
            assert(keys@ =~= start + seq![]);
            return ;
        },
    };
    proof {
        lemma_place_of(scene@.stage.prims, prim, 0);
        let at = place_of(scene@.stage.prims, prim, 0);
        assert(prim_known(scene@.stage.prims[at].1, tokens));
        assert(start + keys_of(scene@.stage, prim).take(0) =~= start);
    }
    let ghost all = keys_of(scene@.stage, prim);
    let mut i: usize = 0;
    while i < index.metadata.len()
        invariant
            i <= index.metadata@.len(),
            all == chains_view(index.metadata@).map_values(
                |c: (TokenId, Seq<OpinionView>)| c.0,
            ),
            chains_known(chains_view(index.metadata@), tokens),
            keys@ == start + all.take(i as int),
            forall|k: int| 0 <= k < keys@.len() ==> (#[trigger] keys@[k]).index < tokens.len(),
        decreases index.metadata@.len() - i,
    {
        proof {
            assert(chains_view(index.metadata@)[i as int].0 == index.metadata@[i as int].0);
            assert(all.take(i + 1) =~= all.take(i as int).push(index.metadata@[i as int].0));
            assert((start + all.take(i as int)).push(index.metadata@[i as int].0) =~= start
                + all.take(i + 1));
        }
        keys.push(index.metadata[i].0);
        i = i + 1;
    }
    assert(all.take(i as int) =~= all);
}

/// Collects the metadata fields that a stage composes for a property.
pub fn collect_authored(
    scene: &Scene<'_>,
    property: PropertyPath,
    keys: &mut Vec<TokenId>,
    Ghost(tokens): Ghost<Seq<Seq<char>>>,
    Ghost(count): Ghost<nat>,
)
    requires
        scene_known(scene@, tokens, count),
        forall|i: int| 0 <= i < old(keys)@.len() ==> (#[trigger] old(keys)@[i]).index < tokens.len(),
    ensures
        final(keys)@ == old(keys)@ + authored_keys(chain_of(scene@.stage, property)),
        forall|i: int|
            0 <= i < final(keys)@.len() ==> (#[trigger] final(keys)@[i]).index < tokens.len(),
{
    let ghost start = keys@;
    let opinions = match scene.stage.explain_property_path(property) {
        Some(opinions) => opinions,
        None => {
            assert(keys@ =~= start + seq![]);
            return ;
        },
    };
    let ghost all = opinions_view(opinions@);
    proof {
        lemma_scene_fits(
            scene@,
            tokens,
            count,
            property.prim_path,
            property.property,
            Lookup::Property,
        );
        assert(all.take(0) =~= seq![]);
        assert(start + authored_keys(all.take(0)) =~= start);
    }
    let mut i: usize = 0;
    while i < opinions.len()
        invariant
            i <= opinions@.len(),
            all == opinions_view(opinions@),
            chain_known(all, tokens),
            keys@ == start + authored_keys(all.take(i as int)),
            forall|k: int| 0 <= k < keys@.len() ==> (#[trigger] keys@[k]).index < tokens.len(),
        decreases opinions@.len() - i,
    {
        proof {
            assert(all.take(i + 1).drop_last() =~= all.take(i as int));
            assert(all.take(i + 1).last() == opinions@[i as int]@);
            assert(opinion_known(all[i as int], tokens));
        }
        let ghost reached = keys@;
        match opinions[i].value.as_property() {
            Some(spec) => {
                let ghost fields = crate::fields::fields_view(spec.metadata@);
                let ghost names = fields.map_values(
                    |f: (TokenId, crate::fields::FieldView)| f.0,
                );
                let mut k: usize = 0;
                assert(reached + names.take(0) =~= reached);
                while k < spec.metadata.len()
                    invariant
                        k <= spec.metadata@.len(),
                        fields == crate::fields::fields_view(spec.metadata@),
                        names == fields.map_values(
                            |f: (TokenId, crate::fields::FieldView)| f.0,
                        ),
                        names_known(fields, tokens),
                        keys@ == reached + names.take(k as int),
                        forall|m: int|
                            0 <= m < keys@.len() ==> (#[trigger] keys@[m]).index < tokens.len(),
                    decreases spec.metadata@.len() - k,
                {
                    proof {
                        assert(fields[k as int].0 == spec.metadata@[k as int].name);
                        assert((reached + names.take(k as int)).push(
                            spec.metadata@[k as int].name,
                        ) =~= reached + names.take(k + 1));
                    }
                    keys.push(spec.metadata[k].name);
                    k = k + 1;
                }
                assert(names.take(k as int) =~= names);
            },
            None => {
                assert(reached =~= reached + seq![]);
            },
        }
        assert(keys@ =~= start + authored_keys(all.take(i + 1)));
        i = i + 1;
    }
    assert(all.take(i as int) =~= all);
}

/// Collects the stage times of the samples that a stage composes a property
/// from.
pub fn collect_times(
    scene: &Scene<'_>,
    property: PropertyPath,
    times: &TimeTable,
    out: &mut Vec<u64>,
)
    ensures
        final(out)@ == old(out)@ + authored_times(chain_of(scene@.stage, property), times@),
{
    let ghost start = out@;
    let opinions = match scene.stage.explain_property_path(property) {
        Some(opinions) => opinions,
        None => {
            assert(out@ =~= start + seq![]);
            return ;
        },
    };
    let ghost all = opinions_view(opinions@);
    proof {
        assert(all.take(0) =~= seq![]);
        assert(start + authored_times(all.take(0), times@) =~= start);
    }
    let mut i: usize = 0;
    while i < opinions.len()
        invariant
            i <= opinions@.len(),
            all == opinions_view(opinions@),
            out@ == start + authored_times(all.take(i as int), times@),
        decreases opinions@.len() - i,
    {
        proof {
            assert(all.take(i + 1).drop_last() =~= all.take(i as int));
            assert(all.take(i + 1).last() == opinions@[i as int]@);
        }
        let ghost reached = out@;
        let offset = opinions[i].layer_offset;
        match opinions[i].value.time_samples() {
            Some(samples) => {
                let ghost shown = crate::property::samples_view(samples@);
                let ghost moved = shown.map_values(
                    |s: (u64, ValueView)| stage_time(times@, offset, s.0),
                );
                let mut k: usize = 0;
                assert(reached + moved.take(0) =~= reached);
                while k < samples.len()
                    invariant
                        k <= samples@.len(),
                        shown == crate::property::samples_view(samples@),
                        moved == shown.map_values(
                            |s: (u64, ValueView)| stage_time(times@, offset, s.0),
                        ),
                        out@ == reached + moved.take(k as int),
                    decreases samples@.len() - k,
                {
                    let time = times.to_stage_time(offset, samples[k].0);
                    proof {
                        assert(shown[k as int].0 == samples@[k as int].0);
                        assert((reached + moved.take(k as int)).push(time) =~= reached
                            + moved.take(k + 1));
                    }
                    out.push(time);
                    k = k + 1;
                }
                assert(moved.take(k as int) =~= moved);
            },
            None => {
                assert(reached =~= reached + seq![]);
            },
        }
        assert(out@ =~= start + authored_times(all.take(i + 1), times@));
        i = i + 1;
    }
    assert(all.take(i as int) =~= all);
}

} // verus!
