//! Why a property or metadata field has its value.
//!
//! Each explanation mirrors a query: its value is the value that the query
//! resolves, and it says of each opinion that the query consulted what part it
//! played.

use crate::arrays::fill_of;
use crate::dictionary::{chain_view, combine_dictionary_chain, combined, Entries};
use crate::doc::{entries_view, value_option, value_ref, Value, ValueView};
use crate::fields::{named, FieldValue, FieldView, ListKind};
use crate::interner::{TokenId, TokenInterner};
use crate::opinion::{
    default_place, find_default, opinions_view, Opinion, OpinionValue, OpinionValueView,
    OpinionView,
};
use crate::path::{PathId, PropertyPath};
use crate::prim_index::{ArcKind, LayerId, LayerOffset};
use crate::prim_index_graph::model::{in_graph, node_at, NodeView};
use crate::prim_index_graph::{NodeId, PrimNode};
use crate::property::{samples_view, type_ref, PropertyType};
use crate::resolution::{
    default_fits, dictionary_defaults, fallback_entries, fold_ref, is_array_value, offer_place, offered,
    readings_view, resolve_sparse_default, resolve_targets, resolved_at_time, resolved_default,
    resolved_list, resolved_targets, resolved_value, sparse_default, targets_outcome, value_at_time,
    ExpressionFold, FoldView, Outcome, ResolvedValue, ResolvedView, SparseResolveResult, SparseView,
    Stop,
};
use crate::series::{
    sample_bracket, sample_places, InterpolationType,
};
use crate::schema::registry::SchemaRegistry;
use crate::spec_path::SpecPath;
use crate::stage::fallback::{fallback_outcome, fits_over, is_value_chain, over_fallback};
use crate::stage::roles::{
    apply_chain, apply_strongest_wins, chain_roles, explain_merge, find_places, merge_at, new_roles,
    no_roles, places_set, role_option, roles_view, set_role, strongest_wins, ChainKind,
    Contribution, ContributionView, IgnoreCause, OpinionRole, RoleView,
};
use crate::stage::sources::{sources_view, SourceSpec};
use crate::stage::{chain_ref, Lookup, PrimIndex, PrimView, Stage, StageView};
use crate::times::{is_same, layer_time, same, stage_time, TimeTable, Times, EARLIEST};
use vstd::prelude::*;

verus! {

/// Where a resolved value comes from.
#[derive(Clone, Copy, Debug, PartialEq, Eq, Structural)]
pub enum ValueSource {
    /// There is no value.
    NoValue,
    /// Opinions at the default time.
    Default,
    /// Time samples that bracket the query.
    TimeSamples {
        /// The stage time of the lower sample.
        lower: u64,
        /// The stage time of the upper sample.
        upper: u64,
        interpolation: InterpolationType,
        /// Whether the lower sample composed over the fallback.
        lower_seeded_by_fallback: bool,
        /// Whether the upper sample composed over the fallback.
        upper_seeded_by_fallback: bool,
    },
    /// A spline.
    Spline,
    /// The fallback alone.
    Fallback,
}

/// A sample that an opinion offered a time query, and its part.
#[derive(Debug)]
pub struct SampleUse {
    /// The stage time of the sample.
    pub time: u64,
    pub role: OpinionRole,
}

/// The times and parts of a list of samples.
pub open spec fn uses_view(uses: Seq<SampleUse>) -> Seq<(u64, RoleView)> {
    uses.map_values(|u: SampleUse| (u.time, u.role@))
}

/// The samples of each opinion.
pub open spec fn samples_used(samples: Seq<Vec<SampleUse>>) -> Seq<Seq<(u64, RoleView)>> {
    samples.map_values(|s: Vec<SampleUse>| uses_view(s@))
}

/// No opinion offered a sample.
pub open spec fn no_samples(count: nat) -> Seq<Seq<(u64, RoleView)>> {
    Seq::new(count, |i: int| seq![])
}

fn new_samples(count: usize) -> (samples: Vec<Vec<SampleUse>>)
    ensures
        samples_used(samples@) == no_samples(count as nat),
        samples@.len() == count,
{
    let mut samples: Vec<Vec<SampleUse>> = Vec::new();
    let mut i: usize = 0;
    while i < count
        invariant
            i <= count,
            samples@.len() == i,
            forall|k: int| 0 <= k < i ==> (#[trigger] samples@[k])@.len() == 0,
        decreases count - i,
    {
        samples.push(Vec::new());
        i = i + 1;
    }
    assert forall|k: int| 0 <= k < count implies #[trigger] samples_used(samples@)[k]
        == no_samples(count as nat)[k] by {
        assert(uses_view(samples@[k]@) =~= seq![]);
    }
    assert(samples_used(samples@) =~= no_samples(count as nat));
    samples
}

/// Why a chain of opinions has its value: what was resolved, and the part of
/// each opinion.
#[derive(Debug)]
pub struct Explained<T> {
    /// The value that the query resolves.
    pub value: Option<T>,
    pub source: ValueSource,
    /// Whether authored opinions composed over the fallback.
    pub seeded_by_fallback: bool,
    /// The part of each opinion; none for those that were not consulted.
    pub roles: Vec<Option<OpinionRole>>,
    /// The samples that each opinion offered.
    pub samples: Vec<Vec<SampleUse>>,
}

/// The mathematical value of an [`Explained`], but for the value.
#[verifier::ext_equal]
pub struct PartsView {
    pub source: ValueSource,
    pub seeded_by_fallback: bool,
    pub roles: Seq<Option<RoleView>>,
    pub samples: Seq<Seq<(u64, RoleView)>>,
}

impl<T> Explained<T> {
    /// All but the value.
    pub open spec fn parts(&self) -> PartsView {
        PartsView {
            source: self.source,
            seeded_by_fallback: self.seeded_by_fallback,
            roles: roles_view(self.roles@),
            samples: samples_used(self.samples@),
        }
    }
}

/// The view of an optional resolved value.
pub open spec fn resolved_view(value: Option<ResolvedValue>) -> Option<ResolvedView> {
    match value {
        Some(value) => Some(value@),
        None => None,
    }
}

/// The value of an optional outcome.
pub open spec fn outcome_value(outcome: Option<Outcome>) -> Option<ResolvedView> {
    match outcome {
        Some(outcome) => Some(outcome.value),
        None => None,
    }
}

// ── What is read ────────────────────────────────────────────────────────

/// Which opinions a default-time query reads: those with a default.
pub open spec fn reads_defaults(opinions: Seq<OpinionView>) -> Seq<bool> {
    opinions.map_values(|o: OpinionView| o.value.default_value() is Some)
}

/// Which opinions a time query reads: those with a value of any kind.
pub open spec fn reads_values(opinions: Seq<OpinionView>) -> Seq<bool> {
    opinions.map_values(
        |o: OpinionView|
            o.value.time_samples() is Some || o.value.spline() is Some || o.value.default_value()
                is Some,
    )
}

fn find_reads(opinions: &Vec<Opinion>, at_time: bool) -> (reads: Vec<bool>)
    ensures
        reads@ == (if at_time {
            reads_values(opinions_view(opinions@))
        } else {
            reads_defaults(opinions_view(opinions@))
        }),
{
    let ghost all = opinions_view(opinions@);
    let ghost expected = if at_time {
        reads_values(all)
    } else {
        reads_defaults(all)
    };
    let mut reads: Vec<bool> = Vec::new();
    let mut i: usize = 0;
    while i < opinions.len()
        invariant
            i <= opinions@.len(),
            all == opinions_view(opinions@),
            expected == (if at_time {
                reads_values(all)
            } else {
                reads_defaults(all)
            }),
            reads@ == expected.take(i as int),
        decreases opinions@.len() - i,
    {
        assert(all[i as int] == opinions@[i as int]@);
        let value = &opinions[i].value;
        let read = value.default_value().is_some() || (at_time && (value.time_samples().is_some()
            || value.spline().is_some()));
        reads.push(read);
        i = i + 1;
        assert(reads@ =~= expected.take(i as int));
    }
    assert(expected.take(i as int) =~= expected);
    reads
}

// ── Path expressions ────────────────────────────────────────────────────

/// The part of the opinion at `i` in a fold of path expressions.
pub open spec fn fold_role_at(fold: FoldView, i: int) -> RoleView {
    let place = Some(i as usize);
    if fold.contributors.contains(place) {
        RoleView::Contributed(ContributionView::Value)
    } else if fold.stopped_at == Some((place, Stop::Block)) {
        RoleView::Block
    } else if fold.stopped_at == Some((place, Stop::Incompatible)) {
        RoleView::Ignored(IgnoreCause::Incompatible)
    } else if fold.stopped_at matches Some((Some(block), Stop::Block)) && i > block {
        RoleView::Ignored(IgnoreCause::CutOffByBlock)
    } else {
        RoleView::Ignored(IgnoreCause::Shadowed)
    }
}

/// The parts of opinions in a fold of path expressions.
pub open spec fn fold_roles(fold: FoldView, reads: Seq<bool>) -> Seq<Option<RoleView>> {
    Seq::new(
        reads.len(),
        |i: int|
            if reads[i] {
                Some(fold_role_at(fold, i))
            } else {
                None
            },
    )
}

/// Whether an authored opinion contributed to a fold.
pub open spec fn fold_is_authored(fold: FoldView) -> bool {
    exists|i: int| 0 <= i < fold.contributors.len() && (#[trigger] fold.contributors[i]) is Some
}

/// Whether the fallback contributed to a fold along with authored opinions.
pub open spec fn fold_is_seeded(fold: FoldView) -> bool {
    fold.value is Some && fold.contributors.contains(None) && fold_is_authored(fold)
}

fn holds_place(contributors: &Vec<Option<usize>>, place: Option<usize>) -> (yes: bool)
    ensures
        yes == contributors@.contains(place),
{
    let mut i: usize = 0;
    while i < contributors.len()
        invariant
            i <= contributors@.len(),
            forall|k: int| 0 <= k < i ==> contributors@[k] != place,
        decreases contributors@.len() - i,
    {
        let found = match (contributors[i], place) {
            (Some(a), Some(b)) => a == b,
            (None, None) => true,
            _ => false,
        };
        if found {
            assert(contributors@[i as int] == place);
            return true;
        }
        i = i + 1;
    }
    false
}

fn has_author(contributors: &Vec<Option<usize>>) -> (yes: bool)
    ensures
        yes == exists|i: int| 0 <= i < contributors@.len() && (#[trigger] contributors@[i]) is Some,
{
    let mut i: usize = 0;
    while i < contributors.len()
        invariant
            i <= contributors@.len(),
            forall|k: int| 0 <= k < i ==> (#[trigger] contributors@[k]) is None,
        decreases contributors@.len() - i,
    {
        if contributors[i].is_some() {
            return true;
        }
        i = i + 1;
    }
    false
}

/// Records a fold of path expressions. Returns whether the fallback
/// contributed along with authored opinions.
fn apply_expression_fold(fold: &ExpressionFold, reads: &Vec<bool>) -> (out: (
    Vec<Option<OpinionRole>>,
    bool,
))
    ensures
        roles_view(out.0@) == fold_roles(fold@, reads@),
        out.0@.len() == reads@.len(),
        out.1 == fold_is_seeded(fold@),
{
    let ghost expected = fold_roles(fold@, reads@);
    let mut roles: Vec<Option<OpinionRole>> = Vec::new();
    let mut i: usize = 0;
    assert(roles_view(roles@) =~= expected.take(0));
    while i < reads.len()
        invariant
            i <= reads@.len(),
            expected == fold_roles(fold@, reads@),
            roles@.len() == i,
            roles_view(roles@) == expected.take(i as int),
        decreases reads@.len() - i,
    {
        let ghost had = roles@;
        let role = if !reads[i] {
            None
        } else if holds_place(&fold.contributors, Some(i)) {
            Some(OpinionRole::Contributed(Contribution::Value))
        } else {
            match fold.stopped_at {
                Some((Some(at), Stop::Block)) => if at == i {
                    Some(OpinionRole::Block)
                } else if i > at {
                    Some(OpinionRole::Ignored(IgnoreCause::CutOffByBlock))
                } else {
                    Some(OpinionRole::Ignored(IgnoreCause::Shadowed))
                },
                Some((Some(at), Stop::Incompatible)) => if at == i {
                    Some(OpinionRole::Ignored(IgnoreCause::Incompatible))
                } else {
                    Some(OpinionRole::Ignored(IgnoreCause::Shadowed))
                },
                _ => Some(OpinionRole::Ignored(IgnoreCause::Shadowed)),
            }
        };
        proof {
            assert(role_option(role) == expected[i as int]);
        }
        roles.push(role);
        i = i + 1;
        proof {
            assert(roles_view(roles@) =~= roles_view(had).push(role_option(role)));
            assert(expected.take(i as int) =~= expected.take(i - 1).push(expected[i - 1]));
        }
    }
    assert(expected.take(i as int) =~= expected);
    let seeded = fold.value.is_some() && holds_place(&fold.contributors, None) && has_author(
        &fold.contributors,
    );
    (roles, seeded)
}

// ── Sparse arrays ───────────────────────────────────────────────────────

/// What became of a member of a fold of arrays.
#[derive(Clone, Copy, Debug, PartialEq, Eq, Structural)]
pub enum FoldPart {
    /// It is the dense array that the fold ends at.
    Dense,
    /// It is an edit that was applied.
    Sparse,
    /// It is the block that the fold ends at.
    Block,
    /// It belongs to no fold of arrays.
    Incompatible,
}

/// A member of a fold of arrays: its opinion, the stage time of its sample,
/// and what became of it.
#[derive(Clone, Copy, Debug, PartialEq, Eq, Structural)]
pub struct FoldEvent {
    pub opinion: usize,
    pub time: u64,
    pub part: FoldPart,
}

/// The fold of one composed sample.
#[derive(Debug)]
pub struct SampleFold {
    /// The stage time of the sample.
    pub time: u64,
    /// The members that the fold visited, in order.
    pub events: Vec<FoldEvent>,
    /// Whether the sample composed over the fallback.
    pub uses_seed: bool,
}

/// The mathematical value of a [`SampleFold`].
#[verifier::ext_equal]
pub struct SampleFoldView {
    pub time: u64,
    pub events: Seq<FoldEvent>,
    pub uses_seed: bool,
}

impl View for SampleFold {
    type V = SampleFoldView;

    open spec fn view(&self) -> SampleFoldView {
        SampleFoldView { time: self.time, events: self.events@, uses_seed: self.uses_seed }
    }
}

/// The folds of a list.
pub open spec fn sample_folds(folds: Seq<SampleFold>) -> Seq<SampleFoldView> {
    folds.map_values(|f: SampleFold| f@)
}

/// The part of a member of a fold of arrays.
pub open spec fn part_role(part: FoldPart) -> RoleView {
    match part {
        FoldPart::Dense => RoleView::Contributed(ContributionView::Value),
        FoldPart::Sparse => RoleView::Contributed(ContributionView::ArrayEdit),
        FoldPart::Block => RoleView::Block,
        FoldPart::Incompatible => RoleView::Ignored(IgnoreCause::Incompatible),
    }
}

fn role_of_part(part: FoldPart) -> (role: OpinionRole)
    ensures
        role@ == part_role(part),
{
    match part {
        FoldPart::Dense => OpinionRole::Contributed(Contribution::Value),
        FoldPart::Sparse => OpinionRole::Contributed(Contribution::ArrayEdit),
        FoldPart::Block => OpinionRole::Block,
        FoldPart::Incompatible => OpinionRole::Ignored(IgnoreCause::Incompatible),
    }
}

/// How much a part counts, among those of one opinion's samples: a
/// contribution outranks a block, which outranks being ignored.
pub open spec fn role_rank(role: Option<RoleView>) -> int {
    match role {
        None => 0,
        Some(RoleView::Ignored(_)) => 1,
        Some(RoleView::Block) => 2,
        Some(RoleView::Contributed(_)) => 3,
    }
}

fn rank(role: &Option<OpinionRole>) -> (rank: u8)
    ensures
        rank == role_rank(role_option(*role)),
{
    match role {
        None => 0,
        Some(OpinionRole::Ignored(_)) => 1,
        Some(OpinionRole::Block) => 2,
        Some(OpinionRole::Contributed(_)) => 3,
    }
}

/// The parts so far, of the opinions and of their samples.
#[verifier::ext_equal]
pub struct Parts {
    pub roles: Seq<Option<RoleView>>,
    pub samples: Seq<Seq<(u64, RoleView)>>,
}

/// Recording a member of a fold: an opinion keeps the part that counts most.
pub open spec fn event_applied(
    before: Parts,
    event: FoldEvent,
    reads: Seq<bool>,
    at_time: bool,
) -> Parts {
    let at = event.opinion as int;
    let role = part_role(event.part);
    if at >= reads.len() || !reads[at] {
        before
    } else {
        Parts {
            samples: if at_time {
                before.samples.update(at, before.samples[at].push((event.time, role)))
            } else {
                before.samples
            },
            roles: if role_rank(Some(role)) > role_rank(before.roles[at]) {
                before.roles.update(at, Some(role))
            } else {
                before.roles
            },
        }
    }
}

/// Recording the members of a fold.
pub open spec fn events_applied(
    before: Parts,
    events: Seq<FoldEvent>,
    reads: Seq<bool>,
    at_time: bool,
) -> Parts
    decreases events.len(),
{
    if events.len() == 0 {
        before
    } else {
        event_applied(
            events_applied(before, events.drop_last(), reads, at_time),
            events.last(),
            reads,
            at_time,
        )
    }
}

/// Recording folds.
pub open spec fn folds_applied(
    before: Parts,
    folds: Seq<SampleFoldView>,
    reads: Seq<bool>,
    at_time: bool,
) -> Parts
    decreases folds.len(),
{
    if folds.len() == 0 {
        before
    } else {
        events_applied(
            folds_applied(before, folds.drop_last(), reads, at_time),
            folds.last().events,
            reads,
            at_time,
        )
    }
}

/// Whether a value can take part in a fold of arrays.
pub open spec fn in_array_family(value: ValueView) -> bool {
    is_array_value(value) || value is Blocked
}

/// Whether an opinion offers a value that can take part in a fold of arrays.
pub open spec fn offers_array(opinion: OpinionView, at_time: bool) -> bool {
    match opinion.value.time_samples() {
        Some(samples) => if at_time {
            any_in_family(samples)
        } else {
            defaults_in_family(opinion)
        },
        None => defaults_in_family(opinion),
    }
}

/// Whether one of a list of samples can take part in a fold of arrays.
pub open spec fn any_in_family(samples: Seq<(u64, ValueView)>) -> bool {
    exists|i: int| 0 <= i < samples.len() && in_array_family((#[trigger] samples[i]).1)
}

/// Whether the default of an opinion can take part in a fold of arrays.
pub open spec fn defaults_in_family(opinion: OpinionView) -> bool {
    opinion.value.default_value() matches Some(value) && in_array_family(value)
}

fn is_in_family(value: &Value) -> (yes: bool)
    ensures
        yes == in_array_family(value.view()),
{
    match value {
        Value::Array(_) => true,
        Value::ArrayEdit(_) => true,
        Value::Blocked => true,
        _ => false,
    }
}

fn reads_array_family(opinion: &Opinion, at_time: bool) -> (yes: bool)
    ensures
        yes == offers_array(opinion@, at_time),
{
    let by_default = match opinion.value.default_value() {
        Some(value) => is_in_family(value),
        None => false,
    };
    match opinion.value.time_samples() {
        Some(samples) => {
            if !at_time {
                return by_default;
            }
            let ghost shown = samples_view(samples@);
            let mut i: usize = 0;
            while i < samples.len()
                invariant
                    i <= samples@.len(),
                    at_time,
                    shown == samples_view(samples@),
                    opinion@.value.time_samples() == Some(shown),
                    forall|k: int| 0 <= k < i ==> !in_array_family((#[trigger] shown[k]).1),
                decreases samples@.len() - i,
            {
                assert(shown[i as int].1 == samples@[i as int].1.view());
                if is_in_family(&samples[i].1) {
                    assert(any_in_family(shown));
                    return true;
                }
                i = i + 1;
            }
            false
        },
        None => by_default,
    }
}

/// Whether the first fold ended at a block.
pub open spec fn cut_off(folds: Seq<SampleFoldView>) -> bool {
    folds.len() > 0 && folds[0].events.len() > 0 && folds[0].events.last().part == FoldPart::Block
}

/// Why an opinion that no fold reached did not contribute.
pub open spec fn hidden_cause(opinion: OpinionView, is_cut_off: bool, at_time: bool) -> IgnoreCause {
    if is_cut_off {
        IgnoreCause::CutOffByBlock
    } else if !offers_array(opinion, at_time) {
        IgnoreCause::Incompatible
    } else {
        IgnoreCause::Shadowed
    }
}

/// The parts of opinions in folds of arrays: those that the folds visited, and
/// those that are hidden behind the member that ended the first fold.
pub open spec fn sparse_parts(
    opinions: Seq<OpinionView>,
    folds: Seq<SampleFoldView>,
    reads: Seq<bool>,
    at_time: bool,
) -> Parts {
    let visited = folds_applied(
        Parts { roles: no_roles(reads.len()), samples: no_samples(reads.len()) },
        folds,
        reads,
        at_time,
    );
    Parts {
        roles: Seq::new(
            reads.len(),
            |i: int|
                if visited.roles[i] is Some || !reads[i] {
                    visited.roles[i]
                } else {
                    Some(RoleView::Ignored(hidden_cause(opinions[i], cut_off(folds), at_time)))
                },
        ),
        samples: visited.samples,
    }
}

/// Records folds of arrays.
fn apply_sparse(
    opinions: &Vec<Opinion>,
    folds: &Vec<SampleFold>,
    reads: &Vec<bool>,
    at_time: bool,
) -> (out: (Vec<Option<OpinionRole>>, Vec<Vec<SampleUse>>))
    requires
        reads@.len() == opinions@.len(),
    ensures
        (Parts { roles: roles_view(out.0@), samples: samples_used(out.1@) }) == sparse_parts(
            opinions_view(opinions@),
            sample_folds(folds@),
            reads@,
            at_time,
        ),
        out.0@.len() == opinions@.len(),
        out.1@.len() == opinions@.len(),
{
    let ghost all = opinions_view(opinions@);
    let ghost shown = sample_folds(folds@);
    let count = reads.len();
    let mut roles = new_roles(count);
    let mut samples = new_samples(count);
    let ghost start = Parts { roles: no_roles(count as nat), samples: no_samples(count as nat) };
    let mut f: usize = 0;
    assert(shown.take(0) =~= seq![]);
    while f < folds.len()
        invariant
            f <= folds@.len(),
            shown == sample_folds(folds@),
            count == reads@.len(),
            roles@.len() == count,
            samples@.len() == count,
            (Parts { roles: roles_view(roles@), samples: samples_used(samples@) })
                == folds_applied(start, shown.take(f as int), reads@, at_time),
        decreases folds@.len() - f,
    {
        let events = &folds[f].events;
        let ghost reached = Parts {
            roles: roles_view(roles@),
            samples: samples_used(samples@),
        };
        let mut e: usize = 0;
        assert(events@.take(0) =~= seq![]);
        while e < events.len()
            invariant
                e <= events@.len(),
                count == reads@.len(),
                roles@.len() == count,
                samples@.len() == count,
                (Parts { roles: roles_view(roles@), samples: samples_used(samples@) })
                    == events_applied(reached, events@.take(e as int), reads@, at_time),
            decreases events@.len() - e,
        {
            let event = events[e];
            let ghost before = Parts {
                roles: roles_view(roles@),
                samples: samples_used(samples@),
            };
            proof {
                assert(events@.take(e + 1).drop_last() =~= events@.take(e as int));
                assert(events@.take(e + 1).last() == event);
            }
            if event.opinion < count && reads[event.opinion] {
                let at = event.opinion;
                if at_time {
                    let ghost had = samples@;
                    let mut used = samples.remove(at);
                    let ghost had_uses = used@;
                    let one = SampleUse { time: event.time, role: role_of_part(event.part) };
                    used.push(one);
                    proof {
                        assert(uses_view(used@) =~= uses_view(had_uses).push(
                            (event.time, part_role(event.part)),
                        ));
                    }
                    samples.insert(at, used);
                    proof {
                        assert(samples@ =~= had.update(at as int, used));
                        assert(samples_used(samples@) =~= before.samples.update(
                            at as int,
                            before.samples[at as int].push((event.time, part_role(event.part))),
                        ));
                    }
                }
                let role = Some(role_of_part(event.part));
                assert(roles_view(roles@)[at as int] == role_option(roles@[at as int]));
                if rank(&role) > rank(&roles[at]) {
                    set_role(&mut roles, at, role_of_part(event.part));
                }
            }
            e = e + 1;
        }
        proof {
            assert(events@.take(e as int) =~= events@);
            assert(shown.take(f + 1).drop_last() =~= shown.take(f as int));
            assert(shown.take(f + 1).last() == folds@[f as int]@);
        }
        f = f + 1;
    }
    assert(shown.take(f as int) =~= shown);
    let is_cut_off = if folds.len() > 0 && folds[0].events.len() > 0 {
        assert(shown[0] == folds@[0]@);
        match folds[0].events[folds[0].events.len() - 1].part {
            FoldPart::Block => true,
            _ => false,
        }
    } else {
        false
    };
    assert(is_cut_off == cut_off(shown));
    let ghost visited = roles_view(roles@);
    let ghost expected = sparse_parts(all, shown, reads@, at_time);
    let mut i: usize = 0;
    while i < count
        invariant
            i <= count == reads@.len() == opinions@.len(),
            all == opinions_view(opinions@),
            is_cut_off == cut_off(shown),
            roles@.len() == count,
            visited.len() == count,
            expected.roles.len() == count,
            forall|k: int|
                0 <= k < count ==> #[trigger] expected.roles[k] == (if visited[k] is Some
                    || !reads@[k] {
                    visited[k]
                } else {
                    Some(RoleView::Ignored(hidden_cause(all[k], cut_off(shown), at_time)))
                }),
            forall|k: int| 0 <= k < i ==> #[trigger] roles_view(roles@)[k] == expected.roles[k],
            forall|k: int| i <= k < count ==> #[trigger] roles_view(roles@)[k] == visited[k],
        decreases count - i,
    {
        assert(roles_view(roles@)[i as int] == role_option(roles@[i as int]));
        assert(all[i as int] == opinions@[i as int]@);
        if roles[i].is_none() && reads[i] {
            let cause = if is_cut_off {
                IgnoreCause::CutOffByBlock
            } else if !reads_array_family(&opinions[i], at_time) {
                IgnoreCause::Incompatible
            } else {
                IgnoreCause::Shadowed
            };
            set_role(&mut roles, i, OpinionRole::Ignored(cause));
        }
        i = i + 1;
    }
    assert(roles_view(roles@) =~= expected.roles);
    (roles, samples)
}

/// Whether a part is a contribution.
pub open spec fn is_contributor(role: Option<RoleView>) -> bool {
    role matches Some(role) && role is Contributed
}

/// Whether an opinion contributed.
pub open spec fn any_contributed(roles: Seq<Option<RoleView>>) -> bool {
    exists|i: int| 0 <= i < roles.len() && is_contributor(#[trigger] roles[i])
}

/// Whether a time is finite.
pub open spec fn is_finite_time(time: u64) -> bool {
    time % 0x8000_0000_0000_0000 < 0x7ff0_0000_0000_0000
}

/// Where a value that folds of arrays gave comes from.
pub open spec fn sparse_source(
    has_value: bool,
    contributed: bool,
    folds: Seq<SampleFoldView>,
    interpolation: Option<InterpolationType>,
) -> ValueSource {
    if !has_value {
        ValueSource::NoValue
    } else if !contributed {
        ValueSource::Fallback
    } else {
        match interpolation {
            Some(interpolation) => if folds.len() > 1 || (folds.len() == 1 && is_finite_time(
                folds[0].time,
            )) {
                ValueSource::TimeSamples {
                    lower: folds[0].time,
                    upper: folds.last().time,
                    interpolation,
                    lower_seeded_by_fallback: folds[0].uses_seed,
                    upper_seeded_by_fallback: folds.last().uses_seed,
                }
            } else {
                ValueSource::Default
            },
            None => ValueSource::Default,
        }
    }
}

/// Whether a fold composed over the fallback.
pub open spec fn any_seeded(folds: Seq<SampleFoldView>) -> bool {
    exists|i: int| 0 <= i < folds.len() && (#[trigger] folds[i]).uses_seed
}

/// The explanation of a value that folds of arrays gave.
pub open spec fn sparse_explained(
    opinions: Seq<OpinionView>,
    has_value: bool,
    folds: Seq<SampleFoldView>,
    reads: Seq<bool>,
    interpolation: Option<InterpolationType>,
) -> PartsView {
    let parts = sparse_parts(opinions, folds, reads, interpolation is Some);
    let contributed = any_contributed(parts.roles);
    PartsView {
        source: sparse_source(has_value, contributed, folds, interpolation),
        seeded_by_fallback: has_value && contributed && any_seeded(folds),
        roles: parts.roles,
        samples: parts.samples,
    }
}

fn has_contributor(roles: &Vec<Option<OpinionRole>>) -> (yes: bool)
    ensures
        yes == any_contributed(roles_view(roles@)),
{
    let ghost shown = roles_view(roles@);
    let mut i: usize = 0;
    while i < roles.len()
        invariant
            i <= roles@.len(),
            shown == roles_view(roles@),
            forall|k: int|
                0 <= k < i ==> !is_contributor(#[trigger] shown[k]),
        decreases roles@.len() - i,
    {
        assert(shown[i as int] == role_option(roles@[i as int]));
        match &roles[i] {
            Some(OpinionRole::Contributed(_)) => {
                return true;
            },
            _ => {},
        }
        i = i + 1;
    }
    false
}

fn has_seeded(folds: &Vec<SampleFold>) -> (yes: bool)
    ensures
        yes == any_seeded(sample_folds(folds@)),
{
    let ghost shown = sample_folds(folds@);
    let mut i: usize = 0;
    while i < folds.len()
        invariant
            i <= folds@.len(),
            shown == sample_folds(folds@),
            forall|k: int| 0 <= k < i ==> !(#[trigger] shown[k]).uses_seed,
        decreases folds@.len() - i,
    {
        assert(shown[i as int] == folds@[i as int]@);
        if folds[i].uses_seed {
            return true;
        }
        i = i + 1;
    }
    false
}

/// Explains a value that folds of arrays gave.
fn finish_sparse<T>(
    opinions: &Vec<Opinion>,
    value: Option<T>,
    folds: &Vec<SampleFold>,
    reads: &Vec<bool>,
    interpolation: Option<InterpolationType>,
) -> (out: Explained<T>)
    requires
        reads@.len() == opinions@.len(),
    ensures
        out.value == value,
        out.parts() == sparse_explained(
            opinions_view(opinions@),
            value is Some,
            sample_folds(folds@),
            reads@,
            interpolation,
        ),
{
    let ghost shown = sample_folds(folds@);
    let (roles, samples) = apply_sparse(opinions, folds, reads, interpolation.is_some());
    let contributed = has_contributor(&roles);
    let source = if value.is_none() {
        ValueSource::NoValue
    } else if !contributed {
        ValueSource::Fallback
    } else {
        match interpolation {
            Some(interpolation) => {
                let count = folds.len();
                if count > 0 {
                    assert(shown[0] == folds@[0]@);
                    assert(shown.last() == folds@[count - 1]@);
                }
                if count > 1 || (count == 1 && folds[0].time % 0x8000_0000_0000_0000
                    < 0x7ff0_0000_0000_0000) {
                    ValueSource::TimeSamples {
                        lower: folds[0].time,
                        upper: folds[count - 1].time,
                        interpolation,
                        lower_seeded_by_fallback: folds[0].uses_seed,
                        upper_seeded_by_fallback: folds[count - 1].uses_seed,
                    }
                } else {
                    ValueSource::Default
                }
            },
            None => ValueSource::Default,
        }
    };
    let seeded_by_fallback = value.is_some() && contributed && has_seeded(folds);
    Explained { value, source, seeded_by_fallback, roles, samples }
}

// ── Defaults ────────────────────────────────────────────────────────────

/// The members that the fold of array defaults visits, from `from` on.
pub open spec fn default_events(opinions: Seq<OpinionView>, from: int) -> Seq<FoldEvent>
    decreases opinions.len() - from,
{
    if from < 0 || from >= opinions.len() {
        seq![]
    } else {
        let at = from as usize;
        match opinions[from].value.default_value() {
            None => default_events(opinions, from + 1),
            Some(ValueView::Array(_)) => seq![
                FoldEvent { opinion: at, time: EARLIEST, part: FoldPart::Dense },
            ],
            Some(ValueView::ArrayEdit(_)) => seq![
                FoldEvent { opinion: at, time: EARLIEST, part: FoldPart::Sparse },
            ] + default_events(opinions, from + 1),
            Some(ValueView::Blocked) => seq![
                FoldEvent { opinion: at, time: EARLIEST, part: FoldPart::Block },
            ],
            Some(_) => seq![],
        }
    }
}

/// The fold of array defaults: it composes over the fallback, where there is
/// one, unless it ends at a dense array.
pub open spec fn default_fold(opinions: Seq<OpinionView>, has_fallback: bool) -> SampleFoldView {
    let events = default_events(opinions, 0);
    SampleFoldView {
        time: EARLIEST,
        events,
        uses_seed: has_fallback && !(events.len() > 0 && events.last().part == FoldPart::Dense),
    }
}

/// Follows the fold of array defaults.
pub fn follow_defaults(opinions: &Vec<Opinion>, has_fallback: bool) -> (fold: SampleFold)
    ensures
        fold@ == default_fold(opinions_view(opinions@), has_fallback),
{
    let ghost all = opinions_view(opinions@);
    let ghost expected = default_events(all, 0);
    let mut events: Vec<FoldEvent> = Vec::new();
    let mut open = true;
    let mut i: usize = 0;
    assert(events@ + default_events(all, 0) =~= expected);
    while open && i < opinions.len()
        invariant
            i <= opinions@.len(),
            all == opinions_view(opinions@),
            open ==> expected == events@ + default_events(all, i as int),
            !open ==> expected == events@,
        decreases opinions@.len() - i, open as int,
    {
        assert(all[i as int] == opinions@[i as int]@);
        let ghost had = events@;
        let part = match opinions[i].value.default_value() {
            None => None,
            Some(Value::Array(_)) => Some(FoldPart::Dense),
            Some(Value::ArrayEdit(_)) => Some(FoldPart::Sparse),
            Some(Value::Blocked) => Some(FoldPart::Block),
            Some(_) => {
                open = false;
                assert(expected =~= events@);
                None
            },
        };
        match part {
            Some(part) => {
                events.push(FoldEvent { opinion: i, time: EARLIEST, part });
                if part != FoldPart::Sparse {
                    open = false;
                    assert(expected =~= events@);
                } else {
                    assert(expected =~= events@ + default_events(all, i + 1));
                    i = i + 1;
                }
            },
            None => {
                if open {
                    i = i + 1;
                }
            },
        }
    }
    assert(expected =~= events@);
    let ends_dense = events.len() > 0 && events[events.len() - 1].part == FoldPart::Dense;
    SampleFold { time: EARLIEST, events, uses_seed: has_fallback && !ends_dense }
}

/// What a default is, in a chain of dictionaries.
pub open spec fn default_kind(opinion: OpinionView) -> ChainKind {
    match opinion.value.default_value() {
        Some(ValueView::Blocked) => ChainKind::Block,
        Some(ValueView::Dictionary(_)) => ChainKind::Dictionary,
        _ => ChainKind::Plain,
    }
}

/// What the defaults at the places of a list are.
pub open spec fn default_kinds(opinions: Seq<OpinionView>, members: Seq<usize>) -> Seq<ChainKind> {
    members.map_values(|at: usize| default_kind(opinions[at as int]))
}

/// The places of the dictionaries that combine, from `from` on: up to the
/// strongest block.
pub open spec fn dictionary_places(opinions: Seq<OpinionView>, from: int) -> Seq<usize>
    decreases opinions.len() - from,
{
    if from < 0 || from >= opinions.len() {
        seq![]
    } else {
        match opinions[from].value.default_value() {
            Some(ValueView::Blocked) => seq![],
            Some(ValueView::Dictionary(_)) => seq![from as usize] + dictionary_places(
                opinions,
                from + 1,
            ),
            _ => dictionary_places(opinions, from + 1),
        }
    }
}

/// Roles, with those of the first `count` dictionaries of a chain at their
/// places.
pub open spec fn merged_roles(
    roles: Seq<Option<RoleView>>,
    places: Seq<usize>,
    chain: Seq<Entries>,
    count: int,
) -> Seq<Option<RoleView>>
    decreases count,
{
    if count <= 0 {
        roles
    } else {
        merged_roles(roles, places, chain, count - 1).update(
            places[count - 1] as int,
            Some(
                RoleView::Contributed(
                    ContributionView::Dictionary(merge_at(chain, count - 1)),
                ),
            ),
        )
    }
}

/// The parts of opinions in a chain of dictionaries.
pub open spec fn dictionary_roles(opinions: Seq<OpinionView>) -> Seq<Option<RoleView>> {
    let members = places_set(reads_defaults(opinions));
    let places = dictionary_places(opinions, 0);
    merged_roles(
        chain_roles(
            no_roles(opinions.len()),
            members,
            default_kinds(opinions, members),
            members.len() as int,
        ),
        places,
        dictionary_defaults(opinions, 0),
        places.len() as int,
    )
}

/// Whether the fallback supplied an entry to a chain of dictionaries.
pub open spec fn dictionary_seeded(
    opinions: Seq<OpinionView>,
    fallback: Option<ValueView>,
) -> bool {
    let chain = dictionary_defaults(opinions, 0);
    match fallback {
        Some(ValueView::Dictionary(entries)) => merge_at(
            chain.push(entries),
            chain.len() as int,
        ).supplied.len() > 0,
        _ => false,
    }
}

/// Records a chain of dictionaries. Returns the combined entries, and whether
/// the fallback supplied one.
fn apply_dictionaries(
    opinions: &Vec<Opinion>,
    reads: &Vec<bool>,
    fallback: Option<&Value>,
) -> (out: (Vec<Option<OpinionRole>>, Vec<(String, Value)>, bool))
    requires
        reads@ == reads_defaults(opinions_view(opinions@)),
    ensures
        roles_view(out.0@) == dictionary_roles(opinions_view(opinions@)),
        entries_view(out.1@) == combined(
            dictionary_defaults(opinions_view(opinions@), 0) + fallback_entries(
                value_ref(fallback),
            ),
        ),
        out.2 == dictionary_seeded(opinions_view(opinions@), value_ref(fallback)),
{
    let ghost all = opinions_view(opinions@);
    let mut roles = new_roles(opinions.len());
    let members = find_places(reads);
    let mut kinds: Vec<ChainKind> = Vec::new();
    let mut i: usize = 0;
    while i < members.len()
        invariant
            i <= members@.len(),
            all == opinions_view(opinions@),
            forall|k: int| 0 <= k < members@.len() ==> (#[trigger] members@[k]) < opinions@.len(),
            kinds@ == default_kinds(all, members@).take(i as int),
        decreases members@.len() - i,
    {
        let at = members[i];
        assert(all[at as int] == opinions@[at as int]@);
        let kind = match opinions[at].value.default_value() {
            Some(Value::Blocked) => ChainKind::Block,
            Some(Value::Dictionary(_)) => ChainKind::Dictionary,
            _ => ChainKind::Plain,
        };
        kinds.push(kind);
        i = i + 1;
        assert(kinds@ =~= default_kinds(all, members@).take(i as int));
    }
    assert(default_kinds(all, members@).take(i as int) =~= default_kinds(all, members@));
    apply_chain(&mut roles, &members, &kinds);
    let mut chain: Vec<&Vec<(String, Value)>> = Vec::new();
    let mut places: Vec<usize> = Vec::new();
    let ghost expected = dictionary_defaults(all, 0);
    let ghost spots = dictionary_places(all, 0);
    let mut open = true;
    i = 0;
    assert(chain_view(chain@) + dictionary_defaults(all, 0) =~= expected);
    assert(places@ + dictionary_places(all, 0) =~= spots);
    while open && i < opinions.len()
        invariant
            i <= opinions@.len(),
            all == opinions_view(opinions@),
            chain@.len() == places@.len(),
            forall|k: int| 0 <= k < places@.len() ==> (#[trigger] places@[k]) < opinions@.len(),
            open ==> expected == chain_view(chain@) + dictionary_defaults(all, i as int),
            open ==> spots == places@ + dictionary_places(all, i as int),
            !open ==> expected == chain_view(chain@),
            !open ==> spots == places@,
        decreases opinions@.len() - i, open as int,
    {
        assert(all[i as int] == opinions@[i as int]@);
        match opinions[i].value.default_value() {
            Some(Value::Blocked) => {
                open = false;
                assert(expected =~= chain_view(chain@));
                assert(spots =~= places@);
            },
            Some(Value::Dictionary(entries)) => {
                let ghost had = chain@;
                chain.push(entries);
                places.push(i);
                assert(chain_view(chain@) =~= chain_view(had).push(entries_view(entries@)));
                assert(expected =~= chain_view(chain@) + dictionary_defaults(all, i + 1));
                assert(spots =~= places@ + dictionary_places(all, i + 1));
                i = i + 1;
            },
            _ => {
                i = i + 1;
            },
        }
    }
    assert(expected =~= chain_view(chain@));
    assert(spots =~= places@);
    let ghost based = roles_view(roles@);
    i = 0;
    while i < places.len()
        invariant
            i <= places@.len() == chain@.len(),
            roles@.len() == opinions@.len(),
            expected == chain_view(chain@),
            forall|k: int| 0 <= k < places@.len() ==> (#[trigger] places@[k]) < opinions@.len(),
            roles_view(roles@) == merged_roles(based, places@, expected, i as int),
        decreases places@.len() - i,
    {
        let merge = explain_merge(&chain, i);
        set_role(
            &mut roles,
            places[i],
            OpinionRole::Contributed(Contribution::Dictionary(merge)),
        );
        i = i + 1;
    }
    let mut seeded = false;
    match fallback {
        Some(Value::Dictionary(entries)) => {
            let ghost had = chain@;
            chain.push(entries);
            assert(chain_view(chain@) =~= expected.push(entries_view(entries@)));
            let merge = explain_merge(&chain, chain.len() - 1);
            seeded = merge.supplied.len() > 0;
            assert(merge@.supplied.len() == merge.supplied@.len());
            assert(expected.push(entries_view(entries@)) =~= expected + seq![
                entries_view(entries@),
            ]);
        },
        _ => {
            assert(expected + fallback_entries(value_ref(fallback)) =~= expected);
        },
    }
    (roles, combine_dictionary_chain(&chain), seeded)
}

/// The explanation of what a chain of opinions resolves to at the default
/// time, over a fallback.
pub open spec fn default_explained(
    opinions: Seq<OpinionView>,
    fold: Option<FoldView>,
    fill: Option<ValueView>,
    fallback: Option<ValueView>,
) -> PartsView {
    let reads = reads_defaults(opinions);
    let samples = no_samples(opinions.len());
    match fold {
        Some(fold) => PartsView {
            source: if fold.value is None {
                ValueSource::NoValue
            } else if fold.contributors.len() > 0 && fold.contributors[0] is None {
                ValueSource::Fallback
            } else {
                ValueSource::Default
            },
            seeded_by_fallback: fold_is_seeded(fold),
            roles: fold_roles(fold, reads),
            samples,
        },
        None => match sparse_default(opinions, fallback, fill) {
            SparseView::NotApplicable => {
                let at = default_place(opinions, 0);
                if at >= opinions.len() {
                    PartsView {
                        source: ValueSource::NoValue,
                        seeded_by_fallback: false,
                        roles: no_roles(opinions.len()),
                        samples,
                    }
                } else {
                    match opinions[at].value.default_value() {
                        Some(ValueView::Blocked) => PartsView {
                            source: ValueSource::NoValue,
                            seeded_by_fallback: false,
                            roles: strongest_wins(reads, true),
                            samples,
                        },
                        Some(ValueView::Dictionary(_)) => PartsView {
                            source: ValueSource::Default,
                            seeded_by_fallback: dictionary_seeded(opinions, fallback),
                            roles: dictionary_roles(opinions),
                            samples,
                        },
                        _ => PartsView {
                            source: ValueSource::Default,
                            seeded_by_fallback: false,
                            roles: strongest_wins(reads, false),
                            samples,
                        },
                    }
                }
            },
            result => sparse_explained(
                opinions,
                result is Resolved,
                seq![default_fold(opinions, fallback is Some)],
                reads,
                None,
            ),
        },
    }
}

/// Explains what a chain of opinions resolves to at the default time, over a
/// fallback.
pub fn explain_default(
    opinions: &Vec<Opinion>,
    fold: Option<&ExpressionFold>,
    property_type: Option<&PropertyType>,
    fallback: Option<&Value>,
) -> (out: Explained<ResolvedValue>)
    requires
        default_fits(
            opinions_view(opinions@),
            value_ref(fallback),
            fill_of(type_ref(property_type)) is Some,
        ),
    ensures
        resolved_view(out.value) == outcome_value(
            resolved_default(
                opinions_view(opinions@),
                fold_ref(fold),
                fill_of(type_ref(property_type)),
                value_ref(fallback),
            ),
        ),
        out.parts() == default_explained(
            opinions_view(opinions@),
            fold_ref(fold),
            fill_of(type_ref(property_type)),
            value_ref(fallback),
        ),
{
    let ghost all = opinions_view(opinions@);
    let reads = find_reads(opinions, false);
    let count = opinions.len();
    match fold {
        Some(fold) => {
            let (roles, seeded_by_fallback) = apply_expression_fold(fold, &reads);
            let source = if fold.value.is_none() {
                ValueSource::NoValue
            } else if fold.contributors.len() > 0 && fold.contributors[0].is_none() {
                ValueSource::Fallback
            } else {
                ValueSource::Default
            };
            let value = match &fold.value {
                Some(value) => Some(ResolvedValue::Scalar(value.copy())),
                None => None,
            };
            return Explained {
                value,
                source,
                seeded_by_fallback,
                roles,
                samples: new_samples(count),
            };
        },
        None => {},
    }
    let fill = crate::arrays::fill_for(property_type);
    match resolve_sparse_default(opinions, fallback, &fill) {
        SparseResolveResult::NotApplicable => {},
        SparseResolveResult::Blocked => {
            let mut folds: Vec<SampleFold> = Vec::new();
            folds.push(follow_defaults(opinions, fallback.is_some()));
            assert(sample_folds(folds@) =~= seq![default_fold(all, fallback is Some)]);
            return finish_sparse(opinions, None, &folds, &reads, None);
        },
        SparseResolveResult::Resolved(value) => {
            let mut folds: Vec<SampleFold> = Vec::new();
            folds.push(follow_defaults(opinions, fallback.is_some()));
            assert(sample_folds(folds@) =~= seq![default_fold(all, fallback is Some)]);
            return finish_sparse(
                opinions,
                Some(ResolvedValue::Scalar(value)),
                &folds,
                &reads,
                None,
            );
        },
    }
    let at = find_default(opinions);
    if at >= count {
        return Explained {
            value: None,
            source: ValueSource::NoValue,
            seeded_by_fallback: false,
            roles: new_roles(count),
            samples: new_samples(count),
        };
    }
    assert(all[at as int] == opinions@[at as int]@);
    match opinions[at].value.default_value() {
        Some(Value::Blocked) => Explained {
            value: None,
            source: ValueSource::NoValue,
            seeded_by_fallback: false,
            roles: apply_strongest_wins(&reads, true),
            samples: new_samples(count),
        },
        Some(Value::Dictionary(_)) => {
            let (roles, entries, seeded_by_fallback) = apply_dictionaries(
                opinions,
                &reads,
                fallback,
            );
            Explained {
                value: Some(ResolvedValue::Dictionary(entries)),
                source: ValueSource::Default,
                seeded_by_fallback,
                roles,
                samples: new_samples(count),
            }
        },
        Some(value) => Explained {
            value: Some(ResolvedValue::Scalar(value.copy())),
            source: ValueSource::Default,
            seeded_by_fallback: false,
            roles: apply_strongest_wins(&reads, false),
            samples: new_samples(count),
        },
        None => {
            proof {
                crate::opinion::lemma_default_place(all, 0);
                assert(false);
            }
            Explained {
                value: None,
                source: ValueSource::NoValue,
                seeded_by_fallback: false,
                roles: new_roles(count),
                samples: new_samples(count),
            }
        },
    }
}

// ── Lists ───────────────────────────────────────────────────────────────

/// Which opinions author targets.
pub open spec fn reads_targets(opinions: Seq<OpinionView>) -> Seq<bool> {
    opinions.map_values(|o: OpinionView| o.value.targets() is Some)
}

/// Which opinions author a field.
pub open spec fn reads_fields(opinions: Seq<OpinionView>) -> Seq<bool> {
    opinions.map_values(|o: OpinionView| o.value is Field)
}

/// What a list edit is, in a chain of them.
pub open spec fn edit_kind(explicit: bool) -> ChainKind {
    if explicit {
        ChainKind::Replacement
    } else {
        ChainKind::Edit
    }
}

/// What the targets that an opinion authors are, in a chain of them.
pub open spec fn targets_kind(opinion: OpinionView) -> ChainKind {
    edit_kind(opinion.value.targets()->0.explicit is Some)
}

/// What the field that an opinion authors is, in a chain of lists of a kind.
pub open spec fn field_kind(opinion: OpinionView, kind: ListKind) -> ChainKind {
    match opinion.value {
        OpinionValueView::Field(FieldView::List(own, op)) => if own == kind {
            edit_kind(op.explicit is Some)
        } else {
            ChainKind::Plain
        },
        _ => ChainKind::Plain,
    }
}

/// The explanation of a chain of lists, read by the opinions that `reads`
/// marks.
pub open spec fn list_explained(
    count: nat,
    reads: Seq<bool>,
    kinds: Seq<ChainKind>,
) -> PartsView {
    let members = places_set(reads);
    PartsView {
        source: ValueSource::Default,
        seeded_by_fallback: false,
        roles: chain_roles(no_roles(count), members, kinds, members.len() as int),
        samples: no_samples(count),
    }
}

/// Nothing was resolved, and no opinion was consulted.
pub open spec fn nothing_explained(count: nat) -> PartsView {
    PartsView {
        source: ValueSource::NoValue,
        seeded_by_fallback: false,
        roles: no_roles(count),
        samples: no_samples(count),
    }
}

/// The explanation of a composed list of targets.
pub open spec fn targets_explained(opinions: Seq<OpinionView>) -> PartsView {
    if resolved_targets(opinions) is None {
        nothing_explained(opinions.len())
    } else {
        let members = places_set(reads_targets(opinions));
        list_explained(
            opinions.len(),
            reads_targets(opinions),
            members.map_values(|at: usize| targets_kind(opinions[at as int])),
        )
    }
}

/// The explanation of a chained list field.
pub open spec fn fields_explained(opinions: Seq<OpinionView>, kind: ListKind) -> PartsView {
    let members = places_set(reads_fields(opinions));
    list_explained(
        opinions.len(),
        reads_fields(opinions),
        members.map_values(|at: usize| field_kind(opinions[at as int], kind)),
    )
}

fn explain_nothing<T>(count: usize) -> (out: Explained<T>)
    ensures
        out.value is None,
        out.parts() == nothing_explained(count as nat),
{
    Explained {
        value: None,
        source: ValueSource::NoValue,
        seeded_by_fallback: false,
        roles: new_roles(count),
        samples: new_samples(count),
    }
}

/// Explains a composed list of targets.
fn explain_targets(opinions: &Vec<Opinion>) -> (out: Explained<ResolvedValue>)
    ensures
        resolved_view(out.value) == outcome_value(targets_outcome(opinions_view(opinions@))),
        out.parts() == targets_explained(opinions_view(opinions@)),
{
    let ghost all = opinions_view(opinions@);
    let count = opinions.len();
    let targets = match resolve_targets(opinions) {
        Some((targets, _)) => targets,
        None => {
            return explain_nothing(count);
        },
    };
    let mut reads: Vec<bool> = Vec::new();
    let mut i: usize = 0;
    while i < count
        invariant
            i <= count == opinions@.len(),
            all == opinions_view(opinions@),
            reads@ == reads_targets(all).take(i as int),
        decreases count - i,
    {
        assert(all[i as int] == opinions@[i as int]@);
        reads.push(opinions[i].value.targets().is_some());
        i = i + 1;
        assert(reads@ =~= reads_targets(all).take(i as int));
    }
    assert(reads_targets(all).take(i as int) =~= reads_targets(all));
    let members = find_places(&reads);
    let ghost expected = members@.map_values(|at: usize| targets_kind(all[at as int]));
    let mut kinds: Vec<ChainKind> = Vec::new();
    i = 0;
    proof {
        lemma_places_are_set(reads@);
    }
    while i < members.len()
        invariant
            i <= members@.len(),
            all == opinions_view(opinions@),
            reads@ == reads_targets(all),
            forall|k: int|
                0 <= k < members@.len() ==> (#[trigger] members@[k]) < opinions@.len()
                    && reads@[members@[k] as int],
            expected == members@.map_values(|at: usize| targets_kind(all[at as int])),
            kinds@ == expected.take(i as int),
        decreases members@.len() - i,
    {
        let at = members[i];
        assert(all[at as int] == opinions@[at as int]@);
        assert(reads@[at as int]);
        let explicit = match opinions[at].value.targets() {
            Some(list) => list.explicit.is_some(),
            None => false,
        };
        if explicit {
            kinds.push(ChainKind::Replacement);
        } else {
            kinds.push(ChainKind::Edit);
        }
        i = i + 1;
        assert(kinds@ =~= expected.take(i as int));
    }
    assert(expected.take(i as int) =~= expected);
    let mut roles = new_roles(count);
    apply_chain(&mut roles, &members, &kinds);
    Explained {
        value: Some(ResolvedValue::PathList(targets)),
        source: ValueSource::Default,
        seeded_by_fallback: false,
        roles,
        samples: new_samples(count),
    }
}

proof fn lemma_places_are_set(flags: Seq<bool>)
    requires
        flags.len() <= usize::MAX,
    ensures
        forall|k: int|
            0 <= k < places_set(flags).len() ==> (#[trigger] places_set(flags)[k]) < flags.len()
                && flags[places_set(flags)[k] as int],
    decreases flags.len(),
{
    if flags.len() > 0 {
        let rest = flags.drop_last();
        lemma_places_are_set(rest);
        assert forall|k: int| 0 <= k < places_set(flags).len() implies (#[trigger] places_set(
            flags,
        )[k]) < flags.len() && flags[places_set(flags)[k] as int] by {
            if k < places_set(rest).len() {
                assert(places_set(flags)[k] == places_set(rest)[k]);
                assert(rest[places_set(rest)[k] as int] == flags[places_set(rest)[k] as int]);
            }
        }
    }
}

/// Explains a chained list field.
fn explain_field_list(opinions: &Vec<Opinion>, kind: ListKind) -> (out: Explained<ResolvedValue>)
    ensures
        resolved_view(out.value) == Some(
            resolved_list(
                crate::resolution::fields_among(opinions_view(opinions@)),
                kind,
            ),
        ),
        out.parts() == fields_explained(opinions_view(opinions@), kind),
{
    let ghost all = opinions_view(opinions@);
    let count = opinions.len();
    let fields = crate::resolution::opinion_fields(opinions);
    let value = crate::resolution::chain_field_list(kind, &fields);
    let mut reads: Vec<bool> = Vec::new();
    let mut i: usize = 0;
    while i < count
        invariant
            i <= count == opinions@.len(),
            all == opinions_view(opinions@),
            reads@ == reads_fields(all).take(i as int),
        decreases count - i,
    {
        assert(all[i as int] == opinions@[i as int]@);
        reads.push(opinions[i].value.as_field().is_some());
        i = i + 1;
        assert(reads@ =~= reads_fields(all).take(i as int));
    }
    assert(reads_fields(all).take(i as int) =~= reads_fields(all));
    let members = find_places(&reads);
    let ghost expected = members@.map_values(|at: usize| field_kind(all[at as int], kind));
    let mut kinds: Vec<ChainKind> = Vec::new();
    i = 0;
    while i < members.len()
        invariant
            i <= members@.len(),
            all == opinions_view(opinions@),
            forall|k: int| 0 <= k < members@.len() ==> (#[trigger] members@[k]) < opinions@.len(),
            expected == members@.map_values(|at: usize| field_kind(all[at as int], kind)),
            kinds@ == expected.take(i as int),
        decreases members@.len() - i,
    {
        let at = members[i];
        assert(all[at as int] == opinions@[at as int]@);
        let own = match opinions[at].value.as_field() {
            Some(FieldValue::List(own, op)) => if *own == kind {
                if op.explicit.is_some() {
                    ChainKind::Replacement
                } else {
                    ChainKind::Edit
                }
            } else {
                ChainKind::Plain
            },
            _ => ChainKind::Plain,
        };
        kinds.push(own);
        i = i + 1;
        assert(kinds@ =~= expected.take(i as int));
    }
    assert(expected.take(i as int) =~= expected);
    let mut roles = new_roles(count);
    apply_chain(&mut roles, &members, &kinds);
    Explained {
        value: Some(value),
        source: ValueSource::Default,
        seeded_by_fallback: false,
        roles,
        samples: new_samples(count),
    }
}

/// The explanation of what a chain of opinions resolves to: the targets of a
/// relationship, the chained list of a list field, else the default.
pub open spec fn chain_explained(
    opinions: Seq<OpinionView>,
    fold: Option<FoldView>,
    fill: Option<ValueView>,
) -> PartsView {
    if opinions.len() == 0 {
        nothing_explained(0)
    } else {
        match opinions[0].value {
            OpinionValueView::Field(FieldView::List(kind, _)) => if kind == ListKind::Targets {
                targets_explained(opinions)
            } else {
                fields_explained(opinions, kind)
            },
            value => if value.is_relationship() {
                targets_explained(opinions)
            } else {
                default_explained(opinions, fold, fill, None)
            },
        }
    }
}

/// Explains what a chain of opinions resolves to.
pub fn explain_chain(
    opinions: &Vec<Opinion>,
    fold: Option<&ExpressionFold>,
    property_type: Option<&PropertyType>,
) -> (out: Explained<ResolvedValue>)
    requires
        default_fits(
            opinions_view(opinions@),
            None,
            fill_of(type_ref(property_type)) is Some,
        ),
    ensures
        resolved_view(out.value) == outcome_value(
            resolved_value(
                opinions_view(opinions@),
                fold_ref(fold),
                fill_of(type_ref(property_type)),
            ),
        ),
        out.parts() == chain_explained(
            opinions_view(opinions@),
            fold_ref(fold),
            fill_of(type_ref(property_type)),
        ),
{
    let ghost all = opinions_view(opinions@);
    if opinions.len() == 0 {
        return explain_nothing(0);
    }
    assert(all[0] == opinions@[0]@);
    match &opinions[0].value {
        OpinionValue::Field(FieldValue::List(kind, _)) => {
            return if *kind == ListKind::Targets {
                explain_targets(opinions)
            } else {
                explain_field_list(opinions, *kind)
            };
        },
        _ => {},
    }
    if opinions[0].value.is_relationship() {
        explain_targets(opinions)
    } else {
        explain_default(opinions, fold, property_type, None)
    }
}

// ── Fallbacks ───────────────────────────────────────────────────────────

/// The explanation of what a chain of opinions resolves to over a fallback:
/// where the opinions resolve to nothing, the fallback stands for them.
pub open spec fn explained_over(
    opinions: Option<Seq<OpinionView>>,
    fold: Option<FoldView>,
    fill: Option<ValueView>,
    fallback: Option<ValueView>,
) -> PartsView {
    match opinions {
        None => PartsView {
            source: if fallback is Some {
                ValueSource::Fallback
            } else {
                ValueSource::NoValue
            },
            ..nothing_explained(0)
        },
        Some(opinions) => {
            let authored = if opinions.len() > 0 && is_value_chain(opinions[0].value) {
                default_explained(opinions, fold, fill, fallback)
            } else {
                chain_explained(opinions, fold, fill)
            };
            let resolved = if opinions.len() > 0 && is_value_chain(opinions[0].value) {
                resolved_default(opinions, fold, fill, fallback)
            } else {
                resolved_value(opinions, fold, fill)
            };
            if opinions.len() == 0 || resolved is Some || fallback is None {
                authored
            } else {
                PartsView {
                    source: ValueSource::Fallback,
                    seeded_by_fallback: false,
                    ..authored
                }
            }
        },
    }
}

/// Explains what a chain of opinions resolves to over a fallback.
pub fn explain_over_fallback(
    opinions: Option<&Vec<Opinion>>,
    fold: Option<&ExpressionFold>,
    property_type: Option<&PropertyType>,
    fallback: &Option<Value>,
) -> (out: Explained<ResolvedValue>)
    requires
        chain_ref(opinions) matches Some(opinions) ==> fits_over(
            opinions,
            value_option(*fallback),
            fill_of(type_ref(property_type)) is Some,
        ),
    ensures
        resolved_view(out.value) == outcome_value(
            over_fallback(
                chain_ref(opinions),
                fold_ref(fold),
                fill_of(type_ref(property_type)),
                value_option(*fallback),
            ),
        ),
        out.parts() == explained_over(
            chain_ref(opinions),
            fold_ref(fold),
            fill_of(type_ref(property_type)),
            value_option(*fallback),
        ),
{
    let mut authored = match opinions {
        None => explain_nothing(0),
        Some(opinions) => {
            if opinions.len() == 0 {
                return explain_nothing(0);
            }
            assert(opinions_view(opinions@)[0] == opinions@[0]@);
            let is_list = match &opinions[0].value {
                OpinionValue::Field(FieldValue::List(_, _)) => true,
                _ => false,
            };
            if !is_list && !opinions[0].value.is_relationship() {
                let weakest: Option<&Value> = match fallback {
                    Some(value) => Some(value),
                    None => None,
                };
                explain_default(opinions, fold, property_type, weakest)
            } else {
                explain_chain(opinions, fold, property_type)
            }
        },
    };
    if authored.value.is_some() || fallback.is_none() {
        return authored;
    }
    match crate::stage::fallback::resolve_fallback(fallback) {
        Some((value, _)) => {
            authored.value = Some(value);
            authored.source = ValueSource::Fallback;
            authored.seeded_by_fallback = false;
        },
        None => {},
    }
    authored
}

// ── Times ───────────────────────────────────────────────────────────────

/// The stage times of the samples of an opinion that bracket a stage time.
pub open spec fn bracket_used(
    opinion: OpinionView,
    time: u64,
    interpolation: InterpolationType,
    times: Times,
) -> Option<(u64, u64)> {
    match opinion.value.time_samples() {
        Some(samples) => if samples.len() == 0 {
            None
        } else {
            let offset = opinion.layer_offset;
            let places = sample_places(
                samples,
                layer_time(times, offset, time),
                interpolation,
                times,
            );
            Some(
                (
                    stage_time(times, offset, samples[places.0].0),
                    stage_time(times, offset, samples[places.1].0),
                ),
            )
        },
        None => None,
    }
}

/// Samples, with those that bracket a time recorded for an opinion.
pub open spec fn bracket_recorded(
    samples: Seq<Seq<(u64, RoleView)>>,
    at: int,
    bracket: Option<(u64, u64)>,
) -> Seq<Seq<(u64, RoleView)>> {
    let role = RoleView::Contributed(ContributionView::Value);
    match bracket {
        Some((lower, upper)) => {
            let one = samples[at].push((lower, role));
            samples.update(
                at,
                if is_same(lower, upper) {
                    one
                } else {
                    one.push((upper, role))
                },
            )
        },
        None => samples,
    }
}

/// Where a value comes from that one opinion gives at a time.
pub open spec fn winner_source(
    opinion: OpinionView,
    time: u64,
    interpolation: InterpolationType,
    times: Times,
) -> ValueSource {
    match bracket_used(opinion, time, interpolation, times) {
        Some((lower, upper)) => ValueSource::TimeSamples {
            lower,
            upper,
            interpolation,
            lower_seeded_by_fallback: false,
            upper_seeded_by_fallback: false,
        },
        None => if opinion.value.spline() is Some {
            ValueSource::Spline
        } else {
            ValueSource::Default
        },
    }
}

/// Records the samples of an opinion that bracket a time. Returns where a value
/// comes from that the opinion gives.
fn record_samples(
    samples: &mut Vec<Vec<SampleUse>>,
    opinions: &Vec<Opinion>,
    at: usize,
    time: u64,
    interpolation: InterpolationType,
    times: &TimeTable,
) -> (source: ValueSource)
    requires
        at < opinions@.len() == old(samples)@.len(),
    ensures
        samples_used(final(samples)@) == bracket_recorded(
            samples_used(old(samples)@),
            at as int,
            bracket_used(opinions_view(opinions@)[at as int], time, interpolation, times@),
        ),
        final(samples)@.len() == old(samples)@.len(),
        source == winner_source(
            opinions_view(opinions@)[at as int],
            time,
            interpolation,
            times@,
        ),
{
    let opinion = &opinions[at];
    assert(opinions_view(opinions@)[at as int] == opinion@);
    let ghost before = samples@;
    match opinion.value.time_samples() {
        Some(list) => {
            if list.len() > 0 {
                let offset = opinion.layer_offset;
                let places = sample_bracket(
                    list,
                    times.to_layer_time(offset, time),
                    interpolation,
                    times,
                );
                let lower = times.to_stage_time(offset, list[places.0].0);
                let upper = times.to_stage_time(offset, list[places.1].0);
                proof {
                    let shown = samples_view(list@);
                    assert(shown[places.0 as int].0 == list@[places.0 as int].0);
                    assert(shown[places.1 as int].0 == list@[places.1 as int].0);
                }
                let mut used = samples.remove(at);
                let ghost had = used@;
                let one = SampleUse {
                    time: lower,
                    role: OpinionRole::Contributed(Contribution::Value),
                };
                used.push(one);
                let ghost first = used@;
                assert(uses_view(first) =~= uses_view(had).push(
                    (lower, RoleView::Contributed(ContributionView::Value)),
                ));
                if !same(lower, upper) {
                    let two = SampleUse {
                        time: upper,
                        role: OpinionRole::Contributed(Contribution::Value),
                    };
                    used.push(two);
                    assert(uses_view(used@) =~= uses_view(first).push(
                        (upper, RoleView::Contributed(ContributionView::Value)),
                    ));
                }
                samples.insert(at, used);
                proof {
                    assert(samples@ =~= before.update(at as int, used));
                    assert(samples_used(samples@) =~= samples_used(before).update(
                        at as int,
                        uses_view(used@),
                    ));
                }
                return ValueSource::TimeSamples {
                    lower,
                    upper,
                    interpolation,
                    lower_seeded_by_fallback: false,
                    upper_seeded_by_fallback: false,
                };
            }
        },
        None => {},
    }
    if opinion.value.spline().is_some() {
        ValueSource::Spline
    } else {
        ValueSource::Default
    }
}

/// Samples, with those of the opinions that contributed to a fold of path
/// expressions, and where its value comes from: what its strongest authored
/// contributor gives.
pub open spec fn contributors_recorded(
    opinions: Seq<OpinionView>,
    contributors: Seq<Option<usize>>,
    time: u64,
    interpolation: InterpolationType,
    times: Times,
) -> (Seq<Seq<(u64, RoleView)>>, Option<ValueSource>)
    decreases contributors.len(),
{
    if contributors.len() == 0 {
        (no_samples(opinions.len()), None)
    } else {
        let (samples, source) = contributors_recorded(
            opinions,
            contributors.drop_last(),
            time,
            interpolation,
            times,
        );
        match contributors.last() {
            Some(at) => if at < opinions.len() {
                (
                    bracket_recorded(
                        samples,
                        at as int,
                        bracket_used(opinions[at as int], time, interpolation, times),
                    ),
                    match source {
                        Some(source) => Some(source),
                        None => Some(
                            winner_source(opinions[at as int], time, interpolation, times),
                        ),
                    },
                )
            } else {
                (samples, source)
            },
            None => (samples, source),
        }
    }
}

/// The explanation of what a chain of opinions resolves to at a time.
pub open spec fn time_explained(
    opinions: Seq<OpinionView>,
    fold: Option<FoldView>,
    arrays: SparseView,
    folds: Seq<SampleFoldView>,
    readings: Seq<Option<ValueView>>,
    time: u64,
    interpolation: InterpolationType,
    times: Times,
) -> PartsView {
    let reads = reads_values(opinions);
    match fold {
        Some(fold) => {
            let (samples, source) = contributors_recorded(
                opinions,
                fold.contributors,
                time,
                interpolation,
                times,
            );
            PartsView {
                source: match (fold.value, source) {
                    (None, _) => ValueSource::NoValue,
                    (Some(_), Some(source)) => source,
                    (Some(_), None) => ValueSource::Fallback,
                },
                seeded_by_fallback: fold_is_seeded(fold),
                roles: fold_roles(fold, reads),
                samples,
            }
        },
        None => match arrays {
            SparseView::NotApplicable => {
                let at = offer_place(opinions, readings, 0);
                if at >= opinions.len() {
                    nothing_explained(opinions.len())
                } else if offered(opinions[at], readings[at])->0 is None {
                    PartsView {
                        roles: strongest_wins(reads, true),
                        ..nothing_explained(opinions.len())
                    }
                } else {
                    PartsView {
                        source: winner_source(opinions[at], time, interpolation, times),
                        seeded_by_fallback: false,
                        roles: strongest_wins(reads, false),
                        samples: bracket_recorded(
                            no_samples(opinions.len()),
                            at,
                            bracket_used(opinions[at], time, interpolation, times),
                        ),
                    }
                }
            },
            result => sparse_explained(
                opinions,
                result is Resolved && opinions.len() > 0,
                folds,
                reads,
                Some(interpolation),
            ),
        },
    }
}

/// Explains what a chain of opinions resolves to at a time, where `arrays` is
/// what its arrays compose to there, `folds` the folds of the composed
/// samples, and `readings` what the samples or the spline of each opinion
/// evaluate to.
pub fn explain_at_time(
    opinions: &Vec<Opinion>,
    fold: Option<&ExpressionFold>,
    arrays: SparseResolveResult,
    folds: &Vec<SampleFold>,
    readings: &Vec<Option<Value>>,
    time: u64,
    interpolation: InterpolationType,
    times: &TimeTable,
) -> (out: Explained<Value>)
    requires
        readings@.len() == opinions@.len(),
    ensures
        value_option(out.value) == (match resolved_at_time(
            opinions_view(opinions@),
            fold_ref(fold),
            arrays@,
            readings_view(readings@),
        ) {
            Some((value, _)) => Some(value),
            None => None,
        }),
        out.parts() == time_explained(
            opinions_view(opinions@),
            fold_ref(fold),
            arrays@,
            sample_folds(folds@),
            readings_view(readings@),
            time,
            interpolation,
            times@,
        ),
{
    let ghost all = opinions_view(opinions@);
    let ghost shown = readings_view(readings@);
    let reads = find_reads(opinions, true);
    let count = opinions.len();
    match fold {
        Some(fold) => {
            let (roles, seeded_by_fallback) = apply_expression_fold(fold, &reads);
            let mut samples = new_samples(count);
            let mut first: Option<ValueSource> = None;
            let contributors = &fold.contributors;
            let mut i: usize = 0;
            assert(contributors@.take(0) =~= seq![]);
            while i < contributors.len()
                invariant
                    i <= contributors@.len(),
                    all == opinions_view(opinions@),
                    samples@.len() == opinions@.len(),
                    (samples_used(samples@), first) == contributors_recorded(
                        all,
                        contributors@.take(i as int),
                        time,
                        interpolation,
                        times@,
                    ),
                decreases contributors@.len() - i,
            {
                proof {
                    assert(contributors@.take(i + 1).drop_last() =~= contributors@.take(i as int));
                    assert(contributors@.take(i + 1).last() == contributors@[i as int]);
                }
                match contributors[i] {
                    Some(at) => {
                        if at < opinions.len() {
                            let source = record_samples(
                                &mut samples,
                                opinions,
                                at,
                                time,
                                interpolation,
                                times,
                            );
                            if first.is_none() {
                                first = Some(source);
                            }
                        }
                    },
                    None => {},
                }
                i = i + 1;
            }
            assert(contributors@.take(i as int) =~= contributors@);
            let value = crate::doc::copy_option(&fold.value);
            let source = if value.is_none() {
                ValueSource::NoValue
            } else {
                match first {
                    Some(source) => source,
                    None => ValueSource::Fallback,
                }
            };
            return Explained { value, source, seeded_by_fallback, roles, samples };
        },
        None => {},
    }
    match arrays {
        SparseResolveResult::NotApplicable => {},
        SparseResolveResult::Blocked => {
            return finish_sparse(opinions, None, folds, &reads, Some(interpolation));
        },
        SparseResolveResult::Resolved(value) => {
            let value = if count > 0 {
                Some(value)
            } else {
                None
            };
            return finish_sparse(opinions, value, folds, &reads, Some(interpolation));
        },
    }
    let mut i: usize = 0;
    while i < count
        invariant
            i <= count == opinions@.len() == readings@.len(),
            all == opinions_view(opinions@),
            shown == readings_view(readings@),
            reads@ == reads_values(all),
            fold is None,
            arrays@ is NotApplicable,
            offer_place(all, shown, 0) == offer_place(all, shown, i as int),
        decreases count - i,
    {
        assert(all[i as int] == opinions@[i as int]@);
        assert(shown[i as int] == value_option(readings@[i as int]));
        match value_at_time(&opinions[i], &readings[i]) {
            Some(None) => {
                return Explained {
                    value: None,
                    source: ValueSource::NoValue,
                    seeded_by_fallback: false,
                    roles: apply_strongest_wins(&reads, true),
                    samples: new_samples(count),
                };
            },
            Some(Some(value)) => {
                let roles = apply_strongest_wins(&reads, false);
                let mut samples = new_samples(count);
                let source = record_samples(
                    &mut samples,
                    opinions,
                    i,
                    time,
                    interpolation,
                    times,
                );
                return Explained {
                    value: Some(value),
                    source,
                    seeded_by_fallback: false,
                    roles,
                    samples,
                };
            },
            None => {},
        }
        i = i + 1;
    }
    explain_nothing(count)
}

// ── Explanations ────────────────────────────────────────────────────────

/// An opinion that a query consulted, and its part in the value.
#[derive(Debug)]
pub struct ExplainedOpinion<'s> {
    pub opinion: &'s Opinion,
    /// The node of the prim's graph that the opinion was read from.
    pub node: Option<&'s PrimNode>,
    pub role: OpinionRole,
    /// For a time query, the samples that the opinion offered.
    pub samples: Vec<SampleUse>,
}

/// A node of a graph, with its layer offset, where that is recorded.
pub struct SiteView {
    pub node: NodeView,
    pub offset: Option<LayerOffset>,
}

/// The node of that id of a prim's graph.
pub open spec fn graph_node(index: Option<PrimView>, id: NodeId) -> Option<SiteView> {
    match index {
        Some(index) => if in_graph(index.graph, id) {
            Some(SiteView { node: node_at(index.graph, id), offset: index.offsets[id.0 as int] })
        } else {
            None
        },
        None => None,
    }
}

/// The mathematical value of an [`ExplainedOpinion`].
pub struct ConsultedView {
    pub opinion: OpinionView,
    pub node: Option<SiteView>,
    pub role: RoleView,
    pub samples: Seq<(u64, RoleView)>,
}

impl<'s> View for ExplainedOpinion<'s> {
    type V = ConsultedView;

    open spec fn view(&self) -> ConsultedView {
        ConsultedView {
            opinion: self.opinion@,
            node: match self.node {
                Some(node) => Some(SiteView { node: node@, offset: node.recorded_offset() }),
                None => None,
            },
            role: self.role@,
            samples: uses_view(self.samples@),
        }
    }
}

impl<'s> ExplainedOpinion<'s> {
    /// The layer that authors the opinion.
    pub fn layer(&self) -> (layer: LayerId)
        ensures
            layer == self@.opinion.key.layer_id,
    {
        self.opinion.key.layer_id
    }

    /// The spec that authors the opinion.
    pub fn spec_path(&self) -> (path: &SpecPath)
        ensures
            path@ == self@.opinion.key.spec_path,
    {
        &self.opinion.key.spec_path
    }

    /// The kind of arc that reaches the opinion's node.
    pub fn arc_kind(&self) -> (kind: Option<ArcKind>)
        ensures
            kind == (match self.node {
                Some(node) => Some(node@.arc.arc_kind),
                None => None,
            }),
    {
        match self.node {
            Some(node) => Some(node.arc_kind()),
            None => None,
        }
    }

    /// The offset that the opinion's layer is read through.
    pub fn layer_offset(&self) -> (offset: LayerOffset)
        ensures
            offset == self@.opinion.layer_offset,
    {
        self.opinion.layer_offset
    }
}

/// Why a property or metadata field has its value.
#[derive(Debug)]
pub struct ValueExplanation<'s, T> {
    /// The value that the query resolves.
    pub value: Option<T>,
    pub source: ValueSource,
    /// Whether authored opinions composed over the fallback.
    pub seeded_by_fallback: bool,
    /// Every opinion that the query consulted, strongest first.
    pub opinions: Vec<ExplainedOpinion<'s>>,
}

/// The opinions of a list, with their parts.
pub open spec fn consulted_view(opinions: Seq<ExplainedOpinion<'_>>) -> Seq<ConsultedView> {
    opinions.map_values(|o: ExplainedOpinion<'_>| o@)
}

/// The first `count` opinions of a chain that were consulted, with the nodes of
/// the prim's graph that they were read from, and their parts.
pub open spec fn consulted(
    index: Option<PrimView>,
    opinions: Seq<OpinionView>,
    roles: Seq<Option<RoleView>>,
    samples: Seq<Seq<(u64, RoleView)>>,
    count: int,
) -> Seq<ConsultedView>
    decreases count,
{
    if count <= 0 {
        seq![]
    } else {
        let earlier = consulted(index, opinions, roles, samples, count - 1);
        match roles[count - 1] {
            Some(role) => earlier.push(
                ConsultedView {
                    opinion: opinions[count - 1],
                    node: graph_node(index, opinions[count - 1].key.node),
                    role,
                    samples: samples[count - 1],
                },
            ),
            None => earlier,
        }
    }
}

/// How many opinions of a chain have a part recorded.
pub open spec fn explained_count(opinions: Seq<OpinionView>, parts: PartsView) -> nat {
    let count = if opinions.len() < parts.roles.len() {
        opinions.len()
    } else {
        parts.roles.len()
    };
    if count < parts.samples.len() {
        count
    } else {
        parts.samples.len()
    }
}

impl<'s, T> ValueExplanation<'s, T> {
    /// Whether this is the explanation that `parts` gives of a chain of a prim.
    pub open spec fn explains(
        &self,
        index: Option<PrimView>,
        opinions: Seq<OpinionView>,
        parts: PartsView,
    ) -> bool {
        &&& self.source == parts.source
        &&& self.seeded_by_fallback == parts.seeded_by_fallback
        &&& consulted_view(self.opinions@) == consulted(
            index,
            opinions,
            parts.roles,
            parts.samples,
            explained_count(opinions, parts) as int,
        )
    }

    /// The places of the opinions that contributed, among those consulted.
    pub fn contributors(&self) -> (places: Vec<usize>)
        ensures
            forall|i: int|
                0 <= i < places@.len() ==> (#[trigger] places@[i]) < self.opinions@.len()
                    && self.opinions@[places@[i] as int]@.role is Contributed,
            forall|i: int|
                0 <= i < self.opinions@.len() && (#[trigger] self.opinions@[i])@.role
                    is Contributed ==> places@.contains(i as usize),
            forall|i: int, j: int|
                0 <= i < j < places@.len() ==> (#[trigger] places@[i]) < (#[trigger] places@[j]),
    {
        let mut places: Vec<usize> = Vec::new();
        let mut i: usize = 0;
        while i < self.opinions.len()
            invariant
                i <= self.opinions@.len(),
                forall|k: int|
                    0 <= k < places@.len() ==> (#[trigger] places@[k]) < i
                        && self.opinions@[places@[k] as int]@.role is Contributed,
                forall|k: int|
                    0 <= k < i && (#[trigger] self.opinions@[k])@.role is Contributed
                        ==> places@.contains(k as usize),
                forall|a: int, b: int|
                    0 <= a < b < places@.len() ==> (#[trigger] places@[a]) < (
                    #[trigger] places@[b]),
            decreases self.opinions@.len() - i,
        {
            match &self.opinions[i].role {
                OpinionRole::Contributed(_) => {
                    let ghost had = places@;
                    places.push(i);
                    proof {
                        assert(places@[had.len() as int] == i);
                        assert forall|k: int|
                            0 <= k < i + 1 && (#[trigger] self.opinions@[k])@.role
                                is Contributed implies places@.contains(k as usize) by {
                            if k < i {
                                assert(had.contains(k as usize));
                                let m = choose|m: int|
                                    0 <= m < had.len() && had[m] == k as usize;
                                assert(places@[m] == k as usize);
                            }
                        }
                    }
                },
                _ => {},
            }
            i = i + 1;
        }
        places
    }
}

/// Completes an explanation with the opinions that it speaks of.
fn finish<'s, T>(index: &'s PrimIndex, opinions: &'s Vec<Opinion>, explained: Explained<T>) -> (out:
    ValueExplanation<'s, T>)
    ensures
        out.value == explained.value,
        out.explains(Some(index@), opinions_view(opinions@), explained.parts()),
{
    let ghost all = opinions_view(opinions@);
    let ghost parts = explained.parts();
    let ghost shown = index@;
    let ghost all_roles = explained.roles@;
    let ghost all_samples = explained.samples@;
    let mut roles = explained.roles;
    let mut samples = explained.samples;
    let mut count = opinions.len();
    if roles.len() < count {
        count = roles.len();
    }
    if samples.len() < count {
        count = samples.len();
    }
    assert(count == explained_count(all, parts));
    let mut out: Vec<ExplainedOpinion<'s>> = Vec::new();
    let mut i: usize = 0;
    assert(consulted_view(out@) =~= seq![]);
    assert(all_roles.skip(0) =~= all_roles);
    assert(all_samples.skip(0) =~= all_samples);
    while i < count
        invariant
            i <= count <= opinions@.len(),
            count <= all_roles.len(),
            count <= all_samples.len(),
            all == opinions_view(opinions@),
            parts.roles == roles_view(all_roles),
            parts.samples == samples_used(all_samples),
            roles@ == all_roles.skip(i as int),
            samples@ == all_samples.skip(i as int),
            consulted_view(out@) == consulted(Some(shown), all, parts.roles, parts.samples, i as int),
            shown == index@,
        decreases count - i,
    {
        let role = roles.remove(0);
        let used = samples.remove(0);
        proof {
            assert(role == all_roles[i as int]);
            assert(used == all_samples[i as int]);
            assert(roles@ =~= all_roles.skip(i + 1));
            assert(samples@ =~= all_samples.skip(i + 1));
            assert(all[i as int] == opinions@[i as int]@);
            assert(parts.roles[i as int] == role_option(role));
            assert(parts.samples[i as int] == uses_view(used@));
        }
        match role {
            Some(role) => {
                let ghost had = out@;
                let one = ExplainedOpinion {
                    opinion: &opinions[i],
                    node: index.graph.node(opinions[i].key.node),
                    role,
                    samples: used,
                };
                out.push(one);
                assert(consulted_view(out@) =~= consulted_view(had).push(one@));
            },
            None => {},
        }
        i = i + 1;
    }
    ValueExplanation {
        value: explained.value,
        source: explained.source,
        seeded_by_fallback: explained.seeded_by_fallback,
        opinions: out,
    }
}

impl Stage {
    fn explain_value_by(
        &self,
        prim: PathId,
        name: TokenId,
        lookup: Lookup,
        fold: Option<&ExpressionFold>,
    ) -> (out: Option<ValueExplanation<'_, ResolvedValue>>)
        requires
            self@.fits(prim, name, lookup),
        ensures
            explained_as(self@, prim, name, lookup, fold_ref(fold), out),
    {
        let index = match self.prim(prim) {
            Some(index) => index,
            None => {
                return None;
            },
        };
        let opinions = match lookup {
            Lookup::Property => index.property_opinions(name),
            Lookup::Metadata => index.metadata_opinions(name),
        };
        let opinions = match opinions {
            Some(opinions) => opinions,
            None => {
                return None;
            },
        };
        if opinions.len() == 0 {
            return None;
        }
        proof {
            self@.lemma_read_fits(prim, name, lookup, None);
        }
        let read = match self.read_opinions(prim, name, lookup) {
            Some(read) => read,
            None => {
                return None;
            },
        };
        let explained = explain_chain(read.list(), fold, index.property_type_for(name));
        Some(finish(index, opinions, explained))
    }

    /// Explains [`Stage::resolve_value`]: why a prim metadata field has its
    /// value.
    pub fn explain_value(&self, prim: PathId, field: TokenId, fold: Option<&ExpressionFold>) -> (
    out: Option<ValueExplanation<'_, ResolvedValue>>)
        requires
            self@.fits(prim, field, Lookup::Metadata),
        ensures
            explained_as(self@, prim, field, Lookup::Metadata, fold_ref(fold), out),
    {
        self.explain_value_by(prim, field, Lookup::Metadata, fold)
    }

    /// Explains [`Stage::resolve_property_path`]: why a property has its
    /// default-time value, or a relationship its targets.
    pub fn explain_property_value(&self, path: PropertyPath, fold: Option<&ExpressionFold>) -> (out:
        Option<ValueExplanation<'_, ResolvedValue>>)
        requires
            self@.fits(path.prim_path, path.property, Lookup::Property),
        ensures
            explained_as(
                self@,
                path.prim_path,
                path.property,
                Lookup::Property,
                fold_ref(fold),
                out,
            ),
    {
        self.explain_value_by(path.prim_path, path.property, Lookup::Property, fold)
    }

    /// Explains [`Stage::resolve_property_path_at_time`]: why an attribute has
    /// its value at a time. The arguments are those of [`explain_at_time`].
    pub fn explain_property_value_at_time(
        &self,
        path: PropertyPath,
        fold: Option<&ExpressionFold>,
        arrays: SparseResolveResult,
        folds: &Vec<SampleFold>,
        readings: &Vec<Option<Value>>,
        time: u64,
        interpolation: InterpolationType,
        times: &TimeTable,
    ) -> (out: Option<ValueExplanation<'_, Value>>)
        requires
            self@.opinions(path.prim_path, path.property, Lookup::Property) matches Some(opinions)
                ==> readings@.len() == opinions.len(),
        ensures
            match (
                self@.opinions(path.prim_path, path.property, Lookup::Property),
                self@.read(path.prim_path, path.property, Lookup::Property),
            ) {
                (Some(opinions), Some(read)) => out matches Some(out) && value_option(out.value)
                    == (
                match self@.resolution_at_time(
                    path.prim_path,
                    path.property,
                    Lookup::Property,
                    fold_ref(fold),
                    arrays@,
                    readings_view(readings@),
                ) {
                    Some((value, _)) => Some(value),
                    None => None,
                }) && out.explains(
                    named(self@.prims, path.prim_path),
                    opinions,
                    time_explained(
                        read,
                        fold_ref(fold),
                        arrays@,
                        sample_folds(folds@),
                        readings_view(readings@),
                        time,
                        interpolation,
                        times@,
                    ),
                ),
                _ => out is None,
            },
    {
        let index = match self.prim(path.prim_path) {
            Some(index) => index,
            None => {
                return None;
            },
        };
        let opinions = match index.property_opinions(path.property) {
            Some(opinions) => opinions,
            None => {
                return None;
            },
        };
        proof {
            self@.lemma_read_fits(path.prim_path, path.property, Lookup::Property, None);
        }
        let read = match self.read_opinions(path.prim_path, path.property, Lookup::Property) {
            Some(read) => read,
            None => {
                return None;
            },
        };
        let explained = explain_at_time(
            read.list(),
            fold,
            arrays,
            folds,
            readings,
            time,
            interpolation,
            times,
        );
        Some(finish(index, opinions, explained))
    }

    /// Explains [`Stage::resolve_value_with_schema`]: why a property has its
    /// value. Nothing is explained where no opinion authors the property and
    /// the schemas of its prim define none.
    pub fn explain_value_with_schema(
        &self,
        prim: PathId,
        property: TokenId,
        fold: Option<&ExpressionFold>,
        specs: &Vec<Option<SourceSpec>>,
        registry: &SchemaRegistry,
        api_schemas: Option<TokenId>,
        tokens: &TokenInterner,
    ) -> (out: Option<ValueExplanation<'_, ResolvedValue>>)
        requires
            self@.schemas_known(prim, property, registry@, api_schemas, tokens@),
            self@.fits_over(
                prim,
                property,
                self@.schema_fallback(
                    prim,
                    property,
                    sources_view(specs@),
                    registry@,
                    api_schemas,
                    tokens@,
                ),
            ),
        ensures
            explained_with(
                self@,
                prim,
                property,
                fold_ref(fold),
                self@.schema_fallback(
                    prim,
                    property,
                    sources_view(specs@),
                    registry@,
                    api_schemas,
                    tokens@,
                ),
                out,
            ),
    {
        let fallback = self.schema_fallback(prim, property, specs, registry, api_schemas, tokens);
        self.explain_value_over(prim, property, fold, &fallback)
    }

    /// Explains what a property resolves to over a fallback.
    pub fn explain_value_over(
        &self,
        prim: PathId,
        property: TokenId,
        fold: Option<&ExpressionFold>,
        fallback: &Option<Value>,
    ) -> (out: Option<ValueExplanation<'_, ResolvedValue>>)
        requires
            self@.fits_over(prim, property, value_option(*fallback)),
        ensures
            explained_with(
                self@,
                prim,
                property,
                fold_ref(fold),
                value_option(*fallback),
                out,
            ),
    {
        let found = match self.prim(prim) {
            Some(index) => match index.property_opinions(property) {
                Some(opinions) => Some((index, opinions)),
                None => None,
            },
            None => None,
        };
        match found {
            Some((index, opinions)) => {
                if opinions.len() == 0 {
                    return None;
                }
                proof {
                    self@.lemma_read_fits(prim, property, Lookup::Property, value_option(*fallback));
                    self@.lemma_read_fits(prim, property, Lookup::Property, None);
                }
                let read = match self.read_opinions(prim, property, Lookup::Property) {
                    Some(read) => read,
                    None => {
                        return None;
                    },
                };
                let explained = explain_over_fallback(
                    Some(read.list()),
                    fold,
                    index.property_type_for(property),
                    fallback,
                );
                Some(finish(index, opinions, explained))
            },
            None => {
                if fallback.is_none() {
                    return None;
                }
                let explained = explain_over_fallback(None, fold, None, fallback);
                let out: ValueExplanation<'_, ResolvedValue> = ValueExplanation {
                    value: explained.value,
                    source: explained.source,
                    seeded_by_fallback: explained.seeded_by_fallback,
                    opinions: Vec::new(),
                };
                assert(consulted_view(out.opinions@) =~= seq![]);
                Some(out)
            },
        }
    }

    /// Explains [`Stage::resolve_value_at_time_with_schema`]: as
    /// [`Stage::explain_property_value_at_time`], with the fallback of the
    /// schemas where that resolves to nothing. Nothing is explained where no
    /// opinion authors the property and the schemas of its prim define none.
    pub fn explain_value_at_time_with_schema(
        &self,
        path: PropertyPath,
        fold: Option<&ExpressionFold>,
        arrays: SparseResolveResult,
        folds: &Vec<SampleFold>,
        readings: &Vec<Option<Value>>,
        time: u64,
        interpolation: InterpolationType,
        times: &TimeTable,
        specs: &Vec<Option<SourceSpec>>,
        registry: &SchemaRegistry,
        api_schemas: Option<TokenId>,
        tokens: &TokenInterner,
    ) -> (out: Option<ValueExplanation<'_, Value>>)
        requires
            self@.schemas_known(path.prim_path, path.property, registry@, api_schemas, tokens@),
            self@.opinions(path.prim_path, path.property, Lookup::Property) matches Some(opinions)
                ==> readings@.len() == opinions.len(),
        ensures
            explained_at_time_with(
                self@,
                path,
                fold_ref(fold),
                arrays@,
                sample_folds(folds@),
                readings_view(readings@),
                time,
                interpolation,
                times@,
                self@.schema_fallback(
                    path.prim_path,
                    path.property,
                    sources_view(specs@),
                    registry@,
                    api_schemas,
                    tokens@,
                ),
                out,
            ),
    {
        let fallback = self.schema_fallback(
            path.prim_path,
            path.property,
            specs,
            registry,
            api_schemas,
            tokens,
        );
        self.explain_value_at_time_over(
            path,
            fold,
            arrays,
            folds,
            readings,
            time,
            interpolation,
            times,
            &fallback,
        )
    }

    /// Explains what a property resolves to at a time over a fallback.
    pub fn explain_value_at_time_over(
        &self,
        path: PropertyPath,
        fold: Option<&ExpressionFold>,
        arrays: SparseResolveResult,
        folds: &Vec<SampleFold>,
        readings: &Vec<Option<Value>>,
        time: u64,
        interpolation: InterpolationType,
        times: &TimeTable,
        fallback: &Option<Value>,
    ) -> (out: Option<ValueExplanation<'_, Value>>)
        requires
            self@.opinions(path.prim_path, path.property, Lookup::Property) matches Some(opinions)
                ==> readings@.len() == opinions.len(),
        ensures
            explained_at_time_with(
                self@,
                path,
                fold_ref(fold),
                arrays@,
                sample_folds(folds@),
                readings_view(readings@),
                time,
                interpolation,
                times@,
                value_option(*fallback),
                out,
            ),
    {
        let authored = self.explain_property_value_at_time(
            path,
            fold,
            arrays,
            folds,
            readings,
            time,
            interpolation,
            times,
        );
        if fallback.is_none() {
            return authored;
        }
        let value = match crate::stage::fallback::resolve_fallback(fallback) {
            Some((ResolvedValue::Scalar(value), _)) => Some(value),
            Some((ResolvedValue::Dictionary(entries), _)) => Some(Value::Dictionary(entries)),
            _ => None,
        };
        match authored {
            Some(authored) => {
                if authored.value.is_some() {
                    return Some(authored);
                }
                let out = ValueExplanation {
                    value,
                    source: ValueSource::Fallback,
                    seeded_by_fallback: false,
                    opinions: authored.opinions,
                };
                Some(out)
            },
            None => {
                let out: ValueExplanation<'_, Value> = ValueExplanation {
                    value,
                    source: ValueSource::Fallback,
                    seeded_by_fallback: false,
                    opinions: Vec::new(),
                };
                assert(consulted_view(out.opinions@) =~= seq![]);
                Some(out)
            },
        }
    }
}

/// Whether an explanation is that of a property over a fallback: of the value
/// that it resolves to, with the parts of the opinions that it consults.
pub open spec fn explained_with(
    stage: StageView,
    prim: PathId,
    property: TokenId,
    fold: Option<FoldView>,
    fallback: Option<ValueView>,
    out: Option<ValueExplanation<'_, ResolvedValue>>,
) -> bool {
    let read = stage.read(prim, property, Lookup::Property);
    let fill = fill_of(stage.property_type(prim, property));
    let parts = explained_over(read, fold, fill, fallback);
    match stage.opinions(prim, property, Lookup::Property) {
        None => if fallback is None {
            out is None
        } else {
            out matches Some(out) && resolved_view(out.value) == outcome_value(
                fallback_outcome(fallback),
            ) && out.explains(named(stage.prims, prim), seq![], parts)
        },
        Some(opinions) => if opinions.len() == 0 {
            out is None
        } else {
            out matches Some(out) && resolved_view(out.value) == outcome_value(
                over_fallback(read, fold, fill, fallback),
            ) && out.explains(named(stage.prims, prim), opinions, parts)
        },
    }
}

/// Whether an explanation is that of a property at a time over a fallback.
pub open spec fn explained_at_time_with(
    stage: StageView,
    path: PropertyPath,
    fold: Option<FoldView>,
    arrays: SparseView,
    folds: Seq<SampleFoldView>,
    readings: Seq<Option<ValueView>>,
    time: u64,
    interpolation: InterpolationType,
    times: Times,
    fallback: Option<ValueView>,
    out: Option<ValueExplanation<'_, Value>>,
) -> bool {
    let index = named(stage.prims, path.prim_path);
    let authored = stage.opinions(path.prim_path, path.property, Lookup::Property);
    let opinions = match authored {
        Some(opinions) => opinions,
        None => seq![],
    };
    let read = match stage.read(path.prim_path, path.property, Lookup::Property) {
        Some(read) => read,
        None => seq![],
    };
    let resolved = stage.resolution_at_time(
        path.prim_path,
        path.property,
        Lookup::Property,
        fold,
        arrays,
        readings,
    );
    let parts = time_explained(
        read,
        fold,
        arrays,
        folds,
        readings,
        time,
        interpolation,
        times,
    );
    &&& out is None <==> authored is None && fallback is None
    &&& out matches Some(out) ==> {
        &&& value_option(out.value) == (match stage.resolution_at_time_over(
            path.prim_path,
            path.property,
            fold,
            arrays,
            readings,
            fallback,
        ) {
            Some((value, _)) => Some(value),
            None => None,
        })
        &&& if authored is None {
            out.explains(
                index,
                seq![],
                (PartsView { source: ValueSource::Fallback, ..nothing_explained(0) }),
            )
        } else if resolved is Some || fallback is None {
            out.explains(index, opinions, parts)
        } else {
            out.explains(
                index,
                opinions,
                (PartsView {
                    source: ValueSource::Fallback,
                    seeded_by_fallback: false,
                    ..parts
                }),
            )
        }
    }
}

/// Whether an explanation is that of a query: of the value that the query
/// resolves, with the parts of the opinions that it consults.
pub open spec fn explained_as(
    stage: StageView,
    prim: PathId,
    name: TokenId,
    lookup: Lookup,
    fold: Option<FoldView>,
    out: Option<ValueExplanation<'_, ResolvedValue>>,
) -> bool {
    match (stage.opinions(prim, name, lookup), stage.read(prim, name, lookup)) {
        (Some(opinions), Some(read)) => if opinions.len() == 0 {
            out is None
        } else {
            let fill = fill_of(stage.property_type(prim, name));
            out matches Some(out) && resolved_view(out.value) == (match stage.resolution(
                prim,
                name,
                lookup,
                fold,
            ) {
                Some((value, _)) => Some(value),
                None => None,
            }) && out.explains(
                named(stage.prims, prim),
                opinions,
                chain_explained(read, fold, fill),
            )
        },
        _ => out is None,
    }
}

// ── Laws ────────────────────────────────────────────────────────────────

/// The places of the opinions of a chain that were consulted, among the first
/// `count`.
pub open spec fn consulted_places(roles: Seq<Option<RoleView>>, count: int) -> Seq<int>
    decreases count,
{
    if count <= 0 {
        seq![]
    } else {
        let earlier = consulted_places(roles, count - 1);
        if roles[count - 1] is Some {
            earlier.push(count - 1)
        } else {
            earlier
        }
    }
}

/// The opinions that an explanation lists are opinions of the chain, strongest
/// first, each once: those with a part, with that part.
pub proof fn law_consulted_opinions_keep_their_order(
    index: Option<PrimView>,
    opinions: Seq<OpinionView>,
    roles: Seq<Option<RoleView>>,
    samples: Seq<Seq<(u64, RoleView)>>,
    count: int,
)
    ensures
        ({
            let listed = consulted(index, opinions, roles, samples, count);
            let places = consulted_places(roles, count);
            &&& listed.len() == places.len()
            &&& forall|i: int|
                0 <= i < listed.len() ==> 0 <= #[trigger] places[i] < count && listed[i].opinion
                    == opinions[places[i]] && Some(listed[i].role) == roles[places[i]]
            &&& forall|i: int, j: int|
                0 <= i < j < places.len() ==> #[trigger] places[i] < #[trigger] places[j]
        }),
    decreases count,
{
    if count > 0 {
        law_consulted_opinions_keep_their_order(index, opinions, roles, samples, count - 1);
    }
}

} // verus!
