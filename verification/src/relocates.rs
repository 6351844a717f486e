//! Relocation tables.
//!
//! Relocates move prims to new paths in a layer stack's namespace: the prim
//! at a relocation's source is composed at its target, and the source path
//! no longer exists. Each layer of a layer stack authors entries in its
//! `layerRelocates` metadata; a [`RelocationTable`] is the validated result
//! for the whole layer stack.
//!
//! Entries are gathered strongest layer first, and the first entry for a
//! source path wins. An entry that is invalid on its own, or that conflicts
//! with another entry, is a composition error and is ignored. What remains
//! is the stack's incremental relocation map: each source is a path in the
//! namespace that the entries of its ancestors already relocated, so no
//! valid source lies beneath another source, and no target does either.

use crate::composition_error::{
    errors_view, CompositionError, ErrorView, InvalidAuthoredRelocation, InvalidConflictingRelocation,
    InvalidRelocationReason, InvalidSameTargetRelocations, RelocationConflict,
};
use crate::id_map::{get_id, insert_id, new_id_map, IdMap};
use crate::interner::{first_position, lemma_first_position, lemma_position_of_entry, TokenInterner};
use crate::interner::TokenId;
use crate::order::{compare_usize, order_int, Order};
use crate::path::{all_known, order_paths, PathId, PathInterner};
use crate::prim_index::LayerId;
use crate::sorting::{lemma_stable_sorted, sort_stable, stable_sorted};
use vstd::prelude::*;

verus! {

/// A relocation: the prim at `source` moves to `target`, or is removed.
#[derive(Clone, Copy, Debug, PartialEq, Eq, Structural, Hash)]
pub struct Relocate {
    /// The path that is moved.
    pub source: PathId,
    /// The path it is moved to; `None` removes it.
    pub target: Option<PathId>,
}

/// The relocates that one layer authors.
#[derive(Debug)]
pub struct LayerRelocates {
    /// The layer.
    pub layer: LayerId,
    /// Its relocates, in authored order.
    pub relocates: Vec<Relocate>,
}

/// One gathered entry: the relocate and the layer authoring it.
#[derive(Clone, Copy, Debug, PartialEq, Eq, Structural)]
pub struct Entry {
    pub relocate: Relocate,
    pub layer: LayerId,
}

/// A conflict of the entry `at` with the entry `other`.
#[derive(Clone, Copy, Debug, PartialEq, Eq, Structural)]
pub struct Conflict {
    pub at: usize,
    pub other: usize,
    pub reason: RelocationConflict,
}

// ── The model ───────────────────────────────────────────────────────────

/// Whether the paths of a relocate are interned.
pub open spec fn relocate_known(relocate: Relocate, paths: Seq<Seq<TokenId>>) -> bool {
    &&& relocate.source.index < paths.len()
    &&& relocate.target is Some ==> relocate.target->0.index < paths.len()
}

/// Whether the paths of all entries are interned.
pub open spec fn entries_known(entries: Seq<Entry>, paths: Seq<Seq<TokenId>>) -> bool {
    forall|i: int|
        0 <= i < entries.len() ==> relocate_known((#[trigger] entries[i]).relocate, paths)
}

/// The relocates of one layer as entries.
pub open spec fn layer_entries(layer: LayerRelocates) -> Seq<Entry> {
    layer.relocates@.map_values(|r: Relocate| Entry { relocate: r, layer: layer.layer })
}

/// The relocates of all layers, in order.
pub open spec fn authored_entries(layers: Seq<LayerRelocates>) -> Seq<Entry>
    decreases layers.len(),
{
    if layers.len() == 0 {
        seq![]
    } else {
        authored_entries(layers.drop_last()) + layer_entries(layers.last())
    }
}

/// Why a relocate is invalid on its own, if it is.
pub open spec fn fault_of(relocate: Relocate, paths: Seq<Seq<TokenId>>) -> Option<
    InvalidRelocationReason,
> {
    let source = paths[relocate.source.index as int];
    match relocate.target {
        Some(target) => {
            let target_path = paths[target.index as int];
            if target == relocate.source {
                Some(InvalidRelocationReason::TargetIsSource)
            } else if source.is_prefix_of(target_path) {
                Some(InvalidRelocationReason::TargetIsDescendant)
            } else if target_path.is_prefix_of(source) {
                Some(InvalidRelocationReason::TargetIsAncestor)
            } else if source.len() <= 1 {
                Some(InvalidRelocationReason::RootPrimSource)
            } else {
                None
            }
        },
        None => if source.len() <= 1 {
            Some(InvalidRelocationReason::RootPrimSource)
        } else {
            None
        },
    }
}

/// The errors for the entries that are invalid on their own.
pub open spec fn authored_errors(authored: Seq<Entry>, paths: Seq<Seq<TokenId>>) -> Seq<ErrorView>
    decreases authored.len(),
{
    if authored.len() == 0 {
        seq![]
    } else {
        let before = authored_errors(authored.drop_last(), paths);
        let entry = authored.last();
        match fault_of(entry.relocate, paths) {
            Some(reason) => before.push(
                ErrorView::InvalidAuthoredRelocation(
                    InvalidAuthoredRelocation {
                        layer: entry.layer,
                        source: entry.relocate.source,
                        target: entry.relocate.target,
                        reason,
                    },
                ),
            ),
            None => before,
        }
    }
}

/// The first entry from `from` on with that source.
pub open spec fn entry_of(entries: Seq<Entry>, source: PathId, from: int) -> Option<int>
    decreases entries.len() - from,
{
    if from < 0 || from >= entries.len() {
        None
    } else if entries[from].relocate.source == source {
        Some(from)
    } else {
        entry_of(entries, source, from + 1)
    }
}

/// The entries that are valid on their own, the first one for each source.
pub open spec fn first_entries(authored: Seq<Entry>, paths: Seq<Seq<TokenId>>) -> Seq<Entry>
    decreases authored.len(),
{
    if authored.len() == 0 {
        seq![]
    } else {
        let before = first_entries(authored.drop_last(), paths);
        let entry = authored.last();
        if fault_of(entry.relocate, paths) is None && entry_of(
            before,
            entry.relocate.source,
            0,
        ) is None {
            before.push(entry)
        } else {
            before
        }
    }
}

/// The interned ancestors of `path` with at most `depth` segments, nearest
/// first, the root left out.
pub open spec fn ancestors_upto(
    path: Seq<TokenId>,
    depth: int,
    paths: Seq<Seq<TokenId>>,
) -> Seq<PathId>
    decreases depth,
{
    if depth <= 0 {
        seq![]
    } else {
        let at = first_position(paths, path.take(depth));
        let upper = ancestors_upto(path, depth - 1, paths);
        if at < paths.len() {
            seq![PathId { index: at as usize }] + upper
        } else {
            upper
        }
    }
}

/// The interned proper ancestors of a path below the root, nearest first.
pub open spec fn ancestors_of(path: PathId, paths: Seq<Seq<TokenId>>) -> Seq<PathId> {
    let segments = paths[path.index as int];
    ancestors_upto(segments, segments.len() - 1, paths)
}

/// Whether a path comes before another in text.
pub open spec fn path_before(
    paths: Seq<Seq<TokenId>>,
    tokens: Seq<Seq<char>>,
) -> spec_fn(PathId, PathId) -> bool {
    |a: PathId, b: PathId|
        order_paths(paths[a.index as int], paths[b.index as int], tokens) == Order::Less
}

/// Whether the source of one entry comes before that of another in text.
pub open spec fn source_before(
    entries: Seq<Entry>,
    paths: Seq<Seq<TokenId>>,
    tokens: Seq<Seq<char>>,
) -> spec_fn(usize, usize) -> bool {
    |a: usize, b: usize|
        path_before(paths, tokens)(
            entries[a as int].relocate.source,
            entries[b as int].relocate.source,
        )
}

/// The places of the first `n` entries with that target.
pub open spec fn places_of(entries: Seq<Entry>, target: PathId, n: int) -> Seq<usize>
    decreases n,
{
    if n <= 0 {
        seq![]
    } else if entries[n - 1].relocate.target == Some(target) {
        places_of(entries, target, n - 1).push((n - 1) as usize)
    } else {
        places_of(entries, target, n - 1)
    }
}

/// Whether several entries have that target.
pub open spec fn is_shared(entries: Seq<Entry>, target: PathId) -> bool {
    places_of(entries, target, entries.len() as int).len() > 1
}

/// The targets of several of the entries, in the order of the first `n`
/// entries.
pub open spec fn shared_targets(entries: Seq<Entry>, n: int) -> Seq<PathId>
    decreases n,
{
    if n <= 0 {
        seq![]
    } else {
        let before = shared_targets(entries, n - 1);
        match entries[n - 1].relocate.target {
            Some(target) => if is_shared(entries, target) && !before.contains(target) {
                before.push(target)
            } else {
                before
            },
            None => before,
        }
    }
}

/// The error for a target that several entries share.
pub open spec fn shared_error(
    entries: Seq<Entry>,
    target: PathId,
    paths: Seq<Seq<TokenId>>,
    tokens: Seq<Seq<char>>,
) -> ErrorView {
    let places = stable_sorted(
        places_of(entries, target, entries.len() as int),
        source_before(entries, paths, tokens),
    );
    ErrorView::InvalidSameTargetRelocations {
        target,
        sources: places.map_values(
            |at: usize| (entries[at as int].layer, entries[at as int].relocate.source),
        ),
    }
}

/// The errors for the shared targets, by target path.
pub open spec fn shared_errors(
    entries: Seq<Entry>,
    paths: Seq<Seq<TokenId>>,
    tokens: Seq<Seq<char>>,
) -> Seq<ErrorView> {
    stable_sorted(
        shared_targets(entries, entries.len() as int),
        path_before(paths, tokens),
    ).map_values(|target: PathId| shared_error(entries, target, paths, tokens))
}

/// The conflicts of one entry with those whose source is among `upper`.
pub open spec fn conflicts_above(
    entries: Seq<Entry>,
    at: int,
    upper: Seq<PathId>,
    reason: RelocationConflict,
) -> Seq<Conflict>
    decreases upper.len(),
{
    if upper.len() == 0 {
        seq![]
    } else {
        let before = conflicts_above(entries, at, upper.drop_last(), reason);
        match entry_of(entries, upper.last(), 0) {
            Some(other) => before.push(
                Conflict { at: at as usize, other: other as usize, reason },
            ),
            None => before,
        }
    }
}

/// The conflicts that one entry shows: its target is another's source, its
/// target lies beneath another's source, or its source does.
pub open spec fn entry_conflicts(
    entries: Seq<Entry>,
    at: int,
    paths: Seq<Seq<TokenId>>,
) -> Seq<Conflict> {
    let relocate = entries[at].relocate;
    let by_target = match relocate.target {
        Some(target) => (match entry_of(entries, target, 0) {
            Some(other) => seq![
                Conflict {
                    at: at as usize,
                    other: other as usize,
                    reason: RelocationConflict::TargetIsConflictSource,
                },
                Conflict {
                    at: other as usize,
                    other: at as usize,
                    reason: RelocationConflict::SourceIsConflictTarget,
                },
            ],
            None => seq![],
        }) + conflicts_above(
            entries,
            at,
            ancestors_of(target, paths),
            RelocationConflict::TargetIsConflictSourceDescendant,
        ),
        None => seq![],
    };
    by_target + conflicts_above(
        entries,
        at,
        ancestors_of(relocate.source, paths),
        RelocationConflict::SourceIsConflictSourceDescendant,
    )
}

/// The conflicts that the first `n` entries show.
pub open spec fn conflicts_upto(
    entries: Seq<Entry>,
    n: int,
    paths: Seq<Seq<TokenId>>,
) -> Seq<Conflict>
    decreases n,
{
    if n <= 0 {
        seq![]
    } else {
        conflicts_upto(entries, n - 1, paths) + entry_conflicts(entries, n - 1, paths)
    }
}

/// The order of two conflicts: by source path, then by reason, then by the
/// conflicting source path.
pub open spec fn order_conflicts(
    entries: Seq<Entry>,
    paths: Seq<Seq<TokenId>>,
    tokens: Seq<Seq<char>>,
    a: Conflict,
    b: Conflict,
) -> Order {
    let source = |i: usize| paths[entries[i as int].relocate.source.index as int];
    order_paths(source(a.at), source(b.at), tokens).spec_or(
        order_int(a.reason.spec_rank() as int, b.reason.spec_rank() as int),
    ).spec_or(order_paths(source(a.other), source(b.other), tokens))
}

/// Whether a conflict comes before another.
pub open spec fn conflict_before(
    entries: Seq<Entry>,
    paths: Seq<Seq<TokenId>>,
    tokens: Seq<Seq<char>>,
) -> spec_fn(Conflict, Conflict) -> bool {
    |a: Conflict, b: Conflict| order_conflicts(entries, paths, tokens, a, b) == Order::Less
}

/// A list with each run of equal neighbours made one.
pub open spec fn without_repeats(s: Seq<Conflict>) -> Seq<Conflict>
    decreases s.len(),
{
    if s.len() <= 1 {
        s
    } else if s.last() == s[s.len() - 2] {
        without_repeats(s.drop_last())
    } else {
        without_repeats(s.drop_last()).push(s.last())
    }
}

/// The conflicts of all entries, in order, once each.
pub open spec fn all_conflicts(
    entries: Seq<Entry>,
    paths: Seq<Seq<TokenId>>,
    tokens: Seq<Seq<char>>,
) -> Seq<Conflict> {
    without_repeats(
        stable_sorted(
            conflicts_upto(entries, entries.len() as int, paths),
            conflict_before(entries, paths, tokens),
        ),
    )
}

/// The error for a conflict.
pub open spec fn conflict_error(entries: Seq<Entry>, conflict: Conflict) -> ErrorView {
    let entry = entries[conflict.at as int];
    let other = entries[conflict.other as int];
    ErrorView::InvalidConflictingRelocation(
        InvalidConflictingRelocation {
            layer: entry.layer,
            source: entry.relocate.source,
            target: entry.relocate.target,
            conflict_layer: other.layer,
            conflict_source: other.relocate.source,
            conflict_target: other.relocate.target,
            reason: conflict.reason,
        },
    )
}

/// All errors of a layer stack's relocates: the entries invalid on their own in
/// gathering order, then the shared targets by path, then the conflicts.
pub open spec fn relocation_errors(
    authored: Seq<Entry>,
    paths: Seq<Seq<TokenId>>,
    tokens: Seq<Seq<char>>,
) -> Seq<ErrorView> {
    let entries = first_entries(authored, paths);
    authored_errors(authored, paths) + shared_errors(entries, paths, tokens) + all_conflicts(
        entries,
        paths,
        tokens,
    ).map_values(|c: Conflict| conflict_error(entries, c))
}

/// Whether an entry is in conflict with another.
pub open spec fn has_conflict(entries: Seq<Entry>, at: int, paths: Seq<Seq<TokenId>>) -> bool {
    exists|k: int|
        0 <= k < conflicts_upto(entries, entries.len() as int, paths).len() && (
        #[trigger] conflicts_upto(entries, entries.len() as int, paths)[k]).at == at
}

/// Whether an entry is ignored: it shares its target, or is in conflict.
pub open spec fn is_ignored(entries: Seq<Entry>, at: int, paths: Seq<Seq<TokenId>>) -> bool {
    ||| entries[at].relocate.target is Some && is_shared(entries, entries[at].relocate.target->0)
    ||| has_conflict(entries, at, paths)
}

/// The relocates of the first `n` entries that are not ignored.
pub open spec fn kept_relocates(
    entries: Seq<Entry>,
    n: int,
    paths: Seq<Seq<TokenId>>,
) -> Seq<Relocate>
    decreases n,
{
    if n <= 0 {
        seq![]
    } else if is_ignored(entries, n - 1, paths) {
        kept_relocates(entries, n - 1, paths)
    } else {
        kept_relocates(entries, n - 1, paths).push(entries[n - 1].relocate)
    }
}

/// The relocates that a layer stack keeps.
pub open spec fn valid_relocates(authored: Seq<Entry>, paths: Seq<Seq<TokenId>>) -> Seq<Relocate> {
    let entries = first_entries(authored, paths);
    kept_relocates(entries, entries.len() as int, paths)
}

// ── Lemmas ──────────────────────────────────────────────────────────────

proof fn lemma_entry_of(entries: Seq<Entry>, source: PathId, from: int)
    requires
        0 <= from <= entries.len(),
    ensures
        match entry_of(entries, source, from) {
            Some(at) => from <= at < entries.len() && entries[at].relocate.source == source
                && forall|i: int|
                from <= i < at ==> (#[trigger] entries[i]).relocate.source != source,
            None => forall|i: int|
                from <= i < entries.len() ==> (#[trigger] entries[i]).relocate.source != source,
        },
    decreases entries.len() - from,
{
    if from < entries.len() && entries[from].relocate.source != source {
        lemma_entry_of(entries, source, from + 1);
    }
}

/// Whether no two entries have the same source.
pub open spec fn sources_differ(entries: Seq<Entry>) -> bool {
    forall|i: int, j: int|
        0 <= i < j < entries.len() ==> (#[trigger] entries[i]).relocate.source != (
        #[trigger] entries[j]).relocate.source
}

proof fn lemma_first_entries(authored: Seq<Entry>, paths: Seq<Seq<TokenId>>)
    requires
        entries_known(authored, paths),
    ensures
        sources_differ(first_entries(authored, paths)),
        entries_known(first_entries(authored, paths), paths),
        forall|i: int|
            0 <= i < first_entries(authored, paths).len() ==> fault_of(
                (#[trigger] first_entries(authored, paths)[i]).relocate,
                paths,
            ) is None,
        first_entries(authored, paths).len() <= authored.len(),
    decreases authored.len(),
{
    if authored.len() > 0 {
        let rest = authored.drop_last();
        assert forall|i: int| 0 <= i < rest.len() implies relocate_known(
            (#[trigger] rest[i]).relocate,
            paths,
        ) by {
            assert(rest[i] == authored[i]);
        }
        lemma_first_entries(rest, paths);
        let before = first_entries(rest, paths);
        let out = first_entries(authored, paths);
        lemma_entry_of(before, authored.last().relocate.source, 0);
        assert(relocate_known(authored[authored.len() - 1].relocate, paths));
        assert forall|i: int| 0 <= i < out.len() implies fault_of(
            (#[trigger] out[i]).relocate,
            paths,
        ) is None && relocate_known(out[i].relocate, paths) by {
            if i < before.len() {
                assert(out[i] == before[i]);
            }
        }
        assert forall|i: int, j: int| 0 <= i < j < out.len() implies (
        #[trigger] out[i]).relocate.source != (#[trigger] out[j]).relocate.source by {
            assert(out[i] == before[i]);
            if j < before.len() {
                assert(out[j] == before[j]);
            }
        }
    }
}

proof fn lemma_places_of(entries: Seq<Entry>, target: PathId, n: int)
    requires
        0 <= n <= entries.len(),
        entries.len() <= usize::MAX,
    ensures
        places_of(entries, target, n).len() <= n,
        forall|k: int|
            0 <= k < places_of(entries, target, n).len() ==> (#[trigger] places_of(
                entries,
                target,
                n,
            )[k]) < n && entries[places_of(entries, target, n)[k] as int].relocate.target == Some(
                target,
            ),
        forall|i: int|
            0 <= i < n && (#[trigger] entries[i]).relocate.target == Some(target) ==> places_of(
                entries,
                target,
                n,
            ).contains(i as usize),
    decreases n,
{
    if n > 0 {
        lemma_places_of(entries, target, n - 1);
        let before = places_of(entries, target, n - 1);
        let out = places_of(entries, target, n);
        assert forall|i: int| 0 <= i < n && (#[trigger] entries[i]).relocate.target == Some(
            target,
        ) implies out.contains(i as usize) by {
            if i < n - 1 {
                assert(before.contains(i as usize));
                let k = choose|k: int| 0 <= k < before.len() && before[k] == i as usize;
                assert(out[k] == i as usize);
            } else {
                assert(out[before.len() as int] == i as usize);
            }
        }
    }
}

proof fn lemma_shared_targets(entries: Seq<Entry>, n: int)
    requires
        0 <= n <= entries.len(),
    ensures
        shared_targets(entries, n).len() <= n,
        forall|k: int|
            0 <= k < shared_targets(entries, n).len() ==> is_shared(
                entries,
                #[trigger] shared_targets(entries, n)[k],
            ),
        forall|i: int|
            0 <= i < n && (#[trigger] entries[i]).relocate.target is Some && is_shared(
                entries,
                entries[i].relocate.target->0,
            ) ==> shared_targets(entries, n).contains(entries[i].relocate.target->0),
    decreases n,
{
    if n > 0 {
        lemma_shared_targets(entries, n - 1);
        let before = shared_targets(entries, n - 1);
        let out = shared_targets(entries, n);
        assert forall|x: PathId| before.contains(x) implies #[trigger] out.contains(x) by {
            let k = choose|k: int| 0 <= k < before.len() && before[k] == x;
            assert(out[k] == x);
        }
        assert forall|i: int|
            0 <= i < n && (#[trigger] entries[i]).relocate.target is Some && is_shared(
                entries,
                entries[i].relocate.target->0,
            ) implies out.contains(entries[i].relocate.target->0) by {
            let target = entries[i].relocate.target->0;
            if i < n - 1 {
                assert(before.contains(target));
            } else if !before.contains(target) {
                assert(out[before.len() as int] == target);
            }
        }
        assert forall|k: int| 0 <= k < out.len() implies is_shared(entries, #[trigger] out[k]) by {
            if k < before.len() {
                assert(out[k] == before[k]);
            }
        }
    }
}

/// Whether a conflict is between two of the entries.
spec fn conflict_known(entries: Seq<Entry>, c: Conflict) -> bool {
    c.at < entries.len() && c.other < entries.len()
}

proof fn lemma_conflicts_above(
    entries: Seq<Entry>,
    at: int,
    upper: Seq<PathId>,
    reason: RelocationConflict,
)
    requires
        0 <= at < entries.len() <= usize::MAX,
    ensures
        forall|k: int|
            0 <= k < conflicts_above(entries, at, upper, reason).len() ==> conflict_known(
                entries,
                #[trigger] conflicts_above(entries, at, upper, reason)[k],
            ) && conflicts_above(entries, at, upper, reason)[k].at == at,
        forall|i: int|
            0 <= i < upper.len() && entry_of(entries, #[trigger] upper[i], 0) is Some
                ==> conflicts_above(entries, at, upper, reason).len() > 0,
    decreases upper.len(),
{
    if upper.len() > 0 {
        let rest = upper.drop_last();
        lemma_conflicts_above(entries, at, rest, reason);
        lemma_entry_of(entries, upper.last(), 0);
        let before = conflicts_above(entries, at, rest, reason);
        let out = conflicts_above(entries, at, upper, reason);
        assert forall|k: int| 0 <= k < out.len() implies conflict_known(entries, #[trigger] out[k])
            && out[k].at == at by {
            if k < before.len() {
                assert(out[k] == before[k]);
            }
        }
        assert forall|i: int|
            0 <= i < upper.len() && entry_of(entries, #[trigger] upper[i], 0) is Some implies
            out.len() > 0 by {
            if i < rest.len() {
                assert(rest[i] == upper[i]);
            }
        }
    }
}

proof fn lemma_entry_conflicts(entries: Seq<Entry>, at: int, paths: Seq<Seq<TokenId>>)
    requires
        0 <= at < entries.len() <= usize::MAX,
    ensures
        forall|k: int|
            0 <= k < entry_conflicts(entries, at, paths).len() ==> conflict_known(
                entries,
                #[trigger] entry_conflicts(entries, at, paths)[k],
            ),
{
    let relocate = entries[at].relocate;
    if relocate.target is Some {
        let target = relocate.target->0;
        lemma_entry_of(entries, target, 0);
        lemma_conflicts_above(
            entries,
            at,
            ancestors_of(target, paths),
            RelocationConflict::TargetIsConflictSourceDescendant,
        );
    }
    lemma_conflicts_above(
        entries,
        at,
        ancestors_of(relocate.source, paths),
        RelocationConflict::SourceIsConflictSourceDescendant,
    );
}

proof fn lemma_conflicts_upto(entries: Seq<Entry>, n: int, paths: Seq<Seq<TokenId>>)
    requires
        0 <= n <= entries.len() <= usize::MAX,
    ensures
        forall|k: int|
            0 <= k < conflicts_upto(entries, n, paths).len() ==> conflict_known(
                entries,
                #[trigger] conflicts_upto(entries, n, paths)[k],
            ),
    decreases n,
{
    if n > 0 {
        lemma_conflicts_upto(entries, n - 1, paths);
        lemma_entry_conflicts(entries, n - 1, paths);
        let before = conflicts_upto(entries, n - 1, paths);
        let own = entry_conflicts(entries, n - 1, paths);
        let out = conflicts_upto(entries, n, paths);
        assert forall|k: int| 0 <= k < out.len() implies conflict_known(
            entries,
            #[trigger] out[k],
        ) by {
            if k < before.len() {
                assert(out[k] == before[k]);
            } else {
                assert(out[k] == own[k - before.len()]);
            }
        }
    }
}

/// The conflicts of an entry are among all conflicts.
proof fn lemma_conflicts_hold(
    entries: Seq<Entry>,
    n: int,
    at: int,
    k: int,
    paths: Seq<Seq<TokenId>>,
)
    requires
        0 <= at < n <= entries.len(),
        0 <= k < entry_conflicts(entries, at, paths).len(),
    ensures
        conflicts_upto(entries, n, paths).contains(entry_conflicts(entries, at, paths)[k]),
    decreases n,
{
    let before = conflicts_upto(entries, n - 1, paths);
    let own = entry_conflicts(entries, n - 1, paths);
    let out = conflicts_upto(entries, n, paths);
    let c = entry_conflicts(entries, at, paths)[k];
    if at == n - 1 {
        assert(out[before.len() + k] == c);
    } else {
        lemma_conflicts_hold(entries, n - 1, at, k, paths);
        let j = choose|j: int| 0 <= j < before.len() && before[j] == c;
        assert(out[j] == c);
    }
}

proof fn lemma_without_repeats(s: Seq<Conflict>)
    ensures
        forall|c: Conflict|
            #![trigger without_repeats(s).contains(c)]
            #![trigger s.contains(c)]
            without_repeats(s).contains(c) <==> s.contains(c),
    decreases s.len(),
{
    let out = without_repeats(s);
    if s.len() > 1 {
        let rest = s.drop_last();
        lemma_without_repeats(rest);
        let before = without_repeats(rest);
        assert forall|c: Conflict|
            #![trigger out.contains(c)]
            #![trigger s.contains(c)]
            out.contains(c) <==> s.contains(c) by {
            if s.contains(c) {
                let i = choose|i: int| 0 <= i < s.len() && s[i] == c;
                if i < rest.len() {
                    assert(rest[i] == c);
                    assert(rest.contains(c));
                } else if s.last() == s[s.len() - 2] {
                    assert(rest[s.len() - 2] == c);
                    assert(rest.contains(c));
                } else {
                    assert(out[before.len() as int] == c);
                }
                if before.contains(c) {
                    let j = choose|j: int| 0 <= j < before.len() && before[j] == c;
                    assert(out[j] == c);
                }
            }
            if out.contains(c) {
                let j = choose|j: int| 0 <= j < out.len() && out[j] == c;
                if j < before.len() {
                    assert(before[j] == c);
                    assert(before.contains(c));
                    assert(rest.contains(c));
                    let i = choose|i: int| 0 <= i < rest.len() && rest[i] == c;
                    assert(s[i] == c);
                } else {
                    assert(s[s.len() - 1] == c);
                }
            }
        }
    }
}

/// The ancestors of a path that are interned are found.
proof fn lemma_ancestors_upto(
    path: Seq<TokenId>,
    depth: int,
    paths: Seq<Seq<TokenId>>,
    d: int,
    id: PathId,
)
    requires
        paths.no_duplicates(),
        0 < d <= depth <= path.len(),
        id.index < paths.len(),
        paths[id.index as int] == path.take(d),
    ensures
        ancestors_upto(path, depth, paths).contains(id),
    decreases depth,
{
    let all = ancestors_upto(path, depth, paths);
    let upper = ancestors_upto(path, depth - 1, paths);
    let at = first_position(paths, path.take(depth));
    lemma_first_position(paths, path.take(depth));
    if d == depth {
        lemma_position_of_entry(paths, id.index as int);
        assert(all[0] == id);
    } else {
        lemma_ancestors_upto(path, depth - 1, paths, d, id);
        let k = choose|k: int| 0 <= k < upper.len() && upper[k] == id;
        if at < paths.len() {
            assert(all[k + 1] == id);
        } else {
            assert(all[k] == id);
        }
    }
}

// ── Laws ────────────────────────────────────────────────────────────────

/// Whether the path behind `a` is a proper ancestor of the one behind `b`.
pub open spec fn lies_beneath(b: PathId, a: PathId, paths: Seq<Seq<TokenId>>) -> bool {
    let upper = paths[a.index as int];
    let lower = paths[b.index as int];
    upper.len() < lower.len() && upper.is_prefix_of(lower)
}

/// A kept relocate comes from an entry that is not ignored.
proof fn lemma_kept(entries: Seq<Entry>, n: int, paths: Seq<Seq<TokenId>>, k: int) -> (at: int)
    requires
        0 <= n <= entries.len(),
        0 <= k < kept_relocates(entries, n, paths).len(),
    ensures
        0 <= at < n,
        !is_ignored(entries, at, paths),
        entries[at].relocate == kept_relocates(entries, n, paths)[k],
    decreases n,
{
    let before = kept_relocates(entries, n - 1, paths);
    if !is_ignored(entries, n - 1, paths) && k == before.len() {
        n - 1
    } else {
        lemma_kept(entries, n - 1, paths, k)
    }
}

/// Kept relocates come from different entries.
proof fn lemma_kept_differ(entries: Seq<Entry>, n: int, paths: Seq<Seq<TokenId>>, k: int, l: int)
    requires
        0 <= n <= entries.len(),
        sources_differ(entries),
        0 <= k < l < kept_relocates(entries, n, paths).len(),
    ensures
        kept_relocates(entries, n, paths)[k].source != kept_relocates(entries, n, paths)[l].source,
    decreases n,
{
    let before = kept_relocates(entries, n - 1, paths);
    if !is_ignored(entries, n - 1, paths) && l == before.len() {
        let at = lemma_kept(entries, n - 1, paths, k);
        assert(entries[at].relocate.source != entries[n - 1].relocate.source);
    } else {
        lemma_kept_differ(entries, n - 1, paths, k, l);
    }
}

/// No kept source, and no kept target, lies beneath a kept source; nor is a
/// kept target a kept source.
pub proof fn law_kept_sources_are_clear(
    authored: Seq<Entry>,
    paths: Seq<Seq<TokenId>>,
    i: int,
    j: int,
)
    requires
        paths.no_duplicates(),
        paths.len() <= usize::MAX,
        authored.len() <= usize::MAX,
        entries_known(authored, paths),
        0 <= i < valid_relocates(authored, paths).len(),
        0 <= j < valid_relocates(authored, paths).len(),
    ensures
        ({
            let a = valid_relocates(authored, paths)[i];
            let b = valid_relocates(authored, paths)[j];
            &&& !lies_beneath(a.source, b.source, paths)
            &&& a.target is Some ==> !lies_beneath(a.target->0, b.source, paths) && a.target->0
                != b.source
        }),
{
    let entries = first_entries(authored, paths);
    let n = entries.len() as int;
    lemma_first_entries(authored, paths);
    let a = valid_relocates(authored, paths)[i];
    let b = valid_relocates(authored, paths)[j];
    let at = lemma_kept(entries, n, paths, i);
    let other = lemma_kept(entries, n, paths, j);
    assert(relocate_known(entries[at].relocate, paths));
    assert(relocate_known(entries[other].relocate, paths));
    assert(fault_of(entries[other].relocate, paths) is None);
    lemma_entry_of(entries, b.source, 0);
    assert(entry_of(entries, b.source, 0) is Some);
    if lies_beneath(a.source, b.source, paths) {
        lemma_conflict_above(
            entries,
            at,
            a.source,
            b.source,
            paths,
            RelocationConflict::SourceIsConflictSourceDescendant,
        );
        lemma_above_is_conflict(entries, at, paths, false);
    }
    if a.target is Some {
        let target = a.target->0;
        if lies_beneath(target, b.source, paths) {
            lemma_conflict_above(
                entries,
                at,
                target,
                b.source,
                paths,
                RelocationConflict::TargetIsConflictSourceDescendant,
            );
            lemma_above_is_conflict(entries, at, paths, true);
        }
        if target == b.source {
            let own = entry_conflicts(entries, at, paths);
            assert(own[0].at == at);
            lemma_conflicts_hold(entries, n, at, 0, paths);
            let all = conflicts_upto(entries, n, paths);
            let k = choose|k: int| 0 <= k < all.len() && all[k] == own[0];
            assert(all[k].at == at);
            assert(has_conflict(entries, at, paths));
        }
    }
}

proof fn lemma_conflict_above(
    entries: Seq<Entry>,
    at: int,
    path: PathId,
    source: PathId,
    paths: Seq<Seq<TokenId>>,
    reason: RelocationConflict,
)
    requires
        0 <= at < entries.len() <= usize::MAX,
        paths.no_duplicates(),
        path.index < paths.len(),
        source.index < paths.len(),
        paths[source.index as int].len() > 1,
        lies_beneath(path, source, paths),
        entry_of(entries, source, 0) is Some,
    ensures
        conflicts_above(entries, at, ancestors_of(path, paths), reason).len() > 0,
{
    let segments = paths[path.index as int];
    let upper = paths[source.index as int];
    assert(upper =~= segments.take(upper.len() as int));
    lemma_ancestors_upto(segments, segments.len() - 1, paths, upper.len() as int, source);
    let all = ancestors_of(path, paths);
    let k = choose|k: int| 0 <= k < all.len() && all[k] == source;
    lemma_conflicts_above(entries, at, all, reason);
    assert(entry_of(entries, all[k], 0) is Some);
}

/// Where an entry has a conflict with an ancestor of its target or source, it
/// is in conflict.
proof fn lemma_above_is_conflict(
    entries: Seq<Entry>,
    at: int,
    paths: Seq<Seq<TokenId>>,
    of_target: bool,
)
    requires
        0 <= at < entries.len() <= usize::MAX,
        of_target ==> entries[at].relocate.target is Some && conflicts_above(
            entries,
            at,
            ancestors_of(entries[at].relocate.target->0, paths),
            RelocationConflict::TargetIsConflictSourceDescendant,
        ).len() > 0,
        !of_target ==> conflicts_above(
            entries,
            at,
            ancestors_of(entries[at].relocate.source, paths),
            RelocationConflict::SourceIsConflictSourceDescendant,
        ).len() > 0,
    ensures
        has_conflict(entries, at, paths),
{
    let relocate = entries[at].relocate;
    let own = entry_conflicts(entries, at, paths);
    let by_source = conflicts_above(
        entries,
        at,
        ancestors_of(relocate.source, paths),
        RelocationConflict::SourceIsConflictSourceDescendant,
    );
    lemma_conflicts_above(
        entries,
        at,
        ancestors_of(relocate.source, paths),
        RelocationConflict::SourceIsConflictSourceDescendant,
    );
    let k = if of_target {
        let target = relocate.target->0;
        let by_target = conflicts_above(
            entries,
            at,
            ancestors_of(target, paths),
            RelocationConflict::TargetIsConflictSourceDescendant,
        );
        lemma_conflicts_above(
            entries,
            at,
            ancestors_of(target, paths),
            RelocationConflict::TargetIsConflictSourceDescendant,
        );
        let k: int = if entry_of(entries, target, 0) is Some {
            2
        } else {
            0
        };
        assert(own[k] == by_target[0]);
        k
    } else {
        let k = own.len() - by_source.len();
        assert(own[k] == by_source[0]);
        k
    };
    assert(own[k].at == at);
    lemma_conflicts_hold(entries, entries.len() as int, at, k, paths);
    let all = conflicts_upto(entries, entries.len() as int, paths);
    let j = choose|j: int| 0 <= j < all.len() && all[j] == own[k];
    assert(all[j].at == at);
}

/// Kept relocates have different sources and different targets.
pub proof fn law_kept_relocates_are_one_to_one(
    authored: Seq<Entry>,
    paths: Seq<Seq<TokenId>>,
    i: int,
    j: int,
)
    requires
        authored.len() <= usize::MAX,
        entries_known(authored, paths),
        0 <= i < j < valid_relocates(authored, paths).len(),
    ensures
        valid_relocates(authored, paths)[i].source != valid_relocates(authored, paths)[j].source,
        valid_relocates(authored, paths)[i].target is Some ==> valid_relocates(
            authored,
            paths,
        )[i].target != valid_relocates(authored, paths)[j].target,
{
    let entries = first_entries(authored, paths);
    let n = entries.len() as int;
    lemma_first_entries(authored, paths);
    lemma_kept_differ(entries, n, paths, i, j);
    let a = lemma_kept(entries, n, paths, i);
    let b = lemma_kept(entries, n, paths, j);
    if entries[a].relocate.target is Some && entries[a].relocate.target
        == entries[b].relocate.target {
        let target = entries[a].relocate.target->0;
        let places = places_of(entries, target, n);
        lemma_places_of(entries, target, n);
        assert(places.contains(a as usize) && places.contains(b as usize));
        let k = choose|k: int| 0 <= k < places.len() && places[k] == a as usize;
        let l = choose|l: int| 0 <= l < places.len() && places[l] == b as usize;
        assert(k != l);
        assert(is_shared(entries, target));
    }
}

// ── Computing ───────────────────────────────────────────────────────────

/// Why `relocate` is invalid on its own, if it is.
///
/// Paths are prim paths by construction.
pub fn invalid_reason(paths: &PathInterner, relocate: Relocate) -> (reason: Option<
    InvalidRelocationReason,
>)
    requires
        relocate_known(relocate, paths@),
    ensures
        reason == fault_of(relocate, paths@),
{
    let source = paths.resolve(relocate.source);
    if let Some(target) = relocate.target {
        let target_path = paths.resolve(target);
        if target == relocate.source {
            return Some(InvalidRelocationReason::TargetIsSource);
        }
        if source.is_prefix_of(target_path) {
            return Some(InvalidRelocationReason::TargetIsDescendant);
        }
        if target_path.is_prefix_of(source) {
            return Some(InvalidRelocationReason::TargetIsAncestor);
        }
    }
    // Checked after the target.
    if source.depth() <= 1 {
        Some(InvalidRelocationReason::RootPrimSource)
    } else {
        None
    }
}

/// The interned proper ancestors of `path` below the root, nearest first.
/// Ancestors that were never interned cannot be relocation paths and are
/// skipped.
pub fn proper_ancestors(paths: &PathInterner, path: PathId) -> (ancestors: Vec<PathId>)
    requires
        paths.has(path),
    ensures
        ancestors@ == ancestors_of(path, paths@),
{
    let segments = paths.resolve(path);
    let ghost all = ancestors_of(path, paths@);
    let mut out: Vec<PathId> = Vec::new();
    if segments.depth() == 0 {
        return out;
    }
    let mut depth: usize = segments.depth() - 1;
    assert(out@ + ancestors_upto(segments@, depth as int, paths@) =~= all);
    while depth > 0
        invariant
            segments@ == paths.path(path),
            depth < segments@.len(),
            out@ + ancestors_upto(segments@, depth as int, paths@) == all,
        decreases depth,
    {
        let ghost before = out@;
        let upper = segments.prefix(depth);
        if let Some(id) = paths.lookup(&upper) {
            out.push(id);
        }
        depth = depth - 1;
        assert(out@ + ancestors_upto(segments@, depth as int, paths@) =~= before + ancestors_upto(
            segments@,
            depth + 1,
            paths@,
        ));
    }
    assert(out@ =~= all);
    out
}

/// Whether a map holds the place of the entry with each source.
spec fn indexes(index: Map<usize, usize>, entries: Seq<Entry>) -> bool {
    forall|p: PathId|
        match #[trigger] entry_of(entries, p, 0) {
            Some(at) => index.dom().contains(p.index) && index[p.index] == at,
            None => !index.dom().contains(p.index),
        }
}

proof fn lemma_entry_push(entries: Seq<Entry>, entry: Entry, source: PathId, from: int)
    requires
        0 <= from <= entries.len(),
    ensures
        entry_of(entries.push(entry), source, from) == (match entry_of(entries, source, from) {
            Some(at) => Some(at),
            None => if entry.relocate.source == source {
                Some(entries.len() as int)
            } else {
                None
            },
        }),
    decreases entries.len() - from,
{
    let more = entries.push(entry);
    if from < entries.len() {
        assert(more[from] == entries[from]);
        lemma_entry_push(entries, entry, source, from + 1);
    } else {
        assert(entry_of(more, source, from + 1) is None);
    }
}

fn find_entry(index: &IdMap, source: PathId, Ghost(entries): Ghost<Seq<Entry>>) -> (at: Option<
    usize,
>)
    requires
        indexes(index@, entries),
        entries.len() <= usize::MAX,
    ensures
        match at {
            Some(at) => entry_of(entries, source, 0) == Some(at as int) && at < entries.len(),
            None => entry_of(entries, source, 0) is None,
        },
{
    proof {
        lemma_entry_of(entries, source, 0);
    }
    get_id(index, source.index)
}

/// Gathers the valid entries, the first one for each source, with an index of
/// their places, and appends an error for each invalid one.
fn gather(
    layers: &Vec<LayerRelocates>,
    paths: &PathInterner,
    errors: &mut Vec<CompositionError>,
) -> (out: (Vec<Entry>, IdMap))
    requires
        entries_known(authored_entries(layers@), paths@),
    ensures
        out.0@ == first_entries(authored_entries(layers@), paths@),
        indexes(out.1@, out.0@),
        errors_view(final(errors)@) == errors_view(old(errors)@) + authored_errors(
            authored_entries(layers@),
            paths@,
        ),
{
    let ghost start = errors_view(errors@);
    let ghost authored = authored_entries(layers@);
    let mut entries: Vec<Entry> = Vec::new();
    let mut index = new_id_map();
    let mut i: usize = 0;
    let ghost mut done: Seq<Entry> = seq![];
    assert(layers@.take(0) =~= seq![]);
    assert(start + authored_errors(done, paths@) =~= start);
    while i < layers.len()
        invariant
            i <= layers@.len(),
            authored == authored_entries(layers@),
            entries_known(authored, paths@),
            done == authored_entries(layers@.take(i as int)),
            entries@ == first_entries(done, paths@),
            indexes(index@, entries@),
            errors_view(errors@) == start + authored_errors(done, paths@),
        decreases layers@.len() - i,
    {
        let layer = layers[i].layer;
        let relocates = &layers[i].relocates;
        let ghost own = layer_entries(layers@[i as int]);
        let ghost upper = done;
        proof {
            lemma_authored_prefix(layers@, i as int);
        }
        let mut k: usize = 0;
        assert(own.take(0) =~= seq![]);
        assert(done =~= upper + own.take(0));
        while k < relocates.len()
            invariant
                k <= relocates@.len(),
                relocates@ == layers@[i as int].relocates@,
                layer == layers@[i as int].layer,
                i < layers@.len(),
                own == layer_entries(layers@[i as int]),
                entries_known(authored, paths@),
                authored.len() >= upper.len() + own.len(),
                forall|j: int| 0 <= j < own.len() ==> #[trigger] own[j] == authored[upper.len() + j],
                done == upper + own.take(k as int),
                entries@ == first_entries(done, paths@),
                indexes(index@, entries@),
                errors_view(errors@) == start + authored_errors(done, paths@),
            decreases relocates@.len() - k,
        {
            let relocate = relocates[k];
            let entry = Entry { relocate, layer };
            let ghost before = errors@;
            proof {
                assert(own[k as int] == entry);
                assert(relocate_known(authored[upper.len() + k].relocate, paths@));
                assert(own.take(k + 1) =~= own.take(k as int).push(entry));
                assert(upper + own.take(k + 1) =~= done.push(entry));
                assert(done.push(entry).drop_last() =~= done);
                done = done.push(entry);
            }
            match invalid_reason(paths, relocate) {
                Some(reason) => {
                    let error = CompositionError::InvalidAuthoredRelocation(
                        InvalidAuthoredRelocation {
                            layer,
                            source: relocate.source,
                            target: relocate.target,
                            reason,
                        },
                    );
                    errors.push(error);
                    assert(errors_view(errors@) =~= errors_view(before).push(error.view()));
                    assert(errors_view(errors@) =~= start + authored_errors(done, paths@));
                },
                None => {
                    // A stronger layer's entry for the same source wins; that
                    // is not an error.
                    let at: usize = entries.len();
                    if find_entry(&index, relocate.source, Ghost(entries@)).is_none() {
                        let ghost earlier = entries@;
                        entries.push(entry);
                        let _ = insert_id(&mut index, relocate.source.index, at);
                        proof {
                            assert forall|p: PathId|
                                match #[trigger] entry_of(entries@, p, 0) {
                                    Some(at) => index@.dom().contains(p.index)
                                        && index@[p.index] == at,
                                    None => !index@.dom().contains(p.index),
                                } by {
                                lemma_entry_push(earlier, entry, p, 0);
                                let was = entry_of(earlier, p, 0);
                            }
                        }
                    }
                },
            }
            k = k + 1;
        }
        assert(own.take(k as int) =~= own);
        assert(layers@.take(i + 1).drop_last() =~= layers@.take(i as int));
        i = i + 1;
    }
    assert(layers@.take(i as int) =~= layers@);
    (entries, index)
}

/// The entries of a layer stand at their place among all entries.
proof fn lemma_authored_prefix(layers: Seq<LayerRelocates>, i: int)
    requires
        0 <= i < layers.len(),
    ensures
        ({
            let upper = authored_entries(layers.take(i));
            let own = layer_entries(layers[i]);
            let all = authored_entries(layers);
            &&& all.len() >= upper.len() + own.len()
            &&& forall|j: int|
                0 <= j < own.len() ==> #[trigger] own[j] == all[upper.len() + j]
        }),
    decreases layers.len(),
{
    let rest = layers.drop_last();
    if i == layers.len() - 1 {
        assert(layers.take(i) =~= rest);
    } else {
        lemma_authored_prefix(rest, i);
        assert(rest.take(i) =~= layers.take(i));
    }
}

fn source_of_entry(entries: &Vec<Entry>, at: usize) -> (source: PathId)
    requires
        at < entries@.len(),
    ensures
        source == entries@[at as int].relocate.source,
{
    entries[at].relocate.source
}

/// Compares two paths by their text.
pub fn compare_paths(
    paths: &PathInterner,
    tokens: &TokenInterner,
    a: PathId,
    b: PathId,
) -> (out: Order)
    requires
        paths.has(a),
        paths.has(b),
        paths.named_by(tokens@),
    ensures
        out == order_paths(paths.path(a), paths.path(b), tokens@),
{
    assert(all_known(paths@[a.index as int], tokens@));
    assert(all_known(paths@[b.index as int], tokens@));
    paths.resolve(a).compare_with_tokens(paths.resolve(b), tokens)
}

fn find_places(entries: &Vec<Entry>, target: PathId) -> (places: Vec<usize>)
    ensures
        places@ == places_of(entries@, target, entries@.len() as int),
{
    let mut places: Vec<usize> = Vec::new();
    let mut i: usize = 0;
    while i < entries.len()
        invariant
            i <= entries@.len(),
            places@ == places_of(entries@, target, i as int),
        decreases entries@.len() - i,
    {
        if entries[i].relocate.target == Some(target) {
            places.push(i);
        }
        i = i + 1;
    }
    places
}

fn contains_path(list: &Vec<PathId>, path: PathId) -> (found: bool)
    ensures
        found == list@.contains(path),
{
    let mut i: usize = 0;
    while i < list.len()
        invariant
            i <= list@.len(),
            forall|j: int| 0 <= j < i ==> list@[j] != path,
        decreases list@.len() - i,
    {
        if list[i] == path {
            return true;
        }
        i = i + 1;
    }
    false
}

fn find_shared(entries: &Vec<Entry>) -> (targets: Vec<PathId>)
    ensures
        targets@ == shared_targets(entries@, entries@.len() as int),
{
    let mut targets: Vec<PathId> = Vec::new();
    let mut i: usize = 0;
    while i < entries.len()
        invariant
            i <= entries@.len(),
            targets@ == shared_targets(entries@, i as int),
        decreases entries@.len() - i,
    {
        if let Some(target) = entries[i].relocate.target {
            let places = find_places(entries, target);
            if places.len() > 1 && !contains_path(&targets, target) {
                targets.push(target);
            }
        }
        i = i + 1;
    }
    targets
}

/// Whether a place is one of the entries.
spec fn place_known(entries: Seq<Entry>, at: usize) -> bool {
    at < entries.len()
}

/// The error for one shared target.
fn report_shared(
    entries: &Vec<Entry>,
    target: PathId,
    paths: &PathInterner,
    tokens: &TokenInterner,
) -> (error: CompositionError)
    requires
        entries_known(entries@, paths@),
        paths.named_by(tokens@),
    ensures
        error.view() == shared_error(entries@, target, paths@, tokens@),
{
    let mut places = find_places(entries, target);
    proof {
        assert(entries@.len() == entries.len());
        lemma_places_of(entries@, target, entries@.len() as int);
    }
    let before = |a: &usize, b: &usize| -> (first: bool)
        requires
            place_known(entries@, *a),
            place_known(entries@, *b),
        ensures
            first == source_before(entries@, paths@, tokens@)(*a, *b),
    {
        assert(relocate_known(entries@[*a as int].relocate, paths@));
        assert(relocate_known(entries@[*b as int].relocate, paths@));
        compare_paths(
            paths,
            tokens,
            source_of_entry(entries, *a),
            source_of_entry(entries, *b),
        ) == Order::Less
    };
    let ghost unsorted = places@;
    sort_stable(&mut places, before, Ghost(source_before(entries@, paths@, tokens@)));
    proof {
        lemma_stable_sorted(unsorted, source_before(entries@, paths@, tokens@));
    }
    let mut sources: Vec<(LayerId, PathId)> = Vec::new();
    let mut i: usize = 0;
    while i < places.len()
        invariant
            i <= places@.len(),
            sources@.len() == i,
            forall|k: int|
                0 <= k < places@.len() ==> #[trigger] unsorted.contains(places@[k]),
            forall|k: int| 0 <= k < unsorted.len() ==> (#[trigger] unsorted[k]) < entries@.len(),
            forall|k: int|
                0 <= k < i ==> #[trigger] sources@[k] == (
                    entries@[places@[k] as int].layer,
                    entries@[places@[k] as int].relocate.source,
                ),
        decreases places@.len() - i,
    {
        let at = places[i];
        proof {
            assert(unsorted.contains(places@[i as int]));
            let k = choose|k: int| 0 <= k < unsorted.len() && unsorted[k] == at;
            assert(unsorted[k] < entries@.len());
        }
        sources.push((entries[at].layer, entries[at].relocate.source));
        i = i + 1;
    }
    let ghost listed = places@.map_values(
        |at: usize| (entries@[at as int].layer, entries@[at as int].relocate.source),
    );
    assert(sources@ =~= listed);
    CompositionError::InvalidSameTargetRelocations(
        InvalidSameTargetRelocations { target, sources },
    )
}

/// Whether a path is interned.
spec fn path_known(paths: Seq<Seq<TokenId>>, path: PathId) -> bool {
    path.index < paths.len()
}

/// The errors for the targets that several entries share.
fn report_all_shared(
    entries: &Vec<Entry>,
    paths: &PathInterner,
    tokens: &TokenInterner,
    errors: &mut Vec<CompositionError>,
)
    requires
        entries_known(entries@, paths@),
        paths.named_by(tokens@),
    ensures
        errors_view(final(errors)@) == errors_view(old(errors)@) + shared_errors(
            entries@,
            paths@,
            tokens@,
        ),
{
    let ghost start = errors_view(errors@);
    let mut targets = find_shared(entries);
    let ghost unsorted = targets@;
    proof {
        assert(entries@.len() == entries.len());
        lemma_shared_targets(entries@, entries@.len() as int);
        assert forall|k: int| 0 <= k < unsorted.len() implies path_known(
            paths@,
            #[trigger] unsorted[k],
        ) by {
            let target = unsorted[k];
            lemma_places_of(entries@, target, entries@.len() as int);
            assert(is_shared(entries@, unsorted[k]));
            let at = places_of(entries@, target, entries@.len() as int)[0];
            assert(entries@[at as int].relocate.target == Some(target));
            assert(relocate_known(entries@[at as int].relocate, paths@));
        }
    }
    let before = |a: &PathId, b: &PathId| -> (first: bool)
        requires
            path_known(paths@, *a),
            path_known(paths@, *b),
        ensures
            first == path_before(paths@, tokens@)(*a, *b),
    {
        compare_paths(paths, tokens, *a, *b) == Order::Less
    };
    sort_stable(&mut targets, before, Ghost(path_before(paths@, tokens@)));
    let ghost reports = shared_errors(entries@, paths@, tokens@);
    let mut i: usize = 0;
    assert(start + reports.take(0) =~= start);
    while i < targets.len()
        invariant
            i <= targets@.len(),
            entries_known(entries@, paths@),
            paths.named_by(tokens@),
            reports == targets@.map_values(
                |target: PathId| shared_error(entries@, target, paths@, tokens@),
            ),
            errors_view(errors@) == start + reports.take(i as int),
        decreases targets@.len() - i,
    {
        let ghost so_far = errors@;
        let error = report_shared(entries, targets[i], paths, tokens);
        errors.push(error);
        assert(errors_view(errors@) =~= errors_view(so_far).push(error.view()));
        i = i + 1;
        assert(errors_view(errors@) =~= start + reports.take(i as int));
    }
    assert(reports.take(i as int) =~= reports);
}

/// Appends the conflicts of one entry with those whose source is among
/// `upper`.
fn push_conflicts_above(
    conflicts: &mut Vec<Conflict>,
    index: &IdMap,
    at: usize,
    upper: &Vec<PathId>,
    reason: RelocationConflict,
    Ghost(entries): Ghost<Seq<Entry>>,
)
    requires
        indexes(index@, entries),
        at < entries.len() <= usize::MAX,
    ensures
        final(conflicts)@ == old(conflicts)@ + conflicts_above(entries, at as int, upper@, reason),
{
    let ghost start = conflicts@;
    let mut i: usize = 0;
    assert(upper@.take(0) =~= seq![]);
    assert(start + conflicts_above(entries, at as int, upper@.take(0), reason) =~= start);
    while i < upper.len()
        invariant
            i <= upper@.len(),
            indexes(index@, entries),
            at < entries.len() <= usize::MAX,
            conflicts@ == start + conflicts_above(
                entries,
                at as int,
                upper@.take(i as int),
                reason,
            ),
        decreases upper@.len() - i,
    {
        let ghost so_far = conflicts@;
        assert(upper@.take(i + 1).drop_last() =~= upper@.take(i as int));
        if let Some(other) = find_entry(index, upper[i], Ghost(entries)) {
            conflicts.push(Conflict { at, other, reason });
        }
        i = i + 1;
        assert(conflicts@ =~= start + conflicts_above(
            entries,
            at as int,
            upper@.take(i as int),
            reason,
        ));
    }
    assert(upper@.take(i as int) =~= upper@);
}

/// The conflicts of all entries, each reported from its own side.
fn find_conflicts(
    entries: &Vec<Entry>,
    index: &IdMap,
    paths: &PathInterner,
) -> (conflicts: Vec<Conflict>)
    requires
        entries_known(entries@, paths@),
        indexes(index@, entries@),
    ensures
        conflicts@ == conflicts_upto(entries@, entries@.len() as int, paths@),
{
    let mut conflicts: Vec<Conflict> = Vec::new();
    let mut at: usize = 0;
    while at < entries.len()
        invariant
            at <= entries@.len(),
            entries_known(entries@, paths@),
            indexes(index@, entries@),
            conflicts@ == conflicts_upto(entries@, at as int, paths@),
        decreases entries@.len() - at,
    {
        let ghost start = conflicts@;
        assert(relocate_known(entries@[at as int].relocate, paths@));
        let source = entries[at].relocate.source;
        if let Some(target) = entries[at].relocate.target {
            if let Some(other) = find_entry(index, target, Ghost(entries@)) {
                conflicts.push(
                    Conflict { at, other, reason: RelocationConflict::TargetIsConflictSource },
                );
                conflicts.push(
                    Conflict {
                        at: other,
                        other: at,
                        reason: RelocationConflict::SourceIsConflictTarget,
                    },
                );
            }
            let upper = proper_ancestors(paths, target);
            push_conflicts_above(
                &mut conflicts,
                index,
                at,
                &upper,
                RelocationConflict::TargetIsConflictSourceDescendant,
                Ghost(entries@),
            );
        }
        let upper = proper_ancestors(paths, source);
        push_conflicts_above(
            &mut conflicts,
            index,
            at,
            &upper,
            RelocationConflict::SourceIsConflictSourceDescendant,
            Ghost(entries@),
        );
        assert(conflicts@ =~= start + entry_conflicts(entries@, at as int, paths@));
        at = at + 1;
    }
    conflicts
}

fn compare_conflicts(
    entries: &Vec<Entry>,
    paths: &PathInterner,
    tokens: &TokenInterner,
    a: &Conflict,
    b: &Conflict,
) -> (out: Order)
    requires
        entries_known(entries@, paths@),
        paths.named_by(tokens@),
        conflict_known(entries@, *a),
        conflict_known(entries@, *b),
    ensures
        out == order_conflicts(entries@, paths@, tokens@, *a, *b),
{
    assert(relocate_known(entries@[a.at as int].relocate, paths@));
    assert(relocate_known(entries@[b.at as int].relocate, paths@));
    assert(relocate_known(entries@[a.other as int].relocate, paths@));
    assert(relocate_known(entries@[b.other as int].relocate, paths@));
    compare_paths(
        paths,
        tokens,
        source_of_entry(entries, a.at),
        source_of_entry(entries, b.at),
    ).or(compare_usize(a.reason.rank() as usize, b.reason.rank() as usize)).or(
        compare_paths(
            paths,
            tokens,
            source_of_entry(entries, a.other),
            source_of_entry(entries, b.other),
        ),
    )
}

/// Sorts the conflicts and makes equal neighbours one.
fn sort_conflicts(
    entries: &Vec<Entry>,
    paths: &PathInterner,
    tokens: &TokenInterner,
    found: Vec<Conflict>,
) -> (conflicts: Vec<Conflict>)
    requires
        entries_known(entries@, paths@),
        paths.named_by(tokens@),
        found@ == conflicts_upto(entries@, entries@.len() as int, paths@),
    ensures
        conflicts@ == all_conflicts(entries@, paths@, tokens@),
{
    let mut sorted = found;
    let ghost unsorted = sorted@;
    proof {
        assert(entries@.len() == entries.len());
        lemma_conflicts_upto(entries@, entries@.len() as int, paths@);
    }
    let before = |a: &Conflict, b: &Conflict| -> (first: bool)
        requires
            conflict_known(entries@, *a),
            conflict_known(entries@, *b),
        ensures
            first == conflict_before(entries@, paths@, tokens@)(*a, *b),
    { compare_conflicts(entries, paths, tokens, a, b) == Order::Less };
    sort_stable(&mut sorted, before, Ghost(conflict_before(entries@, paths@, tokens@)));
    let mut out: Vec<Conflict> = Vec::new();
    let mut i: usize = 0;
    assert(sorted@.take(0) =~= seq![]);
    while i < sorted.len()
        invariant
            i <= sorted@.len(),
            out@ == without_repeats(sorted@.take(i as int)),
        decreases sorted@.len() - i,
    {
        assert(sorted@.take(i + 1).drop_last() =~= sorted@.take(i as int));
        if i == 0 || sorted[i] != sorted[i - 1] {
            out.push(sorted[i]);
        }
        i = i + 1;
        assert(out@ =~= without_repeats(sorted@.take(i as int)));
    }
    assert(sorted@.take(i as int) =~= sorted@);
    out
}

/// Appends an error for each conflict.
fn report_conflicts(
    entries: &Vec<Entry>,
    conflicts: &Vec<Conflict>,
    errors: &mut Vec<CompositionError>,
)
    requires
        forall|k: int|
            0 <= k < conflicts@.len() ==> conflict_known(entries@, #[trigger] conflicts@[k]),
    ensures
        errors_view(final(errors)@) == errors_view(old(errors)@) + conflicts@.map_values(
            |c: Conflict| conflict_error(entries@, c),
        ),
{
    let ghost start = errors_view(errors@);
    let ghost reports = conflicts@.map_values(|c: Conflict| conflict_error(entries@, c));
    let mut i: usize = 0;
    assert(start + reports.take(0) =~= start);
    while i < conflicts.len()
        invariant
            i <= conflicts@.len(),
            forall|k: int|
                0 <= k < conflicts@.len() ==> conflict_known(entries@, #[trigger] conflicts@[k]),
            reports == conflicts@.map_values(|c: Conflict| conflict_error(entries@, c)),
            errors_view(errors@) == start + reports.take(i as int),
        decreases conflicts@.len() - i,
    {
        let ghost so_far = errors@;
        let conflict = conflicts[i];
        assert(conflict_known(entries@, conflicts@[i as int]));
        let entry = entries[conflict.at];
        let other = entries[conflict.other];
        let error = CompositionError::InvalidConflictingRelocation(
            InvalidConflictingRelocation {
                layer: entry.layer,
                source: entry.relocate.source,
                target: entry.relocate.target,
                conflict_layer: other.layer,
                conflict_source: other.relocate.source,
                conflict_target: other.relocate.target,
                reason: conflict.reason,
            },
        );
        errors.push(error);
        assert(errors_view(errors@) =~= errors_view(so_far).push(error.view()));
        i = i + 1;
        assert(errors_view(errors@) =~= start + reports.take(i as int));
    }
    assert(reports.take(i as int) =~= reports);
}

fn in_conflict(conflicts: &Vec<Conflict>, at: usize) -> (found: bool)
    ensures
        found == exists|k: int|
            0 <= k < conflicts@.len() && (#[trigger] conflicts@[k]).at == at,
{
    let mut i: usize = 0;
    while i < conflicts.len()
        invariant
            i <= conflicts@.len(),
            forall|k: int| 0 <= k < i ==> (#[trigger] conflicts@[k]).at != at,
        decreases conflicts@.len() - i,
    {
        if conflicts[i].at == at {
            return true;
        }
        i = i + 1;
    }
    false
}

// ── The table ───────────────────────────────────────────────────────────

/// Where a list of relocates moves a path: `None` where it is no source.
pub open spec fn moves_to(relocates: Seq<Relocate>, path: PathId) -> Option<Option<PathId>>
    decreases relocates.len(),
{
    if relocates.len() == 0 {
        None
    } else if relocates.last().source == path {
        Some(relocates.last().target)
    } else {
        moves_to(relocates.drop_last(), path)
    }
}

/// Which path a list of relocates moves to another one.
pub open spec fn moved_from(relocates: Seq<Relocate>, path: PathId) -> Option<PathId>
    decreases relocates.len(),
{
    if relocates.len() == 0 {
        None
    } else if relocates.last().target == Some(path) {
        Some(relocates.last().source)
    } else {
        moved_from(relocates.drop_last(), path)
    }
}

/// The first path of a list that is a source.
pub open spec fn first_source(relocates: Seq<Relocate>, list: Seq<PathId>) -> Option<PathId>
    decreases list.len(),
{
    if list.len() == 0 {
        None
    } else if moves_to(relocates, list[0]) is Some {
        Some(list[0])
    } else {
        first_source(relocates, list.drop_first())
    }
}

/// The valid relocates of one layer stack, in both directions.
#[derive(Debug)]
pub struct RelocationTable {
    relocates: Vec<Relocate>,
    /// Source → place (its target may be `None`: the source is removed).
    by_source: IdMap,
    /// Target → place, for relocates with a target.
    by_target: IdMap,
}

impl View for RelocationTable {
    type V = Seq<Relocate>;

    closed spec fn view(&self) -> Seq<Relocate> {
        self.relocates@
    }
}

impl Default for RelocationTable {
    fn default() -> (table: Self)
        ensures
            table@ == Seq::<Relocate>::empty(),
    {
        RelocationTable { relocates: Vec::new(), by_source: new_id_map(), by_target: new_id_map() }
    }
}

/// Whether a map leads from each source to the place that decides where it
/// moves.
spec fn sources_indexed(map: Map<usize, usize>, relocates: Seq<Relocate>) -> bool {
    forall|p: PathId|
        match #[trigger] moves_to(relocates, p) {
            Some(target) => map.dom().contains(p.index) && map[p.index] < relocates.len()
                && relocates[map[p.index] as int].target == target,
            None => !map.dom().contains(p.index),
        }
}

/// Whether a map leads from each target to the place that decides what moves
/// there.
spec fn targets_indexed(map: Map<usize, usize>, relocates: Seq<Relocate>) -> bool {
    forall|p: PathId|
        match #[trigger] moved_from(relocates, p) {
            Some(source) => map.dom().contains(p.index) && map[p.index] < relocates.len()
                && relocates[map[p.index] as int].source == source,
            None => !map.dom().contains(p.index),
        }
}

impl RelocationTable {
    #[verifier::type_invariant]
    spec fn indexed(&self) -> bool {
        &&& sources_indexed(self.by_source@, self.relocates@)
        &&& targets_indexed(self.by_target@, self.relocates@)
    }

    /// Computes the relocation table of a layer stack, whose layers are given
    /// strongest first, appending an error for each entry it ignores to
    /// `errors`.
    ///
    /// Errors are appended in a deterministic order: entries invalid on
    /// their own in gathering order, then shared targets by target path,
    /// then conflicts by source path, conflict reason and conflicting
    /// source path.
    pub fn compute(
        layers: &Vec<LayerRelocates>,
        paths: &PathInterner,
        tokens: &TokenInterner,
        errors: &mut Vec<CompositionError>,
    ) -> (table: Self)
        requires
            entries_known(authored_entries(layers@), paths@),
            paths.named_by(tokens@),
        ensures
            table@ == valid_relocates(authored_entries(layers@), paths@),
            errors_view(final(errors)@) == errors_view(old(errors)@) + relocation_errors(
                authored_entries(layers@),
                paths@,
                tokens@,
            ),
    {
        let ghost start = errors_view(errors@);
        let ghost authored = authored_entries(layers@);
        proof {
            lemma_first_entries(authored, paths@);
        }
        let (entries, index) = gather(layers, paths, errors);
        report_all_shared(&entries, paths, tokens, errors);
        let found = find_conflicts(&entries, &index, paths);
        let ghost unsorted = found@;
        let conflicts = sort_conflicts(&entries, paths, tokens, found);
        proof {
            let before = conflict_before(entries@, paths@, tokens@);
            lemma_stable_sorted(unsorted, before);
            lemma_without_repeats(stable_sorted(unsorted, before));
            lemma_conflicts_upto(entries@, entries@.len() as int, paths@);
            assert forall|k: int| 0 <= k < conflicts@.len() implies conflict_known(
                entries@,
                #[trigger] conflicts@[k],
            ) by {
                assert(conflicts@.contains(conflicts@[k]));
                assert(stable_sorted(unsorted, before).contains(conflicts@[k]));
                assert(unsorted.contains(conflicts@[k]));
            }
        }
        report_conflicts(&entries, &conflicts, errors);
        proof {
            assert(errors_view(errors@) =~= start + relocation_errors(authored, paths@, tokens@));
        }
        let mut relocates: Vec<Relocate> = Vec::new();
        let mut at: usize = 0;
        while at < entries.len()
            invariant
                at <= entries@.len(),
                unsorted == conflicts_upto(entries@, entries@.len() as int, paths@),
                forall|c: Conflict| #[trigger] conflicts@.contains(c) <==> unsorted.contains(c),
                relocates@ == kept_relocates(entries@, at as int, paths@),
            decreases entries@.len() - at,
        {
            let shares = match entries[at].relocate.target {
                Some(target) => find_places(&entries, target).len() > 1,
                None => false,
            };
            let conflicting = in_conflict(&conflicts, at);
            proof {
                if conflicting {
                    let k = choose|k: int|
                        0 <= k < conflicts@.len() && (#[trigger] conflicts@[k]).at == at;
                    assert(conflicts@.contains(conflicts@[k]));
                    let j = choose|j: int| 0 <= j < unsorted.len() && unsorted[j] == conflicts@[k];
                    assert(unsorted[j].at == at);
                }
                if has_conflict(entries@, at as int, paths@) {
                    let j = choose|j: int|
                        0 <= j < unsorted.len() && (#[trigger] unsorted[j]).at == at;
                    assert(unsorted.contains(unsorted[j]));
                    assert(conflicts@.contains(unsorted[j]));
                    let k = choose|k: int| 0 <= k < conflicts@.len() && conflicts@[k] == unsorted[j];
                    assert(conflicts@[k].at == at);
                }
            }
            if !shares && !conflicting {
                relocates.push(entries[at].relocate);
            }
            at = at + 1;
        }
        Self::from_relocates(relocates)
    }

    /// The table of a list of relocates, a later one for the same source or
    /// target deciding.
    fn from_relocates(relocates: Vec<Relocate>) -> (table: Self)
        ensures
            table@ == relocates@,
    {
        let mut by_source = new_id_map();
        let mut by_target = new_id_map();
        let mut i: usize = 0;
        assert(relocates@.take(0) =~= seq![]);
        while i < relocates.len()
            invariant
                i <= relocates@.len(),
                sources_indexed(by_source@, relocates@.take(i as int)),
                targets_indexed(by_target@, relocates@.take(i as int)),
            decreases relocates@.len() - i,
        {
            let ghost some = relocates@.take(i as int);
            let ghost more = relocates@.take(i + 1);
            let ghost sources = by_source@;
            let ghost targets = by_target@;
            assert(more.drop_last() =~= some);
            let relocate = relocates[i];
            let _ = insert_id(&mut by_source, relocate.source.index, i);
            if let Some(target) = relocate.target {
                let _ = insert_id(&mut by_target, target.index, i);
            }
            proof {
                assert forall|p: PathId|
                    match #[trigger] moves_to(more, p) {
                        Some(target) => by_source@.dom().contains(p.index) && by_source@[p.index]
                            < more.len() && more[by_source@[p.index] as int].target == target,
                        None => !by_source@.dom().contains(p.index),
                    } by {
                    let was = moves_to(some, p);
                    if was is Some && p != relocate.source {
                        assert(some[sources[p.index] as int] == more[sources[p.index] as int]);
                    }
                }
                assert forall|p: PathId|
                    match #[trigger] moved_from(more, p) {
                        Some(source) => by_target@.dom().contains(p.index) && by_target@[p.index]
                            < more.len() && more[by_target@[p.index] as int].source == source,
                        None => !by_target@.dom().contains(p.index),
                    } by {
                    let was = moved_from(some, p);
                    if was is Some && relocate.target != Some(p) {
                        assert(some[targets[p.index] as int] == more[targets[p.index] as int]);
                    }
                }
            }
            i = i + 1;
        }
        assert(relocates@.take(i as int) =~= relocates@);
        RelocationTable { relocates, by_source, by_target }
    }

    /// Returns `true` when the layer stack relocates nothing.
    #[must_use]
    pub fn is_empty(&self) -> (empty: bool)
        ensures
            empty == (self@.len() == 0),
    {
        self.relocates.len() == 0
    }

    /// Returns the number of valid relocates.
    #[must_use]
    pub fn len(&self) -> (len: usize)
        ensures
            len == self@.len(),
    {
        self.relocates.len()
    }

    /// The relocate whose source is `path`: `Some(Some(target))` when the
    /// prim moves to `target`, `Some(None)` when it is removed, and `None`
    /// when `path` is no relocation source.
    #[must_use]
    pub fn target_of(&self, path: PathId) -> (target: Option<Option<PathId>>)
        ensures
            target == moves_to(self@, path),
    {
        proof {
            use_type_invariant(self);
        }
        let ghost expected = moves_to(self@, path);
        match get_id(&self.by_source, path.index) {
            Some(at) => Some(self.relocates[at].target),
            None => None,
        }
    }

    /// The source of the relocate whose target is `path`, if any.
    #[must_use]
    pub fn source_of(&self, path: PathId) -> (source: Option<PathId>)
        ensures
            source == moved_from(self@, path),
    {
        proof {
            use_type_invariant(self);
        }
        let ghost expected = moved_from(self@, path);
        match get_id(&self.by_target, path.index) {
            Some(at) => Some(self.relocates[at].source),
            None => None,
        }
    }

    /// Every valid relocate.
    pub fn iter(&self) -> (list: Vec<Relocate>)
        ensures
            list@ == self@,
    {
        let list = self.relocates.clone();
        assert(list@ =~= self.relocates@);
        list
    }

    /// The relocation source at or above `path`, if any: the prim whose
    /// relocation moves `path` elsewhere, or removes it.
    ///
    /// Opinions a layer stack authors at or beneath a relocation source are
    /// not composed there.
    #[must_use]
    pub fn source_at_or_above(&self, paths: &PathInterner, path: PathId) -> (source: Option<PathId>)
        requires
            paths.has(path),
        ensures
            source == first_source(self@, seq![path] + ancestors_of(path, paths@)),
    {
        let ghost all = seq![path] + ancestors_of(path, paths@);
        proof {
            assert(all.drop_first() =~= ancestors_of(path, paths@));
            if self@.len() == 0 {
                lemma_no_source(self@, all);
            }
        }
        if self.is_empty() {
            return None;
        }
        if self.target_of(path).is_some() {
            return Some(path);
        }
        let upper = proper_ancestors(paths, path);
        let mut i: usize = 0;
        assert(upper@.skip(0) =~= upper@);
        while i < upper.len()
            invariant
                i <= upper@.len(),
                all == seq![path] + ancestors_of(path, paths@),
                first_source(self@, all) == first_source(self@, upper@.skip(i as int)),
            decreases upper@.len() - i,
        {
            assert(upper@.skip(i as int).drop_first() =~= upper@.skip(i + 1));
            if self.target_of(upper[i]).is_some() {
                return Some(upper[i]);
            }
            i = i + 1;
        }
        None
    }
}

proof fn lemma_no_source(relocates: Seq<Relocate>, list: Seq<PathId>)
    requires
        relocates.len() == 0,
    ensures
        first_source(relocates, list) is None,
    decreases list.len(),
{
    if list.len() > 0 {
        lemma_no_source(relocates, list.drop_first());
    }
}

/// Where no two relocates have one source or one target, the two directions of
/// a table are inverse.
pub proof fn law_directions_are_inverse(relocates: Seq<Relocate>, source: PathId, target: PathId)
    requires
        forall|i: int, j: int|
            0 <= i < j < relocates.len() ==> (#[trigger] relocates[i]).source != (
            #[trigger] relocates[j]).source && (relocates[i].target is Some ==> relocates[i].target
                != relocates[j].target),
    ensures
        moves_to(relocates, source) == Some(Some(target)) <==> moved_from(relocates, target)
            == Some(source),
    decreases relocates.len(),
{
    if relocates.len() > 0 {
        let rest = relocates.drop_last();
        let last = relocates.last();
        assert forall|i: int, j: int| 0 <= i < j < rest.len() implies (
        #[trigger] rest[i]).source != (#[trigger] rest[j]).source && (rest[i].target is Some
            ==> rest[i].target != rest[j].target) by {
            assert(rest[i] == relocates[i] && rest[j] == relocates[j]);
        }
        law_directions_are_inverse(rest, source, target);
        if last.source == source && moved_from(rest, target) == Some(source) {
            let k = lemma_moved_from(rest, target);
            assert(relocates[k].source != relocates[relocates.len() - 1].source);
        }
        if last.target == Some(target) && moves_to(rest, source) == Some(Some(target)) {
            let k = lemma_moves_to(rest, source);
            assert(relocates[k].target != relocates[relocates.len() - 1].target);
        }
    }
}

proof fn lemma_moves_to(relocates: Seq<Relocate>, path: PathId) -> (k: int)
    requires
        moves_to(relocates, path) is Some,
    ensures
        0 <= k < relocates.len(),
        relocates[k].source == path,
        Some(relocates[k].target) == moves_to(relocates, path),
    decreases relocates.len(),
{
    if relocates.last().source == path {
        relocates.len() - 1
    } else {
        lemma_moves_to(relocates.drop_last(), path)
    }
}

proof fn lemma_moved_from(relocates: Seq<Relocate>, path: PathId) -> (k: int)
    requires
        moved_from(relocates, path) is Some,
    ensures
        0 <= k < relocates.len(),
        relocates[k].target == Some(path),
        Some(relocates[k].source) == moved_from(relocates, path),
    decreases relocates.len(),
{
    if relocates.last().target == Some(path) {
        relocates.len() - 1
    } else {
        lemma_moved_from(relocates.drop_last(), path)
    }
}

// ── What is kept, and what is reported ──────────────────────────────────

/// What is wrong with a relocation by itself: a target that is its source, that
/// lies beneath its source or above it, or a source that is a root prim; and
/// nothing else.
pub proof fn law_what_is_wrong_with_a_relocation(relocate: Relocate, paths: Seq<Seq<TokenId>>)
    requires
        relocate_known(relocate, paths),
    ensures
        ({
            let source = paths[relocate.source.index as int];
            let fault = fault_of(relocate, paths);
            &&& fault is None <==> source.len() > 1 && (relocate.target matches Some(target)
                ==> target != relocate.source && !source.is_prefix_of(paths[target.index as int])
                && !paths[target.index as int].is_prefix_of(source))
            &&& relocate.target == Some(relocate.source) ==> fault == Some(
                InvalidRelocationReason::TargetIsSource,
            )
            &&& relocate.target matches Some(target) ==> target != relocate.source && lies_beneath(
                target,
                relocate.source,
                paths,
            ) ==> fault == Some(InvalidRelocationReason::TargetIsDescendant)
            &&& relocate.target matches Some(target) ==> target != relocate.source && lies_beneath(
                relocate.source,
                target,
                paths,
            ) ==> fault == Some(InvalidRelocationReason::TargetIsAncestor)
            &&& relocate.target is None && source.len() <= 1 ==> fault == Some(
                InvalidRelocationReason::RootPrimSource,
            )
        }),
{
    if let Some(target) = relocate.target {
        let source = paths[relocate.source.index as int];
        let other = paths[target.index as int];
        if source.is_prefix_of(other) && other.is_prefix_of(source) {
            assert(source =~= other);
        }
    }
}

proof fn lemma_authored_error(authored: Seq<Entry>, paths: Seq<Seq<TokenId>>, i: int)
    requires
        0 <= i < authored.len(),
        fault_of(authored[i].relocate, paths) is Some,
    ensures
        authored_errors(authored, paths).contains(
            ErrorView::InvalidAuthoredRelocation(
                InvalidAuthoredRelocation {
                    layer: authored[i].layer,
                    source: authored[i].relocate.source,
                    target: authored[i].relocate.target,
                    reason: fault_of(authored[i].relocate, paths)->0,
                },
            ),
        ),
    decreases authored.len(),
{
    let rest = authored.drop_last();
    let before = authored_errors(rest, paths);
    let out = authored_errors(authored, paths);
    let error = ErrorView::InvalidAuthoredRelocation(
        InvalidAuthoredRelocation {
            layer: authored[i].layer,
            source: authored[i].relocate.source,
            target: authored[i].relocate.target,
            reason: fault_of(authored[i].relocate, paths)->0,
        },
    );
    if i < rest.len() {
        assert(rest[i] == authored[i]);
        lemma_authored_error(rest, paths, i);
        let k = choose|k: int| 0 <= k < before.len() && before[k] == error;
        assert(out[k] == error);
    } else {
        assert(out[out.len() - 1] == error);
    }
}

/// Every relocation with a fault of its own is reported, with its layer, and the
/// reason.
pub proof fn law_faulty_relocations_are_reported(
    authored: Seq<Entry>,
    paths: Seq<Seq<TokenId>>,
    tokens: Seq<Seq<char>>,
    i: int,
    reason: InvalidRelocationReason,
)
    requires
        0 <= i < authored.len(),
        fault_of(authored[i].relocate, paths) == Some(reason),
    ensures
        relocation_errors(authored, paths, tokens).contains(
            ErrorView::InvalidAuthoredRelocation(
                InvalidAuthoredRelocation {
                    layer: authored[i].layer,
                    source: authored[i].relocate.source,
                    target: authored[i].relocate.target,
                    reason,
                },
            ),
        ),
{
    lemma_authored_error(authored, paths, i);
    let first = authored_errors(authored, paths);
    let all = relocation_errors(authored, paths, tokens);
    let error = ErrorView::InvalidAuthoredRelocation(
        InvalidAuthoredRelocation {
            layer: authored[i].layer,
            source: authored[i].relocate.source,
            target: authored[i].relocate.target,
            reason,
        },
    );
    let k = choose|k: int| 0 <= k < first.len() && first[k] == error;
    assert(all[k] == error);
}

/// Of the faultless relocations of a source the strongest counts, and no other.
pub proof fn law_the_strongest_relocation_of_a_source_counts(
    authored: Seq<Entry>,
    paths: Seq<Seq<TokenId>>,
    i: int,
)
    requires
        0 <= i < authored.len(),
        fault_of(authored[i].relocate, paths) is None,
        forall|k: int|
            0 <= k < i ==> (#[trigger] authored[k]).relocate.source != authored[i].relocate.source
                || fault_of(authored[k].relocate, paths) is Some,
    ensures
        first_entries(authored, paths).contains(authored[i]),
    decreases authored.len(),
{
    let rest = authored.drop_last();
    let before = first_entries(rest, paths);
    let out = first_entries(authored, paths);
    if i < rest.len() {
        assert(rest[i] == authored[i]);
        assert forall|k: int| 0 <= k < i implies (#[trigger] rest[k]).relocate.source
            != rest[i].relocate.source || fault_of(rest[k].relocate, paths) is Some by {
            assert(rest[k] == authored[k]);
        }
        law_the_strongest_relocation_of_a_source_counts(rest, paths, i);
        let k = choose|k: int| 0 <= k < before.len() && before[k] == authored[i];
        assert(out[k] == authored[i]);
    } else {
        lemma_entry_of(before, authored[i].relocate.source, 0);
        lemma_first_from(rest, paths);
        if entry_of(before, authored[i].relocate.source, 0) is Some {
            let at = entry_of(before, authored[i].relocate.source, 0)->0;
            assert(rest.contains(before[at]));
            let k = choose|k: int| 0 <= k < rest.len() && rest[k] == before[at];
            assert(authored[k] == before[at]);
        }
        assert(out[out.len() - 1] == authored[i]);
    }
}

proof fn lemma_first_from(authored: Seq<Entry>, paths: Seq<Seq<TokenId>>)
    ensures
        forall|k: int|
            0 <= k < first_entries(authored, paths).len() ==> authored.contains(
                #[trigger] first_entries(authored, paths)[k],
            ) && fault_of(first_entries(authored, paths)[k].relocate, paths) is None,
    decreases authored.len(),
{
    if authored.len() > 0 {
        let rest = authored.drop_last();
        lemma_first_from(rest, paths);
        let before = first_entries(rest, paths);
        let out = first_entries(authored, paths);
        assert forall|k: int| 0 <= k < out.len() implies authored.contains(#[trigger] out[k])
            && fault_of(out[k].relocate, paths) is None by {
            if k < before.len() {
                assert(out[k] == before[k]);
                let m = choose|m: int| 0 <= m < rest.len() && rest[m] == before[k];
                assert(authored[m] == out[k]);
            } else {
                assert(authored[authored.len() - 1] == out[k]);
            }
        }
    }
}

proof fn lemma_is_kept(entries: Seq<Entry>, n: int, paths: Seq<Seq<TokenId>>, i: int)
    requires
        0 <= i < n <= entries.len(),
        !is_ignored(entries, i, paths),
    ensures
        kept_relocates(entries, n, paths).contains(entries[i].relocate),
    decreases n,
{
    let out = kept_relocates(entries, n, paths);
    if i < n - 1 {
        lemma_is_kept(entries, n - 1, paths, i);
        let before = kept_relocates(entries, n - 1, paths);
        let k = choose|k: int| 0 <= k < before.len() && before[k] == entries[i].relocate;
        assert(out[k] == entries[i].relocate);
    } else {
        assert(out[out.len() - 1] == entries[i].relocate);
    }
}

proof fn lemma_places_few(entries: Seq<Entry>, target: PathId, n: int, i: int)
    requires
        0 <= n <= entries.len(),
        forall|k: int|
            0 <= k < n && k != i ==> (#[trigger] entries[k]).relocate.target != Some(target),
    ensures
        places_of(entries, target, n).len() <= 1,
        n <= i ==> places_of(entries, target, n).len() == 0,
    decreases n,
{
    if n > 0 {
        lemma_places_few(entries, target, n - 1, i);
    }
}

proof fn lemma_above(path: Seq<TokenId>, depth: int, paths: Seq<Seq<TokenId>>)
    requires
        paths.len() <= usize::MAX,
        0 <= depth < path.len(),
    ensures
        forall|k: int|
            0 <= k < ancestors_upto(path, depth, paths).len() ==> ({
                let upper = #[trigger] ancestors_upto(path, depth, paths)[k];
                &&& upper.index < paths.len()
                &&& paths[upper.index as int].len() < path.len()
                &&& paths[upper.index as int].is_prefix_of(path)
            }),
    decreases depth,
{
    if depth > 0 {
        lemma_above(path, depth - 1, paths);
        let at = crate::interner::first_position(paths, path.take(depth));
        crate::interner::lemma_first_position(paths, path.take(depth));
        let upper = ancestors_upto(path, depth - 1, paths);
        let out = ancestors_upto(path, depth, paths);
        assert forall|k: int| 0 <= k < out.len() implies ({
            let one = #[trigger] out[k];
            &&& one.index < paths.len()
            &&& paths[one.index as int].len() < path.len()
            &&& paths[one.index as int].is_prefix_of(path)
        }) by {
            if at < paths.len() {
                if k > 0 {
                    assert(out[k] == upper[k - 1]);
                } else {
                    assert(paths[at] == path.take(depth));
                }
            } else {
                assert(out[k] == upper[k]);
            }
        }
    }
}

proof fn lemma_no_conflicts_above(
    entries: Seq<Entry>,
    at: int,
    upper: Seq<PathId>,
    reason: RelocationConflict,
)
    requires
        forall|k: int, e: int|
            0 <= k < upper.len() && 0 <= e < entries.len() ==> (#[trigger] entries[e]).relocate.source
                != #[trigger] upper[k],
    ensures
        conflicts_above(entries, at, upper, reason).len() == 0,
    decreases upper.len(),
{
    if upper.len() > 0 {
        let rest = upper.drop_last();
        assert forall|k: int, e: int| 0 <= k < rest.len() && 0 <= e < entries.len() implies (
        #[trigger] entries[e]).relocate.source != #[trigger] rest[k] by {
            assert(rest[k] == upper[k]);
        }
        lemma_no_conflicts_above(entries, at, rest, reason);
        lemma_entry_of(entries, upper.last(), 0);
        assert(upper[upper.len() - 1] == upper.last());
    }
}

/// Whether two relocations are free of each other: no end of one is the source
/// of the other, lies beneath it, or is the other's target.
pub open spec fn are_free(a: Relocate, b: Relocate, paths: Seq<Seq<TokenId>>) -> bool {
    &&& !lies_beneath(a.source, b.source, paths)
    &&& a.target matches Some(target) ==> target != b.source && !lies_beneath(
        target,
        b.source,
        paths,
    ) && b.target != Some(target)
}

proof fn lemma_conflicts_at(entries: Seq<Entry>, n: int, paths: Seq<Seq<TokenId>>, i: int)
    requires
        paths.len() <= usize::MAX,
        entries.len() <= usize::MAX,
        entries_known(entries, paths),
        0 <= n <= entries.len(),
        0 <= i < entries.len(),
        forall|k: int|
            0 <= k < entries.len() ==> are_free(
                entries[i].relocate,
                (#[trigger] entries[k]).relocate,
                paths,
            ) && are_free(entries[k].relocate, entries[i].relocate, paths) || k == i,
        fault_of(entries[i].relocate, paths) is None,
    ensures
        forall|k: int|
            0 <= k < conflicts_upto(entries, n, paths).len() ==> (#[trigger] conflicts_upto(
                entries,
                n,
                paths,
            )[k]).at != i,
    decreases n,
{
    if n > 0 {
        lemma_conflicts_at(entries, n - 1, paths, i);
        let own = entry_conflicts(entries, n - 1, paths);
        let before = conflicts_upto(entries, n - 1, paths);
        let out = conflicts_upto(entries, n, paths);
        lemma_own_conflicts(entries, n - 1, paths, i);
        assert forall|k: int| 0 <= k < out.len() implies (#[trigger] out[k]).at != i by {
            if k < before.len() {
                assert(out[k] == before[k]);
            } else {
                assert(out[k] == own[k - before.len()]);
            }
        }
    }
}

proof fn lemma_conflicts_above_at(
    entries: Seq<Entry>,
    at: int,
    upper: Seq<PathId>,
    reason: RelocationConflict,
)
    requires
        0 <= at < entries.len() <= usize::MAX,
    ensures
        forall|k: int|
            0 <= k < conflicts_above(entries, at, upper, reason).len() ==> (
            #[trigger] conflicts_above(entries, at, upper, reason)[k]).at == at,
    decreases upper.len(),
{
    if upper.len() > 0 {
        lemma_conflicts_above_at(entries, at, upper.drop_last(), reason);
    }
}

proof fn lemma_own_conflicts(entries: Seq<Entry>, at: int, paths: Seq<Seq<TokenId>>, i: int)
    requires
        paths.len() <= usize::MAX,
        entries.len() <= usize::MAX,
        entries_known(entries, paths),
        0 <= at < entries.len(),
        0 <= i < entries.len(),
        forall|k: int|
            0 <= k < entries.len() ==> are_free(
                entries[i].relocate,
                (#[trigger] entries[k]).relocate,
                paths,
            ) && are_free(entries[k].relocate, entries[i].relocate, paths) || k == i,
        fault_of(entries[i].relocate, paths) is None,
    ensures
        forall|k: int|
            0 <= k < entry_conflicts(entries, at, paths).len() ==> (#[trigger] entry_conflicts(
                entries,
                at,
                paths,
            )[k]).at != i,
{
    let relocate = entries[at].relocate;
    assert(relocate_known(entries[at].relocate, paths));
    let by_source = conflicts_above(
        entries,
        at,
        ancestors_of(relocate.source, paths),
        RelocationConflict::SourceIsConflictSourceDescendant,
    );
    lemma_conflicts_above_at(
        entries,
        at,
        ancestors_of(relocate.source, paths),
        RelocationConflict::SourceIsConflictSourceDescendant,
    );
    if at == i {
        lemma_clear_above(entries, i, relocate.source, paths);
        lemma_no_conflicts_above(
            entries,
            at,
            ancestors_of(relocate.source, paths),
            RelocationConflict::SourceIsConflictSourceDescendant,
        );
    }
    if relocate.target is Some {
        let target = relocate.target->0;
        let above = ancestors_of(target, paths);
        lemma_entry_of(entries, target, 0);
        lemma_conflicts_above_at(
            entries,
            at,
            above,
            RelocationConflict::TargetIsConflictSourceDescendant,
        );
        if at == i {
            lemma_clear_above(entries, i, target, paths);
            lemma_no_conflicts_above(
                entries,
                at,
                above,
                RelocationConflict::TargetIsConflictSourceDescendant,
            );
        }
        if entry_of(entries, target, 0) is Some {
            let other = entry_of(entries, target, 0)->0;
            if at == i {
                if other != i {
                    assert(are_free(entries[i].relocate, entries[other].relocate, paths));
                }
            } else if other == i {
                assert(are_free(entries[at].relocate, entries[i].relocate, paths));
            }
        }
    }
}

/// No relocation has its source above an end of a relocation that is free of
/// the others.
proof fn lemma_clear_above(entries: Seq<Entry>, i: int, end: PathId, paths: Seq<Seq<TokenId>>)
    requires
        paths.len() <= usize::MAX,
        entries_known(entries, paths),
        0 <= i < entries.len(),
        end == entries[i].relocate.source || entries[i].relocate.target == Some(end),
        forall|k: int|
            0 <= k < entries.len() ==> are_free(
                entries[i].relocate,
                (#[trigger] entries[k]).relocate,
                paths,
            ) && are_free(entries[k].relocate, entries[i].relocate, paths) || k == i,
        fault_of(entries[i].relocate, paths) is None,
    ensures
        forall|k: int, e: int|
            0 <= k < ancestors_of(end, paths).len() && 0 <= e < entries.len() ==> (
            #[trigger] entries[e]).relocate.source != #[trigger] ancestors_of(end, paths)[k],
{
    assert(relocate_known(entries[i].relocate, paths));
    let path = paths[end.index as int];
    let upper = ancestors_of(end, paths);
    if path.len() > 0 {
        lemma_above(path, path.len() - 1, paths);
        assert forall|k: int, e: int| 0 <= k < upper.len() && 0 <= e < entries.len() implies (
        #[trigger] entries[e]).relocate.source != #[trigger] upper[k] by {
            let one = upper[k];
            assert(paths[one.index as int].is_prefix_of(path));
            if entries[e].relocate.source == one {
                assert(lies_beneath(end, entries[e].relocate.source, paths));
                if e != i {
                    assert(are_free(entries[i].relocate, entries[e].relocate, paths));
                } else if end != entries[i].relocate.source {
                    assert(paths[entries[i].relocate.source.index as int].is_prefix_of(path));
                }
            }
        }
    }
}

/// A faultless relocation is kept where it is the strongest of its source and no
/// other relocation that counts meets it.
pub proof fn law_free_relocations_are_kept(authored: Seq<Entry>, paths: Seq<Seq<TokenId>>, i: int)
    requires
        paths.len() <= usize::MAX,
        authored.len() <= usize::MAX,
        entries_known(authored, paths),
        0 <= i < authored.len(),
        fault_of(authored[i].relocate, paths) is None,
        forall|k: int|
            0 <= k < authored.len() && k != i && fault_of((#[trigger] authored[k]).relocate, paths)
                is None ==> authored[k].relocate.source != authored[i].relocate.source && are_free(
                authored[i].relocate,
                authored[k].relocate,
                paths,
            ) && are_free(authored[k].relocate, authored[i].relocate, paths),
    ensures
        valid_relocates(authored, paths).contains(authored[i].relocate),
{
    law_the_strongest_relocation_of_a_source_counts(authored, paths, i);
    lemma_first_from(authored, paths);
    lemma_first_entries(authored, paths);
    let entries = first_entries(authored, paths);
    let at = choose|at: int| 0 <= at < entries.len() && entries[at] == authored[i];
    assert forall|k: int| 0 <= k < entries.len() implies are_free(
        entries[at].relocate,
        (#[trigger] entries[k]).relocate,
        paths,
    ) && are_free(entries[k].relocate, entries[at].relocate, paths) || k == at by {
        assert(authored.contains(entries[k]));
        let m = choose|m: int| 0 <= m < authored.len() && authored[m] == entries[k];
        if m == i && k != at {
            assert(sources_differ(entries));
            if k < at {
                assert(entries[k].relocate.source != entries[at].relocate.source);
            } else {
                assert(entries[at].relocate.source != entries[k].relocate.source);
            }
        }
    }
    lemma_conflicts_at(entries, entries.len() as int, paths, at);
    if entries[at].relocate.target is Some {
        let target = entries[at].relocate.target->0;
        assert forall|k: int| 0 <= k < entries.len() && k != at implies (
        #[trigger] entries[k]).relocate.target != Some(target) by {
            assert(are_free(entries[at].relocate, entries[k].relocate, paths));
        }
        lemma_places_few(entries, target, entries.len() as int, at);
    }
    lemma_is_kept(entries, entries.len() as int, paths, at);
}

/// A path moves to the target of the last relocation whose source it is, and
/// stays where it is no source.
pub proof fn law_paths_move_to_their_targets(relocates: Seq<Relocate>, path: PathId, i: int)
    ensures
        0 <= i < relocates.len() && relocates[i].source == path && (forall|k: int|
            i < k < relocates.len() ==> (#[trigger] relocates[k]).source != path) ==> moves_to(
            relocates,
            path,
        ) == Some(relocates[i].target),
        (forall|k: int| 0 <= k < relocates.len() ==> (#[trigger] relocates[k]).source != path)
            ==> moves_to(relocates, path) is None,
    decreases relocates.len(),
{
    if relocates.len() > 0 {
        let rest = relocates.drop_last();
        let n = relocates.len() - 1;
        law_paths_move_to_their_targets(rest, path, i);
        assert(relocates[n] == relocates.last());
        if 0 <= i < n && relocates[i].source == path && (forall|k: int|
            i < k < relocates.len() ==> (#[trigger] relocates[k]).source != path) {
            assert(rest[i] == relocates[i]);
            assert forall|k: int| i < k < rest.len() implies (#[trigger] rest[k]).source != path by {
                assert(rest[k] == relocates[k]);
            }
        }
        if forall|k: int| 0 <= k < relocates.len() ==> (#[trigger] relocates[k]).source != path {
            assert forall|k: int| 0 <= k < rest.len() implies (#[trigger] rest[k]).source != path by {
                assert(rest[k] == relocates[k]);
            }
        }
    }
}

} // verus!
