//! The parts that opinions play in a resolved value.

use crate::dictionary::{
    chain_view, combine_dictionary_chain, combined, holds_key, key_place, lemma_key_place, Entries,
};
use crate::doc::{entries_view, lemma_entries_view, Value, ValueView};
use crate::text::{copy_texts, same_text, text, texts};
use vstd::prelude::*;

verus! {

/// Why a consulted opinion did not contribute.
#[derive(Clone, Copy, Debug, PartialEq, Eq, Structural)]
pub enum IgnoreCause {
    /// A stronger opinion ended the fold first.
    Shadowed,
    /// A stronger block cut it off.
    CutOffByBlock,
    /// Its value is of another kind than the one resolved.
    Incompatible,
}

/// Keys from a dictionary's root down to one entry.
pub type KeyPath = Vec<String>;

/// How one dictionary combined with the others.
#[derive(Debug)]
pub struct DictionaryMerge {
    /// The entries that no stronger dictionary holds.
    pub supplied: Vec<KeyPath>,
    /// The nested dictionaries that combined with stronger ones.
    pub merged: Vec<KeyPath>,
    /// The entries that a stronger value won over.
    pub overridden: Vec<KeyPath>,
}

/// The mathematical value of a [`DictionaryMerge`].
#[verifier::ext_equal]
pub struct MergeView {
    pub supplied: Seq<Seq<Seq<char>>>,
    pub merged: Seq<Seq<Seq<char>>>,
    pub overridden: Seq<Seq<Seq<char>>>,
}

/// The texts of a list of key paths.
pub open spec fn key_paths(list: Seq<KeyPath>) -> Seq<Seq<Seq<char>>> {
    list.map_values(|path: KeyPath| texts(path@))
}

impl View for DictionaryMerge {
    type V = MergeView;

    open spec fn view(&self) -> MergeView {
        MergeView {
            supplied: key_paths(self.supplied@),
            merged: key_paths(self.merged@),
            overridden: key_paths(self.overridden@),
        }
    }
}

/// A dictionary without entries takes part in nothing.
pub open spec fn no_merge() -> MergeView {
    MergeView { supplied: seq![], merged: seq![], overridden: seq![] }
}

/// What a contributing opinion contributed.
#[derive(Debug)]
pub enum Contribution {
    /// A dense value.
    Value,
    /// A sparse array edit, applied over the weaker value.
    ArrayEdit,
    /// A dictionary combined with the others.
    Dictionary(DictionaryMerge),
    /// A list edit, applied over the weaker list.
    ListEdit,
}

/// The mathematical value of a [`Contribution`].
pub enum ContributionView {
    Value,
    ArrayEdit,
    Dictionary(MergeView),
    ListEdit,
}

/// The part of an opinion in a resolved value.
#[derive(Debug)]
pub enum OpinionRole {
    /// It contributed to the value.
    Contributed(Contribution),
    /// It is a block in effect.
    Block,
    /// It was consulted but did not contribute.
    Ignored(IgnoreCause),
}

/// The mathematical value of an [`OpinionRole`].
pub enum RoleView {
    Contributed(ContributionView),
    Block,
    Ignored(IgnoreCause),
}

impl View for OpinionRole {
    type V = RoleView;

    open spec fn view(&self) -> RoleView {
        match self {
            OpinionRole::Contributed(Contribution::Value) => RoleView::Contributed(
                ContributionView::Value,
            ),
            OpinionRole::Contributed(Contribution::ArrayEdit) => RoleView::Contributed(
                ContributionView::ArrayEdit,
            ),
            OpinionRole::Contributed(Contribution::Dictionary(merge)) => RoleView::Contributed(
                ContributionView::Dictionary(merge@),
            ),
            OpinionRole::Contributed(Contribution::ListEdit) => RoleView::Contributed(
                ContributionView::ListEdit,
            ),
            OpinionRole::Block => RoleView::Block,
            OpinionRole::Ignored(cause) => RoleView::Ignored(*cause),
        }
    }
}

/// The view of an optional role.
pub open spec fn role_option(role: Option<OpinionRole>) -> Option<RoleView> {
    match role {
        Some(role) => Some(role@),
        None => None,
    }
}

/// The roles of a list, one for each opinion that was consulted.
pub open spec fn roles_view(roles: Seq<Option<OpinionRole>>) -> Seq<Option<RoleView>> {
    roles.map_values(|r: Option<OpinionRole>| role_option(r))
}

/// No opinion was consulted.
pub open spec fn no_roles(count: nat) -> Seq<Option<RoleView>> {
    Seq::new(count, |i: int| None)
}

/// Starts with no opinion consulted.
pub fn new_roles(count: usize) -> (roles: Vec<Option<OpinionRole>>)
    ensures
        roles_view(roles@) == no_roles(count as nat),
        roles@.len() == count,
{
    let mut roles: Vec<Option<OpinionRole>> = Vec::new();
    let mut i: usize = 0;
    while i < count
        invariant
            i <= count,
            roles@.len() == i,
            forall|k: int| 0 <= k < i ==> (#[trigger] roles@[k]) is None,
        decreases count - i,
    {
        roles.push(None);
        i = i + 1;
    }
    assert(roles_view(roles@) =~= no_roles(count as nat));
    roles
}

/// Sets the role of an opinion.
pub fn set_role(roles: &mut Vec<Option<OpinionRole>>, at: usize, role: OpinionRole)
    requires
        at < old(roles)@.len(),
    ensures
        roles_view(final(roles)@) == roles_view(old(roles)@).update(at as int, Some(role@)),
        final(roles)@.len() == old(roles)@.len(),
{
    let ghost before = roles@;
    roles.set(at, Some(role));
    assert(roles_view(roles@) =~= roles_view(before).update(at as int, Some(role@)));
}

// ── Ordered chains ──────────────────────────────────────────────────────

/// What a member of an ordered chain is.
#[derive(Clone, Copy, Debug, PartialEq, Eq, Structural)]
pub enum ChainKind {
    /// A value.
    Plain,
    Block,
    /// A list edit.
    Edit,
    /// A list edit that replaces what is weaker.
    Replacement,
    Dictionary,
}

/// What became of a member of an ordered chain.
#[derive(Clone, Copy, Debug, PartialEq, Eq, Structural)]
pub enum ChainEvent {
    Contributed,
    StoppedByBlock,
    WeakerThanSet,
    WeakerThanBlock,
    WeakerThanReplacement,
    Incompatible,
}

/// The member before `i` that ends a chain, if there is one: a block, or,
/// where lists are chained, a replacement.
pub open spec fn ended_before(kinds: Seq<ChainKind>, i: int, lists: bool) -> Option<ChainKind>
    decreases i,
{
    if i <= 0 {
        None
    } else {
        match ended_before(kinds, i - 1, lists) {
            Some(kind) => Some(kind),
            None => if kinds[i - 1] == ChainKind::Block || (lists && kinds[i - 1]
                == ChainKind::Replacement) {
                Some(kinds[i - 1])
            } else {
                None
            },
        }
    }
}

/// Whether a member is of the kind that the strongest one selects.
pub open spec fn same_family(strongest: ChainKind, kind: ChainKind) -> bool {
    match strongest {
        ChainKind::Dictionary => kind == ChainKind::Dictionary,
        _ => kind == ChainKind::Edit || kind == ChainKind::Replacement,
    }
}

/// What becomes of the member at `i`, of a chain ordered strongest first. A
/// strongest value or block hides all weaker members. A strongest list or
/// dictionary composes with the weaker members of its kind, to the first block
/// or, for lists, to the first replacement.
pub open spec fn event_at(kinds: Seq<ChainKind>, i: int) -> ChainEvent {
    match kinds[0] {
        ChainKind::Block => if i == 0 {
            ChainEvent::StoppedByBlock
        } else {
            ChainEvent::WeakerThanBlock
        },
        ChainKind::Plain => if i == 0 {
            ChainEvent::Contributed
        } else {
            ChainEvent::WeakerThanSet
        },
        strongest => match ended_before(kinds, i, strongest != ChainKind::Dictionary) {
            Some(ChainKind::Block) => ChainEvent::WeakerThanBlock,
            Some(_) => ChainEvent::WeakerThanReplacement,
            None => if same_family(strongest, kinds[i]) {
                ChainEvent::Contributed
            } else if kinds[i] == ChainKind::Block {
                ChainEvent::StoppedByBlock
            } else {
                ChainEvent::Incompatible
            },
        },
    }
}

/// What becomes of the members of a chain.
pub open spec fn chain_events(kinds: Seq<ChainKind>) -> Seq<ChainEvent> {
    Seq::new(kinds.len(), |i: int| event_at(kinds, i))
}

/// `opinionated::resolve_ordered_chain_report` reports, of each member of a
/// chain ordered strongest first, one event, in order. A strongest value or
/// block hides all weaker members; a strongest list or dictionary composes
/// with the weaker members of its kind, others being incompatible, to the
/// first block or, for lists, to the first explicit list.
#[verifier::external_body]
fn report_ordered_chain(kinds: &Vec<ChainKind>) -> (events: Vec<ChainEvent>)
    ensures
        events@ == chain_events(kinds@),
{
    let ops: Vec<opinionated::OpinionOp<(), u8, u8>> = kinds.iter().map(outside_kind).collect();
    let chain = ops.iter().map(|op| opinionated::ChainOpinion { op, provenance: &() });
    let report = opinionated::resolve_ordered_chain_report(chain);
    report.events.into_iter().map(own_event).collect()
}

/// The operations of ordered chains.
#[verifier::external_type_specification]
#[verifier::external_body]
#[verifier::reject_recursive_types(V)]
#[verifier::reject_recursive_types(E)]
#[verifier::reject_recursive_types(K)]
pub struct ExOpinionOp<V, E, K>(opinionated::OpinionOp<V, E, K>);

/// The events of ordered chains.
#[verifier::external_type_specification]
#[verifier::external_body]
#[verifier::reject_recursive_types(P)]
pub struct ExResolutionEvent<P>(opinionated::ResolutionEvent<P>);

/// An `opinionated::OpinionOp` of a kind, which holds nothing. Nothing is
/// claimed of it: it is only handed to [`report_ordered_chain`].
#[verifier::external_body]
fn outside_kind(kind: &ChainKind) -> opinionated::OpinionOp<(), u8, u8> {
    let none = opinionated::ListOp::default();
    match kind {
        ChainKind::Plain => opinionated::OpinionOp::Set(()),
        ChainKind::Block => opinionated::OpinionOp::Block,
        ChainKind::Edit => opinionated::OpinionOp::List(none),
        ChainKind::Replacement => opinionated::OpinionOp::List(
            opinionated::ListOp { explicit: Some(Vec::new()), ..none },
        ),
        ChainKind::Dictionary => opinionated::OpinionOp::Dictionary(Vec::new()),
    }
}

/// The event that an `opinionated::ResolutionEvent` stands for. Nothing is
/// claimed of it: it is only called in [`report_ordered_chain`].
#[verifier::external_body]
fn own_event(event: opinionated::ResolutionEvent<()>) -> ChainEvent {
    match event {
        opinionated::ResolutionEvent::Contributed { .. } => ChainEvent::Contributed,
        opinionated::ResolutionEvent::StoppedByBlock { .. } => ChainEvent::StoppedByBlock,
        opinionated::ResolutionEvent::Ignored { reason, .. } => match reason {
            opinionated::IgnoreReason::WeakerThanSet => ChainEvent::WeakerThanSet,
            opinionated::IgnoreReason::WeakerThanBlock => ChainEvent::WeakerThanBlock,
            opinionated::IgnoreReason::WeakerThanExplicit => ChainEvent::WeakerThanReplacement,
            _ => ChainEvent::Incompatible,
        },
    }
}

/// The role of a member of an ordered chain.
pub open spec fn chain_role_of(kind: ChainKind, event: ChainEvent) -> RoleView {
    match event {
        ChainEvent::Contributed => RoleView::Contributed(
            match kind {
                ChainKind::Edit => ContributionView::ListEdit,
                ChainKind::Replacement => ContributionView::ListEdit,
                ChainKind::Dictionary => ContributionView::Dictionary(no_merge()),
                _ => ContributionView::Value,
            },
        ),
        ChainEvent::StoppedByBlock => RoleView::Block,
        ChainEvent::WeakerThanSet => RoleView::Ignored(IgnoreCause::Shadowed),
        ChainEvent::WeakerThanReplacement => RoleView::Ignored(IgnoreCause::Shadowed),
        ChainEvent::WeakerThanBlock => RoleView::Ignored(IgnoreCause::CutOffByBlock),
        ChainEvent::Incompatible => RoleView::Ignored(IgnoreCause::Incompatible),
    }
}

/// The role of a member of an ordered chain.
fn chain_role(kind: ChainKind, event: ChainEvent) -> (role: OpinionRole)
    ensures
        role@ == chain_role_of(kind, event),
{
    match event {
        ChainEvent::Contributed => OpinionRole::Contributed(
            match kind {
                ChainKind::Edit => Contribution::ListEdit,
                ChainKind::Replacement => Contribution::ListEdit,
                ChainKind::Dictionary => {
                    let merge = DictionaryMerge {
                        supplied: Vec::new(),
                        merged: Vec::new(),
                        overridden: Vec::new(),
                    };
                    assert(merge@ =~= no_merge());
                    Contribution::Dictionary(merge)
                },
                ChainKind::Plain => Contribution::Value,
                ChainKind::Block => Contribution::Value,
            },
        ),
        ChainEvent::StoppedByBlock => OpinionRole::Block,
        ChainEvent::WeakerThanSet => OpinionRole::Ignored(IgnoreCause::Shadowed),
        ChainEvent::WeakerThanReplacement => OpinionRole::Ignored(IgnoreCause::Shadowed),
        ChainEvent::WeakerThanBlock => OpinionRole::Ignored(IgnoreCause::CutOffByBlock),
        ChainEvent::Incompatible => OpinionRole::Ignored(IgnoreCause::Incompatible),
    }
}

/// Roles, with those of the first `count` members of a chain at their places.
pub open spec fn chain_roles(
    roles: Seq<Option<RoleView>>,
    members: Seq<usize>,
    kinds: Seq<ChainKind>,
    count: int,
) -> Seq<Option<RoleView>>
    decreases count,
{
    if count <= 0 {
        roles
    } else {
        chain_roles(roles, members, kinds, count - 1).update(
            members[count - 1] as int,
            Some(chain_role_of(kinds[count - 1], event_at(kinds, count - 1))),
        )
    }
}

/// Records the roles of the members of an ordered chain.
pub fn apply_chain(
    roles: &mut Vec<Option<OpinionRole>>,
    members: &Vec<usize>,
    kinds: &Vec<ChainKind>,
)
    requires
        members@.len() == kinds@.len(),
        forall|i: int| 0 <= i < members@.len() ==> (#[trigger] members@[i]) < old(roles)@.len(),
    ensures
        roles_view(final(roles)@) == chain_roles(
            roles_view(old(roles)@),
            members@,
            kinds@,
            members@.len() as int,
        ),
        final(roles)@.len() == old(roles)@.len(),
{
    let ghost before = roles_view(roles@);
    let ghost count = roles@.len();
    let events = report_ordered_chain(kinds);
    let mut i: usize = 0;
    while i < members.len()
        invariant
            i <= members@.len() == kinds@.len(),
            events@ == chain_events(kinds@),
            roles@.len() == count,
            forall|k: int| 0 <= k < members@.len() ==> (#[trigger] members@[k]) < count,
            roles_view(roles@) == chain_roles(before, members@, kinds@, i as int),
        decreases members@.len() - i,
    {
        let role = chain_role(kinds[i], events[i]);
        set_role(roles, members[i], role);
        i = i + 1;
    }
}

// ── The strongest wins ──────────────────────────────────────────────────

/// The places of a list that are set.
pub open spec fn places_set(flags: Seq<bool>) -> Seq<usize>
    decreases flags.len(),
{
    if flags.len() == 0 {
        seq![]
    } else if flags.last() {
        places_set(flags.drop_last()).push((flags.len() - 1) as usize)
    } else {
        places_set(flags.drop_last())
    }
}

/// The places of a list that are set.
pub fn find_places(flags: &Vec<bool>) -> (places: Vec<usize>)
    ensures
        places@ == places_set(flags@),
        forall|i: int| 0 <= i < places@.len() ==> (#[trigger] places@[i]) < flags@.len(),
{
    let mut places: Vec<usize> = Vec::new();
    let mut i: usize = 0;
    assert(flags@.take(0) =~= seq![]);
    assert(places@ =~= seq![]);
    while i < flags.len()
        invariant
            i <= flags@.len(),
            places@ == places_set(flags@.take(i as int)),
            forall|k: int| 0 <= k < places@.len() ==> (#[trigger] places@[k]) < i,
        decreases flags@.len() - i,
    {
        proof {
            assert(flags@.take(i + 1).drop_last() =~= flags@.take(i as int));
            assert(flags@.take(i + 1).last() == flags@[i as int]);
        }
        if flags[i] {
            places.push(i);
        }
        i = i + 1;
    }
    assert(flags@.take(i as int) =~= flags@);
    places
}

/// The members of a chain in which the strongest wins.
pub open spec fn winning_kinds(count: nat, blocks: bool) -> Seq<ChainKind> {
    Seq::new(
        count,
        |i: int|
            if i == 0 && blocks {
                ChainKind::Block
            } else {
                ChainKind::Plain
            },
    )
}

/// Roles where the strongest of the opinions that are read wins, or blocks.
pub open spec fn strongest_wins(reads: Seq<bool>, blocks: bool) -> Seq<Option<RoleView>> {
    let members = places_set(reads);
    chain_roles(
        no_roles(reads.len()),
        members,
        winning_kinds(members.len(), blocks),
        members.len() as int,
    )
}

/// Records that the strongest of the opinions that are read wins, or blocks.
pub fn apply_strongest_wins(reads: &Vec<bool>, blocks: bool) -> (roles: Vec<Option<OpinionRole>>)
    ensures
        roles_view(roles@) == strongest_wins(reads@, blocks),
        roles@.len() == reads@.len(),
{
    let mut roles = new_roles(reads.len());
    let members = find_places(reads);
    let mut kinds: Vec<ChainKind> = Vec::new();
    let mut i: usize = 0;
    while i < members.len()
        invariant
            i <= members@.len(),
            kinds@ == winning_kinds(members@.len(), blocks).take(i as int),
        decreases members@.len() - i,
    {
        if i == 0 && blocks {
            kinds.push(ChainKind::Block);
        } else {
            kinds.push(ChainKind::Plain);
        }
        i = i + 1;
        assert(kinds@ =~= winning_kinds(members@.len(), blocks).take(i as int));
    }
    assert(winning_kinds(members@.len(), blocks).take(i as int) =~= winning_kinds(
        members@.len(),
        blocks,
    ));
    apply_chain(&mut roles, &members, &kinds);
    roles
}

// ── Dictionaries ────────────────────────────────────────────────────────

/// How the entries of a dictionary combine with a stronger one, below the keys
/// `prefix`.
pub open spec fn merging(
    before: MergeView,
    stronger: Entries,
    weaker: Entries,
    prefix: Seq<Seq<char>>,
) -> MergeView
    decreases weaker,
{
    if weaker.len() == 0 {
        before
    } else {
        let earlier = merging(before, stronger, weaker.drop_last(), prefix);
        let key = weaker.last().0;
        let path = prefix.push(key);
        let at = key_place(stronger, key, 0);
        if holds_key(weaker.drop_last(), key) {
            earlier
        } else if at < stronger.len() && stronger[at].0 == key {
            match (stronger[at].1, weaker.last().1) {
                (ValueView::Dictionary(a), ValueView::Dictionary(b)) => merging(
                    MergeView { merged: earlier.merged.push(path), ..earlier },
                    a,
                    b,
                    path,
                ),
                _ => MergeView { overridden: earlier.overridden.push(path), ..earlier },
            }
        } else {
            MergeView { supplied: earlier.supplied.push(path), ..earlier }
        }
    }
}

/// The place of the entry with a key, or the length.
fn find_key(entries: &Vec<(String, Value)>, key: &str) -> (at: usize)
    ensures
        at <= entries@.len(),
        ({
            let shown = entries_view(entries@);
            let place = key_place(shown, key@, 0);
            if place < shown.len() && shown[place].0 == key@ {
                at == place
            } else {
                at == shown.len()
            }
        }),
{
    let ghost shown = entries_view(entries@);
    proof {
        lemma_entries_view(entries@);
    }
    let mut i: usize = 0;
    while i < entries.len()
        invariant
            i <= entries@.len(),
            shown == entries_view(entries@),
            shown.len() == entries@.len(),
            forall|k: int|
                0 <= k < entries@.len() ==> #[trigger] shown[k] == (
                    entries@[k].0@,
                    entries@[k].1.view(),
                ),
            key_place(shown, key@, 0) == key_place(shown, key@, i as int),
        decreases entries@.len() - i,
    {
        assert(shown[i as int].0 == entries@[i as int].0@);
        match crate::order::compare_text(entries[i].0.as_str(), key) {
            crate::order::Order::Less => {},
            _ => {
                return if same_text(entries[i].0.as_str(), key) {
                    i
                } else {
                    entries.len()
                };
            },
        }
        i = i + 1;
    }
    i
}

/// Whether one of the first entries has a key.
fn key_among(entries: &Vec<(String, Value)>, count: usize, key: &str) -> (yes: bool)
    requires
        count <= entries@.len(),
    ensures
        yes == holds_key(entries_view(entries@).take(count as int), key@),
{
    let ghost shown = entries_view(entries@);
    proof {
        lemma_entries_view(entries@);
    }
    let ghost part = shown.take(count as int);
    let mut i: usize = 0;
    while i < count
        invariant
            i <= count <= entries@.len(),
            shown == entries_view(entries@),
            shown.len() == entries@.len(),
            part == shown.take(count as int),
            forall|k: int|
                0 <= k < entries@.len() ==> #[trigger] shown[k] == (
                    entries@[k].0@,
                    entries@[k].1.view(),
                ),
            forall|k: int| 0 <= k < i ==> (#[trigger] part[k]).0 != key@,
        decreases count - i,
    {
        assert(part[i as int] == shown[i as int]);
        assert(shown[i as int].0 == entries@[i as int].0@);
        if same_text(entries[i].0.as_str(), key) {
            return true;
        }
        i = i + 1;
    }
    false
}

/// The keys `prefix`, and one more.
fn key_path(prefix: &Vec<String>, key: &str) -> (path: KeyPath)
    ensures
        texts(path@) == texts(prefix@).push(key@),
{
    let mut path = copy_texts(prefix);
    let ghost had = path@;
    path.push(text(key));
    assert(texts(path@) =~= texts(had).push(key@));
    path
}

/// Records how the entries of a dictionary combine with a stronger one.
pub fn record_merge(
    merge: &mut DictionaryMerge,
    stronger: &Vec<(String, Value)>,
    weaker: &Vec<(String, Value)>,
    prefix: &Vec<String>,
)
    ensures
        final(merge)@ == merging(
            old(merge)@,
            entries_view(stronger@),
            entries_view(weaker@),
            texts(prefix@),
        ),
    decreases weaker,
{
    let ghost before = merge@;
    let ghost strong = entries_view(stronger@);
    let ghost weak = entries_view(weaker@);
    proof {
        lemma_entries_view(stronger@);
        lemma_entries_view(weaker@);
        assert(weak.take(0) =~= seq![]);
    }
    let mut i: usize = 0;
    while i < weaker.len()
        invariant
            i <= weaker@.len(),
            strong == entries_view(stronger@),
            weak == entries_view(weaker@),
            strong.len() == stronger@.len(),
            weak.len() == weaker@.len(),
            forall|k: int|
                0 <= k < stronger@.len() ==> #[trigger] strong[k] == (
                    stronger@[k].0@,
                    stronger@[k].1.view(),
                ),
            forall|k: int|
                0 <= k < weaker@.len() ==> #[trigger] weak[k] == (
                    weaker@[k].0@,
                    weaker@[k].1.view(),
                ),
            merge@ == merging(before, strong, weak.take(i as int), texts(prefix@)),
        decreases weaker@.len() - i,
    {
        let key = weaker[i].0.as_str();
        proof {
            assert(weak.take(i + 1).drop_last() =~= weak.take(i as int));
            assert(weak.take(i + 1).last() == weak[i as int]);
            lemma_key_place(strong, key@, 0);
        }
        if !key_among(weaker, i, key) {
            let path = key_path(prefix, key);
            let at = find_key(stronger, key);
            if at < stronger.len() {
                assert(strong[at as int].1 == stronger@[at as int].1.view());
                match (&stronger[at].1, &weaker[i].1) {
                    (Value::Dictionary(a), Value::Dictionary(b)) => {
                        let ghost had = merge.merged@;
                        let below = copy_texts(&path);
                        merge.merged.push(path);
                        proof {
                            assert(key_paths(merge.merged@) =~= key_paths(had).push(
                                texts(path@),
                            ));
                            assert(decreases_to!(weaker => weaker@[i as int].1));
                        }
                        record_merge(merge, a, b, &below);
                    },
                    _ => {
                        let ghost had = merge.overridden@;
                        merge.overridden.push(path);
                        assert(key_paths(merge.overridden@) =~= key_paths(had).push(texts(path@)));
                    },
                }
            } else {
                let ghost had = merge.supplied@;
                merge.supplied.push(path);
                assert(key_paths(merge.supplied@) =~= key_paths(had).push(texts(path@)));
            }
        }
        i = i + 1;
    }
    assert(weak.take(i as int) =~= weak);
}

/// How the dictionary at a place of a chain combines with the stronger ones.
pub open spec fn merge_at(chain: Seq<Entries>, at: int) -> MergeView {
    merging(no_merge(), combined(chain.take(at)), chain[at], seq![])
}

/// How the dictionary at a place of a chain combines with the stronger ones.
pub fn explain_merge(chain: &Vec<&Vec<(String, Value)>>, at: usize) -> (merge: DictionaryMerge)
    requires
        at < chain@.len(),
    ensures
        merge@ == merge_at(chain_view(chain@), at as int),
{
    let mut part: Vec<&Vec<(String, Value)>> = Vec::new();
    let mut i: usize = 0;
    while i < at
        invariant
            i <= at < chain@.len(),
            part@ == chain@.take(i as int),
        decreases at - i,
    {
        part.push(chain[i]);
        i = i + 1;
        assert(part@ =~= chain@.take(i as int));
    }
    let stronger = combine_dictionary_chain(&part);
    let mut merge = DictionaryMerge {
        supplied: Vec::new(),
        merged: Vec::new(),
        overridden: Vec::new(),
    };
    let prefix: Vec<String> = Vec::new();
    proof {
        assert(merge@ =~= no_merge());
        assert(texts(prefix@) =~= seq![]);
        assert(chain_view(part@) =~= chain_view(chain@).take(at as int));
        assert(chain_view(chain@)[at as int] == entries_view(chain@[at as int]@));
    }
    record_merge(&mut merge, &stronger, chain[at], &prefix);
    merge
}

// ── Laws ────────────────────────────────────────────────────────────────

/// The place of a set flag among those set: how many are set before it.
pub open spec fn set_before(flags: Seq<bool>, i: int) -> nat {
    places_set(flags.take(i)).len()
}

proof fn lemma_places_set(flags: Seq<bool>, i: int)
    requires
        flags.len() <= usize::MAX,
        0 <= i < flags.len(),
        flags[i],
    ensures
        set_before(flags, i) < places_set(flags).len(),
        places_set(flags)[set_before(flags, i) as int] == i,
    decreases flags.len(),
{
    let rest = flags.drop_last();
    if i < rest.len() {
        assert(rest.take(i) =~= flags.take(i));
        lemma_places_set(rest, i);
    } else {
        assert(rest =~= flags.take(i));
    }
}

proof fn lemma_places_ascend(flags: Seq<bool>)
    requires
        flags.len() <= usize::MAX,
    ensures
        forall|k: int|
            0 <= k < places_set(flags).len() ==> (#[trigger] places_set(flags)[k]) < flags.len()
                && flags[places_set(flags)[k] as int],
        forall|a: int, b: int|
            0 <= a < b < places_set(flags).len() ==> (#[trigger] places_set(flags)[a]) < (
            #[trigger] places_set(flags)[b]),
    decreases flags.len(),
{
    if flags.len() > 0 {
        let rest = flags.drop_last();
        lemma_places_ascend(rest);
        let all = places_set(flags);
        let part = places_set(rest);
        assert forall|k: int| 0 <= k < all.len() implies (#[trigger] all[k]) < flags.len()
            && flags[all[k] as int] by {
            if k < part.len() {
                assert(all[k] == part[k]);
                assert(rest[part[k] as int] == flags[part[k] as int]);
            }
        }
        assert forall|a: int, b: int| 0 <= a < b < all.len() implies (#[trigger] all[a]) < (
        #[trigger] all[b]) by {
            assert(all[a] == part[a]);
            if b < part.len() {
                assert(all[b] == part[b]);
            }
        }
    }
}

proof fn lemma_chain_roles(
    roles: Seq<Option<RoleView>>,
    members: Seq<usize>,
    kinds: Seq<ChainKind>,
    count: int,
)
    requires
        0 <= count <= members.len(),
        forall|k: int| 0 <= k < members.len() ==> (#[trigger] members[k]) < roles.len(),
        forall|a: int, b: int|
            0 <= a < b < members.len() ==> (#[trigger] members[a]) < (#[trigger] members[b]),
    ensures
        ({
            let out = chain_roles(roles, members, kinds, count);
            &&& out.len() == roles.len()
            &&& forall|k: int|
                0 <= k < count ==> out[(#[trigger] members[k]) as int] == Some(
                    chain_role_of(kinds[k], event_at(kinds, k)),
                )
            &&& forall|i: int|
                0 <= i < roles.len() && (forall|k: int|
                    0 <= k < count ==> (#[trigger] members[k]) != i) ==> #[trigger] out[i]
                    == roles[i]
        }),
    decreases count,
{
    if count > 0 {
        lemma_chain_roles(roles, members, kinds, count - 1);
        let before = chain_roles(roles, members, kinds, count - 1);
        let out = chain_roles(roles, members, kinds, count);
        assert forall|k: int| 0 <= k < count implies out[(#[trigger] members[k]) as int] == Some(
            chain_role_of(kinds[k], event_at(kinds, k)),
        ) by {
            if k < count - 1 {
                assert(members[k] < members[count - 1]);
            }
        }
        assert forall|i: int|
            0 <= i < roles.len() && (forall|k: int|
                0 <= k < count ==> (#[trigger] members[k]) != i) implies #[trigger] out[i]
            == roles[i] by {
            assert(members[count - 1] != i);
            assert(forall|k: int| 0 <= k < count - 1 ==> (#[trigger] members[k]) != i);
            assert(before[i] == roles[i]);
        }
    }
}

/// Where the strongest opinion wins, it contributes its value, or blocks; every
/// weaker opinion that is read is shadowed by it, or cut off; and an opinion
/// that is not read has no part.
pub proof fn law_strongest_wins(reads: Seq<bool>, blocks: bool, i: int)
    requires
        reads.len() <= usize::MAX,
        0 <= i < reads.len(),
    ensures
        strongest_wins(reads, blocks)[i] == (if !reads[i] {
            None
        } else if set_before(reads, i) == 0 {
            Some(
                if blocks {
                    RoleView::Block
                } else {
                    RoleView::Contributed(ContributionView::Value)
                },
            )
        } else {
            Some(
                RoleView::Ignored(
                    if blocks {
                        IgnoreCause::CutOffByBlock
                    } else {
                        IgnoreCause::Shadowed
                    },
                ),
            )
        }),
{
    let members = places_set(reads);
    let kinds = winning_kinds(members.len(), blocks);
    let none = no_roles(reads.len());
    lemma_places_ascend(reads);
    lemma_chain_roles(none, members, kinds, members.len() as int);
    if reads[i] {
        lemma_places_set(reads, i);
        let k = set_before(reads, i) as int;
        assert(members[k] == i);
        assert(kinds[0] == (if blocks {
            ChainKind::Block
        } else {
            ChainKind::Plain
        }));
    } else {
        assert forall|k: int| 0 <= k < members.len() implies (#[trigger] members[k]) != i by {
            assert(reads[members[k] as int]);
        }
    }
}

// ── What became of the members of a chain ───────────────────────────────

proof fn lemma_ended_before(kinds: Seq<ChainKind>, i: int, lists: bool, k: int)
    requires
        0 <= i <= kinds.len(),
    ensures
        0 <= k < i && (kinds[k] == ChainKind::Block || (lists && kinds[k]
            == ChainKind::Replacement)) && (forall|m: int|
            0 <= m < k ==> #[trigger] kinds[m] != ChainKind::Block && !(lists && kinds[m]
                == ChainKind::Replacement)) ==> ended_before(kinds, i, lists) == Some(kinds[k]),
        (forall|m: int|
            0 <= m < i ==> #[trigger] kinds[m] != ChainKind::Block && !(lists && kinds[m]
                == ChainKind::Replacement)) ==> ended_before(kinds, i, lists) is None,
    decreases i,
{
    if i > 0 {
        lemma_ended_before(kinds, i - 1, lists, k);
        if k == i - 1 && (forall|m: int|
            0 <= m < k ==> #[trigger] kinds[m] != ChainKind::Block && !(lists && kinds[m]
                == ChainKind::Replacement)) {
            lemma_ended_before(kinds, i - 1, lists, k);
        }
    }
}

/// In a chain whose strongest member is a value, that member contributes and the
/// rest is weaker than a set value; in one whose strongest is a block, the rest
/// is weaker than a block.
pub proof fn law_a_value_or_block_ends_its_chain(kinds: Seq<ChainKind>, i: int)
    requires
        0 <= i < kinds.len(),
    ensures
        kinds[0] == ChainKind::Plain ==> event_at(kinds, i) == (if i == 0 {
            ChainEvent::Contributed
        } else {
            ChainEvent::WeakerThanSet
        }),
        kinds[0] == ChainKind::Block ==> event_at(kinds, i) == (if i == 0 {
            ChainEvent::StoppedByBlock
        } else {
            ChainEvent::WeakerThanBlock
        }),
{
}

/// In a chain of list edits every edit contributes, up to the first replacement,
/// which contributes too, or the first block, which stops it; what is weaker
/// than either is left out for that reason.
pub proof fn law_list_edits_contribute_up_to_a_replacement(kinds: Seq<ChainKind>, i: int, k: int)
    requires
        0 <= i < kinds.len(),
        kinds[0] == ChainKind::Edit || kinds[0] == ChainKind::Replacement,
    ensures
        (forall|m: int|
            0 <= m < i ==> #[trigger] kinds[m] != ChainKind::Block && kinds[m]
                != ChainKind::Replacement) ==> event_at(kinds, i) == (match kinds[i] {
            ChainKind::Edit => ChainEvent::Contributed,
            ChainKind::Replacement => ChainEvent::Contributed,
            ChainKind::Block => ChainEvent::StoppedByBlock,
            _ => ChainEvent::Incompatible,
        }),
        0 <= k < i && (kinds[k] == ChainKind::Block || kinds[k] == ChainKind::Replacement) && (
        forall|m: int|
            0 <= m < k ==> #[trigger] kinds[m] != ChainKind::Block && kinds[m]
                != ChainKind::Replacement) ==> event_at(kinds, i) == (if kinds[k]
            == ChainKind::Block {
            ChainEvent::WeakerThanBlock
        } else {
            ChainEvent::WeakerThanReplacement
        }),
{
    lemma_ended_before(kinds, i, true, k);
}

/// In a chain of dictionaries every dictionary contributes, up to the first
/// block, which stops it; what is weaker is left out for that reason, and what
/// is no dictionary does not combine.
pub proof fn law_dictionaries_contribute_up_to_a_block(kinds: Seq<ChainKind>, i: int, k: int)
    requires
        0 <= i < kinds.len(),
        kinds[0] == ChainKind::Dictionary,
    ensures
        (forall|m: int| 0 <= m < i ==> #[trigger] kinds[m] != ChainKind::Block) ==> event_at(
            kinds,
            i,
        ) == (match kinds[i] {
            ChainKind::Dictionary => ChainEvent::Contributed,
            ChainKind::Block => ChainEvent::StoppedByBlock,
            _ => ChainEvent::Incompatible,
        }),
        0 <= k < i && kinds[k] == ChainKind::Block && (forall|m: int|
            0 <= m < k ==> #[trigger] kinds[m] != ChainKind::Block) ==> event_at(kinds, i)
            == ChainEvent::WeakerThanBlock,
{
    lemma_ended_before(kinds, i, false, k);
}

/// What an event says of a member: that it contributed, as its kind does; that
/// it is a block; or why it is left out.
pub proof fn law_events_say_what_became_of_a_member(kind: ChainKind)
    ensures
        chain_role_of(kind, ChainEvent::Contributed) matches RoleView::Contributed(given) && (
        match kind {
            ChainKind::Edit => given is ListEdit,
            ChainKind::Replacement => given is ListEdit,
            ChainKind::Dictionary => given is Dictionary,
            _ => given is Value,
        }),
        chain_role_of(kind, ChainEvent::StoppedByBlock) == RoleView::Block,
        chain_role_of(kind, ChainEvent::WeakerThanSet) == RoleView::Ignored(IgnoreCause::Shadowed),
        chain_role_of(kind, ChainEvent::WeakerThanReplacement) == RoleView::Ignored(
            IgnoreCause::Shadowed,
        ),
        chain_role_of(kind, ChainEvent::WeakerThanBlock) == RoleView::Ignored(
            IgnoreCause::CutOffByBlock,
        ),
        chain_role_of(kind, ChainEvent::Incompatible) == RoleView::Ignored(
            IgnoreCause::Incompatible,
        ),
{
}

} // verus!
