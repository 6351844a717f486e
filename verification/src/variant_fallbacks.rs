//! Variant fallback selections.
//!
//! A variant set without an authored selection contributes nothing. A stage
//! may name fallbacks instead: for each variant set, an ordered list of
//! variants. Where composition finds no selection for a set, the first
//! fallback that names a variant of the set at the prim is selected.

use crate::fields::{lemma_place_of, lemma_place_of_unique, named, place_of};
use crate::id_map::{first_places, get_id, index_first, IdMap};
use crate::interner::TokenId;
use vstd::prelude::*;

verus! {

/// The variants to select for each variant set, in order of preference, where
/// no selection is authored.
pub type VariantFallbacks = Vec<(TokenId, Vec<TokenId>)>;

/// A variant of a prim spec.
#[derive(Debug)]
pub struct VariantBranch {
    pub set: TokenId,
    pub variant: TokenId,
    /// The selections that are authored inside the branch, with their
    /// expressions evaluated.
    pub selections: Vec<(TokenId, TokenId)>,
}

/// What a prim spec says of variants.
#[derive(Debug)]
pub struct VariantSpecs {
    /// The variant sets, in the order the spec declares them.
    pub set_order: Vec<TokenId>,
    pub branches: Vec<VariantBranch>,
}

/// The mathematical value of a [`VariantBranch`].
pub type BranchView = ((TokenId, TokenId), Seq<(TokenId, TokenId)>);

/// The mathematical value of a [`VariantSpecs`].
#[verifier::ext_equal]
pub struct VariantsView {
    pub set_order: Seq<TokenId>,
    /// The selections inside the branch of each set and variant.
    pub branches: Seq<((TokenId, TokenId), Seq<(TokenId, TokenId)>)>,
}

/// The branches of a list.
pub open spec fn branches_view(branches: Seq<VariantBranch>) -> Seq<
    ((TokenId, TokenId), Seq<(TokenId, TokenId)>),
> {
    branches.map_values(|b: VariantBranch| ((b.set, b.variant), b.selections@))
}

impl View for VariantSpecs {
    type V = VariantsView;

    open spec fn view(&self) -> VariantsView {
        VariantsView { set_order: self.set_order@, branches: branches_view(self.branches@) }
    }
}

/// The values of a list of specs.
pub open spec fn variants_view(specs: Seq<VariantSpecs>) -> Seq<VariantsView> {
    specs.map_values(|s: VariantSpecs| s@)
}

/// The values of a table of fallbacks.
pub open spec fn fallbacks_view(fallbacks: Seq<(TokenId, Vec<TokenId>)>) -> Seq<
    (TokenId, Seq<TokenId>),
> {
    fallbacks.map_values(|f: (TokenId, Vec<TokenId>)| (f.0, f.1@))
}

/// The variant sets that specs declare, in order.
pub open spec fn declared_sets(specs: Seq<VariantsView>) -> Seq<TokenId>
    decreases specs.len(),
{
    if specs.len() == 0 {
        seq![]
    } else {
        declared_sets(specs.drop_last()) + specs.last().set_order
    }
}

/// Whether a spec has a variant of a set.
pub open spec fn has_variant(specs: Seq<VariantsView>, set: TokenId, variant: TokenId) -> bool {
    exists|i: int|
        0 <= i < specs.len() && named((#[trigger] specs[i]).branches, (set, variant)) is Some
}

/// The first of a list of variants that a spec has.
pub open spec fn first_variant(
    specs: Seq<VariantsView>,
    set: TokenId,
    variants: Seq<TokenId>,
) -> Option<TokenId>
    decreases variants.len(),
{
    if variants.len() == 0 {
        None
    } else {
        match first_variant(specs, set, variants.drop_last()) {
            Some(variant) => Some(variant),
            None => if has_variant(specs, set, variants.last()) {
                Some(variants.last())
            } else {
                None
            },
        }
    }
}

/// Selections, with those of branches still to be followed.
pub struct Selecting {
    pub selections: Seq<(TokenId, TokenId)>,
    pub pending: Seq<(TokenId, TokenId)>,
}

/// Adding a selection, unless its set has one.
pub open spec fn entered(before: Selecting, selection: (TokenId, TokenId)) -> Selecting {
    if named(before.selections, selection.0) is Some {
        before
    } else {
        Selecting {
            selections: before.selections.push(selection),
            pending: before.pending.push(selection),
        }
    }
}

/// Adding the selections of a list.
pub open spec fn all_entered(before: Selecting, list: Seq<(TokenId, TokenId)>) -> Selecting
    decreases list.len(),
{
    if list.len() == 0 {
        before
    } else {
        entered(all_entered(before, list.drop_last()), list.last())
    }
}

/// Adding the selections inside the branches of a selection.
pub open spec fn branches_entered(
    before: Selecting,
    specs: Seq<VariantsView>,
    selection: (TokenId, TokenId),
) -> Selecting
    decreases specs.len(),
{
    if specs.len() == 0 {
        before
    } else {
        let earlier = branches_entered(before, specs.drop_last(), selection);
        match named(specs.last().branches, selection) {
            Some(inner) => all_entered(earlier, inner),
            None => earlier,
        }
    }
}

/// The inner selections of the branches of a spec, one after another.
pub open spec fn branch_sets(branches: Seq<((TokenId, TokenId), Seq<(TokenId, TokenId)>)>) -> Seq<
    TokenId,
>
    decreases branches.len(),
{
    if branches.len() == 0 {
        seq![]
    } else {
        branch_sets(branches.drop_last()) + branches.last().1.map_values(
            |s: (TokenId, TokenId)| s.0,
        )
    }
}

/// The sets of the inner selections of specs, one after another.
pub open spec fn named_sets(specs: Seq<VariantsView>) -> Seq<TokenId>
    decreases specs.len(),
{
    if specs.len() == 0 {
        seq![]
    } else {
        named_sets(specs.drop_last()) + branch_sets(specs.last().branches)
    }
}

/// How many places of a list name a set without a selection.
pub open spec fn unselected(sets: Seq<TokenId>, selections: Seq<(TokenId, TokenId)>) -> nat
    decreases sets.len(),
{
    if sets.len() == 0 {
        0
    } else {
        unselected(sets.drop_last(), selections) + if named(selections, sets.last()) is Some {
            0nat
        } else {
            1nat
        }
    }
}

proof fn lemma_named_push(
    selections: Seq<(TokenId, TokenId)>,
    selection: (TokenId, TokenId),
    set: TokenId,
)
    ensures
        named(selections.push(selection), set) is Some <==> named(selections, set) is Some || set
            == selection.0,
{
    let after = selections.push(selection);
    lemma_place_of(selections, set, 0);
    lemma_place_of(after, set, 0);
    let at = place_of(selections, set, 0);
    let now = place_of(after, set, 0);
    if at < selections.len() {
        if now >= after.len() {
            assert(after[at].0 != set);
        }
    } else if set == selection.0 {
        if now >= after.len() {
            assert(after[selections.len() as int].0 != set);
        }
    } else if now < after.len() {
        if now < selections.len() {
            assert(selections[now].0 != set);
        }
    }
}

proof fn lemma_unselected_push(
    sets: Seq<TokenId>,
    selections: Seq<(TokenId, TokenId)>,
    selection: (TokenId, TokenId),
)
    ensures
        unselected(sets, selections.push(selection)) <= unselected(sets, selections),
        named(selections, selection.0) is None && sets.contains(selection.0) ==> unselected(
            sets,
            selections.push(selection),
        ) < unselected(sets, selections),
    decreases sets.len(),
{
    if sets.len() > 0 {
        let rest = sets.drop_last();
        lemma_unselected_push(rest, selections, selection);
        lemma_named_push(selections, selection, sets.last());
        if sets.contains(selection.0) && sets.last() != selection.0 {
            let k = choose|k: int| 0 <= k < sets.len() && sets[k] == selection.0;
            assert(rest[k] == selection.0);
        }
    }
}

proof fn lemma_all_entered(before: Selecting, list: Seq<(TokenId, TokenId)>, sets: Seq<TokenId>)
    requires
        forall|k: int| 0 <= k < list.len() ==> sets.contains((#[trigger] list[k]).0),
    ensures
        ({
            let after = all_entered(before, list);
            unselected(sets, after.selections) < unselected(sets, before.selections) || after
                == before
        }),
    decreases list.len(),
{
    if list.len() > 0 {
        let rest = list.drop_last();
        assert forall|k: int| 0 <= k < rest.len() implies sets.contains((#[trigger] rest[k]).0) by {
            assert(rest[k] == list[k]);
        }
        lemma_all_entered(before, rest, sets);
        let earlier = all_entered(before, rest);
        assert(sets.contains(list[list.len() - 1].0));
        lemma_unselected_push(sets, earlier.selections, list.last());
    }
}

/// Whether the sets that the branch of a selection names are in a list.
spec fn branch_listed(
    branches: Seq<((TokenId, TokenId), Seq<(TokenId, TokenId)>)>,
    selection: (TokenId, TokenId),
    sets: Seq<TokenId>,
) -> bool {
    match named(branches, selection) {
        Some(inner) => forall|k: int|
            0 <= k < inner.len() ==> sets.contains((#[trigger] inner[k]).0),
        None => true,
    }
}

proof fn lemma_branches_entered(
    before: Selecting,
    specs: Seq<VariantsView>,
    selection: (TokenId, TokenId),
    sets: Seq<TokenId>,
)
    requires
        forall|i: int|
            0 <= i < specs.len() ==> branch_listed((#[trigger] specs[i]).branches, selection, sets),
    ensures
        ({
            let after = branches_entered(before, specs, selection);
            unselected(sets, after.selections) < unselected(sets, before.selections) || after
                == before
        }),
    decreases specs.len(),
{
    if specs.len() > 0 {
        let rest = specs.drop_last();
        assert forall|i: int| 0 <= i < rest.len() implies branch_listed(
            (#[trigger] rest[i]).branches,
            selection,
            sets,
        ) by {
            assert(rest[i] == specs[i]);
        }
        lemma_branches_entered(before, rest, selection, sets);
        let earlier = branches_entered(before, rest, selection);
        assert(specs[specs.len() - 1] == specs.last());
        match named(specs.last().branches, selection) {
            Some(inner) => {
                lemma_all_entered(earlier, inner, sets);
            },
            None => {},
        }
    }
}

proof fn lemma_branch_sets(
    branches: Seq<((TokenId, TokenId), Seq<(TokenId, TokenId)>)>,
    j: int,
    k: int,
)
    requires
        0 <= j < branches.len(),
        0 <= k < branches[j].1.len(),
    ensures
        branch_sets(branches).contains(branches[j].1[k].0),
    decreases branches.len(),
{
    let rest = branches.drop_last();
    let tail = branches.last().1.map_values(|s: (TokenId, TokenId)| s.0);
    let all = branch_sets(branches);
    if j < rest.len() {
        assert(rest[j] == branches[j]);
        lemma_branch_sets(rest, j, k);
        let part = branch_sets(rest);
        let m = choose|m: int| 0 <= m < part.len() && part[m] == branches[j].1[k].0;
        assert(all[m] == branches[j].1[k].0);
    } else {
        assert(all[branch_sets(rest).len() + k] == tail[k]);
    }
}

proof fn lemma_named_sets(specs: Seq<VariantsView>, i: int, selection: (TokenId, TokenId))
    requires
        0 <= i < specs.len(),
    ensures
        branch_listed(specs[i].branches, selection, named_sets(specs)),
    decreases specs.len(),
{
    match named(specs[i].branches, selection) {
        Some(inner) => {
            let branches = specs[i].branches;
            lemma_place_of(branches, selection, 0);
            let j = place_of(branches, selection, 0);
            let rest = specs.drop_last();
            let part = named_sets(rest);
            let tail = branch_sets(specs.last().branches);
            let all = named_sets(specs);
            if i < rest.len() {
                assert(rest[i] == specs[i]);
                lemma_named_sets(rest, i, selection);
            }
            assert forall|k: int| 0 <= k < inner.len() implies all.contains(
                (#[trigger] inner[k]).0,
            ) by {
                if i < rest.len() {
                    assert(part.contains(inner[k].0));
                    let m = choose|m: int| 0 <= m < part.len() && part[m] == inner[k].0;
                    assert(all[m] == inner[k].0);
                } else {
                    lemma_branch_sets(branches, j, k);
                    let m = choose|m: int| 0 <= m < tail.len() && tail[m] == inner[k].0;
                    assert(all[part.len() + m] == inner[k].0);
                }
            }
        },
        None => {},
    }
}

/// Selections, once the pending ones are followed into their branches, the
/// last one first.
pub open spec fn followed(before: Selecting, specs: Seq<VariantsView>) -> Seq<(TokenId, TokenId)>
    decreases unselected(named_sets(specs), before.selections), before.pending.len(),
{
    if before.pending.len() == 0 {
        before.selections
    } else {
        let popped = Selecting { pending: before.pending.drop_last(), ..before };
        let after = branches_entered(popped, specs, before.pending.last());
        proof {
            lemma_follow_step(before, specs);
        }
        followed(after, specs)
    }
}

pub proof fn lemma_follow_step(before: Selecting, specs: Seq<VariantsView>)
    requires
        before.pending.len() > 0,
    ensures
        ({
            let popped = Selecting { pending: before.pending.drop_last(), ..before };
            let after = branches_entered(popped, specs, before.pending.last());
            unselected(named_sets(specs), after.selections) < unselected(
                named_sets(specs),
                before.selections,
            ) || after == popped
        }),
{
    let popped = Selecting { pending: before.pending.drop_last(), ..before };
    let selection = before.pending.last();
    let sets = named_sets(specs);
    assert forall|i: int| 0 <= i < specs.len() implies branch_listed(
        (#[trigger] specs[i]).branches,
        selection,
        sets,
    ) by {
        lemma_named_sets(specs, i, selection);
    }
    lemma_branches_entered(popped, specs, selection, sets);
}

/// Completing the selections for one declared set: where it has a fallback and
/// no selection, the first fallback that names a variant is selected, with
/// what is authored inside its branch.
pub open spec fn set_completed(
    selections: Seq<(TokenId, TokenId)>,
    fallbacks: Seq<(TokenId, Seq<TokenId>)>,
    specs: Seq<VariantsView>,
    set: TokenId,
) -> Seq<(TokenId, TokenId)> {
    match (named(selections, set), named(fallbacks, set)) {
        (None, Some(variants)) => match first_variant(specs, set, variants) {
            Some(variant) => followed(
                Selecting {
                    selections: selections.push((set, variant)),
                    pending: seq![(set, variant)],
                },
                specs,
            ),
            None => selections,
        },
        _ => selections,
    }
}

/// Completing the selections for declared sets, in order.
pub open spec fn sets_completed(
    selections: Seq<(TokenId, TokenId)>,
    fallbacks: Seq<(TokenId, Seq<TokenId>)>,
    specs: Seq<VariantsView>,
    sets: Seq<TokenId>,
) -> Seq<(TokenId, TokenId)>
    decreases sets.len(),
{
    if sets.len() == 0 {
        selections
    } else {
        set_completed(
            sets_completed(selections, fallbacks, specs, sets.drop_last()),
            fallbacks,
            specs,
            sets.last(),
        )
    }
}

/// The variant selected for a set.
pub fn selected(selections: &Vec<(TokenId, TokenId)>, set: TokenId) -> (out: Option<TokenId>)
    ensures
        out == named(selections@, set),
{
    let mut i: usize = 0;
    while i < selections.len()
        invariant
            i <= selections@.len(),
            forall|k: int| 0 <= k < i ==> (#[trigger] selections@[k]).0 != set,
        decreases selections@.len() - i,
    {
        if selections[i].0 == set {
            proof {
                lemma_place_of_unique(selections@, set, i as int);
            }
            return Some(selections[i].1);
        }
        i = i + 1;
    }
    proof {
        lemma_place_of_unique(selections@, set, i as int);
    }
    None
}

/// For each set, the first of the selections authored for it.
pub open spec fn strongest_selections(authored: Seq<(TokenId, TokenId)>) -> Seq<(TokenId, TokenId)>
    decreases authored.len(),
{
    if authored.len() == 0 {
        seq![]
    } else {
        let earlier = strongest_selections(authored.drop_last());
        if named(earlier, authored.last().0) is Some {
            earlier
        } else {
            earlier.push(authored.last())
        }
    }
}

/// For each set, the first of the selections authored for it.
pub fn keep_strongest(authored: &Vec<(TokenId, TokenId)>) -> (out: Vec<(TokenId, TokenId)>)
    ensures
        out@ == strongest_selections(authored@),
{
    let mut out: Vec<(TokenId, TokenId)> = Vec::new();
    let mut i: usize = 0;
    assert(authored@.take(0) =~= seq![]);
    while i < authored.len()
        invariant
            i <= authored@.len(),
            out@ == strongest_selections(authored@.take(i as int)),
        decreases authored@.len() - i,
    {
        proof {
            assert(authored@.take(i + 1).drop_last() =~= authored@.take(i as int));
            assert(authored@.take(i + 1).last() == authored@[i as int]);
        }
        let one = authored[i];
        if selected(&out, one.0).is_none() {
            out.push(one);
        }
        i = i + 1;
    }
    assert(authored@.take(i as int) =~= authored@);
    out
}

/// The branch of a set and a variant.
fn find_branch(spec: &VariantSpecs, selection: (TokenId, TokenId)) -> (out: Option<
    &Vec<(TokenId, TokenId)>,
>)
    ensures
        (match out {
            Some(inner) => Some(inner@),
            None => None,
        }) == named(spec@.branches, selection),
{
    let ghost all = spec@.branches;
    let mut i: usize = 0;
    while i < spec.branches.len()
        invariant
            i <= spec.branches@.len(),
            all == branches_view(spec.branches@),
            forall|k: int| 0 <= k < i ==> (#[trigger] all[k]).0 != selection,
        decreases spec.branches@.len() - i,
    {
        let branch = &spec.branches[i];
        assert(all[i as int] == ((branch.set, branch.variant), branch.selections@));
        if branch.set == selection.0 && branch.variant == selection.1 {
            proof {
                lemma_place_of_unique(all, selection, i as int);
            }
            return Some(&branch.selections);
        }
        i = i + 1;
    }
    proof {
        lemma_place_of_unique(all, selection, i as int);
    }
    None
}

/// The first of a list of variants that a spec has.
fn choose_variant(specs: &Vec<VariantSpecs>, set: TokenId, variants: &Vec<TokenId>) -> (out: Option<
    TokenId,
>)
    ensures
        out == first_variant(variants_view(specs@), set, variants@),
{
    let ghost all = variants_view(specs@);
    let mut i: usize = 0;
    assert(variants@.take(0) =~= seq![]);
    while i < variants.len()
        invariant
            i <= variants@.len(),
            all == variants_view(specs@),
            first_variant(all, set, variants@.take(i as int)) is None,
        decreases variants@.len() - i,
    {
        let variant = variants[i];
        proof {
            assert(variants@.take(i + 1).drop_last() =~= variants@.take(i as int));
            assert(variants@.take(i + 1).last() == variant);
        }
        let mut k: usize = 0;
        while k < specs.len()
            invariant
                i < variants@.len(),
                variant == variants@[i as int],
                k <= specs@.len(),
                all == variants_view(specs@),
                first_variant(all, set, variants@.take(i as int)) is None,
                variants@.take(i + 1).drop_last() == variants@.take(i as int),
                variants@.take(i + 1).last() == variant,
                forall|m: int|
                    0 <= m < k ==> named((#[trigger] all[m]).branches, (set, variant)) is None,
            decreases specs@.len() - k,
        {
            assert(all[k as int] == specs@[k as int]@);
            if find_branch(&specs[k], (set, variant)).is_some() {
                proof {
                    assert(has_variant(all, set, variant));
                    lemma_first_stays(all, set, variants@, i + 1);
                }
                return Some(variant);
            }
            k = k + 1;
        }
        i = i + 1;
    }
    assert(variants@.take(i as int) =~= variants@);
    None
}

proof fn lemma_first_stays(
    specs: Seq<VariantsView>,
    set: TokenId,
    variants: Seq<TokenId>,
    count: int,
)
    requires
        0 <= count <= variants.len(),
        first_variant(specs, set, variants.take(count)) is Some,
    ensures
        first_variant(specs, set, variants) == first_variant(specs, set, variants.take(count)),
    decreases variants.len() - count,
{
    if count < variants.len() {
        assert(variants.take(count + 1).drop_last() =~= variants.take(count));
        lemma_first_stays(specs, set, variants, count + 1);
    } else {
        assert(variants.take(count) =~= variants);
    }
}

/// Follows pending selections into their branches.
fn follow(
    selections: &mut Vec<(TokenId, TokenId)>,
    pending: Vec<(TokenId, TokenId)>,
    specs: &Vec<VariantSpecs>,
)
    ensures
        final(selections)@ == followed(
            Selecting { selections: old(selections)@, pending: pending@ },
            variants_view(specs@),
        ),
{
    let ghost all = variants_view(specs@);
    let ghost goal = followed(Selecting { selections: selections@, pending: pending@ }, all);
    let mut pending = pending;
    while pending.len() > 0
        invariant
            all == variants_view(specs@),
            goal == followed(Selecting { selections: selections@, pending: pending@ }, all),
        decreases unselected(named_sets(all), selections@), pending@.len(),
    {
        let ghost before = Selecting { selections: selections@, pending: pending@ };
        let selection = match pending.pop() {
            Some(selection) => selection,
            None => {
                return ;
            },
        };
        let ghost popped = Selecting { selections: selections@, pending: pending@ };
        let mut i: usize = 0;
        proof {
            assert(popped.pending =~= before.pending.drop_last());
            assert(selection == before.pending.last());
            assert(all.take(0) =~= seq![]);
        }
        while i < specs.len()
            invariant
                i <= specs@.len(),
                all == variants_view(specs@),
                (Selecting { selections: selections@, pending: pending@ }) == branches_entered(
                    popped,
                    all.take(i as int),
                    selection,
                ),
            decreases specs@.len() - i,
        {
            proof {
                assert(all.take(i + 1).drop_last() =~= all.take(i as int));
                assert(all.take(i + 1).last() == specs@[i as int]@);
            }
            match find_branch(&specs[i], selection) {
                Some(inner) => {
                    let ghost reached = Selecting { selections: selections@, pending: pending@ };
                    let mut k: usize = 0;
                    assert(inner@.take(0) =~= seq![]);
                    while k < inner.len()
                        invariant
                            k <= inner@.len(),
                            (Selecting { selections: selections@, pending: pending@ })
                                == all_entered(reached, inner@.take(k as int)),
                        decreases inner@.len() - k,
                    {
                        proof {
                            assert(inner@.take(k + 1).drop_last() =~= inner@.take(k as int));
                            assert(inner@.take(k + 1).last() == inner@[k as int]);
                        }
                        let one = inner[k];
                        if selected(selections, one.0).is_none() {
                            selections.push(one);
                            pending.push(one);
                        }
                        k = k + 1;
                    }
                    assert(inner@.take(k as int) =~= inner@);
                },
                None => {},
            }
            i = i + 1;
        }
        proof {
            assert(all.take(i as int) =~= all);
            lemma_follow_step(before, all);
        }
    }
}

/// Completes `selections`, the variant selections that composition found for a
/// prim with those specs, strongest first, with fallbacks.
///
/// The variant sets are visited in the order the specs declare them. The
/// selections authored inside a branch that a fallback selects are added
/// before the next set is visited.
pub fn apply_variant_fallbacks(
    fallbacks: &VariantFallbacks,
    selections: &mut Vec<(TokenId, TokenId)>,
    specs: &Vec<VariantSpecs>,
)
    ensures
        final(selections)@ == sets_completed(
            old(selections)@,
            fallbacks_view(fallbacks@),
            variants_view(specs@),
            declared_sets(variants_view(specs@)),
        ),
{
    let ghost all = variants_view(specs@);
    let ghost table = fallbacks_view(fallbacks@);
    let ghost start = selections@;
    let places = index_sets(fallbacks);
    let mut i: usize = 0;
    assert(all.take(0) =~= seq![]);
    while i < specs.len()
        invariant
            i <= specs@.len(),
            all == variants_view(specs@),
            table == fallbacks_view(fallbacks@),
            first_places(places@, set_keys(table)),
            selections@ == sets_completed(start, table, all, declared_sets(all.take(i as int))),
        decreases specs@.len() - i,
    {
        let sets = &specs[i].set_order;
        let ghost reached = declared_sets(all.take(i as int));
        proof {
            assert(all.take(i + 1).drop_last() =~= all.take(i as int));
            assert(all.take(i + 1).last() == specs@[i as int]@);
            assert(reached + sets@.take(0) =~= reached);
        }
        let mut k: usize = 0;
        while k < sets.len()
            invariant
                k <= sets@.len(),
                all == variants_view(specs@),
                table == fallbacks_view(fallbacks@),
                first_places(places@, set_keys(table)),
                selections@ == sets_completed(start, table, all, reached + sets@.take(k as int)),
            decreases sets@.len() - k,
        {
            let set = sets[k];
            proof {
                let next = reached + sets@.take(k + 1);
                assert(next.drop_last() =~= reached + sets@.take(k as int));
                assert(next.last() == set);
            }
            if selected(selections, set).is_none() {
                match find_fallbacks(fallbacks, &places, set) {
                    Some(variants) => match choose_variant(specs, set, variants) {
                        Some(variant) => {
                            selections.push((set, variant));
                            let mut pending: Vec<(TokenId, TokenId)> = Vec::new();
                            pending.push((set, variant));
                            assert(pending@ =~= seq![(set, variant)]);
                            follow(selections, pending, specs);
                        },
                        None => {},
                    },
                    None => {},
                }
            }
            k = k + 1;
        }
        assert(sets@.take(k as int) =~= sets@);
        i = i + 1;
    }
    assert(all.take(i as int) =~= all);
}

/// The indices of the sets of a table of fallbacks.
spec fn set_keys(table: Seq<(TokenId, Seq<TokenId>)>) -> Seq<usize> {
    table.map_values(|entry: (TokenId, Seq<TokenId>)| entry.0.index)
}

/// Indexes a table of fallbacks by its sets.
fn index_sets(fallbacks: &VariantFallbacks) -> (places: IdMap)
    ensures
        first_places(places@, set_keys(fallbacks_view(fallbacks@))),
{
    let ghost all = set_keys(fallbacks_view(fallbacks@));
    let mut keys: Vec<usize> = Vec::new();
    let mut i: usize = 0;
    while i < fallbacks.len()
        invariant
            i <= fallbacks@.len(),
            all == set_keys(fallbacks_view(fallbacks@)),
            keys@ == all.take(i as int),
        decreases fallbacks@.len() - i,
    {
        assert(all[i as int] == fallbacks@[i as int].0.index);
        keys.push(fallbacks[i].0.index);
        i = i + 1;
        assert(keys@ =~= all.take(i as int));
    }
    assert(keys@ =~= all);
    index_first(&keys)
}

/// The fallbacks of a set.
fn find_fallbacks<'f>(fallbacks: &'f VariantFallbacks, places: &IdMap, set: TokenId) -> (out: Option<
    &'f Vec<TokenId>,
>)
    requires
        first_places(places@, set_keys(fallbacks_view(fallbacks@))),
    ensures
        (match out {
            Some(variants) => Some(variants@),
            None => None,
        }) == named(fallbacks_view(fallbacks@), set),
{
    let ghost all = fallbacks_view(fallbacks@);
    let ghost keys = set_keys(all);
    match get_id(places, set.index) {
        Some(at) => {
            proof {
                assert(keys[at as int] == all[at as int].0.index);
                assert forall|k: int| 0 <= k < at implies (#[trigger] all[k]).0 != set by {
                    assert(keys[k] == all[k].0.index);
                }
                lemma_place_of_unique(all, set, at as int);
            }
            Some(&fallbacks[at].1)
        },
        None => {
            proof {
                assert forall|k: int| 0 <= k < all.len() implies (#[trigger] all[k]).0 != set by {
                    assert(keys[k] == all[k].0.index);
                }
                lemma_place_of_unique(all, set, all.len() as int);
            }
            None
        },
    }
}

// ── Laws ────────────────────────────────────────────────────────────────

/// Whether the later selections hold every earlier one.
pub open spec fn keeps(after: Seq<(TokenId, TokenId)>, before: Seq<(TokenId, TokenId)>) -> bool {
    before.is_prefix_of(after)
}

proof fn lemma_prefix(a: Seq<(TokenId, TokenId)>, b: Seq<(TokenId, TokenId)>, c: Seq<
    (TokenId, TokenId),
>)
    requires
        keeps(b, a),
        keeps(c, b),
    ensures
        keeps(c, a),
{
    assert forall|i: int| 0 <= i < a.len() implies a[i] == c[i] by {
        assert(a[i] == b[i]);
        assert(b[i] == c[i]);
    }
    assert(a =~= c.take(a.len() as int));
}

proof fn lemma_entered_keeps(before: Selecting, list: Seq<(TokenId, TokenId)>)
    ensures
        keeps(all_entered(before, list).selections, before.selections),
    decreases list.len(),
{
    if list.len() > 0 {
        lemma_entered_keeps(before, list.drop_last());
    }
}

proof fn lemma_branches_keep(
    before: Selecting,
    specs: Seq<VariantsView>,
    selection: (TokenId, TokenId),
)
    ensures
        keeps(branches_entered(before, specs, selection).selections, before.selections),
    decreases specs.len(),
{
    if specs.len() > 0 {
        lemma_branches_keep(before, specs.drop_last(), selection);
        let earlier = branches_entered(before, specs.drop_last(), selection);
        match named(specs.last().branches, selection) {
            Some(inner) => {
                lemma_entered_keeps(earlier, inner);
                lemma_prefix(
                    before.selections,
                    earlier.selections,
                    all_entered(earlier, inner).selections,
                );
            },
            None => {},
        }
    }
}

proof fn lemma_followed_keeps(before: Selecting, specs: Seq<VariantsView>)
    ensures
        keeps(followed(before, specs), before.selections),
    decreases unselected(named_sets(specs), before.selections), before.pending.len(),
{
    if before.pending.len() > 0 {
        let popped = Selecting { pending: before.pending.drop_last(), ..before };
        let after = branches_entered(popped, specs, before.pending.last());
        lemma_follow_step(before, specs);
        lemma_branches_keep(popped, specs, before.pending.last());
        lemma_followed_keeps(after, specs);
        lemma_prefix(before.selections, after.selections, followed(after, specs));
    }
}

/// Fallbacks only complete the selections: every authored one stays.
pub proof fn law_authored_selections_stay(
    selections: Seq<(TokenId, TokenId)>,
    fallbacks: Seq<(TokenId, Seq<TokenId>)>,
    specs: Seq<VariantsView>,
    sets: Seq<TokenId>,
)
    ensures
        keeps(sets_completed(selections, fallbacks, specs, sets), selections),
    decreases sets.len(),
{
    if sets.len() > 0 {
        law_authored_selections_stay(selections, fallbacks, specs, sets.drop_last());
        let earlier = sets_completed(selections, fallbacks, specs, sets.drop_last());
        let set = sets.last();
        match (named(earlier, set), named(fallbacks, set)) {
            (None, Some(variants)) => match first_variant(specs, set, variants) {
                Some(variant) => {
                    let start = Selecting {
                        selections: earlier.push((set, variant)),
                        pending: seq![(set, variant)],
                    };
                    lemma_followed_keeps(start, specs);
                    lemma_prefix(earlier, start.selections, followed(start, specs));
                    lemma_prefix(selections, earlier, followed(start, specs));
                },
                None => {},
            },
            _ => {},
        }
    }
}

/// Without fallbacks nothing is selected that is not authored.
pub proof fn law_no_fallbacks_select_nothing(
    selections: Seq<(TokenId, TokenId)>,
    specs: Seq<VariantsView>,
    sets: Seq<TokenId>,
)
    ensures
        sets_completed(selections, seq![], specs, sets) == selections,
    decreases sets.len(),
{
    if sets.len() > 0 {
        law_no_fallbacks_select_nothing(selections, specs, sets.drop_last());
    }
}

/// Whether some spec has a branch of a set and a variant.
spec fn in_branch(specs: Seq<VariantsView>, set: TokenId, variant: TokenId) -> bool {
    exists|i: int, b: int|
        0 <= i < specs.len() && 0 <= b < specs[i].branches.len() && (
        #[trigger] specs[i].branches[b]).0 == (set, variant)
}

proof fn lemma_in_branch(specs: Seq<VariantsView>, set: TokenId, variant: TokenId)
    ensures
        has_variant(specs, set, variant) <==> in_branch(specs, set, variant),
{
    if has_variant(specs, set, variant) {
        let i = choose|i: int|
            0 <= i < specs.len() && named((#[trigger] specs[i]).branches, (set, variant)) is Some;
        lemma_place_of(specs[i].branches, (set, variant), 0);
        let b = place_of(specs[i].branches, (set, variant), 0);
        assert(specs[i].branches[b].0 == (set, variant));
    }
    if in_branch(specs, set, variant) {
        let (i, b) = choose|i: int, b: int|
            0 <= i < specs.len() && 0 <= b < specs[i].branches.len() && (
            #[trigger] specs[i].branches[b]).0 == (set, variant);
        lemma_place_of(specs[i].branches, (set, variant), 0);
        assert(named(specs[i].branches, (set, variant)) is Some);
    }
}

/// Whether a variant is the earliest of a list that some spec has a branch for.
spec fn is_earliest(
    specs: Seq<VariantsView>,
    set: TokenId,
    variants: Seq<TokenId>,
    variant: TokenId,
) -> bool {
    exists|m: int|
        0 <= m < variants.len() && #[trigger] variants[m] == variant && in_branch(specs, set, variant)
            && forall|k: int|
            0 <= k < m ==> !in_branch(specs, set, #[trigger] variants[k])
}

proof fn lemma_first_variant(specs: Seq<VariantsView>, set: TokenId, variants: Seq<TokenId>)
    ensures
        match first_variant(specs, set, variants) {
            Some(variant) => is_earliest(specs, set, variants, variant),
            None => forall|k: int|
                0 <= k < variants.len() ==> !in_branch(specs, set, #[trigger] variants[k]),
        },
    decreases variants.len(),
{
    if variants.len() > 0 {
        let rest = variants.drop_last();
        lemma_first_variant(specs, set, rest);
        lemma_in_branch(specs, set, variants.last());
        let n = variants.len() - 1;
        assert(variants[n] == variants.last());
        match first_variant(specs, set, rest) {
            Some(variant) => {
                let m = choose|m: int|
                    0 <= m < rest.len() && #[trigger] rest[m] == variant && in_branch(
                        specs,
                        set,
                        variant,
                    ) && forall|k: int|
                        0 <= k < m ==> !in_branch(specs, set, #[trigger] rest[k]);
                assert(variants[m] == variant);
                assert forall|k: int| 0 <= k < m implies !in_branch(
                    specs,
                    set,
                    #[trigger] variants[k],
                ) by {
                    assert(rest[k] == variants[k]);
                }
            },
            None => {
                assert forall|k: int| 0 <= k < n implies !in_branch(
                    specs,
                    set,
                    #[trigger] variants[k],
                ) by {
                    assert(rest[k] == variants[k]);
                }
            },
        }
    }
}

/// Whether a selection is authored inside a branch.
spec fn is_inside(specs: Seq<VariantsView>, selection: (TokenId, TokenId)) -> bool {
    exists|i: int, b: int, k: int|
        0 <= i < specs.len() && 0 <= b < specs[i].branches.len() && 0 <= k
            < specs[i].branches[b].1.len() && #[trigger] specs[i].branches[b].1[k] == selection
}

/// Whether a set has a selection.
spec fn is_selected(selections: Seq<(TokenId, TokenId)>, set: TokenId) -> bool {
    exists|j: int| 0 <= j < selections.len() && (#[trigger] selections[j]).0 == set
}

/// Whether no set has two selections.
spec fn once_each(selections: Seq<(TokenId, TokenId)>) -> bool {
    forall|i: int, j: int|
        0 <= i < j < selections.len() ==> (#[trigger] selections[i]).0 != (
        #[trigger] selections[j]).0
}

proof fn lemma_selected(selections: Seq<(TokenId, TokenId)>, set: TokenId)
    ensures
        is_selected(selections, set) <==> named(selections, set) is Some,
{
    lemma_place_of(selections, set, 0);
}

proof fn lemma_selected_later(
    before: Seq<(TokenId, TokenId)>,
    after: Seq<(TokenId, TokenId)>,
    set: TokenId,
)
    requires
        keeps(after, before),
        is_selected(before, set),
    ensures
        is_selected(after, set),
{
    let j = choose|j: int| 0 <= j < before.len() && (#[trigger] before[j]).0 == set;
    assert(after[j] == before[j]);
}

/// What entering a list does: its sets are selected, what is added comes from
/// it, and is pending.
proof fn lemma_entered_from(before: Selecting, list: Seq<(TokenId, TokenId)>)
    ensures
        ({
            let after = all_entered(before, list);
            let n = before.selections.len();
            let p = before.pending.len();
            &&& keeps(after.selections, before.selections)
            &&& keeps(after.pending, before.pending)
            &&& after.selections.len() - n == after.pending.len() - p
            &&& forall|j: int|
                n <= j < after.selections.len() ==> list.contains(#[trigger] after.selections[j])
                    && after.pending[p + (j - n)] == after.selections[j]
            &&& forall|k: int|
                0 <= k < list.len() ==> is_selected(after.selections, (#[trigger] list[k]).0)
            &&& once_each(before.selections) ==> once_each(after.selections)
        }),
    decreases list.len(),
{
    if list.len() > 0 {
        let rest = list.drop_last();
        let one = list.last();
        lemma_entered_from(before, rest);
        let earlier = all_entered(before, rest);
        let after = all_entered(before, list);
        let n = before.selections.len();
        lemma_selected(earlier.selections, one.0);
        assert(list[list.len() - 1] == one);
        assert forall|j: int| n <= j < after.selections.len() implies list.contains(
            #[trigger] after.selections[j],
        ) by {
            if j < earlier.selections.len() {
                assert(after.selections[j] == earlier.selections[j]);
                let k = choose|k: int| 0 <= k < rest.len() && rest[k] == after.selections[j];
                assert(list[k] == after.selections[j]);
            }
        }
        assert forall|k: int| 0 <= k < list.len() implies is_selected(
            after.selections,
            (#[trigger] list[k]).0,
        ) by {
            if k < rest.len() {
                assert(rest[k] == list[k]);
                assert(is_selected(earlier.selections, rest[k].0));
                lemma_selected_later(earlier.selections, after.selections, rest[k].0);
            } else if named(earlier.selections, one.0) is None {
                assert(after.selections[earlier.selections.len() as int].0 == one.0);
            }
        }
    }
}

/// Whether the sets selected inside a branch of a selection have selections.
spec fn branch_followed(
    spec_view: VariantsView,
    selection: (TokenId, TokenId),
    selections: Seq<(TokenId, TokenId)>,
) -> bool {
    forall|b: int, k: int|
        0 <= b < spec_view.branches.len() && spec_view.branches[b].0 == selection && (forall|c: int|
            0 <= c < b ==> (#[trigger] spec_view.branches[c]).0 != selection) && 0 <= k
            < spec_view.branches[b].1.len() ==> is_selected(
            selections,
            (#[trigger] spec_view.branches[b].1[k]).0,
        )
}

proof fn lemma_branch_followed_later(
    spec_view: VariantsView,
    selection: (TokenId, TokenId),
    before: Seq<(TokenId, TokenId)>,
    after: Seq<(TokenId, TokenId)>,
)
    requires
        keeps(after, before),
        branch_followed(spec_view, selection, before),
    ensures
        branch_followed(spec_view, selection, after),
{
    assert forall|b: int, k: int|
        0 <= b < spec_view.branches.len() && spec_view.branches[b].0 == selection && (forall|c: int|
            0 <= c < b ==> (#[trigger] spec_view.branches[c]).0 != selection) && 0 <= k
            < spec_view.branches[b].1.len() implies is_selected(
        after,
        (#[trigger] spec_view.branches[b].1[k]).0,
    ) by {
        lemma_selected_later(before, after, spec_view.branches[b].1[k].0);
    }
}

proof fn lemma_branches_from(
    before: Selecting,
    specs: Seq<VariantsView>,
    selection: (TokenId, TokenId),
)
    ensures
        ({
            let after = branches_entered(before, specs, selection);
            let n = before.selections.len();
            let p = before.pending.len();
            &&& keeps(after.selections, before.selections)
            &&& keeps(after.pending, before.pending)
            &&& after.selections.len() - n == after.pending.len() - p
            &&& forall|j: int|
                n <= j < after.selections.len() ==> is_inside(specs, #[trigger] after.selections[j])
                    && after.pending[p + (j - n)] == after.selections[j]
            &&& forall|i: int|
                0 <= i < specs.len() ==> branch_followed(
                    #[trigger] specs[i],
                    selection,
                    after.selections,
                )
            &&& once_each(before.selections) ==> once_each(after.selections)
        }),
    decreases specs.len(),
{
    if specs.len() > 0 {
        let rest = specs.drop_last();
        let last = specs.last();
        lemma_branches_from(before, rest, selection);
        let earlier = branches_entered(before, rest, selection);
        let after = branches_entered(before, specs, selection);
        let n = before.selections.len();
        let p = before.pending.len();
        let top = specs.len() - 1;
        assert(specs[top] == last);
        lemma_place_of(last.branches, selection, 0);
        let at = place_of(last.branches, selection, 0);
        match named(last.branches, selection) {
            Some(inner) => {
                lemma_entered_from(earlier, inner);
                lemma_prefix(before.selections, earlier.selections, after.selections);
                lemma_prefix(before.pending, earlier.pending, after.pending);
                assert(branch_followed(last, selection, after.selections)) by {
                    assert forall|b: int, k: int|
                        0 <= b < last.branches.len() && last.branches[b].0 == selection && (forall|
                            c: int,
                        |
                            0 <= c < b ==> (#[trigger] last.branches[c]).0 != selection) && 0 <= k
                            < last.branches[b].1.len() implies is_selected(
                        after.selections,
                        (#[trigger] last.branches[b].1[k]).0,
                    ) by {
                        if at < b {
                            assert(last.branches[at].0 == selection);
                        }
                        assert(b == at);
                        assert(is_selected(after.selections, inner[k].0));
                    }
                }
            },
            None => {
                assert(branch_followed(last, selection, after.selections));
            },
        }
        assert forall|j: int| n <= j < after.selections.len() implies is_inside(
            specs,
            #[trigger] after.selections[j],
        ) && after.pending[p + (j - n)] == after.selections[j] by {
            let one = after.selections[j];
            if j < earlier.selections.len() {
                assert(one == earlier.selections[j]);
                assert(is_inside(rest, earlier.selections[j]));
                let (i, b, k) = choose|i: int, b: int, k: int|
                    0 <= i < rest.len() && 0 <= b < rest[i].branches.len() && 0 <= k
                        < rest[i].branches[b].1.len() && #[trigger] rest[i].branches[b].1[k] == one;
                assert(specs[i].branches[b].1[k] == one);
                assert(after.pending[p + (j - n)] == earlier.pending[p + (j - n)]);
            } else {
                let inner = named(last.branches, selection)->0;
                assert(inner.contains(one));
                let k = choose|k: int| 0 <= k < inner.len() && inner[k] == one;
                assert(specs[top].branches[at].1[k] == one);
            }
        }
        assert forall|i: int| 0 <= i < specs.len() implies branch_followed(
            #[trigger] specs[i],
            selection,
            after.selections,
        ) by {
            if i < top {
                assert(rest[i] == specs[i]);
                lemma_branch_followed_later(
                    specs[i],
                    selection,
                    earlier.selections,
                    after.selections,
                );
            }
        }
    }
}

/// Whether the branches of a selection are followed in every spec.
spec fn all_followed(
    specs: Seq<VariantsView>,
    selection: (TokenId, TokenId),
    selections: Seq<(TokenId, TokenId)>,
) -> bool {
    forall|i: int|
        0 <= i < specs.len() ==> branch_followed(#[trigger] specs[i], selection, selections)
}

proof fn lemma_all_followed_later(
    specs: Seq<VariantsView>,
    selection: (TokenId, TokenId),
    before: Seq<(TokenId, TokenId)>,
    after: Seq<(TokenId, TokenId)>,
)
    requires
        keeps(after, before),
        all_followed(specs, selection, before),
    ensures
        all_followed(specs, selection, after),
{
    assert forall|i: int| 0 <= i < specs.len() implies branch_followed(
        #[trigger] specs[i],
        selection,
        after,
    ) by {
        lemma_branch_followed_later(specs[i], selection, before, after);
    }
}

proof fn lemma_followed_from(before: Selecting, specs: Seq<VariantsView>)
    ensures
        ({
            let after = followed(before, specs);
            let n = before.selections.len();
            &&& keeps(after, before.selections)
            &&& forall|j: int|
                n <= j < after.len() ==> is_inside(specs, #[trigger] after[j]) && all_followed(
                    specs,
                    after[j],
                    after,
                )
            &&& forall|j: int|
                0 <= j < before.pending.len() ==> all_followed(
                    specs,
                    #[trigger] before.pending[j],
                    after,
                )
            &&& once_each(before.selections) ==> once_each(after)
        }),
    decreases unselected(named_sets(specs), before.selections), before.pending.len(),
{
    if before.pending.len() > 0 {
        let selection = before.pending.last();
        let popped = Selecting { pending: before.pending.drop_last(), ..before };
        let next = branches_entered(popped, specs, selection);
        lemma_follow_step(before, specs);
        lemma_branches_from(popped, specs, selection);
        lemma_followed_from(next, specs);
        let after = followed(before, specs);
        let n = before.selections.len();
        let p = popped.pending.len();
        lemma_prefix(before.selections, next.selections, after);
        assert forall|j: int| n <= j < after.len() implies is_inside(specs, #[trigger] after[j])
            && all_followed(specs, after[j], after) by {
            if j < next.selections.len() {
                assert(after[j] == next.selections[j]);
                assert(is_inside(specs, next.selections[j]));
                assert(all_followed(specs, next.pending[p + (j - n)], after));
            }
        }
        assert forall|j: int| 0 <= j < before.pending.len() implies all_followed(
            specs,
            #[trigger] before.pending[j],
            after,
        ) by {
            if j < p {
                assert(before.pending[j] == popped.pending[j]);
                assert(next.pending[j] == popped.pending[j]);
            } else {
                lemma_all_followed_later(specs, selection, next.selections, after);
            }
        }
    }
}

/// Whether a selection is the earliest fallback of its set that some spec has
/// a branch for.
spec fn is_fallback(
    fallbacks: Seq<(TokenId, Seq<TokenId>)>,
    specs: Seq<VariantsView>,
    selection: (TokenId, TokenId),
) -> bool {
    exists|f: int|
        0 <= f < fallbacks.len() && (#[trigger] fallbacks[f]).0 == selection.0 && (forall|g: int|
            0 <= g < f ==> (#[trigger] fallbacks[g]).0 != selection.0) && is_earliest(
            specs,
            selection.0,
            fallbacks[f].1,
            selection.1,
        )
}

proof fn lemma_completed(
    selections: Seq<(TokenId, TokenId)>,
    fallbacks: Seq<(TokenId, Seq<TokenId>)>,
    specs: Seq<VariantsView>,
    sets: Seq<TokenId>,
)
    ensures
        ({
            let out = sets_completed(selections, fallbacks, specs, sets);
            &&& keeps(out, selections)
            &&& forall|j: int|
                selections.len() <= j < out.len() ==> all_followed(specs, #[trigger] out[j], out)
                    && (is_inside(specs, out[j]) || (sets.contains(out[j].0) && is_fallback(
                    fallbacks,
                    specs,
                    out[j],
                )))
            &&& forall|s: int, f: int, m: int|
                0 <= s < sets.len() && 0 <= f < fallbacks.len() && fallbacks[f].0 == sets[s] && (
                forall|g: int| 0 <= g < f ==> (#[trigger] fallbacks[g]).0 != sets[s]) && 0 <= m
                    < fallbacks[f].1.len() && in_branch(
                    specs,
                    #[trigger] sets[s],
                    #[trigger] fallbacks[f].1[m],
                ) ==> is_selected(out, sets[s])
            &&& once_each(selections) ==> once_each(out)
        }),
    decreases sets.len(),
{
    if sets.len() > 0 {
        let rest = sets.drop_last();
        let set = sets.last();
        lemma_completed(selections, fallbacks, specs, rest);
        let earlier = sets_completed(selections, fallbacks, specs, rest);
        let out = sets_completed(selections, fallbacks, specs, sets);
        lemma_selected(earlier, set);
        lemma_place_of(fallbacks, set, 0);
        let at = place_of(fallbacks, set, 0);
        assert(sets[sets.len() - 1] == set);
        let chosen = match (named(earlier, set), named(fallbacks, set)) {
            (None, Some(variants)) => first_variant(specs, set, variants),
            _ => None,
        };
        if at < fallbacks.len() {
            lemma_first_variant(specs, set, fallbacks[at].1);
        }
        match chosen {
            Some(variant) => {
                let start = Selecting {
                    selections: earlier.push((set, variant)),
                    pending: seq![(set, variant)],
                };
                lemma_followed_from(start, specs);
                lemma_prefix(earlier, start.selections, out);
                lemma_prefix(selections, earlier, out);
                assert(is_fallback(fallbacks, specs, (set, variant))) by {
                    assert(fallbacks[at].0 == set);
                }
                assert(out[earlier.len() as int] == start.selections[earlier.len() as int]);
                assert(start.pending[0] == (set, variant));
                assert(is_selected(out, set)) by {
                    assert(out[earlier.len() as int].0 == set);
                }
                assert(once_each(earlier) ==> once_each(start.selections));
            },
            None => {
                assert(out == earlier);
            },
        }
        assert forall|j: int| selections.len() <= j < out.len() implies all_followed(
            specs,
            #[trigger] out[j],
            out,
        ) && (is_inside(specs, out[j]) || (sets.contains(out[j].0) && is_fallback(
            fallbacks,
            specs,
            out[j],
        ))) by {
            if j < earlier.len() {
                assert(out[j] == earlier[j]);
                lemma_all_followed_later(specs, earlier[j], earlier, out);
                if rest.contains(earlier[j].0) {
                    let s = choose|s: int| 0 <= s < rest.len() && rest[s] == earlier[j].0;
                    assert(sets[s] == earlier[j].0);
                }
            }
        }
        assert forall|s: int, f: int, m: int|
            0 <= s < sets.len() && 0 <= f < fallbacks.len() && fallbacks[f].0 == sets[s] && (forall|
                g: int,
            | 0 <= g < f ==> (#[trigger] fallbacks[g]).0 != sets[s]) && 0 <= m
                < fallbacks[f].1.len() && in_branch(
                specs,
                #[trigger] sets[s],
                #[trigger] fallbacks[f].1[m],
            ) implies is_selected(out, sets[s]) by {
            if s < rest.len() {
                assert(rest[s] == sets[s]);
                assert(in_branch(specs, rest[s], fallbacks[f].1[m]));
                lemma_selected_later(earlier, out, sets[s]);
            } else {
                lemma_place_of_unique(fallbacks, set, f);
                assert(f == at);
            }
        }
    }
}

proof fn lemma_declared(specs: Seq<VariantsView>, set: TokenId)
    ensures
        declared_sets(specs).contains(set) <==> exists|i: int, s: int|
            0 <= i < specs.len() && 0 <= s < specs[i].set_order.len()
                && #[trigger] specs[i].set_order[s] == set,
    decreases specs.len(),
{
    if specs.len() > 0 {
        let rest = specs.drop_last();
        let top = specs.len() - 1;
        let all = declared_sets(specs);
        let earlier = declared_sets(rest);
        lemma_declared(rest, set);
        if all.contains(set) {
            let k = choose|k: int| 0 <= k < all.len() && all[k] == set;
            if k < earlier.len() {
                assert(earlier[k] == set);
                let (i, s) = choose|i: int, s: int|
                    0 <= i < rest.len() && 0 <= s < rest[i].set_order.len()
                        && #[trigger] rest[i].set_order[s] == set;
                assert(specs[i].set_order[s] == set);
            } else {
                assert(specs[top].set_order[k - earlier.len()] == set);
            }
        }
        if exists|i: int, s: int|
            0 <= i < specs.len() && 0 <= s < specs[i].set_order.len()
                && #[trigger] specs[i].set_order[s] == set {
            let (i, s) = choose|i: int, s: int|
                0 <= i < specs.len() && 0 <= s < specs[i].set_order.len()
                    && #[trigger] specs[i].set_order[s] == set;
            if i < top {
                assert(rest[i].set_order[s] == set);
                let k = choose|k: int| 0 <= k < earlier.len() && earlier[k] == set;
                assert(all[k] == set);
            } else {
                assert(all[earlier.len() + s] == set);
            }
        }
    }
}

/// Where a spec declares a set, and a fallback for it names a variant that a
/// spec, at whatever strength, has a branch for, the completed selections name
/// the set.
pub proof fn law_fallbacks_select_every_set_they_can(
    selections: Seq<(TokenId, TokenId)>,
    fallbacks: Seq<(TokenId, Seq<TokenId>)>,
    specs: Seq<VariantsView>,
    set: TokenId,
    declared: (int, int),
    fallback: (int, int),
    branch: (int, int),
)
    requires
        0 <= declared.0 < specs.len(),
        0 <= declared.1 < specs[declared.0].set_order.len(),
        specs[declared.0].set_order[declared.1] == set,
        0 <= fallback.0 < fallbacks.len(),
        fallbacks[fallback.0].0 == set,
        forall|g: int| 0 <= g < fallback.0 ==> (#[trigger] fallbacks[g]).0 != set,
        0 <= fallback.1 < fallbacks[fallback.0].1.len(),
        0 <= branch.0 < specs.len(),
        0 <= branch.1 < specs[branch.0].branches.len(),
        specs[branch.0].branches[branch.1].0 == (set, fallbacks[fallback.0].1[fallback.1]),
    ensures
        exists|j: int|
            0 <= j < sets_completed(selections, fallbacks, specs, declared_sets(specs)).len() && (
            #[trigger] sets_completed(selections, fallbacks, specs, declared_sets(specs))[j]).0
                == set,
{
    let sets = declared_sets(specs);
    lemma_declared(specs, set);
    lemma_completed(selections, fallbacks, specs, sets);
    let s = choose|s: int| 0 <= s < sets.len() && sets[s] == set;
    assert(in_branch(specs, sets[s], fallbacks[fallback.0].1[fallback.1]));
    assert(is_selected(sets_completed(selections, fallbacks, specs, sets), sets[s]));
}

/// Where a set has no selection, authored on the prim or inside a branch, the
/// fallbacks select for it the earliest of its fallbacks that a spec, at
/// whatever strength, has a branch for, and no other variant.
pub proof fn law_the_earliest_fallback_is_selected(
    selections: Seq<(TokenId, TokenId)>,
    fallbacks: Seq<(TokenId, Seq<TokenId>)>,
    specs: Seq<VariantsView>,
    set: TokenId,
    declared: (int, int),
    fallback: (int, int),
    branch: (int, int),
)
    requires
        forall|j: int| 0 <= j < selections.len() ==> (#[trigger] selections[j]).0 != set,
        forall|i: int, b: int, k: int|
            0 <= i < specs.len() && 0 <= b < specs[i].branches.len() && 0 <= k
                < specs[i].branches[b].1.len() ==> (#[trigger] specs[i].branches[b].1[k]).0 != set,
        0 <= declared.0 < specs.len(),
        0 <= declared.1 < specs[declared.0].set_order.len(),
        specs[declared.0].set_order[declared.1] == set,
        0 <= fallback.0 < fallbacks.len(),
        fallbacks[fallback.0].0 == set,
        forall|g: int| 0 <= g < fallback.0 ==> (#[trigger] fallbacks[g]).0 != set,
        0 <= fallback.1 < fallbacks[fallback.0].1.len(),
        0 <= branch.0 < specs.len(),
        0 <= branch.1 < specs[branch.0].branches.len(),
        specs[branch.0].branches[branch.1].0 == (set, fallbacks[fallback.0].1[fallback.1]),
        forall|m: int, i: int, b: int|
            0 <= m < fallback.1 && 0 <= i < specs.len() && 0 <= b < specs[i].branches.len() ==> (
            #[trigger] specs[i].branches[b]).0 != (set, #[trigger] fallbacks[fallback.0].1[m]),
    ensures
        sets_completed(selections, fallbacks, specs, declared_sets(specs)).contains(
            (set, fallbacks[fallback.0].1[fallback.1]),
        ),
        forall|j: int|
            0 <= j < sets_completed(selections, fallbacks, specs, declared_sets(specs)).len() && (
            #[trigger] sets_completed(selections, fallbacks, specs, declared_sets(specs))[j]).0
                == set ==> sets_completed(selections, fallbacks, specs, declared_sets(specs))[j].1
                == fallbacks[fallback.0].1[fallback.1],
{
    let sets = declared_sets(specs);
    let out = sets_completed(selections, fallbacks, specs, sets);
    let variants = fallbacks[fallback.0].1;
    lemma_completed(selections, fallbacks, specs, sets);
    law_fallbacks_select_every_set_they_can(
        selections,
        fallbacks,
        specs,
        set,
        declared,
        fallback,
        branch,
    );
    assert(in_branch(specs, set, variants[fallback.1]));
    assert forall|j: int| 0 <= j < out.len() && (#[trigger] out[j]).0 == set implies out[j].1
        == variants[fallback.1] by {
        if j < selections.len() {
            assert(out[j] == selections[j]);
        }
        assert(!is_inside(specs, out[j]));
        assert(is_fallback(fallbacks, specs, out[j]));
        let f = choose|f: int|
            0 <= f < fallbacks.len() && (#[trigger] fallbacks[f]).0 == out[j].0 && (forall|g: int|
                0 <= g < f ==> (#[trigger] fallbacks[g]).0 != out[j].0) && is_earliest(
                specs,
                out[j].0,
                fallbacks[f].1,
                out[j].1,
            );
        if f < fallback.0 {
            assert(fallbacks[f].0 != set);
        }
        if fallback.0 < f {
            assert(fallbacks[fallback.0].0 != set);
        }
        let m = choose|m: int|
            0 <= m < variants.len() && #[trigger] variants[m] == out[j].1 && in_branch(
                specs,
                set,
                out[j].1,
            ) && forall|k: int| 0 <= k < m ==> !in_branch(specs, set, #[trigger] variants[k]);
        if m < fallback.1 {
            let (i, b) = choose|i: int, b: int|
                0 <= i < specs.len() && 0 <= b < specs[i].branches.len() && (
                #[trigger] specs[i].branches[b]).0 == (set, out[j].1);
            assert(specs[i].branches[b].0 != (set, fallbacks[fallback.0].1[m]));
        }
        if fallback.1 < m {
            assert(!in_branch(specs, set, variants[fallback.1]));
        }
    }
    let j = choose|j: int| 0 <= j < out.len() && (#[trigger] out[j]).0 == set;
    assert(out[j] == (set, variants[fallback.1]));
}

/// Every selection that completing adds is authored inside a branch of a spec,
/// or is a fallback, for a set that a spec declares, of a variant that a spec
/// has a branch for.
pub proof fn law_added_selections_have_a_source(
    selections: Seq<(TokenId, TokenId)>,
    fallbacks: Seq<(TokenId, Seq<TokenId>)>,
    specs: Seq<VariantsView>,
    at: int,
)
    requires
        selections.len() <= at < sets_completed(
            selections,
            fallbacks,
            specs,
            declared_sets(specs),
        ).len(),
    ensures
        ({
            let one = sets_completed(selections, fallbacks, specs, declared_sets(specs))[at];
            ||| exists|i: int, b: int, k: int|
                0 <= i < specs.len() && 0 <= b < specs[i].branches.len() && 0 <= k
                    < specs[i].branches[b].1.len() && #[trigger] specs[i].branches[b].1[k] == one
            ||| {
                &&& exists|i: int, s: int|
                    0 <= i < specs.len() && 0 <= s < specs[i].set_order.len()
                        && #[trigger] specs[i].set_order[s] == one.0
                &&& exists|f: int, m: int|
                    0 <= f < fallbacks.len() && fallbacks[f].0 == one.0 && 0 <= m
                        < fallbacks[f].1.len() && #[trigger] fallbacks[f].1[m] == one.1
                &&& exists|i: int, b: int|
                    0 <= i < specs.len() && 0 <= b < specs[i].branches.len() && (
                    #[trigger] specs[i].branches[b]).0 == one
            }
        }),
{
    let sets = declared_sets(specs);
    let out = sets_completed(selections, fallbacks, specs, sets);
    let one = out[at];
    lemma_completed(selections, fallbacks, specs, sets);
    lemma_declared(specs, one.0);
    if !is_inside(specs, one) {
        assert(is_fallback(fallbacks, specs, one));
        let f = choose|f: int|
            0 <= f < fallbacks.len() && (#[trigger] fallbacks[f]).0 == one.0 && (forall|g: int|
                0 <= g < f ==> (#[trigger] fallbacks[g]).0 != one.0) && is_earliest(
                specs,
                one.0,
                fallbacks[f].1,
                one.1,
            );
        let variants = fallbacks[f].1;
        let m = choose|m: int|
            0 <= m < variants.len() && #[trigger] variants[m] == one.1 && in_branch(
                specs,
                one.0,
                one.1,
            ) && forall|k: int| 0 <= k < m ==> !in_branch(specs, one.0, #[trigger] variants[k]);
        assert(fallbacks[f].1[m] == one.1);
    }
}

/// What is selected inside the branches of a selection that completing adds is
/// completed too: in every spec that has the branch, each set selected inside
/// it has a selection.
pub proof fn law_added_selections_are_followed(
    selections: Seq<(TokenId, TokenId)>,
    fallbacks: Seq<(TokenId, Seq<TokenId>)>,
    specs: Seq<VariantsView>,
    at: int,
    i: int,
    b: int,
    k: int,
)
    requires
        selections.len() <= at < sets_completed(
            selections,
            fallbacks,
            specs,
            declared_sets(specs),
        ).len(),
        0 <= i < specs.len(),
        0 <= b < specs[i].branches.len(),
        specs[i].branches[b].0 == sets_completed(
            selections,
            fallbacks,
            specs,
            declared_sets(specs),
        )[at],
        forall|c: int|
            0 <= c < b ==> (#[trigger] specs[i].branches[c]).0 != specs[i].branches[b].0,
        0 <= k < specs[i].branches[b].1.len(),
    ensures
        exists|j: int|
            0 <= j < sets_completed(selections, fallbacks, specs, declared_sets(specs)).len() && (
            #[trigger] sets_completed(selections, fallbacks, specs, declared_sets(specs))[j]).0
                == specs[i].branches[b].1[k].0,
{
    let sets = declared_sets(specs);
    let out = sets_completed(selections, fallbacks, specs, sets);
    lemma_completed(selections, fallbacks, specs, sets);
    assert(all_followed(specs, out[at], out));
    assert(branch_followed(specs[i], out[at], out));
    assert(is_selected(out, specs[i].branches[b].1[k].0));
}

/// Completing never selects a second variant for a set.
pub proof fn law_a_set_is_selected_once(
    selections: Seq<(TokenId, TokenId)>,
    fallbacks: Seq<(TokenId, Seq<TokenId>)>,
    specs: Seq<VariantsView>,
)
    requires
        forall|i: int, j: int|
            0 <= i < j < selections.len() ==> (#[trigger] selections[i]).0 != (
            #[trigger] selections[j]).0,
    ensures
        ({
            let out = sets_completed(selections, fallbacks, specs, declared_sets(specs));
            forall|i: int, j: int|
                0 <= i < j < out.len() ==> (#[trigger] out[i]).0 != (#[trigger] out[j]).0
        }),
{
    lemma_completed(selections, fallbacks, specs, declared_sets(specs));
}

/// Of the selections authored for a set the first is kept, and no other.
pub proof fn law_the_first_authored_selection_is_kept(authored: Seq<(TokenId, TokenId)>, at: int)
    requires
        0 <= at < authored.len(),
    ensures
        strongest_selections(authored).contains(authored[at]) <==> exists|i: int|
            0 <= i < authored.len() && #[trigger] authored[i] == authored[at] && forall|k: int|
                0 <= k < i ==> (#[trigger] authored[k]).0 != authored[at].0,
        exists|j: int|
            0 <= j < strongest_selections(authored).len() && (
            #[trigger] strongest_selections(authored)[j]).0 == authored[at].0,
{
    lemma_strongest(authored);
    let out = strongest_selections(authored);
    let set = authored[at].0;
    lemma_place_of(authored, set, 0);
    let first = place_of(authored, set, 0);
    if first > at {
        assert(authored[at].0 != set);
    }
    assert(out.contains(authored[first]));
    let j = choose|j: int| 0 <= j < out.len() && out[j] == authored[first];
    assert(out[j].0 == set);
    if out.contains(authored[at]) {
        let l = choose|l: int| 0 <= l < out.len() && out[l] == authored[at];
        assert(out[l].0 == out[j].0);
        assert(l == j);
        assert(authored[first] == authored[at]);
    }
    if exists|i: int|
        0 <= i < authored.len() && #[trigger] authored[i] == authored[at] && forall|k: int|
            0 <= k < i ==> (#[trigger] authored[k]).0 != authored[at].0 {
        let i = choose|i: int|
            0 <= i < authored.len() && #[trigger] authored[i] == authored[at] && forall|k: int|
                0 <= k < i ==> (#[trigger] authored[k]).0 != authored[at].0;
        if first < i {
            assert(authored[first].0 != set);
        }
        if i < first {
            assert(authored[i].0 != set);
        }
    }
}

proof fn lemma_strongest(authored: Seq<(TokenId, TokenId)>)
    ensures
        once_each(strongest_selections(authored)),
        forall|i: int|
            0 <= i < authored.len() && (forall|k: int|
                0 <= k < i ==> (#[trigger] authored[k]).0 != authored[i].0)
                ==> strongest_selections(authored).contains(#[trigger] authored[i]),
        forall|set: TokenId| #[trigger]
            is_selected(strongest_selections(authored), set) ==> is_selected(authored, set),
    decreases authored.len(),
{
    if authored.len() > 0 {
        let rest = authored.drop_last();
        let last = authored.last();
        lemma_strongest(rest);
        let earlier = strongest_selections(rest);
        let out = strongest_selections(authored);
        let n = authored.len() - 1;
        assert(authored[n] == last);
        lemma_selected(earlier, last.0);
        assert forall|i: int|
            0 <= i < authored.len() && (forall|k: int|
                0 <= k < i ==> (#[trigger] authored[k]).0 != authored[i].0) implies out.contains(
            #[trigger] authored[i],
        ) by {
            if i < n {
                assert(rest[i] == authored[i]);
                assert forall|k: int| 0 <= k < i implies (#[trigger] rest[k]).0 != rest[i].0 by {
                    assert(rest[k] == authored[k]);
                }
                assert(earlier.contains(rest[i]));
                let j = choose|j: int| 0 <= j < earlier.len() && earlier[j] == rest[i];
                assert(out[j] == rest[i]);
            } else if is_selected(earlier, last.0) {
                assert(is_selected(rest, last.0));
                let k = choose|k: int| 0 <= k < rest.len() && (#[trigger] rest[k]).0 == last.0;
                assert(authored[k].0 == last.0);
            } else {
                assert(out[earlier.len() as int] == last);
            }
        }
        assert forall|set: TokenId| #[trigger] is_selected(out, set) implies is_selected(
            authored,
            set,
        ) by {
            let j = choose|j: int| 0 <= j < out.len() && (#[trigger] out[j]).0 == set;
            if j < earlier.len() {
                assert(earlier[j].0 == set);
                assert(is_selected(earlier, set));
                let k = choose|k: int| 0 <= k < rest.len() && (#[trigger] rest[k]).0 == set;
                assert(authored[k].0 == set);
            } else {
                assert(authored[n].0 == set);
            }
        }
    }
}

} // verus!
