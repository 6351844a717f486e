//! The folds behind a value that composes sparsely.

use crate::doc::{value_ref, Value, ValueView};
use crate::interpolation::{sparse_fits, resolve_sparse_value, sparse_value, QueryView, SparseQuery};
use crate::opinion::{opinions_view, Opinion, OpinionView};
use crate::property::{type_ref, PropertyType, TypeView};
use crate::series::{
    brackets_of, entries_of, picked, picked_time, plan_brackets, planned,
    planned_members, ArrayAtTime, Bracket, BracketView, Entry, EntryView, Pick,
};
use crate::stage::explain::{
    default_fold, follow_defaults, sample_folds, FoldEvent, FoldPart, SampleFold, SampleFoldView,
};
use crate::times::{TimeTable, Times};
use vstd::prelude::*;

verus! {

/// What becomes of a member of a fold of arrays, if it is one.
pub open spec fn part_of(value: Option<ValueView>) -> Option<FoldPart> {
    match value {
        Some(ValueView::Array(_)) => Some(FoldPart::Dense),
        Some(ValueView::ArrayEdit(_)) => Some(FoldPart::Sparse),
        Some(ValueView::Blocked) => Some(FoldPart::Block),
        _ => None,
    }
}

fn find_part(value: Option<&Value>) -> (part: Option<FoldPart>)
    ensures
        part == part_of(value_ref(value)),
{
    match value {
        Some(Value::Array(_)) => Some(FoldPart::Dense),
        Some(Value::ArrayEdit(_)) => Some(FoldPart::Sparse),
        Some(Value::Blocked) => Some(FoldPart::Block),
        _ => None,
    }
}

/// The samples that the fold of a composed sample visits, from `from` on: the
/// one that each opinion contributes, up to a dense array or a block, and not
/// from the first on that is no array, edit or block.
pub open spec fn entry_events(
    brackets: Seq<BracketView>,
    members: Seq<usize>,
    picks: Seq<Pick>,
    from: int,
) -> Seq<FoldEvent>
    decreases picks.len() - from,
{
    if from < 0 || from >= picks.len() || from >= brackets.len() {
        seq![]
    } else {
        match part_of(picked(brackets[from], picks[from])) {
            None => seq![],
            Some(part) => {
                let event = FoldEvent {
                    opinion: members[from],
                    time: picked_time(brackets[from], picks[from]),
                    part,
                };
                if part == FoldPart::Sparse {
                    seq![event] + entry_events(brackets, members, picks, from + 1)
                } else {
                    seq![event]
                }
            },
        }
    }
}

/// The fold of a composed sample: it composes over the fallback, where there is
/// one, unless it ends at a dense array.
pub open spec fn entry_fold(
    brackets: Seq<BracketView>,
    members: Seq<usize>,
    entry: EntryView,
    has_fallback: bool,
) -> SampleFoldView {
    let events = entry_events(brackets, members, entry.picks, 0);
    SampleFoldView {
        time: entry.time,
        events,
        uses_seed: has_fallback && !(events.len() > 0 && events.last().part == FoldPart::Dense),
    }
}

/// Follows the fold of a composed sample.
fn follow_entry(
    brackets: &Vec<Bracket<'_>>,
    members: &Vec<usize>,
    entry: &Entry,
    has_fallback: bool,
) -> (fold: SampleFold)
    requires
        members@.len() == brackets@.len(),
    ensures
        fold@ == entry_fold(brackets_of(brackets@), members@, entry@, has_fallback),
{
    let ghost shown = brackets_of(brackets@);
    let ghost expected = entry_events(shown, members@, entry@.picks, 0);
    let mut events: Vec<FoldEvent> = Vec::new();
    let mut open = true;
    let mut i: usize = 0;
    assert(events@ + entry_events(shown, members@, entry@.picks, 0) =~= expected);
    while open && i < entry.picks.len() && i < brackets.len()
        invariant
            i <= entry.picks@.len(),
            i <= brackets@.len(),
            members@.len() == brackets@.len(),
            shown == brackets_of(brackets@),
            open ==> expected == events@ + entry_events(shown, members@, entry@.picks, i as int),
            !open ==> expected == events@,
        decreases entry.picks@.len() - i, open as int,
    {
        assert(shown[i as int] == brackets@[i as int]@);
        let (time, value) = brackets[i].sample(entry.picks[i]);
        match find_part(value) {
            None => {
                open = false;
                assert(expected =~= events@);
            },
            Some(part) => {
                let ghost had = events@;
                let event = FoldEvent { opinion: members[i], time, part };
                events.push(event);
                if part == FoldPart::Sparse {
                    let ghost rest = entry_events(shown, members@, entry@.picks, i + 1);
                    assert(had + (seq![event] + rest) =~= events@ + rest);
                    i = i + 1;
                } else {
                    open = false;
                    assert(had + seq![event] =~= events@);
                }
            },
        }
    }
    assert(expected =~= events@);
    let ends_dense = events.len() > 0 && events[events.len() - 1].part == FoldPart::Dense;
    SampleFold { time: entry.time, events, uses_seed: has_fallback && !ends_dense }
}

/// The folds behind what a query over a chain of opinions comes to: that of the
/// defaults, or those of the composed samples that its value is made of, the
/// lower one and, where two arrays interpolate, the upper one. None where no
/// array takes part.
pub open spec fn sparse_folds(
    opinions: Seq<OpinionView>,
    query: QueryView,
    property_type: Option<TypeView>,
    times: Times,
) -> Seq<SampleFoldView> {
    let value = sparse_value(opinions, query, property_type, times);
    let has_fallback = query.fallback() is Some;
    if value is NotApplicable {
        seq![]
    } else {
        match query {
            QueryView::Default { .. } => seq![default_fold(opinions, has_fallback)],
            QueryView::AtTime { time, interp, .. } => {
                let plan = planned(opinions, time, interp, times);
                let members = planned_members(opinions, time, interp, times);
                if plan.composed.len() == 0 {
                    seq![]
                } else {
                    let lower = entry_fold(
                        plan.brackets,
                        members,
                        plan.composed[0],
                        has_fallback,
                    );
                    if value is Between {
                        let upper = entry_fold(
                            plan.brackets,
                            members,
                            plan.composed.last(),
                            has_fallback,
                        );
                        seq![lower, upper]
                    } else {
                        seq![lower]
                    }
                }
            },
        }
    }
}

/// Resolves a query over a chain of opinions, strongest first, whose values
/// compose sparsely, with the folds behind what it comes to.
pub fn explain_sparse_value(
    opinions: &Vec<Opinion>,
    query: SparseQuery<'_>,
    property_type: Option<&PropertyType>,
    times: &TimeTable,
) -> (out: (ArrayAtTime, Vec<SampleFold>))
    requires
        sparse_fits(opinions_view(opinions@), query@, type_ref(property_type), times@),
    ensures
        out.0@ == sparse_value(
            opinions_view(opinions@),
            query@,
            type_ref(property_type),
            times@,
        ),
        sample_folds(out.1@) == sparse_folds(
            opinions_view(opinions@),
            query@,
            type_ref(property_type),
            times@,
        ),
{
    let value = resolve_sparse_value(opinions, query, property_type, times);
    let mut folds: Vec<SampleFold> = Vec::new();
    assert(sample_folds(folds@) =~= seq![]);
    let between = match &value {
        ArrayAtTime::NotApplicable => {
            return (value, folds);
        },
        ArrayAtTime::Between(_, _, _, _) => true,
        _ => false,
    };
    match query {
        SparseQuery::Default { fallback } => {
            folds.push(follow_defaults(opinions, fallback.is_some()));
            assert(sample_folds(folds@) =~= seq![folds@[0]@]);
        },
        SparseQuery::AtTime { time, interp, fallback } => {
            let has_fallback = fallback.is_some();
            let (brackets, composed, members) = plan_brackets(opinions, time, interp, times);
            let ghost shown = entries_of(composed@);
            if composed.len() > 0 {
                let last = composed.len() - 1;
                assert(shown[0] == composed@[0]@);
                assert(shown.last() == composed@[last as int]@);
                folds.push(follow_entry(&brackets, &members, &composed[0], has_fallback));
                assert(sample_folds(folds@) =~= seq![folds@[0]@]);
                if between {
                    folds.push(follow_entry(&brackets, &members, &composed[last], has_fallback));
                    assert(sample_folds(folds@) =~= seq![folds@[0]@, folds@[1]@]);
                }
            }
        },
    }
    (value, folds)
}

} // verus!
