//! Series of composed values.
//!
//! The samples of opinions compose into a series, strongest over weakest. The
//! plan of [`crate::series`] composes times and records which samples each
//! composed sample is made of; here the values themselves are composed, sample
//! by sample. Both come to the same.

use crate::arrays::{applied, array_seed, folded, ArrayFold};
use crate::doc::{OpView, ValueView};
use crate::opinion::OpinionView;
use crate::series::{
    at_time, bracket_entries, bracket_of, composed_under, entry_chain, entry_place, held_entry,
    in_family, is_infinite, kept_inside, merge_next, merge_step, merged_from, picked, plan_step,
    planned, strong_first, trimmed, AtTimeView, BracketView, EntryView, InterpolationType, Pick,
    Plan,
};
use crate::times::{is_at_or_before, is_before, is_close, is_same, Times};
use vstd::prelude::*;

verus! {

// ── Samples ─────────────────────────────────────────────────────────────

/// A sample of a series of composed values.
pub enum Sample {
    /// Edits, which compose over weaker samples.
    Edits(Seq<OpView>),
    /// What weaker samples have no part in.
    Ended(ArrayFold),
}

/// A sample and its stage time.
pub struct SampleEntry {
    pub time: u64,
    pub sample: Sample,
}

/// The sample that a value is: an array, an edit or a block, and nothing where
/// it is none of these.
pub open spec fn own_sample(value: Option<ValueView>) -> Sample {
    match value {
        Some(ValueView::ArrayEdit(ops)) => Sample::Edits(ops),
        Some(ValueView::Array(items)) => Sample::Ended(ArrayFold::Items(items)),
        Some(ValueView::Blocked) => Sample::Ended(ArrayFold::Blocked),
        _ => Sample::Ended(ArrayFold::Absent),
    }
}

/// A stronger sample composed over a weaker one: edits join edits, apply to
/// arrays, and apply to the seed where the weaker sample is a block or no
/// array.
pub open spec fn over(
    strong: Sample,
    weak: Sample,
    seed: Seq<ValueView>,
    fill: Option<ValueView>,
) -> Sample {
    match (strong, weak) {
        (Sample::Ended(_), _) => strong,
        (Sample::Edits(ops), Sample::Edits(weaker)) => Sample::Edits(weaker + ops),
        (Sample::Edits(ops), Sample::Ended(ArrayFold::Items(items))) => Sample::Ended(
            ArrayFold::Items(applied(items, ops, fill)),
        ),
        (Sample::Edits(ops), Sample::Ended(_)) => Sample::Ended(
            ArrayFold::Items(applied(seed, ops, fill)),
        ),
    }
}

/// What a sample comes to once nothing weaker is left.
pub open spec fn finished(
    sample: Sample,
    fallback: Option<ValueView>,
    fill: Option<ValueView>,
) -> ArrayFold {
    let seed = array_seed(fallback, fill);
    match sample {
        Sample::Edits(ops) => ArrayFold::Items(applied(seed, ops, fill)),
        Sample::Ended(ArrayFold::Absent) => if fallback is Some {
            ArrayFold::Items(seed)
        } else {
            ArrayFold::Absent
        },
        Sample::Ended(fold) => fold,
    }
}

// ── Series ──────────────────────────────────────────────────────────────

/// The distinct samples of a bracket, as a series.
pub open spec fn bracket_samples(bracket: BracketView) -> Seq<SampleEntry> {
    let lower = SampleEntry { time: bracket.lower.0, sample: own_sample(bracket.lower.1) };
    let upper = SampleEntry { time: bracket.upper.0, sample: own_sample(bracket.upper.1) };
    if is_same(bracket.upper.0, bracket.lower.0) {
        seq![lower]
    } else {
        seq![lower, upper]
    }
}

/// The sample of a series that is held at `time` while merging, where `next`
/// is the next one that has not been merged.
pub open spec fn held_sample(
    series: Seq<SampleEntry>,
    next: int,
    time: u64,
    times: Times,
) -> Sample {
    if next == series.len() || (next != 0 && !is_close(times, series[next].time, time)) {
        series[next - 1].sample
    } else {
        series[next].sample
    }
}

/// The series that come of merging two from `i` and `j` on: each stronger
/// sample over the weaker one held at its time, and each weaker sample beneath
/// the edits held at its time. Samples of the two at times taken for one merge
/// into one.
pub open spec fn samples_from(
    strong: Seq<SampleEntry>,
    weak: Seq<SampleEntry>,
    i: int,
    j: int,
    seed: Seq<ValueView>,
    fill: Option<ValueView>,
    times: Times,
) -> Seq<SampleEntry>
    decreases strong.len() - i + weak.len() - j,
{
    if i < 0 || j < 0 || i > strong.len() || j > weak.len() || (i >= strong.len() && j
        >= weak.len()) {
        seq![]
    } else if i < strong.len() && (j >= weak.len() || is_at_or_before(
        strong[i].time,
        weak[j].time,
    )) {
        let held = held_sample(weak, j, strong[i].time, times);
        let both = j < weak.len() && is_close(times, strong[i].time, weak[j].time);
        let on = if j >= weak.len() {
            (i + 1, j)
        } else if both {
            (i + 1, j + 1)
        } else if is_before(strong[i].time, weak[j].time) {
            (i + 1, j)
        } else {
            (i, j + 1)
        };
        seq![
            SampleEntry { time: strong[i].time, sample: over(strong[i].sample, held, seed, fill) },
        ] + samples_from(strong, weak, on.0, on.1, seed, fill, times)
    } else {
        let held = held_sample(strong, i, weak[j].time, times);
        let both = i < strong.len() && is_close(times, strong[i].time, weak[j].time);
        let on = if both {
            (i + 1, j + 1)
        } else if i < strong.len() && is_before(strong[i].time, weak[j].time) {
            (i + 1, j)
        } else {
            (i, j + 1)
        };
        let rest = samples_from(strong, weak, on.0, on.1, seed, fill, times);
        if held is Edits {
            seq![
                SampleEntry { time: weak[j].time, sample: over(held, weak[j].sample, seed, fill) },
            ] + rest
        } else {
            rest
        }
    }
}

/// A stronger series composed over a weaker one.
pub open spec fn samples_under(
    strong: Seq<SampleEntry>,
    weak: Seq<SampleEntry>,
    seed: Seq<ValueView>,
    fill: Option<ValueView>,
    times: Times,
) -> Seq<SampleEntry> {
    if strong.len() == 0 {
        weak
    } else {
        samples_from(strong, weak, 0, 0, seed, fill, times)
    }
}

/// The first place, from `from` on, of a sample that is not before `time`.
pub open spec fn sample_place(series: Seq<SampleEntry>, time: u64, from: int) -> int
    decreases series.len() - from,
{
    if from < 0 || from >= series.len() {
        series.len() as int
    } else if is_before(series[from].time, time) {
        sample_place(series, time, from + 1)
    } else {
        from
    }
}

/// The samples of a series that bracket `time`.
pub open spec fn samples_trimmed(series: Seq<SampleEntry>, time: u64) -> Seq<SampleEntry> {
    let last = series.len() - 1;
    let next = kept_inside(sample_place(series, time, 0), last);
    if series.len() == 0 {
        series
    } else if last == 0 || is_at_or_before(time, series[0].time) {
        seq![series[0]]
    } else if is_at_or_before(series[last].time, time) {
        seq![series[last]]
    } else if is_same(series[next].time, time) {
        seq![series[next]]
    } else {
        seq![series[next - 1], series[next]]
    }
}

// ── Opinions ────────────────────────────────────────────────────────────

/// How far composing the series of opinions has come: whether any has samples,
/// the composed samples that bracket the time, the time that weaker opinions
/// are bracketed at, and whether they are hidden.
pub struct Composing {
    pub any: bool,
    pub series: Seq<SampleEntry>,
    pub query: u64,
    pub done: bool,
}

/// Composing the samples of one more opinion.
pub open spec fn composing_step(
    before: Composing,
    opinion: OpinionView,
    time: u64,
    interpolation: InterpolationType,
    seed: Seq<ValueView>,
    fill: Option<ValueView>,
    times: Times,
) -> Composing {
    if before.done {
        before
    } else {
        match bracket_of(opinion, before.query, interpolation, times) {
            None => before,
            Some(bracket) => {
                let series = samples_trimmed(
                    samples_under(before.series, bracket_samples(bracket), seed, fill, times),
                    time,
                );
                let lower_ends = series.len() > 0 && series[0].sample is Ended;
                let upper_ends = series.len() > 0 && series.last().sample is Ended;
                Composing {
                    any: true,
                    series,
                    query: if lower_ends && !(upper_ends || interpolation
                        == InterpolationType::Held) {
                        series.last().time
                    } else {
                        before.query
                    },
                    done: series.len() == 0 || (lower_ends && (upper_ends || interpolation
                        == InterpolationType::Held)),
                }
            },
        }
    }
}

/// Composing the samples of a chain of opinions, strongest first.
pub open spec fn composing(
    opinions: Seq<OpinionView>,
    time: u64,
    interpolation: InterpolationType,
    seed: Seq<ValueView>,
    fill: Option<ValueView>,
    times: Times,
) -> Composing
    decreases opinions.len(),
{
    if opinions.len() == 0 {
        Composing { any: false, series: seq![], query: time, done: false }
    } else {
        composing_step(
            composing(opinions.drop_last(), time, interpolation, seed, fill, times),
            opinions.last(),
            time,
            interpolation,
            seed,
            fill,
            times,
        )
    }
}

/// What a chain of opinions comes to at a time when the series of their values
/// compose.
pub open spec fn series_at_time(
    opinions: Seq<OpinionView>,
    time: u64,
    interpolation: InterpolationType,
    fallback: Option<ValueView>,
    fill: Option<ValueView>,
    times: Times,
) -> AtTimeView {
    let seed = array_seed(fallback, fill);
    let composed = composing(opinions, time, interpolation, seed, fill, times);
    if composed.series.len() == 0 {
        if composed.any {
            AtTimeView::Blocked
        } else if fallback is Some {
            AtTimeView::Held(seed)
        } else {
            AtTimeView::NotApplicable
        }
    } else {
        let lower = composed.series[0];
        let upper = composed.series.last();
        match finished(lower.sample, fallback, fill) {
            ArrayFold::Absent => AtTimeView::NotApplicable,
            ArrayFold::Blocked => AtTimeView::Blocked,
            ArrayFold::Items(items) => {
                if interpolation == InterpolationType::Held || is_same(upper.time, lower.time)
                    || is_infinite(lower.time) {
                    AtTimeView::Held(items)
                } else {
                    match finished(upper.sample, fallback, fill) {
                        ArrayFold::Items(next) => AtTimeView::Between(
                            items,
                            lower.time,
                            next,
                            upper.time,
                        ),
                        _ => AtTimeView::Held(items),
                    }
                }
            },
        }
    }
}

// ── Plans stand for series ──────────────────────────────────────────────

/// The sample that picks stand for: the samples picked, strongest over
/// weakest.
spec fn sample_of(
    brackets: Seq<BracketView>,
    picks: Seq<Pick>,
    seed: Seq<ValueView>,
    fill: Option<ValueView>,
) -> Sample
    decreases picks.len(),
{
    if picks.len() == 0 {
        Sample::Edits(seq![])
    } else {
        let own = own_sample(picked(brackets[picks.len() - 1], picks.last()));
        if picks.len() == 1 {
            own
        } else {
            over(sample_of(brackets, picks.drop_last(), seed, fill), own, seed, fill)
        }
    }
}

/// The entry of values that a planned entry stands for.
spec fn entry_of(
    brackets: Seq<BracketView>,
    entry: EntryView,
    seed: Seq<ValueView>,
    fill: Option<ValueView>,
) -> SampleEntry {
    SampleEntry { time: entry.time, sample: sample_of(brackets, entry.picks, seed, fill) }
}

/// The series of values that a planned series stands for.
spec fn series_of(
    brackets: Seq<BracketView>,
    entries: Seq<EntryView>,
    seed: Seq<ValueView>,
    fill: Option<ValueView>,
) -> Seq<SampleEntry> {
    Seq::new(entries.len(), |i: int| entry_of(brackets, entries[i], seed, fill))
}

/// Whether a planned entry picks a sample of each bracket, and says whether
/// what it stands for is edits.
spec fn is_sound(
    brackets: Seq<BracketView>,
    entry: EntryView,
    seed: Seq<ValueView>,
    fill: Option<ValueView>,
) -> bool {
    entry.picks.len() == brackets.len() && entry.composes == (sample_of(
        brackets,
        entry.picks,
        seed,
        fill,
    ) is Edits)
}

spec fn all_sound(
    brackets: Seq<BracketView>,
    entries: Seq<EntryView>,
    seed: Seq<ValueView>,
    fill: Option<ValueView>,
) -> bool {
    forall|i: int| 0 <= i < entries.len() ==> is_sound(brackets, #[trigger] entries[i], seed, fill)
}

proof fn lemma_more_brackets(
    brackets: Seq<BracketView>,
    bracket: BracketView,
    picks: Seq<Pick>,
    seed: Seq<ValueView>,
    fill: Option<ValueView>,
)
    requires
        picks.len() <= brackets.len(),
    ensures
        sample_of(brackets.push(bracket), picks, seed, fill) == sample_of(
            brackets,
            picks,
            seed,
            fill,
        ),
    decreases picks.len(),
{
    if picks.len() > 0 {
        lemma_more_brackets(brackets, bracket, picks.drop_last(), seed, fill);
    }
}

/// A planned entry joined over one of the next bracket stands for the one
/// sample over the other.
proof fn lemma_joined(
    brackets: Seq<BracketView>,
    bracket: BracketView,
    strong: EntryView,
    pick: Pick,
    seed: Seq<ValueView>,
    fill: Option<ValueView>,
)
    requires
        brackets.len() > 0,
        is_sound(brackets, strong, seed, fill),
    ensures
        sample_of(brackets.push(bracket), strong.picks + seq![pick], seed, fill) == over(
            sample_of(brackets, strong.picks, seed, fill),
            own_sample(picked(bracket, pick)),
            seed,
            fill,
        ),
{
    let picks = strong.picks + seq![pick];
    assert(picks.drop_last() =~= strong.picks);
    lemma_more_brackets(brackets, bracket, strong.picks, seed, fill);
}

/// The entries of a bracket pick its samples.
proof fn lemma_own_entries(bracket: BracketView)
    ensures
        bracket_entries(bracket).len() == bracket_samples(bracket).len(),
        bracket_entries(bracket).len() > 0,
        forall|j: int|
            0 <= j < bracket_entries(bracket).len() ==> {
                let entry = #[trigger] bracket_entries(bracket)[j];
                let own = bracket_samples(bracket)[j];
                &&& entry.time == own.time
                &&& entry.picks.len() == 1
                &&& own.sample == own_sample(picked(bracket, entry.picks[0]))
                &&& entry.picks =~= seq![entry.picks[0]]
                &&& entry.composes == (own.sample is Edits)
            },
{
}

/// Merging planned series and merging the series that they stand for come to
/// the same.
proof fn lemma_merged(
    brackets: Seq<BracketView>,
    bracket: BracketView,
    strong: Seq<EntryView>,
    i: int,
    j: int,
    seed: Seq<ValueView>,
    fill: Option<ValueView>,
    times: Times,
)
    requires
        brackets.len() > 0,
        strong.len() > 0,
        all_sound(brackets, strong, seed, fill),
        0 <= i <= strong.len(),
        0 <= j <= bracket_entries(bracket).len(),
    ensures
        ({
            let merged = merged_from(strong, bracket_entries(bracket), i, j, times);
            &&& all_sound(brackets.push(bracket), merged, seed, fill)
            &&& series_of(brackets.push(bracket), merged, seed, fill) == samples_from(
                series_of(brackets, strong, seed, fill),
                bracket_samples(bracket),
                i,
                j,
                seed,
                fill,
                times,
            )
        }),
    decreases strong.len() - i + bracket_entries(bracket).len() - j,
{
    let weak = bracket_entries(bracket);
    let own = bracket_samples(bracket);
    let all = brackets.push(bracket);
    let values = series_of(brackets, strong, seed, fill);
    let merged = merged_from(strong, weak, i, j, times);
    lemma_own_entries(bracket);
    if i >= strong.len() && j >= weak.len() {
        assert(series_of(all, merged, seed, fill) =~= seq![]);
    } else {
        let next = merge_next(strong, weak, i, j, times);
        let step = merge_step(strong, weak, i, j, times);
        let rest = merged_from(strong, weak, next.0, next.1, times);
        lemma_merged(brackets, bracket, strong, next.0, next.1, seed, fill, times);
        assert(merged == step + rest);
        if strong_first(strong, weak, i, j) {
            let held = held_entry(weak, j, strong[i].time, times);
            lemma_joined(brackets, bracket, strong[i], held.picks[0], seed, fill);
            assert(is_sound(brackets, strong[i], seed, fill));
            assert(values[i] == entry_of(brackets, strong[i], seed, fill));
            let entry = step[0];
            assert(entry.picks =~= strong[i].picks + seq![held.picks[0]]);
            assert(is_sound(all, entry, seed, fill));
        } else {
            let held = held_entry(strong, i, weak[j].time, times);
            let at = if i == strong.len() || (i != 0 && !is_close(
                times,
                strong[i].time,
                weak[j].time,
            )) {
                i - 1
            } else {
                i
            };
            assert(held == strong[at]);
            assert(is_sound(brackets, strong[at], seed, fill));
            assert(values[at] == entry_of(brackets, strong[at], seed, fill));
            lemma_joined(brackets, bracket, held, weak[j].picks[0], seed, fill);
            if held.composes {
                let entry = step[0];
                assert(entry.picks =~= held.picks + seq![weak[j].picks[0]]);
                assert(is_sound(all, entry, seed, fill));
            }
        }
        assert(all_sound(all, merged, seed, fill)) by {
            assert forall|k: int| 0 <= k < merged.len() implies is_sound(
                all,
                #[trigger] merged[k],
                seed,
                fill,
            ) by {
                if k >= step.len() {
                    assert(merged[k] == rest[k - step.len()]);
                }
            }
        }
        assert(series_of(all, merged, seed, fill) =~= series_of(all, step, seed, fill) + series_of(
            all,
            rest,
            seed,
            fill,
        ));
    }
}

proof fn lemma_place(
    brackets: Seq<BracketView>,
    entries: Seq<EntryView>,
    time: u64,
    from: int,
    seed: Seq<ValueView>,
    fill: Option<ValueView>,
)
    requires
        0 <= from <= entries.len(),
    ensures
        sample_place(series_of(brackets, entries, seed, fill), time, from) == entry_place(
            entries,
            time,
            from,
        ),
        from <= entry_place(entries, time, from) <= entries.len(),
    decreases entries.len() - from,
{
    if from < entries.len() {
        lemma_place(brackets, entries, time, from + 1, seed, fill);
    }
}

/// Trimming a planned series trims the one that it stands for.
proof fn lemma_trimmed(
    brackets: Seq<BracketView>,
    entries: Seq<EntryView>,
    time: u64,
    seed: Seq<ValueView>,
    fill: Option<ValueView>,
)
    requires
        all_sound(brackets, entries, seed, fill),
    ensures
        all_sound(brackets, trimmed(entries, time), seed, fill),
        series_of(brackets, trimmed(entries, time), seed, fill) == samples_trimmed(
            series_of(brackets, entries, seed, fill),
            time,
        ),
{
    let series = series_of(brackets, entries, seed, fill);
    lemma_place(brackets, entries, time, 0, seed, fill);
    assert(series_of(brackets, trimmed(entries, time), seed, fill) =~= samples_trimmed(
        series,
        time,
    ));
}

/// Whether a plan stands for what composing the series of values comes to.
spec fn stands_for(
    plan: Plan,
    composed: Composing,
    seed: Seq<ValueView>,
    fill: Option<ValueView>,
) -> bool {
    &&& all_sound(plan.brackets, plan.composed, seed, fill)
    &&& composed.series == series_of(plan.brackets, plan.composed, seed, fill)
    &&& composed.any == (plan.brackets.len() > 0)
    &&& composed.query == plan.query
    &&& composed.done == plan.done
    &&& plan.composed.len() > 0 ==> plan.brackets.len() > 0
    &&& !plan.done && plan.brackets.len() > 0 ==> plan.composed.len() > 0
}

proof fn lemma_step(
    plan: Plan,
    composed: Composing,
    opinion: OpinionView,
    time: u64,
    interpolation: InterpolationType,
    seed: Seq<ValueView>,
    fill: Option<ValueView>,
    times: Times,
)
    requires
        stands_for(plan, composed, seed, fill),
    ensures
        stands_for(
            plan_step(plan, opinion, time, interpolation, times),
            composing_step(composed, opinion, time, interpolation, seed, fill, times),
            seed,
            fill,
        ),
{
    if !plan.done {
        match bracket_of(opinion, plan.query, interpolation, times) {
            None => {},
            Some(bracket) => {
                let weak = bracket_entries(bracket);
                let all = plan.brackets.push(bracket);
                let under = composed_under(plan.composed, weak, times);
                lemma_own_entries(bracket);
                if plan.composed.len() == 0 {
                    assert(all =~= seq![bracket]);
                    assert forall|i: int| 0 <= i < weak.len() implies is_sound(
                        all,
                        #[trigger] weak[i],
                        seed,
                        fill,
                    ) by {
                        assert(weak[i].picks.last() == weak[i].picks[0]);
                    }
                    assert(series_of(all, weak, seed, fill) =~= bracket_samples(bracket)) by {
                        assert forall|i: int| 0 <= i < weak.len() implies entry_of(
                            all,
                            #[trigger] weak[i],
                            seed,
                            fill,
                        ) == bracket_samples(bracket)[i] by {
                            assert(weak[i].picks.last() == weak[i].picks[0]);
                        }
                    }
                } else {
                    lemma_merged(
                        plan.brackets,
                        bracket,
                        plan.composed,
                        0,
                        0,
                        seed,
                        fill,
                        times,
                    );
                }
                lemma_trimmed(all, under, time, seed, fill);
                let after = trimmed(under, time);
                if after.len() > 0 {
                    assert(is_sound(all, after[0], seed, fill));
                    assert(is_sound(all, after[after.len() - 1], seed, fill));
                }
            },
        }
    }
}

proof fn lemma_planned(
    opinions: Seq<OpinionView>,
    time: u64,
    interpolation: InterpolationType,
    seed: Seq<ValueView>,
    fill: Option<ValueView>,
    times: Times,
)
    ensures
        stands_for(
            planned(opinions, time, interpolation, times),
            composing(opinions, time, interpolation, seed, fill, times),
            seed,
            fill,
        ),
    decreases opinions.len(),
{
    if opinions.len() == 0 {
        assert(series_of(seq![], seq![], seed, fill) =~= seq![]);
    } else {
        lemma_planned(opinions.drop_last(), time, interpolation, seed, fill, times);
        lemma_step(
            planned(opinions.drop_last(), time, interpolation, times),
            composing(opinions.drop_last(), time, interpolation, seed, fill, times),
            opinions.last(),
            time,
            interpolation,
            seed,
            fill,
            times,
        );
    }
}

proof fn lemma_fold_shift(
    value: ValueView,
    rest: Seq<ValueView>,
    from: int,
    edits: Option<Seq<OpView>>,
    seed: Seq<ValueView>,
    fill: Option<ValueView>,
)
    requires
        0 <= from <= rest.len(),
    ensures
        folded(seq![value] + rest, from + 1, edits, seed, fill) == folded(
            rest,
            from,
            edits,
            seed,
            fill,
        ),
    decreases rest.len() - from,
{
    if from < rest.len() {
        assert((seq![value] + rest)[from + 1] == rest[from]);
        match (rest[from], edits) {
            (ValueView::ArrayEdit(weaker), None) => {
                lemma_fold_shift(value, rest, from + 1, Some(weaker), seed, fill);
            },
            (ValueView::ArrayEdit(weaker), Some(ops)) => {
                lemma_fold_shift(value, rest, from + 1, Some(weaker + ops), seed, fill);
            },
            _ => {
                lemma_fold_shift(value, rest, from + 1, edits, seed, fill);
            },
        }
    }
}

/// What was ended stays.
proof fn lemma_ended_stays(
    brackets: Seq<BracketView>,
    picks: Seq<Pick>,
    from: int,
    seed: Seq<ValueView>,
    fill: Option<ValueView>,
)
    requires
        0 < from <= picks.len(),
        sample_of(brackets, picks.take(from), seed, fill) is Ended,
    ensures
        sample_of(brackets, picks, seed, fill) == sample_of(
            brackets,
            picks.take(from),
            seed,
            fill,
        ),
    decreases picks.len() - from,
{
    if from == picks.len() {
        assert(picks.take(from) =~= picks);
    } else {
        assert(picks.take(from + 1).drop_last() =~= picks.take(from));
        assert(sample_of(brackets, picks.take(from + 1), seed, fill) == sample_of(
            brackets,
            picks.take(from),
            seed,
            fill,
        ));
        lemma_ended_stays(brackets, picks, from + 1, seed, fill);
    }
}

/// Folding the picked samples from `from` on, with the edits that those before
/// it stand for, comes to what all of them stand for.
proof fn lemma_fold(
    brackets: Seq<BracketView>,
    picks: Seq<Pick>,
    from: int,
    edits: Option<Seq<OpView>>,
    fallback: Option<ValueView>,
    fill: Option<ValueView>,
)
    requires
        picks.len() == brackets.len(),
        0 <= from <= picks.len(),
        picks.len() > 0,
        match edits {
            None => from == 0,
            Some(ops) => from > 0 && sample_of(
                brackets,
                picks.take(from),
                array_seed(fallback, fill),
                fill,
            ) == Sample::Edits(ops),
        },
    ensures
        ({
            let seed = array_seed(fallback, fill);
            let fold = folded(entry_chain(brackets, picks, from), 0, edits, seed, fill);
            finished(sample_of(brackets, picks, seed, fill), fallback, fill) == (match fold {
                ArrayFold::Absent => if fallback is Some {
                    ArrayFold::Items(seed)
                } else {
                    ArrayFold::Absent
                },
                fold => fold,
            })
        }),
    decreases picks.len() - from,
{
    let seed = array_seed(fallback, fill);
    let chain = entry_chain(brackets, picks, from);
    if from == picks.len() {
        assert(picks.take(from) =~= picks);
        assert(chain =~= seq![]);
    } else {
        let value = picked(brackets[from], picks[from]);
        let upto = picks.take(from + 1);
        assert(upto.drop_last() =~= picks.take(from));
        assert(upto.last() == picks[from]);
        let reached = sample_of(brackets, upto, seed, fill);
        if in_family(value) {
            let rest = entry_chain(brackets, picks, from + 1);
            assert(chain == seq![value->0] + rest);
            assert(chain[0] == value->0);
            match (value->0, edits) {
                (ValueView::ArrayEdit(weaker), None) => {
                    lemma_fold_shift(value->0, rest, 0, Some(weaker), seed, fill);
                    lemma_fold(brackets, picks, from + 1, Some(weaker), fallback, fill);
                },
                (ValueView::ArrayEdit(weaker), Some(ops)) => {
                    lemma_fold_shift(value->0, rest, 0, Some(weaker + ops), seed, fill);
                    lemma_fold(brackets, picks, from + 1, Some(weaker + ops), fallback, fill);
                },
                _ => {
                    assert(reached is Ended);
                    lemma_ended_stays(brackets, picks, from + 1, seed, fill);
                },
            }
        } else {
            assert(chain =~= seq![]);
            assert(reached is Ended);
            lemma_ended_stays(brackets, picks, from + 1, seed, fill);
        }
    }
}

// ── Laws ────────────────────────────────────────────────────────────────

/// Planning which samples compose, and folding the values of those alone, comes
/// to what composing the series of values comes to, sample by sample.
pub proof fn law_plans_compose_the_series(
    opinions: Seq<OpinionView>,
    time: u64,
    interpolation: InterpolationType,
    fallback: Option<ValueView>,
    fill: Option<ValueView>,
    times: Times,
)
    ensures
        at_time(opinions, time, interpolation, fallback, fill, times) == series_at_time(
            opinions,
            time,
            interpolation,
            fallback,
            fill,
            times,
        ),
{
    let seed = array_seed(fallback, fill);
    let plan = planned(opinions, time, interpolation, times);
    lemma_planned(opinions, time, interpolation, seed, fill, times);
    if plan.composed.len() > 0 {
        let last = plan.composed.len() - 1;
        assert(is_sound(plan.brackets, plan.composed[0], seed, fill));
        assert(is_sound(plan.brackets, plan.composed[last], seed, fill));
        lemma_fold(plan.brackets, plan.composed[0].picks, 0, None, fallback, fill);
        lemma_fold(plan.brackets, plan.composed[last].picks, 0, None, fallback, fill);
    }
}

} // verus!
