//! Array values at a time.
//!
//! An edit sampled at one time and an array sampled at another compose at
//! matching times, and interpolation sees composed values. So the bracketing
//! samples of each opinion compose, strongest over weakest, into a series that
//! is trimmed to the samples that bracket the time asked for. The series holds
//! times and which samples each composed sample is made of; the values are
//! folded for the one or two samples that are read in the end.

use crate::arrays::{
    array_seed, chain_fits, fold_array_chain, folded, lemma_fold_load, refs_view, seed_fits, seed_of,
    seed_room, shapes_of,
    ArrayFold, FoldedArray,
};
use crate::doc::{
    value_option, value_ref, values_view, Value, ValueView, DOUBLE_INFINITY, DOUBLE_SIGN,
};
use crate::opinion::{opinions_view, Opinion, OpinionView};
use crate::property::{samples_view, TimeSample};
use crate::times::{
    at_or_before, before, is_at_or_before, is_before, is_close, is_same, layer_time, same,
    stage_time, TimeTable, Times, EARLIEST,
};
use vstd::prelude::*;

verus! {

/// How samples are read between their times.
#[derive(Clone, Copy, Debug, PartialEq, Eq, Structural, Hash)]
pub enum InterpolationType {
    /// The lower sample holds.
    Held,
    /// The samples on either side interpolate.
    Linear,
}

// ── Bracketing samples ──────────────────────────────────────────────────

/// The first place, from `from` on, whose time is not before `time`; the
/// length when there is none.
pub open spec fn place_in_time<T>(samples: Seq<(u64, T)>, time: u64, from: int) -> int
    decreases samples.len() - from,
{
    if from < 0 || from >= samples.len() {
        samples.len() as int
    } else if is_before(samples[from].0, time) {
        place_in_time(samples, time, from + 1)
    } else {
        from
    }
}

/// A place, kept between the second and the last.
pub open spec fn kept_inside(place: int, last: int) -> int {
    if place > last {
        last
    } else if place < 1 && last >= 1 {
        1
    } else {
        place
    }
}

/// The places of the samples that bracket a layer time: that of the sample at
/// the time, else those on either side, the first or the last outside the
/// range of the samples. Only the lower one counts where samples are held, or
/// where the two are taken for one.
pub open spec fn sample_places<T>(
    samples: Seq<(u64, T)>,
    time: u64,
    interpolation: InterpolationType,
    times: Times,
) -> (int, int) {
    let last = samples.len() - 1;
    let next = kept_inside(place_in_time(samples, time, 0), last);
    if is_at_or_before(time, samples[0].0) {
        (0, 0)
    } else if is_at_or_before(samples[last].0, time) {
        (last, last)
    } else if next < 1 {
        (0, 0)
    } else if is_same(samples[next].0, time) {
        (next, next)
    } else if interpolation == InterpolationType::Held || is_close(
        times,
        samples[next - 1].0,
        samples[next].0,
    ) {
        (next - 1, next - 1)
    } else {
        (next - 1, next)
    }
}

/// The samples of an opinion that bracket a time, with their stage times.
pub struct BracketView {
    pub lower: (u64, Option<ValueView>),
    pub upper: (u64, Option<ValueView>),
}

/// The samples of an opinion that bracket a stage time: its time samples, else
/// its spline, else its default, which is a sample before every time. A spline
/// has no array value. Nothing where the opinion has no value.
pub open spec fn bracket_of(
    opinion: OpinionView,
    query: u64,
    interpolation: InterpolationType,
    times: Times,
) -> Option<BracketView> {
    match opinion.value.time_samples() {
        Some(samples) => {
            if samples.len() == 0 {
                None
            } else {
                let places = sample_places(
                    samples,
                    layer_time(times, opinion.layer_offset, query),
                    interpolation,
                    times,
                );
                Some(
                    BracketView {
                        lower: (
                            stage_time(times, opinion.layer_offset, samples[places.0].0),
                            Some(samples[places.0].1),
                        ),
                        upper: (
                            stage_time(times, opinion.layer_offset, samples[places.1].0),
                            Some(samples[places.1].1),
                        ),
                    },
                )
            }
        },
        None => {
            if opinion.value.spline() is Some {
                Some(BracketView { lower: (EARLIEST, None), upper: (EARLIEST, None) })
            } else {
                match opinion.value.default_value() {
                    Some(value) => Some(
                        BracketView {
                            lower: (EARLIEST, Some(value)),
                            upper: (EARLIEST, Some(value)),
                        },
                    ),
                    None => None,
                }
            }
        },
    }
}

// ── Series ──────────────────────────────────────────────────────────────

/// Which of an opinion's bracketing samples a composed sample is made of.
#[derive(Clone, Copy, Debug, PartialEq, Eq, Structural)]
pub enum Pick {
    Lower,
    Upper,
}

/// A composed sample, without its value.
#[verifier::ext_equal]
pub struct EntryView {
    /// The stage time.
    pub time: u64,
    /// Whether it composes over weaker opinions: every sample that it is made
    /// of is an edit.
    pub composes: bool,
    /// The sample that each opinion contributes.
    pub picks: Seq<Pick>,
}

/// Whether a sample composes over weaker ones.
pub open spec fn sample_composes(value: Option<ValueView>) -> bool {
    value matches Some(ValueView::ArrayEdit(_))
}

/// The distinct samples of a bracket, as a series.
pub open spec fn bracket_entries(bracket: BracketView) -> Seq<EntryView> {
    let lower = EntryView {
        time: bracket.lower.0,
        composes: sample_composes(bracket.lower.1),
        picks: seq![Pick::Lower],
    };
    let upper = EntryView {
        time: bracket.upper.0,
        composes: sample_composes(bracket.upper.1),
        picks: seq![Pick::Upper],
    };
    if is_same(bracket.upper.0, bracket.lower.0) {
        seq![lower]
    } else {
        seq![lower, upper]
    }
}

/// The entry of a series that is held at `time` while merging, where `next` is
/// the next one that has not been merged.
pub open spec fn held_entry(series: Seq<EntryView>, next: int, time: u64, times: Times) -> EntryView {
    if next == series.len() || (next != 0 && !is_close(times, series[next].time, time)) {
        series[next - 1]
    } else {
        series[next]
    }
}

/// A stronger entry composed over a weaker one.
pub open spec fn joined(
    stronger: EntryView,
    weaker: EntryView,
    time: u64,
    composes: bool,
) -> EntryView {
    EntryView { time, composes, picks: stronger.picks + weaker.picks }
}

/// Whether the stronger series' next entry comes first.
pub open spec fn strong_first(
    strong: Seq<EntryView>,
    weak: Seq<EntryView>,
    i: int,
    j: int,
) -> bool {
    i < strong.len() && (j >= weak.len() || is_at_or_before(strong[i].time, weak[j].time))
}

/// What one step of merging adds: a stronger entry over the weaker one held at
/// its time, or a weaker entry where the stronger one held at its time
/// composes.
pub open spec fn merge_step(
    strong: Seq<EntryView>,
    weak: Seq<EntryView>,
    i: int,
    j: int,
    times: Times,
) -> Seq<EntryView> {
    if strong_first(strong, weak, i, j) {
        let held = held_entry(weak, j, strong[i].time, times);
        seq![joined(strong[i], held, strong[i].time, strong[i].composes && held.composes)]
    } else {
        let held = held_entry(strong, i, weak[j].time, times);
        if held.composes {
            seq![joined(held, weak[j], weak[j].time, weak[j].composes)]
        } else {
            seq![]
        }
    }
}

/// Where merging goes on after a step.
pub open spec fn merge_next(
    strong: Seq<EntryView>,
    weak: Seq<EntryView>,
    i: int,
    j: int,
    times: Times,
) -> (int, int) {
    if i >= strong.len() {
        (i, j + 1)
    } else if j >= weak.len() {
        (i + 1, j)
    } else if is_close(times, strong[i].time, weak[j].time) {
        (i + 1, j + 1)
    } else if is_before(strong[i].time, weak[j].time) {
        (i + 1, j)
    } else {
        (i, j + 1)
    }
}

/// The merge of two series from `i` and `j` on.
pub open spec fn merged_from(
    strong: Seq<EntryView>,
    weak: Seq<EntryView>,
    i: int,
    j: int,
    times: Times,
) -> Seq<EntryView>
    decreases strong.len() - i + weak.len() - j,
{
    if i < 0 || j < 0 || i > strong.len() || j > weak.len() || (i >= strong.len() && j
        >= weak.len()) {
        seq![]
    } else {
        let next = merge_next(strong, weak, i, j, times);
        merge_step(strong, weak, i, j, times) + merged_from(strong, weak, next.0, next.1, times)
    }
}

/// A stronger series composed over a weaker one.
pub open spec fn composed_under(
    strong: Seq<EntryView>,
    weak: Seq<EntryView>,
    times: Times,
) -> Seq<EntryView> {
    if strong.len() == 0 {
        weak
    } else {
        merged_from(strong, weak, 0, 0, times)
    }
}

/// The first place, from `from` on, of an entry that is not before `time`.
pub open spec fn entry_place(series: Seq<EntryView>, time: u64, from: int) -> int
    decreases series.len() - from,
{
    if from < 0 || from >= series.len() {
        series.len() as int
    } else if is_before(series[from].time, time) {
        entry_place(series, time, from + 1)
    } else {
        from
    }
}

/// The entries of a series that bracket `time`.
pub open spec fn trimmed(series: Seq<EntryView>, time: u64) -> Seq<EntryView> {
    let last = series.len() - 1;
    let next = kept_inside(entry_place(series, time, 0), last);
    if series.len() == 0 {
        series
    } else if last == 0 || is_at_or_before(time, series[0].time) {
        seq![series[0]]
    } else if is_at_or_before(series[last].time, time) {
        seq![series[last]]
    } else if is_same(series[next].time, time) {
        seq![series[next]]
    } else {
        seq![series[next - 1], series[next]]
    }
}

// ── The plan ────────────────────────────────────────────────────────────

/// The brackets of the opinions that take part, the composed samples that
/// bracket the time, the time that weaker opinions are bracketed at, and
/// whether they are hidden.
#[verifier::ext_equal]
pub struct Plan {
    pub brackets: Seq<BracketView>,
    pub composed: Seq<EntryView>,
    pub query: u64,
    pub done: bool,
}

/// The plan, once one more opinion is met.
pub open spec fn plan_step(
    plan: Plan,
    opinion: OpinionView,
    time: u64,
    interpolation: InterpolationType,
    times: Times,
) -> Plan {
    if plan.done {
        plan
    } else {
        match bracket_of(opinion, plan.query, interpolation, times) {
            None => plan,
            Some(bracket) => {
                let composed = trimmed(
                    composed_under(plan.composed, bracket_entries(bracket), times),
                    time,
                );
                let lower_ends = composed.len() > 0 && !composed[0].composes;
                let upper_ends = composed.len() > 0 && !composed.last().composes;
                Plan {
                    brackets: plan.brackets.push(bracket),
                    composed,
                    query: if lower_ends && !(upper_ends || interpolation
                        == InterpolationType::Held) {
                        composed.last().time
                    } else {
                        plan.query
                    },
                    done: composed.len() == 0 || (lower_ends && (upper_ends || interpolation
                        == InterpolationType::Held)),
                }
            },
        }
    }
}

/// The plan for a chain of opinions, strongest first.
pub open spec fn planned(
    opinions: Seq<OpinionView>,
    time: u64,
    interpolation: InterpolationType,
    times: Times,
) -> Plan
    decreases opinions.len(),
{
    if opinions.len() == 0 {
        Plan { brackets: seq![], composed: seq![], query: time, done: false }
    } else {
        plan_step(
            planned(opinions.drop_last(), time, interpolation, times),
            opinions.last(),
            time,
            interpolation,
            times,
        )
    }
}

/// The places of the opinions that take part in a plan, one for each bracket.
pub open spec fn planned_members(
    opinions: Seq<OpinionView>,
    time: u64,
    interpolation: InterpolationType,
    times: Times,
) -> Seq<usize>
    decreases opinions.len(),
{
    if opinions.len() == 0 {
        seq![]
    } else {
        let earlier = opinions.drop_last();
        let plan = planned(earlier, time, interpolation, times);
        let members = planned_members(earlier, time, interpolation, times);
        if plan.done || bracket_of(opinions.last(), plan.query, interpolation, times) is None {
            members
        } else {
            members.push(earlier.len() as usize)
        }
    }
}

/// The stage time of the sample that a bracket contributes to a pick.
pub open spec fn picked_time(bracket: BracketView, pick: Pick) -> u64 {
    match pick {
        Pick::Lower => bracket.lower.0,
        Pick::Upper => bracket.upper.0,
    }
}

/// The sample that a bracket contributes to a pick.
pub open spec fn picked(bracket: BracketView, pick: Pick) -> Option<ValueView> {
    match pick {
        Pick::Lower => bracket.lower.1,
        Pick::Upper => bracket.upper.1,
    }
}

/// Whether a value is an array, an edit or a block.
pub open spec fn in_family(value: Option<ValueView>) -> bool {
    value matches Some(value) && (value is Array || value is ArrayEdit || value is Blocked)
}

/// The samples that a composed sample is made of, strongest first, up to the
/// first that is no array, edit or block.
pub open spec fn entry_chain(brackets: Seq<BracketView>, picks: Seq<Pick>, from: int) -> Seq<
    ValueView,
>
    decreases picks.len() - from,
{
    if from < 0 || from >= picks.len() || from >= brackets.len() {
        seq![]
    } else {
        let value = picked(brackets[from], picks[from]);
        if in_family(value) {
            seq![value->0] + entry_chain(brackets, picks, from + 1)
        } else {
            seq![]
        }
    }
}

/// What an array attribute comes to at a time.
pub enum AtTimeView {
    /// No array takes part.
    NotApplicable,
    /// A block.
    Blocked,
    /// An array that holds.
    Held(Seq<ValueView>),
    /// Two arrays that interpolate, with their times.
    Between(Seq<ValueView>, u64, Seq<ValueView>, u64),
}

/// The array of one composed sample: what it folds to, or the fallback where
/// nothing contributes.
pub open spec fn entry_items(
    brackets: Seq<BracketView>,
    entry: EntryView,
    fallback: Option<ValueView>,
    fill: Option<ValueView>,
) -> ArrayFold {
    let seed = array_seed(fallback, fill);
    match folded(entry_chain(brackets, entry.picks, 0), 0, None, seed, fill) {
        ArrayFold::Absent => if fallback is Some {
            ArrayFold::Items(seed)
        } else {
            ArrayFold::Absent
        },
        fold => fold,
    }
}

/// Whether a time is before or after every other.
pub open spec fn is_infinite(time: u64) -> bool {
    time as int % DOUBLE_SIGN as int == DOUBLE_INFINITY
}

/// What a chain of opinions comes to at a time.
pub open spec fn at_time(
    opinions: Seq<OpinionView>,
    time: u64,
    interpolation: InterpolationType,
    fallback: Option<ValueView>,
    fill: Option<ValueView>,
    times: Times,
) -> AtTimeView {
    let plan = planned(opinions, time, interpolation, times);
    if plan.composed.len() == 0 {
        if plan.brackets.len() > 0 {
            AtTimeView::Blocked
        } else if fallback is Some {
            AtTimeView::Held(array_seed(fallback, fill))
        } else {
            AtTimeView::NotApplicable
        }
    } else {
        let lower = plan.composed[0];
        let upper = plan.composed.last();
        match entry_items(plan.brackets, lower, fallback, fill) {
            ArrayFold::Absent => AtTimeView::NotApplicable,
            ArrayFold::Blocked => AtTimeView::Blocked,
            ArrayFold::Items(items) => {
                if interpolation == InterpolationType::Held || is_same(upper.time, lower.time)
                    || is_infinite(lower.time) {
                    AtTimeView::Held(items)
                } else {
                    match entry_items(plan.brackets, upper, fallback, fill) {
                        ArrayFold::Items(next) => AtTimeView::Between(
                            items,
                            lower.time,
                            next,
                            upper.time,
                        ),
                        _ => AtTimeView::Held(items),
                    }
                }
            },
        }
    }
}

/// Whether a composed sample folds in memory: only the picked members that
/// its fold visits take room.
pub open spec fn entry_fits(
    brackets: Seq<BracketView>,
    entry: EntryView,
    fallback: Option<ValueView>,
    filled: bool,
) -> bool {
    chain_fits(entry_chain(brackets, entry.picks, 0), fallback, filled)
}

/// Whether an array attribute composes in memory at a time.
pub open spec fn fits_at_time(
    opinions: Seq<OpinionView>,
    time: u64,
    interpolation: InterpolationType,
    fallback: Option<ValueView>,
    filled: bool,
    times: Times,
) -> bool {
    let plan = planned(opinions, time, interpolation, times);
    &&& seed_fits(fallback, filled)
    &&& forall|i: int|
        0 <= i < plan.composed.len() ==> entry_fits(
            plan.brackets,
            #[trigger] plan.composed[i],
            fallback,
            filled,
        )
}

// ── Reading ─────────────────────────────────────────────────────────────

/// The samples of an opinion that bracket a time.
#[derive(Debug)]
pub struct Bracket<'o> {
    lower: (u64, Option<&'o Value>),
    upper: (u64, Option<&'o Value>),
}

impl<'o> View for Bracket<'o> {
    type V = BracketView;

    closed spec fn view(&self) -> BracketView {
        BracketView {
            lower: (self.lower.0, value_ref(self.lower.1)),
            upper: (self.upper.0, value_ref(self.upper.1)),
        }
    }
}

impl<'o> Bracket<'o> {
    /// The sample that this contributes to a pick, with its stage time.
    pub fn sample(&self, pick: Pick) -> (out: (u64, Option<&'o Value>))
        ensures
            out.0 == picked_time(self@, pick),
            value_ref(out.1) == picked(self@, pick),
    {
        match pick {
            Pick::Lower => self.lower,
            Pick::Upper => self.upper,
        }
    }
}

/// The places of the samples that bracket a layer time.
pub fn sample_bracket(
    samples: &Vec<TimeSample>,
    time: u64,
    interpolation: InterpolationType,
    times: &TimeTable,
) -> (places: (usize, usize))
    requires
        samples@.len() > 0,
    ensures
        (places.0 as int, places.1 as int) == sample_places(
            samples_view(samples@),
            time,
            interpolation,
            times@,
        ),
        places.0 < samples@.len(),
        places.1 < samples@.len(),
{
    let ghost shown = samples_view(samples@);
    let last = samples.len() - 1;
    if at_or_before(time, samples[0].0) {
        return (0, 0);
    }
    if at_or_before(samples[last].0, time) {
        return (last, last);
    }
    let mut next: usize = 0;
    while next < samples.len() && before(samples[next].0, time)
        invariant
            next <= samples@.len(),
            shown == samples_view(samples@),
            place_in_time(shown, time, 0) == place_in_time(shown, time, next as int),
        decreases samples@.len() - next,
    {
        next = next + 1;
    }
    let next = if next > last {
        last
    } else if next < 1 && last >= 1 {
        1
    } else {
        next
    };
    if next < 1 {
        return (0, 0);
    }
    if same(samples[next].0, time) {
        (next, next)
    } else if interpolation == InterpolationType::Held || times.times_close(
        samples[next - 1].0,
        samples[next].0,
    ) {
        (next - 1, next - 1)
    } else {
        (next - 1, next)
    }
}

/// The samples of an opinion that bracket a stage time.
fn bracket<'o>(
    opinion: &'o Opinion,
    query: u64,
    interpolation: InterpolationType,
    times: &TimeTable,
) -> (out: Option<Bracket<'o>>)
    ensures
        (match out {
            Some(bracket) => Some(bracket@),
            None => None,
        }) == bracket_of(opinion@, query, interpolation, times@),
{
    match opinion.value.time_samples() {
        Some(samples) => {
            if samples.len() == 0 {
                return None;
            }
            let ghost shown = samples_view(samples@);
            let offset = opinion.layer_offset;
            let places = sample_bracket(
                samples,
                times.to_layer_time(offset, query),
                interpolation,
                times,
            );
            proof {
                assert(shown[places.0 as int].1 == samples@[places.0 as int].1.view());
                assert(shown[places.1 as int].1 == samples@[places.1 as int].1.view());
            }
            let lower = &samples[places.0];
            let upper = &samples[places.1];
            Some(
                Bracket {
                    lower: (times.to_stage_time(offset, lower.0), Some(&lower.1)),
                    upper: (times.to_stage_time(offset, upper.0), Some(&upper.1)),
                },
            )
        },
        None => {
            if opinion.value.spline().is_some() {
                return Some(Bracket { lower: (EARLIEST, None), upper: (EARLIEST, None) });
            }
            match opinion.value.default_value() {
                Some(value) => Some(
                    Bracket { lower: (EARLIEST, Some(value)), upper: (EARLIEST, Some(value)) },
                ),
                None => None,
            }
        },
    }
}

/// A composed sample, without its value.
#[derive(Debug)]
pub struct Entry {
    /// The stage time.
    pub time: u64,
    /// Whether it composes over weaker opinions.
    pub composes: bool,
    /// The sample that each opinion contributes.
    pub picks: Vec<Pick>,
}

impl View for Entry {
    type V = EntryView;

    open spec fn view(&self) -> EntryView {
        EntryView { time: self.time, composes: self.composes, picks: self.picks@ }
    }
}

/// The values of a list of entries.
pub open spec fn entries_of(entries: Seq<Entry>) -> Seq<EntryView> {
    entries.map_values(|e: Entry| e@)
}

/// Copies a list of picks behind another.
fn copy_picks(out: &mut Vec<Pick>, picks: &Vec<Pick>)
    ensures
        final(out)@ == old(out)@ + picks@,
{
    let ghost first = out@;
    let mut i: usize = 0;
    assert(first + picks@.take(0) =~= first);
    while i < picks.len()
        invariant
            i <= picks@.len(),
            out@ == first + picks@.take(i as int),
        decreases picks@.len() - i,
    {
        out.push(picks[i]);
        i = i + 1;
        assert(out@ =~= first + picks@.take(i as int));
    }
    assert(picks@.take(i as int) =~= picks@);
}

impl Entry {
    fn copy(&self) -> (out: Entry)
        ensures
            out@ == self@,
    {
        let mut picks: Vec<Pick> = Vec::new();
        copy_picks(&mut picks, &self.picks);
        assert(picks@ =~= self.picks@);
        Entry { time: self.time, composes: self.composes, picks }
    }

    fn joined(&self, weaker: &Entry, time: u64, composes: bool) -> (out: Entry)
        ensures
            out@ == joined(self@, weaker@, time, composes),
    {
        let mut picks: Vec<Pick> = Vec::new();
        copy_picks(&mut picks, &self.picks);
        copy_picks(&mut picks, &weaker.picks);
        assert(picks@ =~= self.picks@ + weaker.picks@);
        Entry { time, composes, picks }
    }
}

/// Whether a sample composes over weaker ones.
fn composes_over(value: Option<&Value>) -> (yes: bool)
    ensures
        yes == sample_composes(value_ref(value)),
{
    match value {
        Some(Value::ArrayEdit(_)) => true,
        _ => false,
    }
}

/// The distinct samples of a bracket, as a series.
fn entries(bracket: &Bracket<'_>) -> (out: Vec<Entry>)
    ensures
        entries_of(out@) == bracket_entries(bracket@),
        out@.len() > 0,
{
    let mut out: Vec<Entry> = Vec::new();
    let mut lower: Vec<Pick> = Vec::new();
    lower.push(Pick::Lower);
    assert(lower@ =~= seq![Pick::Lower]);
    out.push(
        Entry {
            time: bracket.lower.0,
            composes: composes_over(bracket.lower.1),
            picks: lower,
        },
    );
    if !same(bracket.upper.0, bracket.lower.0) {
        let mut upper: Vec<Pick> = Vec::new();
        upper.push(Pick::Upper);
        assert(upper@ =~= seq![Pick::Upper]);
        out.push(
            Entry {
                time: bracket.upper.0,
                composes: composes_over(bracket.upper.1),
                picks: upper,
            },
        );
    }
    assert(entries_of(out@) =~= bracket_entries(bracket@));
    out
}

/// The entry of a series that is held at a time while merging.
fn held_while_merging<'e>(series: &'e Vec<Entry>, next: usize, time: u64, times: &TimeTable) -> (
out: &'e Entry)
    requires
        series@.len() > 0,
        next <= series@.len(),
    ensures
        out@ == held_entry(entries_of(series@), next as int, time, times@),
{
    if next == series.len() || (next != 0 && !times.times_close(series[next].time, time)) {
        &series[next - 1]
    } else {
        &series[next]
    }
}

/// Composes a stronger series over a weaker one.
fn compose_under(strong: &Vec<Entry>, weak: Vec<Entry>, times: &TimeTable) -> (out: Vec<Entry>)
    requires
        weak@.len() > 0,
    ensures
        entries_of(out@) == composed_under(entries_of(strong@), entries_of(weak@), times@),
{
    if strong.len() == 0 {
        return weak;
    }
    let ghost s = entries_of(strong@);
    let ghost w = entries_of(weak@);
    let ghost all = merged_from(s, w, 0, 0, times@);
    let mut out: Vec<Entry> = Vec::new();
    let mut i: usize = 0;
    let mut j: usize = 0;
    assert(entries_of(out@) + merged_from(s, w, 0, 0, times@) =~= all);
    while i < strong.len() || j < weak.len()
        invariant
            i <= strong@.len(),
            j <= weak@.len(),
            strong@.len() > 0,
            weak@.len() > 0,
            s == entries_of(strong@),
            w == entries_of(weak@),
            all == entries_of(out@) + merged_from(s, w, i as int, j as int, times@),
        decreases strong@.len() - i + weak@.len() - j,
    {
        let ghost before_out = entries_of(out@);
        let ghost step = merge_step(s, w, i as int, j as int, times@);
        let ghost next = merge_next(s, w, i as int, j as int, times@);
        let stronger_first = i < strong.len() && (j >= weak.len() || at_or_before(
            strong[i].time,
            weak[j].time,
        ));
        if stronger_first {
            let held = held_while_merging(&weak, j, strong[i].time, times);
            let entry = strong[i].joined(
                held,
                strong[i].time,
                strong[i].composes && held.composes,
            );
            let ghost had = out@;
            out.push(entry);
            assert(entries_of(out@) =~= entries_of(had).push(entry@));
            assert(entries_of(out@) =~= before_out + step);
        } else {
            let held = held_while_merging(strong, i, weak[j].time, times);
            if held.composes {
                let entry = held.joined(&weak[j], weak[j].time, weak[j].composes);
                let ghost had = out@;
                out.push(entry);
                assert(entries_of(out@) =~= entries_of(had).push(entry@));
            }
            assert(entries_of(out@) =~= before_out + step);
        }
        assert(all =~= entries_of(out@) + merged_from(s, w, next.0, next.1, times@));
        if i >= strong.len() {
            j = j + 1;
        } else if j >= weak.len() {
            i = i + 1;
        } else if times.times_close(strong[i].time, weak[j].time) {
            i = i + 1;
            j = j + 1;
        } else if before(strong[i].time, weak[j].time) {
            i = i + 1;
        } else {
            j = j + 1;
        }
    }
    assert(all =~= entries_of(out@));
    out
}

/// Trims a series to the entries that bracket a time.
fn bracketing(series: Vec<Entry>, time: u64) -> (out: Vec<Entry>)
    ensures
        entries_of(out@) == trimmed(entries_of(series@), time),
{
    if series.len() == 0 {
        return series;
    }
    let ghost shown = entries_of(series@);
    let last = series.len() - 1;
    let mut out: Vec<Entry> = Vec::new();
    if last == 0 || at_or_before(time, series[0].time) {
        out.push(series[0].copy());
        assert(entries_of(out@) =~= seq![shown[0]]);
        return out;
    }
    if at_or_before(series[last].time, time) {
        out.push(series[last].copy());
        assert(entries_of(out@) =~= seq![shown[last as int]]);
        return out;
    }
    let mut next: usize = 0;
    while next < series.len() && before(series[next].time, time)
        invariant
            next <= series@.len(),
            shown == entries_of(series@),
            entry_place(shown, time, 0) == entry_place(shown, time, next as int),
        decreases series@.len() - next,
    {
        next = next + 1;
    }
    let next = if next > last {
        last
    } else if next < 1 {
        1
    } else {
        next
    };
    if !same(series[next].time, time) {
        out.push(series[next - 1].copy());
    }
    out.push(series[next].copy());
    assert(entries_of(out@) =~= trimmed(shown, time));
    out
}

/// The values of a list of brackets.
pub open spec fn brackets_of(brackets: Seq<Bracket<'_>>) -> Seq<BracketView> {
    brackets.map_values(|b: Bracket<'_>| b@)
}

/// Composes the bracketing samples of the opinions, strongest first, into the
/// samples that bracket a time. Gives the brackets, the composed samples, and
/// the places of the opinions that the brackets are of.
pub fn plan_brackets<'o>(
    opinions: &'o Vec<Opinion>,
    time: u64,
    interpolation: InterpolationType,
    times: &TimeTable,
) -> (out: (Vec<Bracket<'o>>, Vec<Entry>, Vec<usize>))
    ensures
        out.2@ == planned_members(opinions_view(opinions@), time, interpolation, times@),
        out.2@.len() == out.0@.len(),
        brackets_of(out.0@) == planned(
            opinions_view(opinions@),
            time,
            interpolation,
            times@,
        ).brackets,
        entries_of(out.1@) == planned(
            opinions_view(opinions@),
            time,
            interpolation,
            times@,
        ).composed,
{
    let ghost all = opinions_view(opinions@);
    let mut brackets: Vec<Bracket<'o>> = Vec::new();
    let mut composed: Vec<Entry> = Vec::new();
    let mut members: Vec<usize> = Vec::new();
    let mut query = time;
    let mut done = false;
    let mut i: usize = 0;
    assert(all.take(0) =~= seq![]);
    assert(brackets_of(brackets@) =~= seq![]);
    assert(entries_of(composed@) =~= seq![]);
    assert(members@ =~= seq![]);
    while i < opinions.len()
        invariant
            i <= opinions@.len(),
            all == opinions_view(opinions@),
            (Plan {
                brackets: brackets_of(brackets@),
                composed: entries_of(composed@),
                query,
                done,
            }) == planned(all.take(i as int), time, interpolation, times@),
            members@ == planned_members(all.take(i as int), time, interpolation, times@),
            members@.len() == brackets@.len(),
        decreases opinions@.len() - i,
    {
        proof {
            assert(all.take(i + 1).drop_last() =~= all.take(i as int));
            assert(all.take(i + 1).last() == opinions@[i as int]@);
        }
        if !done {
            match bracket(&opinions[i], query, interpolation, times) {
                Some(one) => {
                    let ghost had = brackets@;
                    composed = bracketing(compose_under(&composed, entries(&one), times), time);
                    brackets.push(one);
                    members.push(i);
                    proof {
                        assert(brackets_of(brackets@) =~= brackets_of(had).push(one@));
                        assert(brackets_of(brackets@).drop_last() =~= brackets_of(had));
                    }
                    let count = composed.len();
                    assert(entries_of(composed@).len() == count);
                    if count == 0 {
                        done = true;
                    } else {
                        assert(entries_of(composed@)[0] == composed@[0]@);
                        assert(entries_of(composed@).last() == composed@[count - 1]@);
                        if !composed[0].composes {
                            if !composed[count - 1].composes || interpolation
                                == InterpolationType::Held {
                                done = true;
                            } else {
                                query = composed[count - 1].time;
                            }
                        }
                    }
                },
                None => {},
            }
        }
        i = i + 1;
    }
    assert(all.take(i as int) =~= all);
    (brackets, composed, members)
}

/// The members that one composed sample folds.
pub fn gather_entry<'o>(brackets: &Vec<Bracket<'o>>, entry: &Entry) -> (chain: Vec<&'o Value>)
    ensures
        refs_view(chain@) == entry_chain(brackets_of(brackets@), entry@.picks, 0),
{
    let ghost shown = brackets_of(brackets@);
    let ghost expected = entry_chain(shown, entry@.picks, 0);
    let mut chain: Vec<&'o Value> = Vec::new();
    let mut i: usize = 0;
    let mut open = true;
    assert(refs_view(chain@) + entry_chain(shown, entry@.picks, 0) =~= expected);
    while open && i < entry.picks.len() && i < brackets.len()
        invariant
            i <= entry.picks@.len(),
            i <= brackets@.len(),
            shown == brackets_of(brackets@),
            open ==> expected == refs_view(chain@) + entry_chain(
                shown,
                entry@.picks,
                i as int,
            ),
            !open ==> expected == refs_view(chain@),
        decreases entry.picks@.len() - i, open as int,
    {
        let bracket = &brackets[i];
        assert(shown[i as int] == bracket@);
        let value = bracket.sample(entry.picks[i]).1;
        assert(value_ref(value) == picked(shown[i as int], entry@.picks[i as int]));
        match value {
            Some(value) => {
                let folds = match value {
                    Value::Array(_) => true,
                    Value::ArrayEdit(_) => true,
                    Value::Blocked => true,
                    _ => false,
                };
                if folds {
                    let ghost had = chain@;
                    chain.push(value);
                    assert(refs_view(chain@) =~= refs_view(had).push(value.view()));
                    assert(expected =~= refs_view(chain@) + entry_chain(
                        shown,
                        entry@.picks,
                        i + 1,
                    ));
                    i = i + 1;
                } else {
                    open = false;
                    assert(expected =~= refs_view(chain@));
                }
            },
            None => {
                open = false;
                assert(expected =~= refs_view(chain@));
            },
        }
    }
    assert(expected =~= refs_view(chain@));
    chain
}

/// Folds the brackets into the array of one composed sample.
fn fold_entry(
    brackets: &Vec<Bracket<'_>>,
    entry: &Entry,
    fallback: Option<&Value>,
    fill: &Option<Value>,
) -> (out: FoldedArray)
    requires
        entry_fits(brackets_of(brackets@), entry@, value_ref(fallback), fill is Some),
    ensures
        out@ == entry_items(
            brackets_of(brackets@),
            entry@,
            value_ref(fallback),
            value_option(*fill),
        ),
{
    let chain = gather_entry(brackets, entry);
    let seed = seed_of(fallback, fill);
    proof {
        lemma_fold_load(
            shapes_of(refs_view(chain@), fill is Some),
            0,
            None,
            seed@.len(),
            seed_room(value_ref(fallback), fill is Some),
        );
    }
    match fold_array_chain(&chain, &seed, fill) {
        FoldedArray::Absent => {
            if fallback.is_some() {
                FoldedArray::Items(seed)
            } else {
                FoldedArray::Absent
            }
        },
        other => other,
    }
}

/// What an array attribute comes to at a time.
#[derive(Debug)]
pub enum ArrayAtTime {
    /// No array takes part.
    NotApplicable,
    /// A block.
    Blocked,
    /// An array that holds.
    Held(Vec<Value>),
    /// Two arrays that interpolate, with their times.
    Between(Vec<Value>, u64, Vec<Value>, u64),
}

impl View for ArrayAtTime {
    type V = AtTimeView;

    open spec fn view(&self) -> AtTimeView {
        match self {
            ArrayAtTime::NotApplicable => AtTimeView::NotApplicable,
            ArrayAtTime::Blocked => AtTimeView::Blocked,
            ArrayAtTime::Held(items) => AtTimeView::Held(values_view(items@)),
            ArrayAtTime::Between(lower, from, upper, to) => AtTimeView::Between(
                values_view(lower@),
                *from,
                values_view(upper@),
                *to,
            ),
        }
    }
}

/// Whether a time is before or after every other.
fn infinite(time: u64) -> (yes: bool)
    ensures
        yes == is_infinite(time),
{
    time % DOUBLE_SIGN == DOUBLE_INFINITY
}

/// Resolves an array attribute at a stage time: the bracketing samples of the
/// opinions compose, and the composed samples hold or interpolate.
pub fn resolve_array_at_time(
    opinions: &Vec<Opinion>,
    time: u64,
    interpolation: InterpolationType,
    fallback: Option<&Value>,
    fill: &Option<Value>,
    times: &TimeTable,
) -> (out: ArrayAtTime)
    requires
        fits_at_time(
            opinions_view(opinions@),
            time,
            interpolation,
            value_ref(fallback),
            fill is Some,
            times@,
        ),
    ensures
        out@ == at_time(
            opinions_view(opinions@),
            time,
            interpolation,
            value_ref(fallback),
            value_option(*fill),
            times@,
        ),
{
    let (brackets, composed, _) = plan_brackets(opinions, time, interpolation, times);
    if composed.len() == 0 {
        if brackets.len() > 0 {
            return ArrayAtTime::Blocked;
        }
        return if fallback.is_some() {
            ArrayAtTime::Held(seed_of(fallback, fill))
        } else {
            ArrayAtTime::NotApplicable
        };
    }
    let lower_entry = &composed[0];
    let upper_entry = &composed[composed.len() - 1];
    proof {
        assert(entries_of(composed@)[0] == lower_entry@);
        assert(entries_of(composed@).last() == upper_entry@);
    }
    let lower = match fold_entry(&brackets, lower_entry, fallback, fill) {
        FoldedArray::Absent => {
            return ArrayAtTime::NotApplicable;
        },
        FoldedArray::Blocked => {
            return ArrayAtTime::Blocked;
        },
        FoldedArray::Items(items) => items,
    };
    if interpolation == InterpolationType::Held || same(upper_entry.time, lower_entry.time)
        || infinite(lower_entry.time) {
        return ArrayAtTime::Held(lower);
    }
    match fold_entry(&brackets, upper_entry, fallback, fill) {
        FoldedArray::Items(upper) => ArrayAtTime::Between(
            lower,
            lower_entry.time,
            upper,
            upper_entry.time,
        ),
        _ => ArrayAtTime::Held(lower),
    }
}

} // verus!
