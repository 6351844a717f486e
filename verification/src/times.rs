//! Times of layers and of the stage.
//!
//! A time is the bits of a double. What the arithmetic of doubles makes of the
//! times that a query reads is handed in as a table.

use crate::doc::{is_nan, numbers_equal, same_number, Precision, DOUBLE_INFINITY, DOUBLE_SIGN};
use crate::prim_index::LayerOffset;
use vstd::prelude::*;

verus! {

/// The bits of the time before every other.
pub const EARLIEST: u64 = 0xfff0_0000_0000_0000;

/// The place of a time on the line of times; that of the two zeros is the
/// same.
pub open spec fn time_rank(time: u64) -> int {
    if time < DOUBLE_SIGN {
        time as int
    } else {
        DOUBLE_SIGN as int - time as int
    }
}

/// Whether a time is before another.
pub open spec fn is_before(a: u64, b: u64) -> bool {
    &&& !is_nan(Precision::Double, a)
    &&& !is_nan(Precision::Double, b)
    &&& time_rank(a) < time_rank(b)
}

/// Whether a time is before another, or equal.
pub open spec fn is_at_or_before(a: u64, b: u64) -> bool {
    &&& !is_nan(Precision::Double, a)
    &&& !is_nan(Precision::Double, b)
    &&& time_rank(a) <= time_rank(b)
}

/// Whether two times are equal.
pub open spec fn is_same(a: u64, b: u64) -> bool {
    numbers_equal(Precision::Double, a, b)
}

/// Whether a time is a number.
pub fn is_number(time: u64) -> (yes: bool)
    ensures
        yes == !is_nan(Precision::Double, time),
{
    time % DOUBLE_SIGN <= DOUBLE_INFINITY
}

/// Whether a time is before another.
pub fn before(a: u64, b: u64) -> (yes: bool)
    ensures
        yes == is_before(a, b),
{
    if !is_number(a) || !is_number(b) {
        return false;
    }
    if a < DOUBLE_SIGN {
        b < DOUBLE_SIGN && a < b
    } else if b < DOUBLE_SIGN {
        a - DOUBLE_SIGN > 0 || b > 0
    } else {
        b < a
    }
}

/// Whether a time is before another, or equal.
pub fn at_or_before(a: u64, b: u64) -> (yes: bool)
    ensures
        yes == is_at_or_before(a, b),
{
    is_number(a) && is_number(b) && !before(b, a)
}

/// Whether two times are equal.
pub fn same(a: u64, b: u64) -> (yes: bool)
    ensures
        yes == is_same(a, b),
{
    same_number(Precision::Double, a, b)
}

/// What the arithmetic of doubles makes of the times of a query.
#[derive(Debug)]
pub struct TimeTable {
    /// The stage time `time * scale + offset` of layer times: the offset, the
    /// layer time, and the stage time.
    pub to_stage: Vec<(LayerOffset, u64, u64)>,
    /// The layer time of stage times: the offset, the stage time, and the
    /// layer time.
    pub to_layer: Vec<(LayerOffset, u64, u64)>,
    /// The times that differ by less than what tells times apart.
    pub close: Vec<(u64, u64)>,
}

/// The mathematical value of a [`TimeTable`].
pub struct Times {
    pub to_stage: Seq<(LayerOffset, u64, u64)>,
    pub to_layer: Seq<(LayerOffset, u64, u64)>,
    pub close: Seq<(u64, u64)>,
}

/// A table that lists nothing, by which every time is its own.
pub open spec fn no_times() -> Times {
    Times { to_stage: seq![], to_layer: seq![], close: seq![] }
}

/// What two tables list.
pub open spec fn both_times(a: Times, b: Times) -> Times {
    Times {
        to_stage: a.to_stage + b.to_stage,
        to_layer: a.to_layer + b.to_layer,
        close: a.close + b.close,
    }
}

impl View for TimeTable {
    type V = Times;

    open spec fn view(&self) -> Times {
        Times { to_stage: self.to_stage@, to_layer: self.to_layer@, close: self.close@ }
    }
}

/// The time that a list of entries gives for a time read through an offset:
/// that of the first entry from `from` on, or the time itself.
pub open spec fn looked_up(
    entries: Seq<(LayerOffset, u64, u64)>,
    offset: LayerOffset,
    time: u64,
    from: int,
) -> u64
    decreases entries.len() - from,
{
    if from < 0 || from >= entries.len() {
        time
    } else if entries[from].0 == offset && entries[from].1 == time {
        entries[from].2
    } else {
        looked_up(entries, offset, time, from + 1)
    }
}

/// The stage time of a layer time read through an offset.
pub open spec fn stage_time(times: Times, offset: LayerOffset, time: u64) -> u64 {
    looked_up(times.to_stage, offset, time, 0)
}

/// The layer time of a stage time read through an offset.
pub open spec fn layer_time(times: Times, offset: LayerOffset, time: u64) -> u64 {
    looked_up(times.to_layer, offset, time, 0)
}

/// Whether two times are taken for one.
pub open spec fn is_close(times: Times, a: u64, b: u64) -> bool {
    is_same(a, b) || times.close.contains((a, b)) || times.close.contains((b, a))
}

fn look_up(entries: &Vec<(LayerOffset, u64, u64)>, offset: LayerOffset, time: u64) -> (out: u64)
    ensures
        out == looked_up(entries@, offset, time, 0),
{
    let mut i: usize = 0;
    while i < entries.len()
        invariant
            i <= entries@.len(),
            looked_up(entries@, offset, time, 0) == looked_up(entries@, offset, time, i as int),
        decreases entries@.len() - i,
    {
        if entries[i].0 == offset && entries[i].1 == time {
            return entries[i].2;
        }
        i = i + 1;
    }
    time
}

fn holds_pair(pairs: &Vec<(u64, u64)>, a: u64, b: u64) -> (found: bool)
    ensures
        found == pairs@.contains((a, b)),
{
    let mut i: usize = 0;
    while i < pairs.len()
        invariant
            i <= pairs@.len(),
            forall|k: int| 0 <= k < i ==> pairs@[k] != (a, b),
        decreases pairs@.len() - i,
    {
        if pairs[i].0 == a && pairs[i].1 == b {
            assert(pairs@[i as int] == (a, b));
            return true;
        }
        i = i + 1;
    }
    false
}

impl TimeTable {
    /// A table that lists nothing.
    pub fn new() -> (times: TimeTable)
        ensures
            times@ == no_times(),
    {
        let times = TimeTable { to_stage: Vec::new(), to_layer: Vec::new(), close: Vec::new() };
        assert(times@.to_stage =~= seq![]);
        assert(times@.to_layer =~= seq![]);
        assert(times@.close =~= seq![]);
        times
    }

    /// What this table and another list; where both list a time, this one
    /// says what it is.
    pub fn and(self, other: TimeTable) -> (times: TimeTable)
        ensures
            times@ == both_times(self@, other@),
    {
        let mut times = self;
        let mut other = other;
        times.to_stage.append(&mut other.to_stage);
        times.to_layer.append(&mut other.to_layer);
        times.close.append(&mut other.close);
        times
    }

    /// The stage time of a layer time read through an offset.
    pub fn to_stage_time(&self, offset: LayerOffset, time: u64) -> (out: u64)
        ensures
            out == stage_time(self@, offset, time),
    {
        look_up(&self.to_stage, offset, time)
    }

    /// The layer time of a stage time read through an offset.
    pub fn to_layer_time(&self, offset: LayerOffset, time: u64) -> (out: u64)
        ensures
            out == layer_time(self@, offset, time),
    {
        look_up(&self.to_layer, offset, time)
    }

    /// Whether two times are taken for one.
    pub fn times_close(&self, a: u64, b: u64) -> (yes: bool)
        ensures
            yes == is_close(self@, a, b),
    {
        same(a, b) || holds_pair(&self.close, a, b) || holds_pair(&self.close, b, a)
    }
}

/// A time is looked up under its offset: the first time that is listed for the
/// two, and the time itself where none is.
pub proof fn law_times_are_looked_up(times: Times, offset: LayerOffset, time: u64, i: int)
    ensures
        0 <= i < times.to_stage.len() && times.to_stage[i].0 == offset && times.to_stage[i].1
            == time && (forall|k: int|
            0 <= k < i ==> (#[trigger] times.to_stage[k]).0 != offset || times.to_stage[k].1
                != time) ==> stage_time(times, offset, time) == times.to_stage[i].2,
        (forall|k: int|
            0 <= k < times.to_stage.len() ==> (#[trigger] times.to_stage[k]).0 != offset
                || times.to_stage[k].1 != time) ==> stage_time(times, offset, time) == time,
        0 <= i < times.to_layer.len() && times.to_layer[i].0 == offset && times.to_layer[i].1
            == time && (forall|k: int|
            0 <= k < i ==> (#[trigger] times.to_layer[k]).0 != offset || times.to_layer[k].1
                != time) ==> layer_time(times, offset, time) == times.to_layer[i].2,
        (forall|k: int|
            0 <= k < times.to_layer.len() ==> (#[trigger] times.to_layer[k]).0 != offset
                || times.to_layer[k].1 != time) ==> layer_time(times, offset, time) == time,
{
    lemma_looked_up(times.to_stage, offset, time, 0, i);
    lemma_looked_up(times.to_layer, offset, time, 0, i);
}

proof fn lemma_looked_up(
    entries: Seq<(LayerOffset, u64, u64)>,
    offset: LayerOffset,
    time: u64,
    from: int,
    i: int,
)
    requires
        0 <= from <= entries.len(),
    ensures
        from <= i < entries.len() && entries[i].0 == offset && entries[i].1 == time && (forall|
            k: int,
        |
            from <= k < i ==> (#[trigger] entries[k]).0 != offset || entries[k].1 != time)
            ==> looked_up(entries, offset, time, from) == entries[i].2,
        (forall|k: int|
            from <= k < entries.len() ==> (#[trigger] entries[k]).0 != offset || entries[k].1
                != time) ==> looked_up(entries, offset, time, from) == time,
    decreases entries.len() - from,
{
    if from < entries.len() {
        lemma_looked_up(entries, offset, time, from + 1, i);
    }
}

/// Of two times that are numbers, one is before the other or they are equal;
/// what is no number is neither before, after nor equal to a time.
pub proof fn law_times_are_ordered(a: u64, b: u64)
    ensures
        !is_nan(Precision::Double, a) && !is_nan(Precision::Double, b) ==> (is_before(a, b)
            || is_before(b, a) || is_same(a, b)),
        is_before(a, b) ==> !is_before(b, a) && !is_same(a, b),
        is_at_or_before(a, b) <==> is_before(a, b) || is_same(a, b),
        is_nan(Precision::Double, a) ==> !is_before(a, b) && !is_before(b, a) && !is_same(a, b),
        a < DOUBLE_SIGN && b < DOUBLE_SIGN && !is_nan(Precision::Double, a) && !is_nan(
            Precision::Double,
            b,
        ) ==> (is_before(a, b) <==> a < b),
        a > DOUBLE_SIGN && b > DOUBLE_SIGN && !is_nan(Precision::Double, a) && !is_nan(
            Precision::Double,
            b,
        ) ==> (is_before(a, b) <==> b < a),
        a > DOUBLE_SIGN && b < DOUBLE_SIGN && !is_nan(Precision::Double, a) && !is_nan(
            Precision::Double,
            b,
        ) ==> is_before(a, b),
{
    lemma_without_sign(a);
    lemma_without_sign(b);
}

proof fn lemma_without_sign(a: u64)
    ensures
        a < DOUBLE_SIGN ==> a as int % DOUBLE_SIGN as int == a,
        a >= DOUBLE_SIGN ==> a as int % DOUBLE_SIGN as int == a - DOUBLE_SIGN,
{
}

} // verus!
