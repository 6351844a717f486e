//! Whether composed values fit in memory.
//!
//! An array edit can ask for more items than memory holds. The queries that
//! compose arrays are asked only of values whose composition fits; this tells
//! which do.

use crate::array_edits::size_limit;
use crate::arrays::{
    fill_for, fill_of, fold_load, lemma_fold_load, op_growth, ops_load, refs_view, seed_fits,
    seed_room, shape_of, shapes_of,
};
use crate::doc::{
    lemma_ops_push, lemma_ops_view, lemma_values_view, ops_view, value_ref, EditOp, Value,
};
use crate::fields::FieldValue;
use crate::interpolation::{sparse_fits, SparseQuery};
use crate::opinion::{opinions_view, Opinion, OpinionValue};
use crate::property::{type_ref, PropertyType};
use crate::resolution::{default_fits, gather_defaults, leads_with_array, reads_arrays};
use crate::series::{
    brackets_of, entries_of, entry_fits, fits_at_time, gather_entry, plan_brackets, planned,
    InterpolationType,
};
use crate::stage::fallback::fits_over;
use crate::times::TimeTable;
use vstd::prelude::*;

verus! {

/// The largest load that fits.
fn limit() -> (limit: usize)
    ensures
        limit == size_limit(),
{
    (isize::MAX / 64) as usize
}

/// A load that fits, and more; nothing where the sum does not fit.
fn more(load: Option<usize>, extra: usize) -> (out: Option<usize>)
    requires
        load matches Some(load) ==> load <= size_limit(),
    ensures
        out == (match load {
            Some(load) => if load + extra <= size_limit() {
                Some((load + extra) as usize)
            } else {
                None
            },
            None => None,
        }),
{
    match load {
        Some(load) => if extra <= limit() - load {
            Some(load + extra)
        } else {
            None
        },
        None => None,
    }
}

/// A load, where it fits.
pub open spec fn fitting(load: nat) -> Option<usize> {
    if load <= size_limit() {
        Some(load as usize)
    } else {
        None
    }
}

/// The load of an array edit, where it fits.
pub fn measure_ops(ops: &Vec<EditOp>, filled: bool) -> (out: Option<usize>)
    ensures
        out == fitting(ops_load(ops_view(ops@), filled)),
{
    let mut load: Option<usize> = Some(0);
    let mut i: usize = 0;
    assert(ops_view(ops@.take(0)) =~= seq![]) by {
        lemma_ops_view(ops@.take(0));
    }
    while i < ops.len()
        invariant
            i <= ops@.len(),
            load == fitting(ops_load(ops_view(ops@.take(i as int)), filled)),
        decreases ops@.len() - i,
    {
        let growth: usize = match &ops[i] {
            EditOp::Insert { .. } => 1,
            EditOp::MinSize { len } => if filled {
                *len
            } else {
                0
            },
            EditOp::MinSizeFill { len, .. } => *len,
            EditOp::Resize { len } => if filled {
                *len
            } else {
                0
            },
            EditOp::ResizeFill { len, .. } => *len,
            _ => 0,
        };
        proof {
            assert(growth == op_growth(ops@[i as int].view(), filled));
            assert(ops@.take(i + 1) =~= ops@.take(i as int).push(ops@[i as int]));
            lemma_ops_push(ops@.take(i as int), ops@[i as int]);
            assert(ops_view(ops@.take(i + 1)).drop_last() =~= ops_view(ops@.take(i as int)));
        }
        load = more(more(load, 1), growth);
        i = i + 1;
    }
    assert(ops@.take(i as int) =~= ops@);
    load
}

/// Whether a chain of values folds over an array of `seed` items in memory.
fn fold_fits(chain: &Vec<&Value>, seed: usize, filled: bool) -> (yes: bool)
    ensures
        yes == (fold_load(shapes_of(refs_view(chain@), filled), 0, None, seed as nat)
            <= size_limit()),
{
    let ghost all = refs_view(chain@);
    let ghost shapes = shapes_of(all, filled);
    let mut edits: Option<usize> = None;
    let mut i: usize = 0;
    while i < chain.len()
        invariant
            i <= chain@.len(),
            all == refs_view(chain@),
            shapes == shapes_of(all, filled),
            edits matches Some(load) ==> load <= size_limit(),
            fold_load(shapes, 0, None, seed as nat) == fold_load(
                shapes,
                i as int,
                match edits {
                    Some(load) => Some(load as nat),
                    None => None,
                },
                seed as nat,
            ),
        decreases chain@.len() - i,
    {
        proof {
            assert(all[i as int] == chain@[i as int].view());
            assert(shapes[i as int] == shape_of(all[i as int], filled));
        }
        match chain[i] {
            Value::Array(items) => {
                proof {
                    lemma_values_view(items@);
                }
                return match edits {
                    Some(load) => more(Some(load), items.len()).is_some(),
                    None => true,
                };
            },
            Value::Blocked => {
                return match edits {
                    Some(load) => more(Some(load), seed).is_some(),
                    None => true,
                };
            },
            Value::ArrayEdit(edit) => {
                let extra = measure_ops(&edit.ops, filled);
                let ghost had: nat = match edits {
                    Some(load) => load as nat,
                    None => 0,
                };
                let ghost met = ops_load(ops_view(edit.ops@), filled) + had;
                proof {
                    lemma_fold_load(shapes, i + 1, Some(met), seed as nat, seed as nat);
                }
                let total = match (edits, extra) {
                    (Some(load), Some(extra)) => more(Some(load), extra),
                    (None, Some(extra)) => Some(extra),
                    (_, None) => None,
                };
                if total.is_none() {
                    return false;
                }
                edits = total;
            },
            _ => {},
        }
        i = i + 1;
    }
    match edits {
        Some(load) => more(Some(load), seed).is_some(),
        None => true,
    }
}

/// The room that the weakest array of a fold needs, where it fits.
fn measure_seed(fallback: Option<&Value>, filled: bool) -> (out: Option<usize>)
    ensures
        out is Some == seed_fits(value_ref(fallback), filled),
        out matches Some(room) ==> room == seed_room(value_ref(fallback), filled),
{
    match fallback {
        Some(Value::Array(items)) => {
            proof {
                lemma_values_view(items@);
            }
            Some(items.len())
        },
        Some(Value::ArrayEdit(edit)) => measure_ops(&edit.ops, filled),
        _ => Some(0),
    }
}

/// Whether the default that opinions compose over a fallback fits in memory.
/// `filled` tells whether the declared type fills the items that an edit adds
/// without saying which.
pub fn fits_in_memory(opinions: &Vec<Opinion>, fallback: Option<&Value>, filled: bool) -> (yes:
    bool)
    ensures
        yes == default_fits(opinions_view(opinions@), value_ref(fallback), filled),
{
    if !leads_with_array(opinions, fallback) {
        return true;
    }
    match measure_seed(fallback, filled) {
        Some(seed) => fold_fits(&gather_defaults(opinions), seed, filled),
        None => false,
    }
}

/// Whether the array that opinions compose over a fallback at a time fits in
/// memory.
pub fn fits_in_memory_at(
    opinions: &Vec<Opinion>,
    time: u64,
    interpolation: InterpolationType,
    fallback: Option<&Value>,
    filled: bool,
    times: &TimeTable,
) -> (yes: bool)
    ensures
        yes == fits_at_time(
            opinions_view(opinions@),
            time,
            interpolation,
            value_ref(fallback),
            filled,
            times@,
        ),
{
    let ghost plan = planned(opinions_view(opinions@), time, interpolation, times@);
    let seed = match measure_seed(fallback, filled) {
        Some(seed) => seed,
        None => {
            return false;
        },
    };
    let (brackets, composed, _) = plan_brackets(opinions, time, interpolation, times);
    let mut i: usize = 0;
    while i < composed.len()
        invariant
            i <= composed@.len(),
            seed_fits(value_ref(fallback), filled),
            seed == seed_room(value_ref(fallback), filled),
            plan == planned(opinions_view(opinions@), time, interpolation, times@),
            plan.brackets == brackets_of(brackets@),
            plan.composed == entries_of(composed@),
            forall|k: int|
                0 <= k < i ==> entry_fits(
                    plan.brackets,
                    #[trigger] plan.composed[k],
                    value_ref(fallback),
                    filled,
                ),
        decreases composed@.len() - i,
    {
        assert(plan.composed[i as int] == composed@[i as int]@);
        if !fold_fits(&gather_entry(&brackets, &composed[i]), seed, filled) {
            return false;
        }
        i = i + 1;
    }
    true
}

/// Whether what a query over a chain of opinions composes fits in memory.
pub fn query_fits(
    opinions: &Vec<Opinion>,
    query: SparseQuery<'_>,
    property_type: Option<&PropertyType>,
    times: &TimeTable,
) -> (yes: bool)
    ensures
        yes == sparse_fits(opinions_view(opinions@), query@, type_ref(property_type), times@),
{
    let filled = fill_for(property_type).is_some();
    match query {
        SparseQuery::Default { fallback } => fits_in_memory(opinions, fallback, filled),
        SparseQuery::AtTime { time, interp, fallback } => !reads_arrays(opinions)
            || fits_in_memory_at(opinions, time, interp, fallback, filled, times),
    }
}

/// Whether what a chain of opinions composes over a fallback at the default
/// time fits in memory.
pub fn fallback_fits(
    opinions: &Vec<Opinion>,
    fallback: Option<&Value>,
    property_type: Option<&PropertyType>,
) -> (yes: bool)
    ensures
        yes == fits_over(
            opinions_view(opinions@),
            value_ref(fallback),
            fill_of(type_ref(property_type)) is Some,
        ),
{
    if opinions.len() == 0 {
        return true;
    }
    assert(opinions_view(opinions@)[0] == opinions@[0]@);
    let filled = fill_for(property_type).is_some();
    let is_list = match &opinions[0].value {
        OpinionValue::Field(FieldValue::List(_, _)) => true,
        _ => false,
    };
    if !is_list && !opinions[0].value.is_relationship() {
        fits_in_memory(opinions, fallback, filled)
    } else {
        fits_in_memory(opinions, None, filled)
    }
}

} // verus!
