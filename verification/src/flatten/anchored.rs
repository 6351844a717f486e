//! Values with their asset paths as a flattened layer holds them.

use crate::doc::{value_option, Value, ValueView};
use crate::fields::{lemma_place_of_unique, named};
use crate::leaves::{lemma_unwritten, map_value, rewritten};
use crate::text::{same_text, text};
use vstd::prelude::*;

verus! {

/// Asset paths as authored, each with what it was anchored to.
pub open spec fn anchors_view(anchors: Seq<(String, String)>) -> Seq<(Seq<char>, Seq<char>)> {
    anchors.map_values(|a: (String, String)| (a.0@, a.1@))
}

/// What an asset path was anchored to.
pub open spec fn anchoring(anchors: Seq<(Seq<char>, Seq<char>)>) -> spec_fn(ValueView) -> Option<
    ValueView,
> {
    |value: ValueView|
        match value {
            ValueView::Asset(path) => match named(anchors, path) {
                Some(anchored) => Some(ValueView::Asset(anchored)),
                None => None,
            },
            _ => None,
        }
}

/// A value with its asset paths anchored: alone, in arrays, in dictionaries
/// and in the literals of sparse array edits.
pub open spec fn anchored(value: ValueView, anchors: Seq<(Seq<char>, Seq<char>)>) -> ValueView {
    rewritten(value, anchoring(anchors))
}

/// What an asset path was anchored to.
fn anchor_path(path: &str, anchors: &Vec<(String, String)>) -> (out: Option<String>)
    ensures
        (match out {
            Some(anchored) => Some(anchored@),
            None => None,
        }) == named(anchors_view(anchors@), path@),
{
    let ghost all = anchors_view(anchors@);
    let mut i: usize = 0;
    while i < anchors.len()
        invariant
            i <= anchors@.len(),
            all == anchors_view(anchors@),
            forall|k: int| 0 <= k < i ==> (#[trigger] all[k]).0 != path@,
        decreases anchors@.len() - i,
    {
        assert(all[i as int] == (anchors@[i as int].0@, anchors@[i as int].1@));
        if same_text(anchors[i].0.as_str(), path) {
            proof {
                lemma_place_of_unique(all, path@, i as int);
            }
            return Some(text(anchors[i].1.as_str()));
        }
        i = i + 1;
    }
    proof {
        lemma_place_of_unique(all, path@, i as int);
    }
    None
}

/// A value with its asset paths anchored.
pub fn anchor_value(value: &Value, anchors: &Vec<(String, String)>) -> (out: Value)
    ensures
        out.view() == anchored(value.view(), anchors_view(anchors@)),
{
    let leaf = |leaf: &Value| -> (out: Option<Value>)
        ensures
            value_option(out) == anchoring(anchors_view(anchors@))(leaf.view()),
        {
            match leaf {
                Value::Asset(path) => match anchor_path(path.as_str(), anchors) {
                    Some(anchored) => Some(Value::Asset(anchored)),
                    None => None,
                },
                _ => None,
            }
        };
    map_value(value, &leaf, Ghost(anchoring(anchors_view(anchors@)))).0
}

// ── Laws ────────────────────────────────────────────────────────────────

/// A value is left as it is where nothing was anchored.
pub proof fn law_nothing_anchored_changes_nothing(value: ValueView)
    ensures
        anchored(value, seq![]) == value,
{
    lemma_unwritten(value, anchoring(seq![]));
}

} // verus!
