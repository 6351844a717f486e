//! Combining dictionaries.
//!
//! Every key of every dictionary is kept. Where two dictionaries hold a key,
//! the stronger value wins, unless both are dictionaries: then they combine in
//! the same way. The entries of the result are in the order of their keys, at
//! every level.

use crate::doc::{entries_view, lemma_entries_push, lemma_entries_view, Value, ValueView};
use crate::fields::{lemma_place_of, lemma_place_of_unique, named, place_of};
use crate::order::{compare_text, lemma_order_text, lemma_order_text_transitive, order_text, Order};
use crate::text::same_text;
use vstd::prelude::*;

verus! {

/// The entries of a dictionary.
pub type Entries = Seq<(Seq<char>, ValueView)>;

/// Whether an entry of `entries` has that key.
pub open spec fn holds_key(entries: Entries, key: Seq<char>) -> bool {
    exists|i: int| 0 <= i < entries.len() && (#[trigger] entries[i]).0 == key
}

/// The first place in `entries`, from `from` on, whose key is not before
/// `key`; the length when there is none.
pub open spec fn key_place(entries: Entries, key: Seq<char>, from: int) -> int
    decreases entries.len() - from,
{
    if from < 0 || from >= entries.len() {
        entries.len() as int
    } else if order_text(entries[from].0, key) == Order::Less {
        key_place(entries, key, from + 1)
    } else {
        from
    }
}

/// A value with the entries of its dictionaries in order, the first of those
/// that share a key.
pub open spec fn normal_value(value: ValueView) -> ValueView
    decreases value, 1nat,
{
    match value {
        ValueView::Dictionary(entries) => ValueView::Dictionary(merged(seq![], entries)),
        _ => value,
    }
}

/// The entries `stronger`, in order, over a weaker dictionary.
pub open spec fn merged(stronger: Entries, weaker: Entries) -> Entries
    decreases weaker, 0nat,
{
    if weaker.len() == 0 {
        stronger
    } else {
        let before = merged(stronger, weaker.drop_last());
        let key = weaker.last().0;
        let at = key_place(before, key, 0);
        if holds_key(weaker.drop_last(), key) {
            before
        } else if at < before.len() && before[at].0 == key {
            match (before[at].1, weaker.last().1) {
                (ValueView::Dictionary(a), ValueView::Dictionary(b)) => before.update(
                    at,
                    (key, ValueView::Dictionary(merged(a, b))),
                ),
                _ => before,
            }
        } else {
            before.insert(at, (key, normal_value(weaker.last().1)))
        }
    }
}

/// The combination of dictionaries, strongest first.
pub open spec fn combined(dictionaries: Seq<Entries>) -> Entries
    decreases dictionaries.len(),
{
    if dictionaries.len() == 0 {
        seq![]
    } else {
        merged(combined(dictionaries.drop_last()), dictionaries.last())
    }
}

/// Whether the keys ascend.
pub open spec fn keys_ascend(entries: Entries) -> bool {
    forall|i: int, j: int|
        0 <= i < j < entries.len() ==> order_text(
            (#[trigger] entries[i]).0,
            (#[trigger] entries[j]).0,
        ) == Order::Less
}

pub proof fn lemma_key_place(entries: Entries, key: Seq<char>, from: int)
    requires
        0 <= from <= entries.len(),
    ensures
        from <= key_place(entries, key, from) <= entries.len(),
        forall|i: int|
            from <= i < key_place(entries, key, from) ==> order_text(
                (#[trigger] entries[i]).0,
                key,
            ) == Order::Less,
        key_place(entries, key, from) < entries.len() ==> order_text(
            entries[key_place(entries, key, from)].0,
            key,
        ) != Order::Less,
    decreases entries.len() - from,
{
    if from < entries.len() && order_text(entries[from].0, key) == Order::Less {
        lemma_key_place(entries, key, from + 1);
    }
}

/// The place of a key among entries in order.
fn find_key(entries: &Vec<(String, Value)>, key: &str) -> (at: usize)
    ensures
        at == key_place(entries_view(entries@), key@, 0),
        at <= entries@.len(),
{
    proof {
        lemma_entries_view(entries@);
    }
    let mut at: usize = 0;
    while at < entries.len()
        invariant
            at <= entries@.len(),
            entries_view(entries@).len() == entries@.len(),
            forall|i: int|
                0 <= i < entries@.len() ==> #[trigger] entries_view(entries@)[i] == (
                    entries@[i].0@,
                    entries@[i].1.view(),
                ),
            key_place(entries_view(entries@), key@, 0) == key_place(
                entries_view(entries@),
                key@,
                at as int,
            ),
        decreases entries@.len() - at,
    {
        assert(entries_view(entries@)[at as int].0 == entries@[at as int].0@);
        match compare_text(entries[at].0.as_str(), key) {
            Order::Less => {},
            _ => {
                return at;
            },
        }
        at = at + 1;
    }
    at
}

/// Whether one of the first `count` entries has that key.
fn earlier_key(entries: &Vec<(String, Value)>, count: usize, key: &str) -> (found: bool)
    requires
        count <= entries@.len(),
    ensures
        found == holds_key(entries_view(entries@.take(count as int)), key@),
{
    let ghost shown = entries_view(entries@.take(count as int));
    proof {
        lemma_entries_view(entries@.take(count as int));
    }
    let mut i: usize = 0;
    while i < count
        invariant
            i <= count <= entries@.len(),
            shown == entries_view(entries@.take(count as int)),
            shown.len() == count,
            forall|i: int|
                0 <= i < count ==> #[trigger] shown[i] == (
                    entries@.take(count as int)[i].0@,
                    entries@.take(count as int)[i].1.view(),
                ),
            forall|k: int| 0 <= k < i ==> (#[trigger] shown[k]).0 != key@,
        decreases count - i,
    {
        assert(shown[i as int].0 == entries@[i as int].0@);
        if same_text(entries[i].0.as_str(), key) {
            return true;
        }
        i = i + 1;
    }
    false
}

/// A value with the entries of its dictionaries in order.
fn normalise(value: &Value) -> (out: Value)
    ensures
        out.view() == normal_value(value.view()),
    decreases value,
{
    match value {
        Value::Dictionary(entries) => {
            let none: Vec<(String, Value)> = Vec::new();
            assert(entries_view(none@) =~= seq![]);
            Value::Dictionary(merge(none, entries))
        },
        _ => value.copy(),
    }
}

/// Combines entries in order over a weaker dictionary.
fn merge(stronger: Vec<(String, Value)>, weaker: &Vec<(String, Value)>) -> (out: Vec<
    (String, Value),
>)
    ensures
        entries_view(out@) == merged(entries_view(stronger@), entries_view(weaker@)),
    decreases weaker,
{
    let ghost first = entries_view(stronger@);
    let mut out = stronger;
    let mut i: usize = 0;
    assert(weaker@.take(0) =~= seq![]);
    while i < weaker.len()
        invariant
            i <= weaker@.len(),
            entries_view(out@) == merged(first, entries_view(weaker@.take(i as int))),
        decreases weaker@.len() - i,
    {
        let key = &weaker[i].0;
        let ghost before = entries_view(out@);
        proof {
            assert(weaker@.take(i + 1) =~= weaker@.take(i as int).push(weaker@[i as int]));
            lemma_entries_push(weaker@.take(i as int), weaker@[i as int]);
            assert(entries_view(weaker@.take(i + 1)).drop_last() =~= entries_view(
                weaker@.take(i as int),
            ));
            lemma_entries_view(out@);
            lemma_key_place(before, key@, 0);
        }
        if !earlier_key(weaker, i, key.as_str()) {
            let at = find_key(&out, key.as_str());
            if at < out.len() && same_text(out[at].0.as_str(), key.as_str()) {
                let ghost had = out@;
                let (held, value) = out.remove(at);
                let ghost rest = out@;
                let next = match (value, &weaker[i].1) {
                    (Value::Dictionary(a), Value::Dictionary(b)) => Value::Dictionary(merge(a, b)),
                    (value, _) => value,
                };
                out.insert(at, (held, next));
                proof {
                    lemma_entries_view(out@);
                    let expected = merged(first, entries_view(weaker@.take(i + 1)));
                    assert(had[at as int].0@ == key@);
                    assert forall|k: int| 0 <= k < out@.len() implies entries_view(out@)[k]
                        == expected[k] by {
                        if k < at {
                            assert(out@[k] == had[k]);
                        } else if k > at {
                            assert(out@[k] == had[k]);
                        }
                    }
                    assert(entries_view(out@) =~= expected);
                }
            } else {
                let ghost had = out@;
                out.insert(at, (key.clone(), normalise(&weaker[i].1)));
                proof {
                    lemma_entries_view(out@);
                    let expected = merged(first, entries_view(weaker@.take(i + 1)));
                    assert forall|k: int| 0 <= k < out@.len() implies entries_view(out@)[k]
                        == expected[k] by {
                        if k < at {
                            assert(out@[k] == had[k]);
                        } else if k > at {
                            assert(out@[k] == had[k - 1]);
                        }
                    }
                    assert(entries_view(out@) =~= expected);
                }
            }
        }
        i = i + 1;
    }
    assert(weaker@.take(i as int) =~= weaker@);
    out
}

/// The entries of a list of dictionaries.
pub open spec fn chain_view(dictionaries: Seq<&Vec<(String, Value)>>) -> Seq<Entries> {
    dictionaries.map_values(|d: &Vec<(String, Value)>| entries_view(d@))
}

/// Combines dictionaries, strongest first.
pub fn combine_dictionary_chain(dictionaries: &Vec<&Vec<(String, Value)>>) -> (out: Vec<
    (String, Value),
>)
    ensures
        entries_view(out@) == combined(chain_view(dictionaries@)),
{
    let ghost all = chain_view(dictionaries@);
    let mut out: Vec<(String, Value)> = Vec::new();
    let mut i: usize = 0;
    assert(all.take(0) =~= seq![]);
    assert(entries_view(out@) =~= combined(all.take(0)));
    while i < dictionaries.len()
        invariant
            i <= dictionaries@.len(),
            all == chain_view(dictionaries@),
            entries_view(out@) == combined(all.take(i as int)),
        decreases dictionaries@.len() - i,
    {
        assert(all.take(i + 1).drop_last() =~= all.take(i as int));
        out = merge(out, dictionaries[i]);
        i = i + 1;
    }
    assert(all.take(i as int) =~= all);
    out
}

// ── Laws ────────────────────────────────────────────────────────────────

proof fn lemma_merged_ascends(stronger: Entries, weaker: Entries)
    requires
        keys_ascend(stronger),
    ensures
        keys_ascend(merged(stronger, weaker)),
    decreases weaker.len(),
{
    if weaker.len() > 0 {
        lemma_merged_ascends(stronger, weaker.drop_last());
        let before = merged(stronger, weaker.drop_last());
        let key = weaker.last().0;
        let at = key_place(before, key, 0);
        lemma_key_place(before, key, 0);
        let out = merged(stronger, weaker);
        if !holds_key(weaker.drop_last(), key) && !(at < before.len() && before[at].0 == key) {
            assert forall|i: int, j: int| 0 <= i < j < out.len() implies order_text(
                (#[trigger] out[i]).0,
                (#[trigger] out[j]).0,
            ) == Order::Less by {
                if j < at {
                    assert(out[i] == before[i] && out[j] == before[j]);
                } else if j == at {
                    assert(out[i] == before[i]);
                } else {
                    assert(out[j] == before[j - 1]);
                    if i < at {
                        assert(out[i] == before[i]);
                    } else {
                        lemma_order_text(before[at].0, key);
                        lemma_order_text(key, before[at].0);
                        if i == at {
                            if j - 1 > at {
                                lemma_order_text_transitive(key, before[at].0, before[j - 1].0);
                            }
                        } else {
                            assert(out[i] == before[i - 1]);
                        }
                    }
                }
            }
        }
    }
}

/// The keys of a combination ascend.
pub proof fn law_combined_keys_ascend(dictionaries: Seq<Entries>)
    ensures
        keys_ascend(combined(dictionaries)),
    decreases dictionaries.len(),
{
    if dictionaries.len() > 0 {
        law_combined_keys_ascend(dictionaries.drop_last());
        lemma_merged_ascends(combined(dictionaries.drop_last()), dictionaries.last());
    }
}

proof fn lemma_place_of_key(entries: Entries, i: int)
    requires
        keys_ascend(entries),
        0 <= i < entries.len(),
    ensures
        key_place(entries, entries[i].0, 0) == i,
{
    let key = entries[i].0;
    lemma_key_place(entries, key, 0);
    let at = key_place(entries, key, 0);
    lemma_order_text(key, key);
    if at < i {
        assert(order_text(entries[at].0, entries[i].0) == Order::Less);
    }
    if at > i {
        assert(order_text(entries[i].0, key) == Order::Less);
    }
}

proof fn lemma_merged_keys(stronger: Entries, weaker: Entries, key: Seq<char>)
    requires
        keys_ascend(stronger),
    ensures
        holds_key(merged(stronger, weaker), key) <==> holds_key(stronger, key) || holds_key(
            weaker,
            key,
        ),
    decreases weaker.len(),
{
    if weaker.len() > 0 {
        let rest = weaker.drop_last();
        lemma_merged_keys(stronger, rest, key);
        lemma_merged_ascends(stronger, rest);
        let before = merged(stronger, rest);
        let out = merged(stronger, weaker);
        let last = weaker.last().0;
        let at = key_place(before, last, 0);
        lemma_key_place(before, last, 0);
        if holds_key(rest, key) {
            let i = choose|i: int| 0 <= i < rest.len() && (#[trigger] rest[i]).0 == key;
            assert(weaker[i] == rest[i]);
        }
        if holds_key(weaker, key) && !holds_key(rest, key) {
            let i = choose|i: int| 0 <= i < weaker.len() && (#[trigger] weaker[i]).0 == key;
            if i < rest.len() {
                assert(rest[i] == weaker[i]);
            }
            assert(last == key);
        }
        if last == key {
            assert(weaker[weaker.len() - 1].0 == key);
        }
        if holds_key(before, key) {
            let i = choose|i: int| 0 <= i < before.len() && (#[trigger] before[i]).0 == key;
            if out.len() == before.len() {
                assert(out[i].0 == key);
            } else if i < at {
                assert(out[i] == before[i]);
            } else {
                assert(out[i + 1] == before[i]);
            }
        }
        if holds_key(out, key) && !holds_key(before, key) {
            let i = choose|i: int| 0 <= i < out.len() && (#[trigger] out[i]).0 == key;
            if out.len() == before.len() {
                assert(before[i].0 == key);
            } else if i < at {
                assert(before[i] == out[i]);
            } else if i > at {
                assert(before[i - 1] == out[i]);
            }
        }
        if out.len() > before.len() {
            assert(out[at].0 == last);
        }
    }
}

/// A combination holds the keys of the dictionaries, and no others.
pub proof fn law_combined_keeps_every_key(dictionaries: Seq<Entries>, key: Seq<char>)
    ensures
        holds_key(combined(dictionaries), key) <==> exists|i: int|
            0 <= i < dictionaries.len() && holds_key(#[trigger] dictionaries[i], key),
    decreases dictionaries.len(),
{
    if dictionaries.len() > 0 {
        let rest = dictionaries.drop_last();
        law_combined_keeps_every_key(rest, key);
        law_combined_keys_ascend(rest);
        lemma_merged_keys(combined(rest), dictionaries.last(), key);
        if exists|i: int| 0 <= i < rest.len() && holds_key(#[trigger] rest[i], key) {
            let i = choose|i: int| 0 <= i < rest.len() && holds_key(#[trigger] rest[i], key);
            assert(holds_key(dictionaries[i], key));
        }
        if exists|i: int| 0 <= i < dictionaries.len() && holds_key(#[trigger] dictionaries[i], key) {
            let i = choose|i: int|
                0 <= i < dictionaries.len() && holds_key(#[trigger] dictionaries[i], key);
            if i < rest.len() {
                assert(holds_key(rest[i], key));
            }
        }
        assert(dictionaries[dictionaries.len() - 1] == dictionaries.last());
    }
}

/// A value that is no dictionary wins over every weaker value of its key.
pub proof fn law_stronger_value_wins(dictionaries: Seq<Entries>, weaker: Entries, key: Seq<char>)
    requires
        holds_key(combined(dictionaries), key),
        combined(dictionaries)[key_place(combined(dictionaries), key, 0)].1 !is Dictionary,
    ensures
        ({
            let before = combined(dictionaries);
            let after = combined(dictionaries.push(weaker));
            after[key_place(after, key, 0)] == before[key_place(before, key, 0)]
        }),
{
    law_combined_keys_ascend(dictionaries);
    assert(dictionaries.push(weaker).drop_last() =~= dictionaries);
    lemma_value_kept(combined(dictionaries), weaker, key);
}

proof fn lemma_value_kept(stronger: Entries, weaker: Entries, key: Seq<char>)
    requires
        keys_ascend(stronger),
        holds_key(stronger, key),
        stronger[key_place(stronger, key, 0)].1 !is Dictionary,
    ensures
        ({
            let out = merged(stronger, weaker);
            out[key_place(out, key, 0)] == stronger[key_place(stronger, key, 0)]
        }),
    decreases weaker.len(),
{
    let i = choose|i: int| 0 <= i < stronger.len() && (#[trigger] stronger[i]).0 == key;
    lemma_place_of_key(stronger, i);
    if weaker.len() > 0 {
        let rest = weaker.drop_last();
        lemma_value_kept(stronger, rest, key);
        lemma_merged_ascends(stronger, rest);
        lemma_merged_ascends(stronger, weaker);
        lemma_merged_keys(stronger, rest, key);
        let before = merged(stronger, rest);
        let out = merged(stronger, weaker);
        let last = weaker.last().0;
        let at = key_place(before, last, 0);
        lemma_key_place(before, last, 0);
        let k = choose|k: int| 0 <= k < before.len() && (#[trigger] before[k]).0 == key;
        lemma_place_of_key(before, k);
        if out.len() == before.len() {
            if before[at].0 == last && last == key {
                assert(out[k] == before[k]);
            }
            assert(out[k].0 == key);
            lemma_place_of_key(out, k);
        } else if k < at {
            assert(out[k] == before[k]);
            lemma_place_of_key(out, k);
        } else {
            assert(out[k + 1] == before[k]);
            lemma_place_of_key(out, k + 1);
        }
    }
}

/// Whether a value is in the form that combining gives it: the keys of its
/// dictionaries ascend, at every level.
pub open spec fn is_normal(value: ValueView) -> bool
    decreases value, 1nat,
{
    match value {
        ValueView::Dictionary(entries) => keys_ascend(entries) && values_normal(entries),
        _ => true,
    }
}

/// Whether the values of a dictionary are in the form that combining gives.
pub open spec fn values_normal(entries: Entries) -> bool
    decreases entries, 0nat,
{
    entries.len() == 0 || (values_normal(entries.drop_last()) && is_normal(entries.last().1))
}

proof fn lemma_values_normal(entries: Entries)
    ensures
        values_normal(entries) <==> forall|i: int|
            0 <= i < entries.len() ==> is_normal((#[trigger] entries[i]).1),
    decreases entries.len(),
{
    if entries.len() > 0 {
        let rest = entries.drop_last();
        lemma_values_normal(rest);
        if values_normal(entries) {
            assert forall|i: int| 0 <= i < entries.len() implies is_normal(
                (#[trigger] entries[i]).1,
            ) by {
                if i < rest.len() {
                    assert(rest[i] == entries[i]);
                }
            }
        }
        if forall|i: int| 0 <= i < entries.len() ==> is_normal((#[trigger] entries[i]).1) {
            assert forall|i: int| 0 <= i < rest.len() implies is_normal((#[trigger] rest[i]).1) by {
                assert(rest[i] == entries[i]);
            }
            assert(is_normal(entries[entries.len() - 1].1));
        }
    }
}

proof fn lemma_merged_normal(stronger: Entries, weaker: Entries)
    requires
        keys_ascend(stronger),
        values_normal(stronger),
    ensures
        keys_ascend(merged(stronger, weaker)),
        values_normal(merged(stronger, weaker)),
    decreases weaker, 0nat,
{
    lemma_merged_ascends(stronger, weaker);
    if weaker.len() > 0 {
        let before = merged(stronger, weaker.drop_last());
        lemma_merged_normal(stronger, weaker.drop_last());
        lemma_values_normal(before);
        let key = weaker.last().0;
        let at = key_place(before, key, 0);
        lemma_key_place(before, key, 0);
        let out = merged(stronger, weaker);
        lemma_values_normal(out);
        if holds_key(weaker.drop_last(), key) {
        } else if at < before.len() && before[at].0 == key {
            match (before[at].1, weaker.last().1) {
                (ValueView::Dictionary(a), ValueView::Dictionary(b)) => {
                    assert(is_normal(before[at].1));
                    lemma_merged_normal(a, b);
                    assert forall|i: int| 0 <= i < out.len() implies is_normal(
                        (#[trigger] out[i]).1,
                    ) by {
                        if i != at {
                            assert(out[i] == before[i]);
                        }
                    }
                },
                _ => {},
            }
        } else {
            lemma_normal_value(weaker.last().1);
            assert forall|i: int| 0 <= i < out.len() implies is_normal((#[trigger] out[i]).1) by {
                if i < at {
                    assert(out[i] == before[i]);
                } else if i > at {
                    assert(out[i] == before[i - 1]);
                }
            }
        }
    }
}

proof fn lemma_normal_value(value: ValueView)
    ensures
        is_normal(normal_value(value)),
    decreases value, 1nat,
{
    match value {
        ValueView::Dictionary(entries) => {
            let none: Entries = seq![];
            lemma_merged_normal(none, entries);
        },
        _ => {},
    }
}

proof fn lemma_merging_normal(entries: Entries)
    requires
        keys_ascend(entries),
        values_normal(entries),
    ensures
        merged(seq![], entries) == entries,
    decreases entries, 0nat,
{
    if entries.len() > 0 {
        let rest = entries.drop_last();
        assert forall|i: int, j: int| 0 <= i < j < rest.len() implies order_text(
            (#[trigger] rest[i]).0,
            (#[trigger] rest[j]).0,
        ) == Order::Less by {
            assert(order_text(entries[i].0, entries[j].0) == Order::Less);
        }
        lemma_merging_normal(rest);
        let key = entries.last().0;
        lemma_key_place(rest, key, 0);
        let at = key_place(rest, key, 0);
        if at < rest.len() {
            assert(order_text(entries[at].0, entries[entries.len() - 1].0) == Order::Less);
        }
        if holds_key(rest, key) {
            let k = choose|k: int| 0 <= k < rest.len() && (#[trigger] rest[k]).0 == key;
            assert(order_text(entries[k].0, entries[entries.len() - 1].0) == Order::Less);
            lemma_order_text(key, key);
        }
        reveal_with_fuel(is_normal, 2);
        reveal_with_fuel(values_normal, 2);
        match entries.last().1 {
            ValueView::Dictionary(inner) => {
                assert(is_normal(entries.last().1));
                lemma_merging_normal(inner);
            },
            _ => {},
        }
        assert(normal_value(entries.last().1) == entries.last().1);
        assert(rest.insert(at, entries.last()) =~= entries);
    } else {
        assert(entries =~= seq![]);
    }
}

/// Combining what is combined changes nothing.
pub proof fn law_combining_is_idempotent(dictionaries: Seq<Entries>)
    ensures
        combined(seq![combined(dictionaries)]) == combined(dictionaries),
{
    lemma_combined_normal(dictionaries);
    let once = combined(dictionaries);
    let again: Seq<Entries> = seq![once];
    assert(again.drop_last() =~= seq![]);
    assert(combined(again.drop_last()) =~= seq![]);
    lemma_merging_normal(once);
}

proof fn lemma_combined_normal(dictionaries: Seq<Entries>)
    ensures
        keys_ascend(combined(dictionaries)),
        values_normal(combined(dictionaries)),
    decreases dictionaries.len(),
{
    if dictionaries.len() > 0 {
        lemma_combined_normal(dictionaries.drop_last());
        lemma_merged_normal(combined(dictionaries.drop_last()), dictionaries.last());
    }
}

// ── Values of keys ──────────────────────────────────────────────────────

proof fn lemma_named_at(entries: Entries, i: int)
    requires
        keys_ascend(entries),
        0 <= i < entries.len(),
    ensures
        named(entries, entries[i].0) == Some(entries[i].1),
{
    let key = entries[i].0;
    assert forall|k: int| 0 <= k < i implies (#[trigger] entries[k]).0 != key by {
        assert(order_text(entries[k].0, entries[i].0) == Order::Less);
        lemma_order_text(key, key);
    }
    lemma_place_of_unique(entries, key, i);
}

proof fn lemma_named_none(entries: Entries, key: Seq<char>)
    ensures
        named(entries, key) is None <==> !holds_key(entries, key),
{
    lemma_place_of(entries, key, 0);
}

/// What a merge has under a key.
spec fn merged_at(stronger: Option<ValueView>, weaker: Option<ValueView>) -> Option<ValueView> {
    match (stronger, weaker) {
        (None, None) => None,
        (None, Some(value)) => Some(normal_value(value)),
        (Some(ValueView::Dictionary(a)), Some(ValueView::Dictionary(b))) => Some(
            ValueView::Dictionary(merged(a, b)),
        ),
        (Some(value), _) => Some(value),
    }
}

proof fn lemma_merged_at(stronger: Entries, weaker: Entries, key: Seq<char>)
    requires
        keys_ascend(stronger),
    ensures
        named(merged(stronger, weaker), key) == merged_at(
            named(stronger, key),
            named(weaker, key),
        ),
    decreases weaker.len(),
{
    lemma_named_none(weaker, key);
    if weaker.len() > 0 {
        let rest = weaker.drop_last();
        let last = weaker.last().0;
        lemma_merged_at(stronger, rest, key);
        lemma_merged_ascends(stronger, rest);
        lemma_merged_ascends(stronger, weaker);
        let before = merged(stronger, rest);
        let out = merged(stronger, weaker);
        let at = key_place(before, last, 0);
        lemma_key_place(before, last, 0);
        lemma_named_none(rest, key);
        lemma_named_none(rest, last);
        lemma_named_none(before, key);
        lemma_named_none(out, key);
        lemma_place_of(rest, key, 0);
        let r = place_of(rest, key, 0);
        if r < rest.len() {
            assert forall|k: int| 0 <= k < r implies (#[trigger] weaker[k]).0 != key by {
                assert(weaker[k] == rest[k]);
            }
            assert(weaker[r] == rest[r]);
            lemma_place_of_unique(weaker, key, r);
        } else {
            let n = rest.len() as int;
            assert forall|k: int| 0 <= k < n implies (#[trigger] weaker[k]).0 != key by {
                assert(weaker[k] == rest[k]);
            }
            if last == key {
                lemma_place_of_unique(weaker, key, n);
            } else {
                lemma_place_of_unique(weaker, key, n + 1);
            }
        }
        if holds_key(before, key) {
            let k = choose|k: int| 0 <= k < before.len() && (#[trigger] before[k]).0 == key;
            lemma_named_at(before, k);
            lemma_place_of_key(before, k);
            if out.len() == before.len() {
                assert(out[k].0 == key);
                lemma_named_at(out, k);
            } else if k < at {
                assert(out[k] == before[k]);
                lemma_named_at(out, k);
            } else {
                assert(out[k + 1] == before[k]);
                lemma_named_at(out, k + 1);
            }
        } else if last == key {
            if at < before.len() {
                assert(before[at].0 != key);
            }
            if !holds_key(rest, key) {
                assert(out[at] == (key, normal_value(weaker.last().1)));
                lemma_named_at(out, at);
            }
        } else {
            if holds_key(out, key) {
                let k = choose|k: int| 0 <= k < out.len() && (#[trigger] out[k]).0 == key;
                if out.len() == before.len() {
                    assert(before[k].0 == key);
                } else if k < at {
                    assert(before[k] == out[k]);
                } else if k > at {
                    assert(before[k - 1] == out[k]);
                }
            }
        }
    }
}

proof fn lemma_combined_kept(dictionaries: Seq<Entries>, count: int, key: Seq<char>)
    requires
        0 <= count <= dictionaries.len(),
        named(combined(dictionaries.take(count)), key) matches Some(value) && !(
        value is Dictionary),
    ensures
        named(combined(dictionaries), key) == named(combined(dictionaries.take(count)), key),
    decreases dictionaries.len() - count,
{
    if count < dictionaries.len() {
        let next = dictionaries.take(count + 1);
        assert(next.drop_last() =~= dictionaries.take(count));
        assert(next.last() == dictionaries[count]);
        law_combined_keys_ascend(dictionaries.take(count));
        lemma_merged_at(combined(dictionaries.take(count)), dictionaries[count], key);
        lemma_combined_kept(dictionaries, count + 1, key);
    } else {
        assert(dictionaries.take(count) =~= dictionaries);
    }
}

/// Under a key, a combination has the value of the strongest dictionary with
/// the key, where that is no dictionary: the first of the entries that it has
/// under it.
pub proof fn law_the_strongest_value_of_a_key_is_read(dictionaries: Seq<Entries>, i: int, e: int)
    requires
        0 <= i < dictionaries.len(),
        0 <= e < dictionaries[i].len(),
        !(dictionaries[i][e].1 is Dictionary),
        forall|d: int|
            0 <= d < e ==> (#[trigger] dictionaries[i][d]).0 != dictionaries[i][e].0,
        forall|j: int, d: int|
            0 <= j < i && 0 <= d < dictionaries[j].len() ==> (#[trigger] dictionaries[j][d]).0
                != dictionaries[i][e].0,
    ensures
        combined(dictionaries).contains(dictionaries[i][e]),
{
    let key = dictionaries[i][e].0;
    let upper = dictionaries.take(i);
    law_combined_keeps_every_key(upper, key);
    if holds_key(combined(upper), key) {
        let j = choose|j: int| 0 <= j < upper.len() && holds_key(#[trigger] upper[j], key);
        let d = choose|d: int| 0 <= d < upper[j].len() && (#[trigger] upper[j][d]).0 == key;
        assert(dictionaries[j][d].0 == key);
    }
    lemma_named_none(combined(upper), key);
    let next = dictionaries.take(i + 1);
    assert(next.drop_last() =~= upper);
    assert(next.last() == dictionaries[i]);
    law_combined_keys_ascend(upper);
    lemma_merged_at(combined(upper), dictionaries[i], key);
    lemma_place_of_unique(dictionaries[i], key, e);
    lemma_combined_kept(dictionaries, i + 1, key);
    let out = combined(dictionaries);
    lemma_place_of(out, key, 0);
    assert(out[place_of(out, key, 0)] == dictionaries[i][e]);
}

/// Two dictionaries under one key combine key by key: the stronger one's values
/// stay, but for dictionaries, and the weaker one's join them under the keys
/// that it alone has.
pub proof fn law_nested_dictionaries_combine(
    dictionaries: Seq<Entries>,
    weaker: Entries,
    key: Seq<char>,
    a: Entries,
    b: Entries,
    inner: Seq<char>,
)
    requires
        named(combined(dictionaries), key) == Some(ValueView::Dictionary(a)),
        named(weaker, key) == Some(ValueView::Dictionary(b)),
    ensures
        ({
            let after = named(combined(dictionaries.push(weaker)), key);
            &&& after matches Some(ValueView::Dictionary(d)) && {
                &&& holds_key(d, inner) <==> holds_key(a, inner) || holds_key(b, inner)
                &&& named(a, inner) matches Some(value) ==> !(value is Dictionary) ==> named(
                    d,
                    inner,
                ) == Some(value)
                &&& !holds_key(a, inner) ==> (named(b, inner) matches Some(value) ==> !(
                value is Dictionary) ==> named(d, inner) == Some(value))
            }
        }),
{
    let before = combined(dictionaries);
    law_combined_keys_ascend(dictionaries);
    lemma_combined_normal(dictionaries);
    lemma_values_normal(before);
    lemma_place_of(before, key, 0);
    let at = place_of(before, key, 0);
    assert(is_normal(before[at].1));
    assert(dictionaries.push(weaker).drop_last() =~= dictionaries);
    lemma_merged_at(before, weaker, key);
    lemma_merged_keys(a, b, inner);
    lemma_merged_at(a, b, inner);
    lemma_named_none(a, inner);
}

} // verus!
