//! Chains of list edits, strongest first.
//!
//! The items of a chain are numbered by the order in which they first occur,
//! and the edits are applied to the numbers.

use crate::fields::{explicit_list, items_view, ItemView, ListItem, ListOp, ListOpView};
use crate::interner::{
    first_position, lemma_first_position, lemma_first_position_unique, lemma_with_entries,
    lemma_with_entry, with_entries,
};
use vstd::prelude::*;

verus! {

/// A list edit over numbers.
#[derive(Debug)]
pub struct IdListOp {
    pub explicit: Option<Vec<usize>>,
    pub prepend: Vec<usize>,
    pub append: Vec<usize>,
    pub delete: Vec<usize>,
    pub add: Vec<usize>,
    pub reorder: Vec<usize>,
}

/// The mathematical value of an [`IdListOp`]: what it replaces the list by,
/// prepends, appends, deletes, adds and reorders.
pub type IdOp = (Option<Seq<usize>>, Seq<usize>, Seq<usize>, Seq<usize>, Seq<usize>, Seq<usize>);

impl View for IdListOp {
    type V = IdOp;

    open spec fn view(&self) -> IdOp {
        (
            match self.explicit {
                Some(items) => Some(items@),
                None => None,
            },
            self.prepend@,
            self.append@,
            self.delete@,
            self.add@,
            self.reorder@,
        )
    }
}

/// The values of a list of edits.
pub open spec fn id_ops(ops: Seq<IdListOp>) -> Seq<IdOp> {
    ops.map_values(|op: IdListOp| op@)
}

/// What the edits, strongest first, make of an empty list.
pub uninterp spec fn list_chain(
    ops: Seq<(Option<Seq<usize>>, Seq<usize>, Seq<usize>, Seq<usize>, Seq<usize>, Seq<usize>)>,
) -> Seq<usize>;

/// Whether an edit can bring `id` into a list.
pub open spec fn inserts(op: IdOp, id: usize) -> bool {
    ||| op.0 matches Some(items) && items.contains(id)
    ||| op.1.contains(id)
    ||| op.2.contains(id)
    ||| op.4.contains(id)
}

/// Whether one of the edits can bring `id` into a list.
pub open spec fn any_inserts(ops: Seq<IdOp>, id: usize) -> bool {
    exists|i: int| 0 <= i < ops.len() && inserts(#[trigger] ops[i], id)
}

/// The list that a chain comes to when its strongest edit is a replacement:
/// the first occurrences of its items. Without edits, the empty list.
pub open spec fn plain_chain(ops: Seq<IdOp>) -> Option<Seq<usize>> {
    if ops.len() == 0 {
        Some(seq![])
    } else {
        match ops[0].0 {
            Some(items) => Some(with_entries(seq![], items)),
            None => None,
        }
    }
}

/// `opinionated::resolve_list_chain` applies the edits of a chain to an empty
/// list, weakest first, from the strongest replacement on. Its result is a
/// function of the edits; it holds nothing twice, and nothing that no edit
/// replaces the list by, prepends, appends or adds. Where the strongest edit
/// is a replacement it is the first occurrences of its items, and without
/// edits it is empty.
#[verifier::external_body]
fn resolve_ids(ops: Vec<IdListOp>) -> (out: Vec<usize>)
    ensures
        out@ == list_chain(id_ops(ops@)),
        out@.no_duplicates(),
        forall|i: int| 0 <= i < out@.len() ==> any_inserts(id_ops(ops@), #[trigger] out@[i]),
        plain_chain(id_ops(ops@)) matches Some(items) ==> out@ == items,
{
    opinionated::resolve_list_chain(
        &[],
        ops.into_iter().map(
            |op| opinionated::ListOp {
                explicit: op.explicit,
                prepend: op.prepend,
                append: op.append,
                delete: op.delete,
                add: op.add,
                reorder: op.reorder,
            },
        ),
    )
}

// ── Numbering ───────────────────────────────────────────────────────────

/// The items that an edit names.
pub open spec fn op_items(op: ListOpView) -> Seq<ItemView> {
    (match op.explicit {
        Some(items) => items,
        None => seq![],
    }) + op.prepend + op.append + op.delete + op.add + op.reorder
}

/// The items that a chain names.
pub open spec fn chain_items(ops: Seq<ListOpView>) -> Seq<ItemView>
    decreases ops.len(),
{
    if ops.len() == 0 {
        seq![]
    } else {
        chain_items(ops.drop_last()) + op_items(ops.last())
    }
}

/// The numbers of a list of items: their places in `table`.
pub open spec fn numbers(table: Seq<ItemView>, items: Seq<ItemView>) -> Seq<usize> {
    items.map_values(|item: ItemView| first_position(table, item) as usize)
}

/// An edit over the numbers of its items.
pub open spec fn numbered(table: Seq<ItemView>, op: ListOpView) -> IdOp {
    (
        match op.explicit {
            Some(items) => Some(numbers(table, items)),
            None => None,
        },
        numbers(table, op.prepend),
        numbers(table, op.append),
        numbers(table, op.delete),
        numbers(table, op.add),
        numbers(table, op.reorder),
    )
}

/// A chain over the numbers of its items.
pub open spec fn numbered_chain(ops: Seq<ListOpView>) -> Seq<IdOp> {
    ops.map_values(
        |op: ListOpView| numbered(with_entries(seq![], chain_items(ops)), op),
    )
}

/// What a chain of edits, strongest first, makes of an empty list, by the
/// numbers of its items.
pub open spec fn chained_edits(ops: Seq<ListOpView>) -> Seq<ItemView> {
    let table = with_entries(seq![], chain_items(ops));
    list_chain(numbered_chain(ops)).map_values(|id: usize| table[id as int])
}

/// What a chain of edits, strongest first, makes of an empty list: nothing
/// without edits, and the first occurrences of its items where the strongest
/// is a replacement.
pub open spec fn chained(ops: Seq<ListOpView>) -> Seq<ItemView> {
    if ops.len() == 0 {
        seq![]
    } else {
        match ops[0].explicit {
            Some(items) => with_entries(seq![], items),
            None => chained_edits(ops),
        }
    }
}

/// The values of a list of edits.
pub open spec fn ops_view(ops: Seq<ListOp>) -> Seq<ListOpView> {
    ops.map_values(|op: ListOp| op@)
}

/// The place of an item in a table, or the length.
fn item_place(table: &Vec<ListItem>, item: &ListItem) -> (at: usize)
    ensures
        at == first_position(items_view(table@), item@),
        at <= table@.len(),
{
    let mut i: usize = 0;
    while i < table.len()
        invariant
            i <= table@.len(),
            forall|k: int| 0 <= k < i ==> items_view(table@)[k] != item@,
        decreases table@.len() - i,
    {
        assert(items_view(table@)[i as int] == table@[i as int]@);
        if table[i].same(item) {
            proof {
                lemma_first_position_unique(items_view(table@), item@, i as int);
            }
            return i;
        }
        i = i + 1;
    }
    proof {
        lemma_first_position_unique(items_view(table@), item@, i as int);
    }
    i
}

/// Enters each of a list of items in a table.
fn enter_items(table: &mut Vec<ListItem>, items: &Vec<ListItem>)
    ensures
        items_view(final(table)@) == with_entries(items_view(old(table)@), items_view(items@)),
{
    let ghost start = items_view(table@);
    let ghost all = items_view(items@);
    let mut i: usize = 0;
    assert(all.take(0) =~= seq![]);
    while i < items.len()
        invariant
            i <= items@.len(),
            all == items_view(items@),
            items_view(table@) == with_entries(start, all.take(i as int)),
        decreases items@.len() - i,
    {
        assert(all.take(i + 1).drop_last() =~= all.take(i as int));
        assert(all[i as int] == items@[i as int]@);
        let at = item_place(table, &items[i]);
        if at >= table.len() {
            let ghost before = items_view(table@);
            table.push(items[i].copy());
            assert(items_view(table@) =~= before.push(all[i as int]));
        }
        i = i + 1;
    }
    assert(all.take(i as int) =~= all);
}

proof fn lemma_entries_joined<T>(s: Seq<T>, a: Seq<T>, b: Seq<T>)
    ensures
        with_entries(with_entries(s, a), b) == with_entries(s, a + b),
    decreases b.len(),
{
    if b.len() == 0 {
        assert(a + b =~= a);
    } else {
        lemma_entries_joined(s, a, b.drop_last());
        assert((a + b).drop_last() =~= a + b.drop_last());
    }
}

/// Enters the items of an edit in a table.
fn enter_op(table: &mut Vec<ListItem>, op: &ListOp)
    ensures
        items_view(final(table)@) == with_entries(items_view(old(table)@), op_items(op@)),
{
    let ghost start = items_view(table@);
    let ghost mut done: Seq<ItemView> = seq![];
    match &op.explicit {
        Some(items) => {
            enter_items(table, items);
            proof {
                done = items_view(items@);
            }
        },
        None => {},
    }
    proof {
        lemma_entries_joined(start, done, op@.prepend);
        lemma_entries_joined(start, done + op@.prepend, op@.append);
        lemma_entries_joined(start, done + op@.prepend + op@.append, op@.delete);
        lemma_entries_joined(start, done + op@.prepend + op@.append + op@.delete, op@.add);
        lemma_entries_joined(
            start,
            done + op@.prepend + op@.append + op@.delete + op@.add,
            op@.reorder,
        );
    }
    enter_items(table, &op.prepend);
    enter_items(table, &op.append);
    enter_items(table, &op.delete);
    enter_items(table, &op.add);
    enter_items(table, &op.reorder);
}

/// The numbers of a list of items.
fn number_items(table: &Vec<ListItem>, items: &Vec<ListItem>) -> (out: Vec<usize>)
    ensures
        out@ == numbers(items_view(table@), items_view(items@)),
{
    let ghost all = numbers(items_view(table@), items_view(items@));
    let mut out: Vec<usize> = Vec::new();
    let mut i: usize = 0;
    while i < items.len()
        invariant
            i <= items@.len(),
            all == numbers(items_view(table@), items_view(items@)),
            out@ == all.take(i as int),
        decreases items@.len() - i,
    {
        assert(items_view(items@)[i as int] == items@[i as int]@);
        let at = item_place(table, &items[i]);
        out.push(at);
        i = i + 1;
        assert(out@ =~= all.take(i as int));
    }
    assert(all.take(i as int) =~= all);
    out
}

/// The entries of a list made from a sequence are the sequence's.
proof fn lemma_entries_given<T>(items: Seq<T>, k: int)
    requires
        0 <= k < with_entries(seq![], items).len(),
    ensures
        items.contains(with_entries(seq![], items)[k]),
    decreases items.len(),
{
    let rest = items.drop_last();
    let before = with_entries(seq![], rest);
    lemma_with_entry(before, items.last());
    if k < before.len() {
        lemma_entries_given(rest, k);
        let m = choose|m: int| 0 <= m < rest.len() && rest[m] == before[k];
        assert(items[m] == with_entries(seq![], items)[k]);
    } else {
        assert(items[items.len() - 1] == with_entries(seq![], items)[k]);
    }
}

proof fn lemma_entered(s: Seq<ItemView>, items: Seq<ItemView>, item: ItemView)
    requires
        items.contains(item),
    ensures
        first_position(with_entries(s, items), item) < with_entries(s, items).len(),
    decreases items.len(),
{
    let rest = items.drop_last();
    let before = with_entries(s, rest);
    lemma_with_entry(before, items.last());
    let out = with_entries(s, items);
    lemma_first_position(out, item);
    if item == items.last() {
    } else {
        let i = choose|i: int| 0 <= i < items.len() && items[i] == item;
        assert(rest[i] == item);
        lemma_entered(s, rest, item);
        lemma_first_position(before, item);
        let at = first_position(before, item);
        assert(out[at] == before[at]);
        if first_position(out, item) >= out.len() {
            assert(out[at] != item);
        }
    }
}

proof fn lemma_chain_items(ops: Seq<ListOpView>, i: int, item: ItemView)
    requires
        0 <= i < ops.len(),
        op_items(ops[i]).contains(item),
    ensures
        chain_items(ops).contains(item),
    decreases ops.len(),
{
    let items = op_items(ops[i]);
    let k = choose|k: int| 0 <= k < items.len() && items[k] == item;
    let before = chain_items(ops.drop_last());
    if i == ops.len() - 1 {
        assert(chain_items(ops)[before.len() + k] == item);
    } else {
        lemma_chain_items(ops.drop_last(), i, item);
        let m = choose|m: int| 0 <= m < before.len() && before[m] == item;
        assert(chain_items(ops)[m] == item);
    }
}

/// A number that an edit inserts is that of an item.
proof fn lemma_inserted_bounded(ops: Seq<ListOpView>, i: int, id: usize)
    requires
        0 <= i < ops.len(),
        inserts(numbered_chain(ops)[i], id),
        with_entries(seq![], chain_items(ops)).len() <= usize::MAX,
    ensures
        id < with_entries(seq![], chain_items(ops)).len(),
{
    let table = with_entries(seq![], chain_items(ops));
    let op = ops[i];
    let list = if op.explicit matches Some(items) && numbers(table, items).contains(id) {
        op.explicit->0
    } else if numbers(table, op.prepend).contains(id) {
        op.prepend
    } else if numbers(table, op.append).contains(id) {
        op.append
    } else {
        op.add
    };
    let k = choose|k: int| 0 <= k < numbers(table, list).len() && numbers(table, list)[k] == id;
    let item = list[k];
    let e = match op.explicit {
        Some(items) => items,
        None => seq![],
    };
    let all = op_items(op);
    assert(all.contains(item)) by {
        if op.explicit matches Some(items) && numbers(table, items).contains(id) {
            assert(all[k] == item);
        } else if numbers(table, op.prepend).contains(id) {
            assert(all[e.len() + k] == item);
        } else if numbers(table, op.append).contains(id) {
            assert(all[e.len() + op.prepend.len() + k] == item);
        } else {
            assert(all[e.len() + op.prepend.len() + op.append.len() + op.delete.len() + k] == item);
        }
    }
    lemma_chain_items(ops, i, item);
    lemma_entered(seq![], chain_items(ops), item);
    lemma_first_position(table, item);
}

/// Applies a chain of edits, strongest first, to an empty list.
pub fn resolve_list_chain(ops: &Vec<ListOp>) -> (out: Vec<ListItem>)
    ensures
        items_view(out@) == chained(ops_view(ops@)),
        items_view(out@).no_duplicates(),
        forall|k: int|
            0 <= k < out@.len() ==> chain_items(ops_view(ops@)).contains(
                #[trigger] items_view(out@)[k],
            ),
        ops@.len() == 0 ==> out@.len() == 0,
        ops@.len() > 0 ==> (ops@[0]@.explicit matches Some(items) ==> items_view(out@)
            == with_entries(seq![], items)),
{
    let ghost all = ops_view(ops@);
    let ghost items = chain_items(all);
    let mut table: Vec<ListItem> = Vec::new();
    let mut i: usize = 0;
    assert(items_view(table@) =~= seq![]);
    assert(all.take(0) =~= seq![]);
    while i < ops.len()
        invariant
            i <= ops@.len(),
            all == ops_view(ops@),
            items_view(table@) == with_entries(seq![], chain_items(all.take(i as int))),
        decreases ops@.len() - i,
    {
        proof {
            assert(all.take(i + 1).drop_last() =~= all.take(i as int));
            assert(all[i as int] == ops@[i as int]@);
            lemma_entries_joined(
                seq![],
                chain_items(all.take(i as int)),
                op_items(all[i as int]),
            );
        }
        enter_op(&mut table, &ops[i]);
        i = i + 1;
    }
    assert(all.take(i as int) =~= all);
    let ghost shown = items_view(table@);
    assert(table@.len() == table.len());
    let mut given: Vec<IdListOp> = Vec::new();
    let mut k: usize = 0;
    assert(id_ops(given@) =~= numbered_chain(all).take(0));
    while k < ops.len()
        invariant
            k <= ops@.len(),
            all == ops_view(ops@),
            shown == items_view(table@),
            shown == with_entries(seq![], chain_items(all)),
            id_ops(given@) == numbered_chain(all).take(k as int),
        decreases ops@.len() - k,
    {
        let op = &ops[k];
        let one = IdListOp {
            explicit: match &op.explicit {
                Some(items) => Some(number_items(&table, items)),
                None => None,
            },
            prepend: number_items(&table, &op.prepend),
            append: number_items(&table, &op.append),
            delete: number_items(&table, &op.delete),
            add: number_items(&table, &op.add),
            reorder: number_items(&table, &op.reorder),
        };
        let ghost before = given@;
        given.push(one);
        proof {
            assert(all[k as int] == op@);
            assert(one@ == numbered(shown, all[k as int]));
            assert(id_ops(given@) =~= id_ops(before).push(one@));
            assert(numbered_chain(all).take(k + 1) =~= numbered_chain(all).take(k as int).push(
                one@,
            ));
        }
        k = k + 1;
    }
    assert(numbered_chain(all).take(k as int) =~= numbered_chain(all));
    let ids = resolve_ids(given);
    let ghost expected = chained_edits(all);
    let mut out: Vec<ListItem> = Vec::new();
    let mut n: usize = 0;
    while n < ids.len()
        invariant
            n <= ids@.len(),
            table@.len() <= usize::MAX,
            shown == items_view(table@),
            shown == with_entries(seq![], chain_items(all)),
            ids@ == list_chain(numbered_chain(all)),
            forall|i: int| 0 <= i < ids@.len() ==> any_inserts(
                numbered_chain(all),
                #[trigger] ids@[i],
            ),
            expected == chained_edits(all),
            items_view(out@) == expected.take(n as int),
        decreases ids@.len() - n,
    {
        let id = ids[n];
        proof {
            assert(any_inserts(numbered_chain(all), ids@[n as int]));
            let at = choose|i: int|
                0 <= i < numbered_chain(all).len() && inserts(
                    #[trigger] numbered_chain(all)[i],
                    id,
                );
            lemma_inserted_bounded(all, at, id);
        }
        let item = table[id].copy();
        let ghost before = out@;
        out.push(item);
        proof {
            assert(expected[n as int] == shown[id as int]);
            assert(items_view(out@) =~= items_view(before).push(item@));
            assert(expected.take(n + 1) =~= expected.take(n as int).push(item@));
        }
        n = n + 1;
    }
    assert(expected.take(n as int) =~= expected);
    proof {
        lemma_with_entries(Seq::<ItemView>::empty(), chain_items(all));
        assert forall|i: int| 0 <= i < expected.len() implies chain_items(all).contains(
            #[trigger] expected[i],
        ) by {
            assert(any_inserts(numbered_chain(all), ids@[i]));
            let a = choose|a: int|
                0 <= a < numbered_chain(all).len() && inserts(
                    #[trigger] numbered_chain(all)[a],
                    ids@[i],
                );
            lemma_inserted_bounded(all, a, ids@[i]);
            lemma_entries_given(chain_items(all), ids@[i] as int);
        }
        assert forall|i: int, j: int|
            0 <= i < expected.len() && 0 <= j < expected.len() && i != j implies expected[i]
            != expected[j] by {
            assert(any_inserts(numbered_chain(all), ids@[i]));
            let a = choose|a: int|
                0 <= a < numbered_chain(all).len() && inserts(
                    #[trigger] numbered_chain(all)[a],
                    ids@[i],
                );
            lemma_inserted_bounded(all, a, ids@[i]);
            assert(any_inserts(numbered_chain(all), ids@[j]));
            let b = choose|b: int|
                0 <= b < numbered_chain(all).len() && inserts(
                    #[trigger] numbered_chain(all)[b],
                    ids@[j],
                );
            lemma_inserted_bounded(all, b, ids@[j]);
        }
        if ops@.len() > 0 {
            if let Some(items) = ops@[0]@.explicit {
                assert(all[0] == ops@[0]@);
                assert forall|item: ItemView| items.contains(item) implies first_position(
                    shown,
                    item,
                ) < shown.len() by {
                    let k = choose|k: int| 0 <= k < items.len() && items[k] == item;
                    assert(op_items(all[0])[k] == item);
                    lemma_chain_items(all, 0, item);
                    lemma_entered(seq![], chain_items(all), item);
                }
                lemma_first_numbers(shown, items);
                assert(numbered_chain(all)[0].0 == Some(numbers(shown, items)));
                assert(expected =~= with_entries(seq![], items));
            }
        }
    }
    out
}

/// The first occurrences of the numbers of a list are the numbers of the first
/// occurrences of its items.
proof fn lemma_first_numbers(table: Seq<ItemView>, items: Seq<ItemView>)
    requires
        table.len() <= usize::MAX,
        forall|item: ItemView| items.contains(item) ==> first_position(table, item) < table.len(),
    ensures
        with_entries(seq![], numbers(table, items)) == numbers(
            table,
            with_entries(seq![], items),
        ),
        with_entries(seq![], numbers(table, items)).map_values(|id: usize| table[id as int])
            == with_entries(seq![], items),
        forall|k: int|
            0 <= k < with_entries(seq![], items).len() ==> items.contains(
                #[trigger] with_entries(seq![], items)[k],
            ),
    decreases items.len(),
{
    let ids = with_entries(seq![], numbers(table, items));
    let firsts = with_entries(seq![], items);
    if items.len() > 0 {
        let rest = items.drop_last();
        assert forall|item: ItemView| rest.contains(item) implies items.contains(item) by {
            let i = choose|i: int| 0 <= i < rest.len() && rest[i] == item;
            assert(items[i] == item);
        }
        lemma_first_numbers(table, rest);
        let last = items.last();
        assert(items[items.len() - 1] == last);
        assert(items.contains(last));
        let before = with_entries(seq![], rest);
        assert(numbers(table, items).drop_last() =~= numbers(table, rest));
        lemma_first_position(table, last);
        lemma_first_position(before, last);
        lemma_first_position(numbers(table, before), first_position(table, last) as usize);
        let id = first_position(table, last) as usize;
        if first_position(before, last) < before.len() {
            let at = first_position(before, last);
            assert(numbers(table, before)[at] == id);
            if first_position(numbers(table, before), id) >= before.len() {
                assert(numbers(table, before)[at] != id);
            }
        } else {
            if first_position(numbers(table, before), id) < before.len() {
                let at = first_position(numbers(table, before), id);
                let other = before[at];
                assert(rest.contains(other));
                lemma_first_position(table, other);
                assert(other == table[id as int]);
                assert(before[at] != last);
            }
            assert(numbers(table, before.push(last)) =~= numbers(table, before).push(id));
        }
        assert forall|k: int| 0 <= k < firsts.len() implies items.contains(
            #[trigger] firsts[k],
        ) by {
            if k < before.len() {
                assert(rest.contains(before[k]));
            }
        }
    } else {
        assert(numbers(table, items) =~= seq![]);
        assert(ids =~= numbers(table, firsts));
    }
    assert forall|k: int| 0 <= k < firsts.len() implies table[ids[k] as int] == firsts[k] by {
        assert(items.contains(firsts[k]));
        lemma_first_position(table, firsts[k]);
    }
    assert(ids.map_values(|id: usize| table[id as int]) =~= firsts);
}

// ── Laws ────────────────────────────────────────────────────────────────

/// A replacement hides every weaker edit.
pub proof fn law_replacement_hides_weaker_edits(op: ListOpView, weaker: Seq<ListOpView>)
    requires
        op.explicit is Some,
    ensures
        chained(seq![op] + weaker) == chained(seq![op]),
{
    assert((seq![op] + weaker)[0] == op);
}

/// A list that holds nothing twice, written as a replacement, reads back as it
/// is.
pub proof fn law_explicit_list_reads_back(items: Seq<ItemView>)
    requires
        items.no_duplicates(),
    ensures
        chained(seq![explicit_list(items)]) == items,
{
    lemma_entries_of_distinct(items);
}

proof fn lemma_entries_of_distinct(items: Seq<ItemView>)
    requires
        items.no_duplicates(),
    ensures
        with_entries(seq![], items) == items,
    decreases items.len(),
{
    if items.len() > 0 {
        let rest = items.drop_last();
        assert(rest.no_duplicates()) by {
            assert forall|i: int, j: int|
                0 <= i < rest.len() && 0 <= j < rest.len() && i != j implies rest[i] != rest[j] by {
                assert(items[i] != items[j]);
            }
        }
        lemma_entries_of_distinct(rest);
        lemma_first_position(rest, items.last());
        if first_position(rest, items.last()) < rest.len() {
            let at = first_position(rest, items.last());
            assert(items[at] == items[items.len() - 1]);
        }
        assert(items =~= rest.push(items.last()));
    }
}


/// Whether numbers stand for items, one for one, by their places in a table.
pub open spec fn stand_for(table: Seq<ItemView>, ids: Seq<usize>, items: Seq<ItemView>) -> bool {
    &&& ids.len() == items.len()
    &&& forall|k: int|
        0 <= k < ids.len() ==> (#[trigger] ids[k]) < table.len() && table[ids[k] as int] == items[k]
}

/// Whether each part of each edit stands, in numbers, in its own place.
pub open spec fn are_handed_on(
    ops: Seq<ListOpView>,
    table: Seq<ItemView>,
    ids: Seq<IdOp>,
) -> bool {
    &&& table.no_duplicates()
    &&& ids.len() == ops.len()
    &&& forall|i: int|
        0 <= i < ops.len() ==> {
            &&& (#[trigger] ids[i]).0 is Some <==> ops[i].explicit is Some
            &&& ops[i].explicit is Some ==> stand_for(table, ids[i].0->0, ops[i].explicit->0)
            &&& stand_for(table, ids[i].1, ops[i].prepend)
            &&& stand_for(table, ids[i].2, ops[i].append)
            &&& stand_for(table, ids[i].3, ops[i].delete)
            &&& stand_for(table, ids[i].4, ops[i].add)
            &&& stand_for(table, ids[i].5, ops[i].reorder)
        }
}

proof fn lemma_stand_for(ops: Seq<ListOpView>, i: int, items: Seq<ItemView>, from: int)
    requires
        0 <= i < ops.len(),
        0 <= from,
        from + items.len() <= op_items(ops[i]).len(),
        op_items(ops[i]).subrange(from, from + items.len()) == items,
        with_entries(seq![], chain_items(ops)).len() <= usize::MAX,
    ensures
        stand_for(
            with_entries(seq![], chain_items(ops)),
            numbers(with_entries(seq![], chain_items(ops)), items),
            items,
        ),
{
    let table = with_entries(seq![], chain_items(ops));
    let ids = numbers(table, items);
    assert forall|k: int| 0 <= k < ids.len() implies (#[trigger] ids[k]) < table.len()
        && table[ids[k] as int] == items[k] by {
        let part = op_items(ops[i]).subrange(from, from + items.len());
        assert(part[k] == op_items(ops[i])[from + k]);
        assert(op_items(ops[i]).contains(items[k]));
        lemma_chain_items(ops, i, items[k]);
        lemma_entered(seq![], chain_items(ops), items[k]);
        lemma_first_position(table, items[k]);
    }
}

/// A chain that no replacement heads is handed on edit by edit and part by part,
/// each item by a number that no other item has, and the outcome is the items
/// that the resulting numbers stand for.
pub proof fn law_edits_are_handed_on_part_by_part(ops: Seq<ListOpView>)
    requires
        ops.len() > 0,
        ops[0].explicit is None,
        with_entries(seq![], chain_items(ops)).len() <= usize::MAX,
    ensures
        exists|table: Seq<ItemView>, ids: Seq<IdOp>| {
            &&& #[trigger] are_handed_on(ops, table, ids)
            &&& chained(ops) == list_chain(ids).map_values(|id: usize| table[id as int])
        },
{
    let table = with_entries(seq![], chain_items(ops));
    let ids = numbered_chain(ops);
    lemma_with_entries(Seq::<ItemView>::empty(), chain_items(ops));
    assert forall|i: int| 0 <= i < ops.len() implies {
        &&& (#[trigger] ids[i]).0 is Some <==> ops[i].explicit is Some
        &&& ops[i].explicit is Some ==> stand_for(table, ids[i].0->0, ops[i].explicit->0)
        &&& stand_for(table, ids[i].1, ops[i].prepend)
        &&& stand_for(table, ids[i].2, ops[i].append)
        &&& stand_for(table, ids[i].3, ops[i].delete)
        &&& stand_for(table, ids[i].4, ops[i].add)
        &&& stand_for(table, ids[i].5, ops[i].reorder)
    } by {
        let op = ops[i];
        let all = op_items(op);
        let e = match op.explicit {
            Some(items) => items,
            None => seq![],
        };
        let s: int = e.len() as int;
        let p: int = s + op.prepend.len();
        let a: int = p + op.append.len();
        let d: int = a + op.delete.len();
        let n: int = d + op.add.len();
        assert(all.subrange(0, s) =~= e);
        assert(all.subrange(s, s + op.prepend.len()) =~= op.prepend);
        assert(all.subrange(p, p + op.append.len()) =~= op.append);
        assert(all.subrange(a, a + op.delete.len()) =~= op.delete);
        assert(all.subrange(d, d + op.add.len()) =~= op.add);
        assert(all.subrange(n, n + op.reorder.len()) =~= op.reorder);
        lemma_stand_for(ops, i, e, 0);
        lemma_stand_for(ops, i, op.prepend, s);
        lemma_stand_for(ops, i, op.append, p);
        lemma_stand_for(ops, i, op.delete, a);
        lemma_stand_for(ops, i, op.add, d);
        lemma_stand_for(ops, i, op.reorder, n);
    }
    assert(are_handed_on(ops, table, ids));
    assert(chained(ops) == list_chain(ids).map_values(|id: usize| table[id as int]));
}

} // verus!
