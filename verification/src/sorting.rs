//! Stable sorting by insertion.

use vstd::prelude::*;

verus! {

/// The first place of `s` whose item `x` comes strictly before, or the end.
pub open spec fn insert_place<T>(s: Seq<T>, x: T, before: spec_fn(T, T) -> bool, from: int) -> int
    decreases s.len() - from,
{
    if from < 0 || from >= s.len() {
        s.len() as int
    } else if before(x, s[from]) {
        from
    } else {
        insert_place(s, x, before, from + 1)
    }
}

/// The items of `s` in order, items of which neither comes before the other in
/// the order they had.
pub open spec fn stable_sorted<T>(s: Seq<T>, before: spec_fn(T, T) -> bool) -> Seq<T>
    decreases s.len(),
{
    if s.len() == 0 {
        s
    } else {
        let rest = stable_sorted(s.drop_last(), before);
        rest.insert(insert_place(rest, s.last(), before, 0), s.last())
    }
}

/// Whether an order is one of sorting: asymmetric, and such that what is not
/// after `b` comes not after what is not before `b`.
pub open spec fn is_order<T>(before: spec_fn(T, T) -> bool) -> bool {
    &&& forall|a: T, b: T| #[trigger] before(a, b) ==> !before(b, a)
    &&& forall|a: T, b: T, c: T| #[trigger]
        before(a, c) ==> #[trigger] before(a, b) || before(b, c)
}

/// Whether no item comes before an earlier one.
pub open spec fn is_sorted<T>(s: Seq<T>, before: spec_fn(T, T) -> bool) -> bool {
    forall|i: int, j: int| 0 <= i < j < s.len() ==> !before(#[trigger] s[j], #[trigger] s[i])
}

pub proof fn lemma_insert_place<T>(s: Seq<T>, x: T, before: spec_fn(T, T) -> bool, from: int)
    requires
        0 <= from <= s.len(),
    ensures
        from <= insert_place(s, x, before, from) <= s.len(),
        forall|i: int|
            from <= i < insert_place(s, x, before, from) ==> !before(x, #[trigger] s[i]),
        insert_place(s, x, before, from) < s.len() ==> before(
            x,
            s[insert_place(s, x, before, from)],
        ),
    decreases s.len() - from,
{
    if from < s.len() && !before(x, s[from]) {
        lemma_insert_place(s, x, before, from + 1);
    }
}

pub proof fn lemma_insert_place_unique<T>(
    s: Seq<T>,
    x: T,
    before: spec_fn(T, T) -> bool,
    from: int,
    at: int,
)
    requires
        0 <= from <= at <= s.len(),
        forall|i: int| from <= i < at ==> !before(x, #[trigger] s[i]),
        at < s.len() ==> before(x, s[at]),
    ensures
        insert_place(s, x, before, from) == at,
    decreases at - from,
{
    if from < at {
        lemma_insert_place_unique(s, x, before, from + 1, at);
    }
}

/// Sorting keeps every item.
pub proof fn lemma_stable_sorted<T>(s: Seq<T>, before: spec_fn(T, T) -> bool)
    ensures
        stable_sorted(s, before).len() == s.len(),
        forall|x: T|
            #![trigger stable_sorted(s, before).contains(x)]
            #![trigger s.contains(x)]
            stable_sorted(s, before).contains(x) <==> s.contains(x),
        s.no_duplicates() ==> stable_sorted(s, before).no_duplicates(),
    decreases s.len(),
{
    let out = stable_sorted(s, before);
    if s.len() > 0 {
        let rest = s.drop_last();
        let last = s.last();
        let ordered = stable_sorted(rest, before);
        lemma_stable_sorted(rest, before);
        let at = insert_place(ordered, last, before, 0);
        lemma_insert_place(ordered, last, before, 0);
        assert forall|x: T|
            #![trigger out.contains(x)]
            #![trigger s.contains(x)]
            out.contains(x) <==> s.contains(x) by {
            if s.contains(x) {
                let i = choose|i: int| 0 <= i < s.len() && s[i] == x;
                if i < rest.len() {
                    assert(rest[i] == x);
                    assert(rest.contains(x));
                    let j = choose|j: int| 0 <= j < ordered.len() && ordered[j] == x;
                    if j < at {
                        assert(out[j] == x);
                    } else {
                        assert(out[j + 1] == x);
                    }
                } else {
                    assert(out[at] == x);
                }
            }
            if out.contains(x) {
                let j = choose|j: int| 0 <= j < out.len() && out[j] == x;
                if j == at {
                    assert(s[s.len() - 1] == x);
                } else {
                    let k = if j < at {
                        j
                    } else {
                        j - 1
                    };
                    assert(ordered[k] == x);
                    assert(ordered.contains(x));
                    let i = choose|i: int| 0 <= i < rest.len() && rest[i] == x;
                    assert(s[i] == x);
                }
            }
        }
        if s.no_duplicates() {
            assert(rest.no_duplicates());
            assert(!ordered.contains(last)) by {
                if ordered.contains(last) {
                    assert(rest.contains(last));
                    let i = choose|i: int| 0 <= i < rest.len() && rest[i] == last;
                    assert(s[i] == s[s.len() - 1]);
                }
            }
            assert forall|i: int, j: int|
                0 <= i < out.len() && 0 <= j < out.len() && i != j implies out[i] != out[j] by {
                let a = if i < at {
                    i
                } else {
                    i - 1
                };
                let b = if j < at {
                    j
                } else {
                    j - 1
                };
                if i == at {
                    assert(out[j] == ordered[b]);
                } else if j == at {
                    assert(out[i] == ordered[a]);
                } else {
                    assert(out[i] == ordered[a] && out[j] == ordered[b]);
                }
            }
        }
    }
}

/// Sorting by an order puts the items in that order.
pub proof fn law_sorting_sorts<T>(s: Seq<T>, before: spec_fn(T, T) -> bool)
    requires
        is_order(before),
    ensures
        is_sorted(stable_sorted(s, before), before),
    decreases s.len(),
{
    let out = stable_sorted(s, before);
    if s.len() > 0 {
        let last = s.last();
        let ordered = stable_sorted(s.drop_last(), before);
        law_sorting_sorts(s.drop_last(), before);
        let at = insert_place(ordered, last, before, 0);
        lemma_insert_place(ordered, last, before, 0);
        assert forall|i: int, j: int| 0 <= i < j < out.len() implies !before(
            #[trigger] out[j],
            #[trigger] out[i],
        ) by {
            if j < at {
                assert(out[i] == ordered[i] && out[j] == ordered[j]);
            } else if j == at {
                assert(out[i] == ordered[i]);
            } else if i < at {
                assert(out[i] == ordered[i] && out[j] == ordered[j - 1]);
            } else if i == at {
                assert(out[j] == ordered[j - 1]);
                assert(before(last, ordered[at]));
                if j - 1 > at {
                    assert(!before(ordered[j - 1], ordered[at]));
                    assert(before(last, ordered[j - 1]) || before(ordered[j - 1], ordered[at]));
                }
            } else {
                assert(out[i] == ordered[i - 1] && out[j] == ordered[j - 1]);
            }
        }
    }
}

/// Sorts a vector; `before` decides whether its first argument comes strictly
/// before its second, as `order` says.
pub fn sort_stable<T, F: Fn(&T, &T) -> bool>(
    items: &mut Vec<T>,
    before: F,
    Ghost(order): Ghost<spec_fn(T, T) -> bool>,
)
    requires
        forall|i: int, j: int|
            0 <= i < old(items)@.len() && 0 <= j < old(items)@.len() ==> call_requires(
                before,
                (&#[trigger] old(items)@[i], &#[trigger] old(items)@[j]),
            ),
        forall|a: &T, b: &T, r: bool|
            call_ensures(before, (a, b), r) ==> r == order(*a, *b),
    ensures
        final(items)@ == stable_sorted(old(items)@, order),
{
    let ghost all = items@;
    let mut done: usize = 0;
    assert(all.take(0) =~= Seq::<T>::empty());
    assert(items@ =~= stable_sorted(all.take(0), order) + all.skip(0));
    while done < items.len()
        invariant
            all == old(items)@,
            forall|i: int, j: int|
                0 <= i < all.len() && 0 <= j < all.len() ==> call_requires(
                    before,
                    (&#[trigger] all[i], &#[trigger] all[j]),
                ),
            forall|a: &T, b: &T, r: bool|
                call_ensures(before, (a, b), r) ==> r == order(*a, *b),
            done <= all.len(),
            items@.len() == all.len(),
            items@ == stable_sorted(all.take(done as int), order) + all.skip(done as int),
        decreases all.len() - done,
    {
        let ghost ordered = stable_sorted(all.take(done as int), order);
        proof {
            lemma_stable_sorted(all.take(done as int), order);
        }
        let item = items.remove(done);
        assert(item == all[done as int]);
        assert(items@ =~= ordered + all.skip(done + 1));
        let mut at: usize = 0;
        while at < done
            invariant_except_break
                forall|i: int| 0 <= i < at ==> !order(item, #[trigger] ordered[i]),
            invariant
                at <= done < all.len(),
                ordered.len() == done,
                item == all[done as int],
                items@ == ordered + all.skip(done + 1),
                ordered == stable_sorted(all.take(done as int), order),
                forall|i: int, j: int|
                    0 <= i < all.len() && 0 <= j < all.len() ==> call_requires(
                        before,
                        (&#[trigger] all[i], &#[trigger] all[j]),
                    ),
                forall|a: &T, b: &T, r: bool|
                    call_ensures(before, (a, b), r) ==> r == order(*a, *b),
            ensures
                at <= done,
                forall|i: int| 0 <= i < at ==> !order(item, #[trigger] ordered[i]),
                at < done ==> order(item, ordered[at as int]),
            decreases done - at,
        {
            proof {
                lemma_stable_sorted(all.take(done as int), order);
                assert(ordered.contains(ordered[at as int]));
                assert(all.take(done as int).contains(ordered[at as int]));
                let i = choose|i: int|
                    0 <= i < all.take(done as int).len() && all.take(done as int)[i]
                        == ordered[at as int];
                assert(all[i] == ordered[at as int]);
            }
            assert(items@[at as int] == ordered[at as int]);
            let first = before(&item, &items[at]);
            if first {
                break ;
            }
            at = at + 1;
        }
        items.insert(at, item);
        proof {
            lemma_insert_place_unique(ordered, item, order, 0, at as int);
            let more = all.take(done + 1);
            assert(more.drop_last() =~= all.take(done as int));
            assert(items@ =~= stable_sorted(more, order) + all.skip(done + 1));
        }
        done = done + 1;
    }
    assert(all.take(done as int) =~= all);
    assert(items@ =~= stable_sorted(all, order));
}

} // verus!
