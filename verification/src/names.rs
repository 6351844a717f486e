//! Maps and sets keyed by name, kept in the order of the names.

use crate::order::{
    compare_text, lemma_order_text, lemma_order_text_transitive, order_text, Order,
};
use crate::text::text;
use vstd::prelude::*;

verus! {

/// The names of a list of entries.
pub open spec fn keys<V>(entries: Seq<(String, V)>) -> Seq<Seq<char>> {
    entries.map_values(|e: (String, V)| e.0@)
}

/// Whether each name comes strictly before the next ones.
pub open spec fn ascending(names: Seq<Seq<char>>) -> bool {
    forall|i: int, j: int|
        0 <= i < j < names.len() ==> order_text(#[trigger] names[i], #[trigger] names[j])
            == Order::Less
}

/// The map that a list of entries stands for.
pub open spec fn entries_map<V>(entries: Seq<(String, V)>) -> Map<Seq<char>, V>
    decreases entries.len(),
{
    if entries.len() == 0 {
        Map::empty()
    } else {
        entries_map(entries.drop_last()).insert(entries.last().0@, entries.last().1)
    }
}

proof fn lemma_entries_map<V>(entries: Seq<(String, V)>)
    requires
        ascending(keys(entries)),
    ensures
        entries_map(entries).dom() == keys(entries).to_set(),
        forall|i: int|
            0 <= i < entries.len() ==> entries_map(entries)[#[trigger] keys(entries)[i]]
                == entries[i].1,
    decreases entries.len(),
{
    let names = keys(entries);
    if entries.len() > 0 {
        let rest = entries.drop_last();
        assert(keys(rest) =~= names.drop_last());
        lemma_entries_map(rest);
        let last = entries.len() - 1;
        assert forall|i: int| 0 <= i < entries.len() implies entries_map(
            entries,
        )[#[trigger] names[i]] == entries[i].1 by {
            if i < last {
                assert(keys(rest)[i] == names[i]);
                lemma_order_text(names[i], names[last]);
                assert(order_text(names[i], names[last]) == Order::Less);
            }
        }
        assert(names =~= names.drop_last().push(names.last()));
        assert forall|n: Seq<char>| entries_map(entries).dom().contains(n) == names.to_set().contains(
            n,
        ) by {
            if names.drop_last().contains(n) {
                let i = choose|i: int| 0 <= i < names.drop_last().len() && names.drop_last()[i] == n;
                assert(names[i] == n);
            }
            if names.contains(n) {
                let i = choose|i: int| 0 <= i < names.len() && names[i] == n;
                if i < last {
                    assert(names.drop_last()[i] == n);
                    assert(names.drop_last().contains(n));
                } else {
                    assert(n == entries.last().0@);
                }
            }
            if n == entries.last().0@ {
                assert(names[last] == n);
            }
        }
        assert(entries_map(entries).dom() =~= names.to_set());
    } else {
        assert(entries_map(entries).dom() =~= names.to_set());
    }
}

/// Values by name, in the order of the names.
#[derive(Debug)]
pub struct NameMap<V> {
    entries: Vec<(String, V)>,
}

impl<V> View for NameMap<V> {
    type V = Map<Seq<char>, V>;

    closed spec fn view(&self) -> Map<Seq<char>, V> {
        entries_map(self.entries@)
    }
}

impl<V> NameMap<V> {
    #[verifier::type_invariant]
    spec fn sorted(&self) -> bool {
        ascending(keys(self.entries@))
    }

    /// The entries, in the order of their names.
    pub closed spec fn listed(&self) -> Seq<(String, V)> {
        self.entries@
    }

    /// A map without entries.
    pub fn new() -> (map: Self)
        ensures
            map@ == Map::<Seq<char>, V>::empty(),
    {
        NameMap { entries: Vec::new() }
    }

    /// The number of entries.
    pub fn len(&self) -> (len: usize)
        ensures
            len == self.listed().len(),
            len == 0 <==> self@.dom().is_empty(),
            self@.dom().finite(),
            len == self@.dom().len(),
            ascending(keys(self.listed())),
            self@.dom() == keys(self.listed()).to_set(),
    {
        proof {
            use_type_invariant(self);
            lemma_entries_map(self.entries@);
            lemma_ascending_distinct(keys(self.entries@));
            keys(self.entries@).unique_seq_to_set();
            if self.entries@.len() > 0 {
                assert(keys(self.entries@).contains(keys(self.entries@)[0]));
            }
        }
        self.entries.len()
    }

    /// The first index whose name is not before `name`, and whether it is
    /// `name` itself.
    fn position(&self, name: &str) -> (at: (usize, bool))
        ensures
            at.0 <= self.entries@.len(),
            forall|i: int|
                0 <= i < at.0 ==> order_text(#[trigger] keys(self.entries@)[i], name@)
                    == Order::Less,
            at.1 ==> at.0 < self.entries@.len() && keys(self.entries@)[at.0 as int] == name@,
            !at.1 && at.0 < self.entries@.len() ==> order_text(
                name@,
                keys(self.entries@)[at.0 as int],
            ) == Order::Less,
    {
        let mut i: usize = 0;
        while i < self.entries.len()
            invariant
                i <= self.entries@.len(),
                forall|j: int|
                    0 <= j < i ==> order_text(#[trigger] keys(self.entries@)[j], name@)
                        == Order::Less,
            decreases self.entries@.len() - i,
        {
            proof {
                lemma_order_text(keys(self.entries@)[i as int], name@);
            }
            match compare_text(self.entries[i].0.as_str(), name) {
                Order::Less => {
                    i = i + 1;
                },
                Order::Equal => {
                    return (i, true);
                },
                Order::Greater => {
                    return (i, false);
                },
            }
        }
        (i, false)
    }

    /// Whether `name` has an entry.
    pub fn has(&self, name: &str) -> (has: bool)
        ensures
            has == self@.dom().contains(name@),
    {
        let at = self.position(name);
        proof {
            use_type_invariant(self);
            lemma_entries_map(self.entries@);
            lemma_absent(keys(self.entries@), name@, at.0 as int, at.1);
        }
        at.1
    }

    /// The value of `name`, if it has an entry.
    pub fn get(&self, name: &str) -> (value: Option<&V>)
        ensures
            value is Some <==> self@.dom().contains(name@),
            value is Some ==> *value->0 == self@[name@],
    {
        let at = self.position(name);
        proof {
            use_type_invariant(self);
            lemma_entries_map(self.entries@);
            lemma_absent(keys(self.entries@), name@, at.0 as int, at.1);
        }
        if at.1 {
            Some(&self.entries[at.0].1)
        } else {
            None
        }
    }

    /// Sets the value of `name`, replacing any previous value.
    pub fn insert(&mut self, name: &str, value: V)
        ensures
            final(self)@ == old(self)@.insert(name@, value),
    {
        let at = self.position(name);
        let mut entries: Vec<(String, V)> = Vec::new();
        proof {
            use_type_invariant(&*self);
        }
        let ghost before = self.entries@;
        std::mem::swap(&mut entries, &mut self.entries);
        let key = text(name);
        let ghost old_keys = keys(before);
        if at.1 {
            entries.set(at.0, (key, value));
            assert(keys(entries@) =~= old_keys);
        } else {
            entries.insert(at.0, (key, value));
            proof {
                assert(keys(entries@) =~= old_keys.insert(at.0 as int, name@));
                lemma_insert_ascending(old_keys, name@, at.0 as int);
            }
        }
        proof {
            lemma_entries_map(before);
            lemma_entries_map(entries@);
            lemma_absent(old_keys, name@, at.0 as int, at.1);
            lemma_absent(keys(entries@), name@, at.0 as int, true);
            let new_keys = keys(entries@);
            let a = entries_map(entries@);
            let b = entries_map(before).insert(name@, value);
            assert(new_keys[at.0 as int] == name@);
            assert forall|n: Seq<char>| a.dom().contains(n) == b.dom().contains(n) by {
                if old_keys.contains(n) {
                    let i = choose|i: int| 0 <= i < old_keys.len() && old_keys[i] == n;
                    if at.1 || i < at.0 {
                        assert(new_keys[i] == n);
                    } else {
                        assert(new_keys[i + 1] == n);
                    }
                }
                if new_keys.contains(n) {
                    let i = choose|i: int| 0 <= i < new_keys.len() && new_keys[i] == n;
                    if n != name@ {
                        if at.1 || i < at.0 {
                            assert(old_keys[i] == n);
                        } else {
                            assert(old_keys[i - 1] == n);
                        }
                    }
                }
            }
            assert forall|n: Seq<char>| a.dom().contains(n) implies a[n] == b[n] by {
                let i = choose|i: int| 0 <= i < new_keys.len() && new_keys[i] == n;
                assert(a[new_keys[i]] == entries@[i].1);
                assert(a[new_keys[at.0 as int]] == entries@[at.0 as int].1);
                if n != name@ {
                    if at.1 || i < at.0 {
                        assert(old_keys[i] == n);
                        assert(entries@[i] == before[i]);
                    } else {
                        assert(old_keys[i - 1] == n);
                        assert(entries@[i] == before[i - 1]);
                    }
                }
            }
            assert(a =~= b);
        }
        self.entries = entries;
    }

    /// The name of the entry at `i`.
    pub fn name_at(&self, i: usize) -> (name: &str)
        requires
            i < self.listed().len(),
        ensures
            name@ == keys(self.listed())[i as int],
            self@.dom().contains(name@),
    {
        proof {
            use_type_invariant(self);
            lemma_entries_map(self.entries@);
            assert(keys(self.entries@).contains(keys(self.entries@)[i as int]));
        }
        self.entries[i].0.as_str()
    }

    /// The value of the entry at `i`.
    pub fn value_at(&self, i: usize) -> (value: &V)
        requires
            i < self.listed().len(),
        ensures
            *value == self.listed()[i as int].1,
            *value == self@[keys(self.listed())[i as int]],
    {
        proof {
            use_type_invariant(self);
            lemma_entries_map(self.entries@);
            assert(keys(self.entries@)[i as int] == self.entries@[i as int].0@);
        }
        &self.entries[i].1
    }
}

proof fn lemma_ascending_distinct(names: Seq<Seq<char>>)
    requires
        ascending(names),
    ensures
        names.no_duplicates(),
{
    assert forall|i: int, j: int| 0 <= i < names.len() && 0 <= j < names.len() && i != j implies
        names[i] != names[j] by {
        lemma_order_text(names[i], names[j]);
        if i < j {
            assert(order_text(names[i], names[j]) == Order::Less);
        } else {
            assert(order_text(names[j], names[i]) == Order::Less);
        }
    }
}

/// A name is among ascending names only at the place where it belongs.
proof fn lemma_absent(names: Seq<Seq<char>>, name: Seq<char>, at: int, found: bool)
    requires
        ascending(names),
        0 <= at <= names.len(),
        forall|i: int|
            0 <= i < at ==> order_text(#[trigger] names[i], name) == Order::Less,
        found ==> at < names.len() && names[at] == name,
        !found && at < names.len() ==> order_text(name, names[at]) == Order::Less,
    ensures
        names.to_set().contains(name) <==> found,
        found ==> names.contains(name),
{
    if found {
        assert(names[at] == name);
    } else if names.contains(name) {
        let i = choose|i: int| 0 <= i < names.len() && names[i] == name;
        lemma_order_text(name, name);
        if i >= at {
            if i > at {
                assert(order_text(names[at], names[i]) == Order::Less);
                lemma_order_text(name, names[at]);
            }
        }
    }
}

proof fn lemma_insert_ascending(names: Seq<Seq<char>>, name: Seq<char>, at: int)
    requires
        ascending(names),
        0 <= at <= names.len(),
        forall|i: int|
            0 <= i < at ==> order_text(#[trigger] names[i], name) == Order::Less,
        at < names.len() ==> order_text(name, names[at]) == Order::Less,
    ensures
        ascending(names.insert(at, name)),
{
    let all = names.insert(at, name);
    assert forall|i: int, j: int| 0 <= i < j < all.len() implies order_text(
        #[trigger] all[i],
        #[trigger] all[j],
    ) == Order::Less by {
        if j < at {
            assert(all[i] == names[i] && all[j] == names[j]);
        } else if j == at {
            assert(all[i] == names[i]);
        } else if i == at {
            assert(all[j] == names[j - 1]);
            if j - 1 > at {
                assert(order_text(names[at], names[j - 1]) == Order::Less);
                lemma_order_text_transitive(name, names[at], names[j - 1]);
            }
        } else if i < at {
            assert(all[i] == names[i] && all[j] == names[j - 1]);
        } else {
            assert(all[i] == names[i - 1] && all[j] == names[j - 1]);
        }
    }
}

/// A set of names, in order.
#[derive(Debug)]
pub struct NameSet {
    members: NameMap<()>,
}

impl View for NameSet {
    type V = Set<Seq<char>>;

    closed spec fn view(&self) -> Set<Seq<char>> {
        self.members@.dom()
    }
}

impl NameSet {
    /// The members, in order.
    pub closed spec fn listed(&self) -> Seq<Seq<char>> {
        keys(self.members.listed())
    }

    /// A set without members.
    pub fn new() -> (set: Self)
        ensures
            set@ == Set::<Seq<char>>::empty(),
    {
        let set = NameSet { members: NameMap::new() };
        assert(set@ =~= Set::<Seq<char>>::empty());
        set
    }

    /// The number of members.
    pub fn len(&self) -> (len: usize)
        ensures
            len == self.listed().len(),
            len == self@.len(),
            self@.finite(),
            ascending(self.listed()),
            self@ == self.listed().to_set(),
    {
        self.members.len()
    }

    /// Whether `name` is a member.
    pub fn contains(&self, name: &str) -> (member: bool)
        ensures
            member == self@.contains(name@),
    {
        self.members.has(name)
    }

    /// Adds a member.
    pub fn insert(&mut self, name: &str)
        ensures
            final(self)@ == old(self)@.insert(name@),
    {
        let ghost before = self.members@;
        self.members.insert(name, ());
        assert(self@ =~= before.dom().insert(name@));
    }

    /// The member at `i`.
    pub fn name_at(&self, i: usize) -> (name: &str)
        requires
            i < self.listed().len(),
        ensures
            name@ == self.listed()[i as int],
    {
        self.members.name_at(i)
    }
}

} // verus!
