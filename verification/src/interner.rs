//! Interned tokens: names that are stored once and referred to by a small id.

use vstd::prelude::*;

verus! {

/// The first index at which `x` stands in `s`, or the length of `s`.
pub open spec fn first_position<T>(s: Seq<T>, x: T) -> int
    decreases s.len(),
{
    if s.len() == 0 {
        0
    } else if first_position(s.drop_last(), x) < s.len() - 1 {
        first_position(s.drop_last(), x)
    } else if s.last() == x {
        s.len() - 1
    } else {
        s.len() as int
    }
}

/// `s` with `x` appended, unless `x` already stands in it.
pub open spec fn with_entry<T>(s: Seq<T>, x: T) -> Seq<T> {
    if first_position(s, x) < s.len() {
        s
    } else {
        s.push(x)
    }
}

/// `s` with each of `xs` entered in turn.
pub open spec fn with_entries<T>(s: Seq<T>, xs: Seq<T>) -> Seq<T>
    decreases xs.len(),
{
    if xs.len() == 0 {
        s
    } else {
        with_entry(with_entries(s, xs.drop_last()), xs.last())
    }
}

/// Whether every entry of `s` stands at the same index in `t`.
pub open spec fn extends<T>(t: Seq<T>, s: Seq<T>) -> bool {
    &&& s.len() <= t.len()
    &&& forall|i: int| 0 <= i < s.len() ==> #[trigger] t[i] == s[i]
}

pub proof fn lemma_first_position<T>(s: Seq<T>, x: T)
    ensures
        0 <= first_position(s, x) <= s.len(),
        first_position(s, x) < s.len() ==> s[first_position(s, x)] == x,
        forall|i: int| 0 <= i < first_position(s, x) ==> s[i] != x,
    decreases s.len(),
{
    if s.len() > 0 {
        let rest = s.drop_last();
        lemma_first_position(rest, x);
        assert forall|i: int| 0 <= i < first_position(s, x) implies s[i] != x by {
            if i < rest.len() {
                assert(rest[i] == s[i]);
            }
        }
    }
}

pub proof fn lemma_first_position_unique<T>(s: Seq<T>, x: T, at: int)
    requires
        0 <= at <= s.len(),
        at < s.len() ==> s[at] == x,
        forall|i: int| 0 <= i < at ==> s[i] != x,
    ensures
        first_position(s, x) == at,
{
    lemma_first_position(s, x);
}

/// Entering a value keeps what was there and makes the value present.
pub proof fn lemma_with_entry<T>(s: Seq<T>, x: T)
    ensures
        extends(with_entry(s, x), s),
        0 <= first_position(s, x) < with_entry(s, x).len(),
        with_entry(s, x)[first_position(s, x)] == x,
        first_position(with_entry(s, x), x) == first_position(s, x),
        s.no_duplicates() ==> with_entry(s, x).no_duplicates(),
{
    lemma_first_position(s, x);
    lemma_first_position_unique(with_entry(s, x), x, first_position(s, x));
}

/// Entering several values keeps what was there.
pub proof fn lemma_with_entries<T>(s: Seq<T>, xs: Seq<T>)
    ensures
        extends(with_entries(s, xs), s),
        s.no_duplicates() ==> with_entries(s, xs).no_duplicates(),
    decreases xs.len(),
{
    if xs.len() > 0 {
        lemma_with_entries(s, xs.drop_last());
        lemma_with_entry(with_entries(s, xs.drop_last()), xs.last());
    }
}

/// Where nothing occurs twice, an entry's first position is its only one.
pub proof fn lemma_position_of_entry<T>(s: Seq<T>, i: int)
    requires
        s.no_duplicates(),
        0 <= i < s.len(),
    ensures
        first_position(s, s[i]) == i,
{
    lemma_first_position(s, s[i]);
}

/// Names a token of a [`TokenInterner`].
#[derive(Clone, Copy, Debug, PartialEq, Eq, Structural, Hash, PartialOrd, Ord)]
pub struct TokenId {
    pub index: usize,
}

spec fn names_of(names: Seq<String>) -> Seq<Seq<char>> {
    names.map_values(|name: String| name@)
}

/// Stores each distinct name once.
#[derive(Debug)]
pub struct TokenInterner {
    names: Vec<String>,
}

impl View for TokenInterner {
    type V = Seq<Seq<char>>;

    closed spec fn view(&self) -> Seq<Seq<char>> {
        names_of(self.names@)
    }
}

impl Default for TokenInterner {
    fn default() -> (interner: Self)
        ensures
            interner@ == Seq::<Seq<char>>::empty(),
    {
        let names: Vec<String> = Vec::new();
        assert(names_of(names@) =~= Seq::<Seq<char>>::empty());
        TokenInterner { names }
    }
}

impl TokenInterner {
    #[verifier::type_invariant]
    spec fn distinct(&self) -> bool {
        names_of(self.names@).no_duplicates()
    }

    /// Whether `id` names a token of this interner.
    pub open spec fn has(&self, id: TokenId) -> bool {
        id.index < self@.len()
    }

    /// The name behind an id.
    pub open spec fn text(&self, id: TokenId) -> Seq<char> {
        self@[id.index as int]
    }

    /// The number of tokens.
    pub fn len(&self) -> (len: usize)
        ensures
            len == self@.len(),
            self@.no_duplicates(),
    {
        proof {
            use_type_invariant(self);
        }
        self.names.len()
    }

    /// Whether no token has been interned.
    pub fn is_empty(&self) -> (empty: bool)
        ensures
            empty == (self@.len() == 0),
    {
        self.names.len() == 0
    }

    /// The id of `name`, if it has been interned.
    pub fn lookup(&self, name: &str) -> (id: Option<TokenId>)
        ensures
            match id {
                Some(id) => self.has(id) && id.index == first_position(self@, name@),
                None => first_position(self@, name@) == self@.len(),
            },
            id is Some ==> self.text(id->0) == name@,
            id is Some <==> self@.contains(name@),
    {
        let wanted = crate::text::text(name);
        let mut i: usize = 0;
        while i < self.names.len()
            invariant
                i <= self.names.len(),
                wanted@ == name@,
                forall|j: int| 0 <= j < i ==> self@[j] != name@,
            decreases self.names.len() - i,
        {
            assert(self@[i as int] == self.names@[i as int]@);
            if self.names[i] == wanted {
                proof {
                    lemma_first_position_unique(self@, name@, i as int);
                }
                return Some(TokenId { index: i });
            }
            i = i + 1;
        }
        proof {
            lemma_first_position_unique(self@, name@, i as int);
        }
        None
    }

    /// The id of `name`, interning it first where it is new.
    pub fn intern(&mut self, name: &str) -> (id: TokenId)
        ensures
            final(self)@ == with_entry(old(self)@, name@),
            id.index == first_position(old(self)@, name@),
            final(self).has(id),
            final(self).text(id) == name@,
            extends(final(self)@, old(self)@),
    {
        proof {
            lemma_with_entry(self@, name@);
        }
        match self.lookup(name) {
            Some(id) => id,
            None => {
                proof {
                    use_type_invariant(&*self);
                }
                let id = TokenId { index: self.names.len() };
                let ghost before = self@;
                let mut names: Vec<String> = Vec::new();
                std::mem::swap(&mut names, &mut self.names);
                names.push(crate::text::text(name));
                assert(names_of(names@) =~= before.push(name@));
                self.names = names;
                id
            },
        }
    }

    /// The name behind an id.
    pub fn resolve(&self, id: TokenId) -> (name: &str)
        requires
            self.has(id),
        ensures
            name@ == self.text(id),
    {
        assert(self@[id.index as int] == self.names@[id.index as int]@);
        self.names[id.index].as_str()
    }
}

} // verus!
