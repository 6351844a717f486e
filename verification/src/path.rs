//! Prim namespace paths and their interning.

use crate::interner::{
    extends, first_position, lemma_first_position_unique, lemma_with_entry, with_entries,
    with_entry, TokenId, TokenInterner,
};
use crate::order::{compare_text, compare_usize, order_texts, Order};
use crate::text::{
    chars_of, find_char, index_of, lemma_index_of, lemma_index_of_unique, push_text, string_of,
};
use vstd::prelude::*;

verus! {

/// Why a text is not a path.
#[derive(Clone, Copy, Debug, PartialEq, Eq, Structural)]
pub enum PathError {
    /// The text does not start with `/`.
    NotAbsolute,
    /// Two separators stand next to each other, or one ends the text.
    EmptySegment,
}

/// An absolute prim path: the root is the path without segments.
#[derive(Debug)]
pub struct Path {
    segments: Vec<TokenId>,
}

impl View for Path {
    type V = Seq<TokenId>;

    closed spec fn view(&self) -> Seq<TokenId> {
        self.segments@
    }
}

/// The names of a path's segments.
pub open spec fn names_of(segments: Seq<TokenId>, tokens: Seq<Seq<char>>) -> Seq<Seq<char>> {
    segments.map_values(|id: TokenId| tokens[id.index as int])
}

/// Whether all of `ids` name a token.
pub open spec fn all_known(ids: Seq<TokenId>, tokens: Seq<Seq<char>>) -> bool {
    forall|i: int| 0 <= i < ids.len() ==> (#[trigger] ids[i]).index < tokens.len()
}

/// The text of a path: a slash before each name, a single slash for the root.
pub open spec fn path_text(names: Seq<Seq<char>>) -> Seq<char> {
    if names.len() == 0 {
        seq!['/']
    } else {
        joined(names)
    }
}

/// Each name behind a slash.
pub open spec fn joined(names: Seq<Seq<char>>) -> Seq<char>
    decreases names.len(),
{
    if names.len() == 0 {
        seq![]
    } else {
        joined(names.drop_last()).push('/') + names.last()
    }
}

/// The names between the separators of `s` from `from` on, each of them ending
/// at a separator or at the end.
pub open spec fn split_names(s: Seq<char>, from: int) -> Seq<Seq<char>>
    decreases s.len() - from,
{
    let end = index_of(s, from, '/');
    if from > s.len() || from < 0 || end < from || end >= s.len() {
        seq![s.subrange(from, s.len() as int)]
    } else {
        seq![s.subrange(from, end)] + split_names(s, end + 1)
    }
}

/// The order of two paths by the names of their segments.
pub open spec fn order_paths(a: Seq<TokenId>, b: Seq<TokenId>, tokens: Seq<Seq<char>>) -> Order {
    order_texts(names_of(a, tokens), names_of(b, tokens))
}

impl Path {
    /// The root path.
    pub fn root() -> (path: Path)
        ensures
            path@ == Seq::<TokenId>::empty(),
    {
        Path { segments: Vec::new() }
    }

    /// The path with the given segments.
    pub fn from_segments(segments: Vec<TokenId>) -> (path: Path)
        ensures
            path@ == segments@,
    {
        Path { segments }
    }

    /// This path with `segments` below it.
    pub fn join(&self, segments: &[TokenId]) -> (path: Path)
        ensures
            path@ == self@ + segments@,
    {
        let mut all: Vec<TokenId> = self.segments.clone();
        assert(all@ =~= self@);
        let mut i: usize = 0;
        while i < segments.len()
            invariant
                i <= segments.len(),
                all@ == self@ + segments@.take(i as int),
            decreases segments.len() - i,
        {
            all.push(segments[i]);
            i = i + 1;
            assert(all@ =~= self@ + segments@.take(i as int));
        }
        assert(segments@.take(i as int) =~= segments@);
        Path { segments: all }
    }

    /// A copy of this path.
    pub fn copy(&self) -> (path: Path)
        ensures
            path@ == self@,
    {
        let segments = self.segments.clone();
        assert(segments@ =~= self@);
        Path { segments }
    }

    /// The segments of this path, outermost first.
    pub fn segments(&self) -> (segments: &Vec<TokenId>)
        ensures
            segments@ == self@,
    {
        &self.segments
    }

    /// The number of segments.
    pub fn depth(&self) -> (depth: usize)
        ensures
            depth == self@.len(),
    {
        self.segments.len()
    }

    /// Whether this is the root.
    pub fn is_root(&self) -> (root: bool)
        ensures
            root == (self@.len() == 0),
    {
        self.segments.len() == 0
    }

    /// The last segment, if there is one.
    pub fn leaf(&self) -> (leaf: Option<TokenId>)
        ensures
            leaf == (if self@.len() > 0 {
                Some(self@.last())
            } else {
                None
            }),
    {
        if self.segments.len() == 0 {
            None
        } else {
            Some(self.segments[self.segments.len() - 1])
        }
    }

    /// The first `depth` segments.
    pub fn prefix(&self, depth: usize) -> (path: Path)
        requires
            depth <= self@.len(),
        ensures
            path@ == self@.take(depth as int),
    {
        let mut out: Vec<TokenId> = Vec::new();
        let mut i: usize = 0;
        while i < depth
            invariant
                i <= depth <= self@.len(),
                self@ == self.segments@,
                out@ == self@.take(i as int),
            decreases depth - i,
        {
            out.push(self.segments[i]);
            i = i + 1;
            assert(out@ =~= self@.take(i as int));
        }
        Path { segments: out }
    }

    /// The path without its last segment; none for the root.
    pub fn parent(&self) -> (parent: Option<Path>)
        ensures
            parent is Some <==> self@.len() > 0,
            parent is Some ==> parent->0@ == self@.drop_last(),
    {
        if self.segments.len() == 0 {
            None
        } else {
            let parent = self.prefix(self.segments.len() - 1);
            assert(parent@ =~= self@.drop_last());
            Some(parent)
        }
    }

    /// Whether the two paths have the same segments.
    pub fn same(&self, other: &Path) -> (same: bool)
        ensures
            same == (self@ == other@),
    {
        if self.segments.len() != other.segments.len() {
            return false;
        }
        assert(other@.subrange(0, other@.len() as int) =~= other@);
        self.is_prefix_of(other)
    }

    /// Whether `other` is this path or lies below it.
    pub fn is_prefix_of(&self, other: &Path) -> (prefix: bool)
        ensures
            prefix == self@.is_prefix_of(other@),
    {
        if self.segments.len() > other.segments.len() {
            return false;
        }
        let mut i: usize = 0;
        while i < self.segments.len()
            invariant
                i <= self.segments.len() <= other.segments.len(),
                self@ == self.segments@,
                other@ == other.segments@,
                forall|j: int| 0 <= j < i ==> self@[j] == other@[j],
            decreases self.segments.len() - i,
        {
            if self.segments[i] != other.segments[i] {
                assert(self@[i as int] != other@.subrange(0, self@.len() as int)[i as int]);
                return false;
            }
            i = i + 1;
        }
        assert(self@ =~= other@.subrange(0, self@.len() as int));
        true
    }

    /// The segments of this path below `prefix`.
    pub fn strip_prefix(&self, prefix: &Path) -> (rest: Option<Vec<TokenId>>)
        ensures
            rest is Some <==> prefix@.is_prefix_of(self@),
            rest is Some ==> rest->0@ == self@.skip(prefix@.len() as int),
    {
        if !prefix.is_prefix_of(self) {
            return None;
        }
        let mut rest: Vec<TokenId> = Vec::new();
        let mut i: usize = prefix.segments.len();
        while i < self.segments.len()
            invariant
                prefix@.len() <= i <= self.segments.len(),
                self@ == self.segments@,
                rest@ == self@.subrange(prefix@.len() as int, i as int),
            decreases self.segments.len() - i,
        {
            rest.push(self.segments[i]);
            i = i + 1;
            assert(rest@ =~= self@.subrange(prefix@.len() as int, i as int));
        }
        assert(rest@ =~= self@.skip(prefix@.len() as int));
        Some(rest)
    }

    /// Compares two paths by the names of their segments.
    pub fn compare_with_tokens(&self, other: &Path, tokens: &TokenInterner) -> (out: Order)
        requires
            all_known(self@, tokens@),
            all_known(other@, tokens@),
        ensures
            out == order_paths(self@, other@, tokens@),
    {
        let ghost a = names_of(self@, tokens@);
        let ghost b = names_of(other@, tokens@);
        let mut i: usize = 0;
        assert(a.skip(0) =~= a);
        assert(b.skip(0) =~= b);
        while i < self.segments.len() && i < other.segments.len()
            invariant
                self@ == self.segments@,
                other@ == other.segments@,
                all_known(self@, tokens@),
                all_known(other@, tokens@),
                a == names_of(self@, tokens@),
                b == names_of(other@, tokens@),
                i <= self.segments.len(),
                i <= other.segments.len(),
                order_texts(a, b) == order_texts(a.skip(i as int), b.skip(i as int)),
            decreases self.segments.len() - i,
        {
            assert(a.skip(i as int).drop_first() =~= a.skip(i + 1));
            assert(b.skip(i as int).drop_first() =~= b.skip(i + 1));
            assert(self@[i as int].index < tokens@.len());
            assert(other@[i as int].index < tokens@.len());
            let order = compare_text(
                tokens.resolve(self.segments[i]),
                tokens.resolve(other.segments[i]),
            );
            match order {
                Order::Equal => {},
                _ => {
                    return order;
                },
            }
            i = i + 1;
        }
        compare_usize(self.segments.len(), other.segments.len())
    }

    /// Writes this path as text.
    pub fn display(&self, tokens: &TokenInterner) -> (out: String)
        requires
            all_known(self@, tokens@),
        ensures
            out@ == path_text(names_of(self@, tokens@)),
    {
        let ghost names = names_of(self@, tokens@);
        let mut out = String::new();
        if self.segments.len() == 0 {
            out.push('/');
            assert(out@ =~= seq!['/']);
            return out;
        }
        let mut i: usize = 0;
        assert(names.take(0) =~= Seq::<Seq<char>>::empty());
        while i < self.segments.len()
            invariant
                self@ == self.segments@,
                all_known(self@, tokens@),
                names == names_of(self@, tokens@),
                i <= self.segments.len(),
                out@ == joined(names.take(i as int)),
            decreases self.segments.len() - i,
        {
            assert(self@[i as int].index < tokens@.len());
            out.push('/');
            push_text(&mut out, tokens.resolve(self.segments[i]));
            assert(names.take(i + 1).drop_last() =~= names.take(i as int));
            i = i + 1;
        }
        assert(names.take(i as int) =~= names);
        out
    }

    /// Parses a path such as `/World/Chair`, interning its names.
    pub fn parse_absolute(s: &str, tokens: &mut TokenInterner) -> (path: Result<Path, PathError>)
        ensures
            path is Err ==> final(tokens)@ == old(tokens)@,
            path == Err::<Path, PathError>(PathError::NotAbsolute) <==> (s@.len() == 0 || s@[0]
                != '/'),
            path == Err::<Path, PathError>(PathError::EmptySegment) <==> (s@.len() > 1 && s@[0]
                == '/' && exists|i: int|
                0 <= i < split_names(s@, 1).len() && (#[trigger] split_names(s@, 1)[i]).len() == 0),
            path is Ok ==> {
                let names = if s@.len() == 1 {
                    Seq::empty()
                } else {
                    split_names(s@, 1)
                };
                &&& final(tokens)@ == with_entries(old(tokens)@, names)
                &&& all_known(path->Ok_0@, final(tokens)@)
                &&& names_of(path->Ok_0@, final(tokens)@) == names
            },
            extends(final(tokens)@, old(tokens)@),
    {
        let chars = chars_of(s);
        if chars.len() == 0 || chars[0] != '/' {
            return Err(PathError::NotAbsolute);
        }
        if chars.len() == 1 {
            let path = Path::root();
            assert(names_of(path@, tokens@) =~= Seq::<Seq<char>>::empty());
            return Ok(path);
        }
        let ghost names = split_names(s@, 1);
        let mut pieces: Vec<String> = Vec::new();
        let mut from: usize = 1;
        assert(names =~= Seq::<Seq<char>>::empty() + split_names(s@, 1));
        loop
            invariant_except_break
                names == pieces@.map_values(|p: String| p@) + split_names(s@, from as int),
            invariant
                chars@ == s@,
                1 <= from <= chars.len(),
                names == split_names(s@, 1),
                s@.len() > 1,
                s@[0] == '/',
                tokens@ == old(tokens)@,
                forall|i: int| 0 <= i < pieces@.len() ==> (#[trigger] pieces@[i])@.len() > 0,
            ensures
                names == pieces@.map_values(|p: String| p@),
            decreases chars.len() - from,
        {
            let end = find_char(&chars, from, '/');
            if end == from {
                proof {
                    assert(split_names(s@, from as int)[0].len() == 0);
                    assert(names[pieces@.len() as int].len() == 0);
                }
                return Err(PathError::EmptySegment);
            }
            let piece = string_of(&chars, from, end);
            let ghost before = pieces@.map_values(|p: String| p@);
            pieces.push(piece);
            assert(pieces@.map_values(|p: String| p@) =~= before.push(piece@));
            if end == chars.len() {
                assert(names =~= pieces@.map_values(|p: String| p@));
                break;
            }
            assert(names =~= pieces@.map_values(|p: String| p@) + split_names(s@, end + 1));
            from = end + 1;
        }
        assert forall|i: int| 0 <= i < names.len() implies (#[trigger] names[i]).len() > 0 by {
            assert(pieces@[i]@.len() > 0);
        }
        let mut segments: Vec<TokenId> = Vec::new();
        let mut i: usize = 0;
        assert(names.take(0) =~= Seq::<Seq<char>>::empty());
        assert(names_of(segments@, tokens@) =~= names.take(0));
        while i < pieces.len()
            invariant
                i <= pieces.len(),
                names == pieces@.map_values(|p: String| p@),
                tokens@ == with_entries(old(tokens)@, names.take(i as int)),
                extends(tokens@, old(tokens)@),
                all_known(segments@, tokens@),
                names_of(segments@, tokens@) == names.take(i as int),
                segments@.len() == i,
            decreases pieces.len() - i,
        {
            let ghost before = tokens@;
            let ghost known = segments@;
            let id = tokens.intern(pieces[i].as_str());
            segments.push(id);
            assert(names.take(i + 1).drop_last() =~= names.take(i as int));
            assert(names_of(segments@, tokens@) =~= names.take(i + 1)) by {
                assert forall|j: int| 0 <= j < i implies #[trigger] tokens@[known[j].index as int]
                    == names[j] by {
                    assert(names_of(known, before)[j] == names.take(i as int)[j]);
                }
            }
            i = i + 1;
        }
        assert(names.take(i as int) =~= names);
        Ok(Path { segments })
    }
}

/// Names a path of a [`PathInterner`].
#[derive(Clone, Copy, Debug, PartialEq, Eq, Structural, Hash, PartialOrd, Ord)]
pub struct PathId {
    pub index: usize,
}

/// A property of a prim.
#[derive(Clone, Copy, Debug, PartialEq, Eq, Structural, Hash, PartialOrd, Ord)]
pub struct PropertyPath {
    pub prim_path: PathId,
    pub property: TokenId,
}

impl PropertyPath {
    /// The property `property` of the prim at `prim_path`.
    pub fn new(prim_path: PathId, property: TokenId) -> (path: PropertyPath)
        ensures
            path.prim_path == prim_path,
            path.property == property,
    {
        PropertyPath { prim_path, property }
    }

    /// The prim that has the property.
    pub fn prim_path(&self) -> (path: PathId)
        ensures
            path == self.prim_path,
    {
        self.prim_path
    }

    /// The name of the property.
    pub fn property(&self) -> (name: TokenId)
        ensures
            name == self.property,
    {
        self.property
    }

    /// The path of the prim, a dot, and the name of the property.
    pub fn display(&self, paths: &PathInterner, tokens: &TokenInterner) -> (out: String)
        requires
            paths.has(self.prim_path),
            paths.named_by(tokens@),
            tokens.has(self.property),
        ensures
            out@ == property_display(*self, paths@, tokens@),
    {
        let mut out = paths.resolve(self.prim_path).display(tokens);
        proof {
            reveal_strlit(".");
        }
        crate::text::push_text(&mut out, ".");
        crate::text::push_text(&mut out, tokens.resolve(self.property));
        assert(out@ =~= property_display(*self, paths@, tokens@));
        out
    }
}

/// The text of a prim's path.
pub open spec fn prim_display(
    prim: PathId,
    paths: Seq<Seq<TokenId>>,
    tokens: Seq<Seq<char>>,
) -> Seq<char> {
    path_text(names_of(paths[prim.index as int], tokens))
}

/// The text of a property's path.
pub open spec fn property_display(
    path: PropertyPath,
    paths: Seq<Seq<TokenId>>,
    tokens: Seq<Seq<char>>,
) -> Seq<char> {
    prim_display(path.prim_path, paths, tokens) + seq!['.'] + tokens[path.property.index as int]
}

spec fn segments_of(paths: Seq<Path>) -> Seq<Seq<TokenId>> {
    paths.map_values(|path: Path| path@)
}

/// Stores each distinct path once.
#[derive(Debug)]
pub struct PathInterner {
    paths: Vec<Path>,
}

impl View for PathInterner {
    type V = Seq<Seq<TokenId>>;

    closed spec fn view(&self) -> Seq<Seq<TokenId>> {
        segments_of(self.paths@)
    }
}

impl Default for PathInterner {
    fn default() -> (interner: Self)
        ensures
            interner@ == Seq::<Seq<TokenId>>::empty(),
    {
        let paths: Vec<Path> = Vec::new();
        assert(segments_of(paths@) =~= Seq::<Seq<TokenId>>::empty());
        PathInterner { paths }
    }
}

impl PathInterner {
    #[verifier::type_invariant]
    spec fn distinct(&self) -> bool {
        segments_of(self.paths@).no_duplicates()
    }

    /// Whether `id` names a path of this interner.
    pub open spec fn has(&self, id: PathId) -> bool {
        id.index < self@.len()
    }

    /// The segments of the path behind an id.
    pub open spec fn path(&self, id: PathId) -> Seq<TokenId> {
        self@[id.index as int]
    }

    /// Whether every segment of every path names a token.
    pub open spec fn named_by(&self, tokens: Seq<Seq<char>>) -> bool {
        forall|i: int| 0 <= i < self@.len() ==> all_known(#[trigger] self@[i], tokens)
    }

    /// The number of paths.
    pub fn len(&self) -> (len: usize)
        ensures
            len == self@.len(),
            self@.no_duplicates(),
    {
        proof {
            use_type_invariant(self);
        }
        self.paths.len()
    }

    /// The id of `path`, if it has been interned.
    pub fn lookup(&self, path: &Path) -> (id: Option<PathId>)
        ensures
            match id {
                Some(id) => self.has(id) && id.index == first_position(self@, path@),
                None => first_position(self@, path@) == self@.len(),
            },
            id is Some ==> self.path(id->0) == path@,
            id is Some <==> self@.contains(path@),
    {
        let mut i: usize = 0;
        while i < self.paths.len()
            invariant
                i <= self.paths.len(),
                forall|j: int| 0 <= j < i ==> self@[j] != path@,
            decreases self.paths.len() - i,
        {
            assert(self@[i as int] == self.paths@[i as int]@);
            if self.paths[i].same(path) {
                proof {
                    lemma_first_position_unique(self@, path@, i as int);
                }
                return Some(PathId { index: i });
            }
            i = i + 1;
        }
        proof {
            lemma_first_position_unique(self@, path@, i as int);
        }
        None
    }

    /// The id of `path`, interning it first where it is new.
    pub fn intern(&mut self, path: Path) -> (id: PathId)
        ensures
            final(self)@ == with_entry(old(self)@, path@),
            id.index == first_position(old(self)@, path@),
            final(self).has(id),
            final(self).path(id) == path@,
            extends(final(self)@, old(self)@),
    {
        proof {
            lemma_with_entry(self@, path@);
        }
        match self.lookup(&path) {
            Some(id) => id,
            None => {
                proof {
                    use_type_invariant(&*self);
                }
                let id = PathId { index: self.paths.len() };
                let ghost before = self@;
                let mut paths: Vec<Path> = Vec::new();
                std::mem::swap(&mut paths, &mut self.paths);
                paths.push(path);
                assert(segments_of(paths@) =~= before.push(path@));
                self.paths = paths;
                id
            },
        }
    }

    /// The path behind an id.
    pub fn resolve(&self, id: PathId) -> (path: &Path)
        requires
            self.has(id),
        ensures
            path@ == self.path(id),
    {
        assert(self@[id.index as int] == self.paths@[id.index as int]@);
        &self.paths[id.index]
    }
}


// ── Laws ────────────────────────────────────────────────────────────────

proof fn lemma_split_one(s: Seq<char>, from: int)
    requires
        0 <= from <= s.len(),
        forall|i: int| from <= i < s.len() ==> #[trigger] s[i] != '/',
    ensures
        split_names(s, from) == seq![s.subrange(from, s.len() as int)],
{
    lemma_index_of_unique(s, from, '/', s.len() as int);
}

proof fn lemma_split_push(s: Seq<char>, last: Seq<char>, from: int)
    requires
        0 <= from <= s.len(),
        !last.contains('/'),
    ensures
        split_names(s.push('/') + last, from) == split_names(s, from).push(last),
    decreases s.len() - from,
{
    let t = s.push('/') + last;
    let end = index_of(s, from, '/');
    lemma_index_of(s, from, '/');
    assert forall|i: int| from <= i < end implies t[i] != '/' by {
        assert(t[i] == s[i]);
    }
    assert(t[end] == '/');
    lemma_index_of_unique(t, from, '/', end);
    assert(t.subrange(from, end) =~= s.subrange(from, end));
    if end < s.len() {
        lemma_split_push(s, last, end + 1);
        assert(split_names(t, from) =~= split_names(s, from).push(last));
    } else {
        assert forall|i: int| end + 1 <= i < t.len() implies #[trigger] t[i] != '/' by {
            assert(last.contains(last[i - end - 1]));
        }
        lemma_split_one(t, end + 1);
        assert(t.subrange(end + 1, t.len() as int) =~= last);
        assert(split_names(t, from) =~= split_names(s, from).push(last));
    }
}

/// The text of a path reads back as the path's names: a slash before each of
/// them, none of which holds one. That of the root is a slash alone.
pub proof fn law_path_texts_read_back(names: Seq<Seq<char>>)
    requires
        forall|i: int| 0 <= i < names.len() ==> !(#[trigger] names[i]).contains('/'),
    ensures
        path_text(names)[0] == '/',
        names.len() == 0 ==> path_text(names).len() == 1,
        names.len() > 0 ==> split_names(path_text(names), 1) == names,
{
    if names.len() > 0 {
        lemma_names_read_back(names);
    }
}

proof fn lemma_names_read_back(names: Seq<Seq<char>>)
    requires
        names.len() > 0,
        forall|i: int| 0 <= i < names.len() ==> !(#[trigger] names[i]).contains('/'),
    ensures
        path_text(names)[0] == '/',
        split_names(path_text(names), 1) == names,
    decreases names.len(),
{
    let rest = names.drop_last();
    let last = names.last();
    assert(names =~= rest.push(last));
    assert(!names[names.len() - 1].contains('/'));
    if rest.len() == 0 {
        let s = path_text(names);
        assert(joined(rest) =~= seq![]);
        assert(s =~= seq!['/'] + last);
        assert forall|i: int| 1 <= i < s.len() implies #[trigger] s[i] != '/' by {
            assert(last.contains(last[i - 1]));
        }
        lemma_split_one(s, 1);
        assert(s.subrange(1, s.len() as int) =~= last);
        assert(names =~= seq![last]);
    } else {
        assert forall|i: int| 0 <= i < rest.len() implies !(#[trigger] rest[i]).contains('/') by {
            assert(rest[i] == names[i]);
        }
        lemma_names_read_back(rest);
        assert(joined(rest).len() > 0) by {
            assert(joined(rest) == joined(rest.drop_last()).push('/') + rest.last());
        }
        lemma_split_push(joined(rest), last, 1);
    }
}

} // verus!
