//! Variant-qualified spec paths used for composed opinion provenance.
//!
//! These paths are not the same as concrete prim namespace paths. They can
//! carry variant selections and property suffixes while still resolving to a
//! concrete authored prim site.

use crate::interner::{extends, with_entries, with_entry, TokenId, TokenInterner};
use crate::order::{compare_usize, order_int, Order};
use crate::path::{Path, PathError, PathId, PathInterner, PropertyPath};
use crate::text::{chars_of, find_char, index_of, lemma_index_of_unique, push_text, string_of};
use vstd::prelude::*;

verus! {

/// A variant selection applied at a specific prim host path.
///
/// Provenance needs the host path as well as the `(set, variant)` pair because
/// nested variant selections can apply at different prims, and repeated set
/// names can appear at different hosts along one composed source path.
#[derive(Clone, Copy, Debug, PartialEq, Eq, Structural, Hash, PartialOrd, Ord)]
pub struct VariantSelectionSite {
    /// Prim path that owns the variant set.
    pub host_path: PathId,
    /// Variant set name.
    pub set: TokenId,
    /// Selected variant name.
    pub variant: TokenId,
}

/// A single spec-path component.
#[derive(Clone, Copy, Debug, PartialEq, Eq, Structural, Hash, PartialOrd, Ord)]
pub enum SpecComponent {
    /// A concrete prim namespace segment.
    Prim(TokenId),
    /// A variant selection inserted after the preceding prim segment.
    VariantSelection {
        /// Variant set name.
        set: TokenId,
        /// Selected variant name.
        variant: TokenId,
    },
}

/// Errors that can occur while parsing a [`SpecPath`].
#[derive(Clone, Copy, Debug, PartialEq, Eq, Structural)]
pub enum SpecPathError {
    /// Path is not absolute (doesn't start with `/`).
    NotAbsolute,
    /// Path contains an empty prim segment.
    EmptySegment,
    /// A variant selection was malformed.
    MalformedVariantSelection,
    /// Property suffix was present but empty.
    EmptyPropertyName,
    /// Underlying concrete prim path was invalid.
    InvalidPrimPath(PathError),
}

impl From<PathError> for SpecPathError {
    fn from(value: PathError) -> (error: Self) {
        SpecPathError::InvalidPrimPath(value)
    }
}

impl vstd::std_specs::convert::FromSpecImpl<PathError> for SpecPathError {
    open spec fn obeys_from_spec() -> bool {
        true
    }

    open spec fn from_spec(value: PathError) -> Self {
        SpecPathError::InvalidPrimPath(value)
    }
}

/// The text of one component.
pub enum Piece {
    Prim(Seq<char>),
    Variant { set: Seq<char>, variant: Seq<char> },
}

/// What a text says from some index on: the components before its end or its
/// first error, the property suffix, and the error.
pub struct SpecText {
    pub pieces: Seq<Piece>,
    pub property: Option<Seq<char>>,
    pub error: Option<SpecPathError>,
}

impl SpecText {
    pub open spec fn after(self, piece: Piece) -> SpecText {
        SpecText { pieces: seq![piece] + self.pieces, ..self }
    }
}

/// Whether a prim name ends at this character.
pub open spec fn ends_name(c: char) -> bool {
    c == '/' || c == '{' || c == '.'
}

/// The end of the prim name that starts at `from`.
pub open spec fn name_end(s: Seq<char>, from: int) -> int
    decreases s.len() - from,
{
    if from >= s.len() {
        s.len() as int
    } else if ends_name(s[from]) {
        from
    } else {
        name_end(s, from + 1)
    }
}

proof fn lemma_name_end(s: Seq<char>, from: int, at: int)
    requires
        0 <= from <= at <= s.len(),
        forall|i: int| from <= i < at ==> !ends_name(#[trigger] s[i]),
        at < s.len() ==> ends_name(s[at]),
    ensures
        name_end(s, from) == at,
    decreases at - from,
{
    if from < at {
        lemma_name_end(s, from + 1, at);
    }
}

/// Whether the slash at index `i` leaves a prim segment empty.
pub open spec fn empties_segment(s: Seq<char>, i: int) -> bool {
    ||| i > 0 && s[i - 1] == '/'
    ||| i + 1 >= s.len()
    ||| ends_name(s[i + 1])
}

/// What `s` says from index `i` on.
///
/// A slash separates two prim segments, `{set=variant}` selects a variant, a
/// dot starts a property name that runs to the end, and anything else starts a
/// prim name that runs to the next of these. A slash that no prim name follows,
/// or that follows a slash, leaves a prim segment empty.
pub open spec fn spec_text(s: Seq<char>, i: int) -> SpecText
    decreases s.len() - i,
{
    if i >= s.len() || i < 0 {
        SpecText { pieces: seq![], property: None, error: None }
    } else if s[i] == '/' {
        if empties_segment(s, i) {
            SpecText { pieces: seq![], property: None, error: Some(SpecPathError::EmptySegment) }
        } else {
            spec_text(s, i + 1)
        }
    } else if s[i] == '{' {
        let eq = index_of(s, i + 1, '=');
        let close = index_of(s, eq + 1, '}');
        if eq >= s.len() || close >= s.len() || !(i < eq < close) {
            SpecText {
                pieces: seq![],
                property: None,
                error: Some(SpecPathError::MalformedVariantSelection),
            }
        } else {
            spec_text(s, close + 1).after(
                Piece::Variant { set: s.subrange(i + 1, eq), variant: s.subrange(eq + 1, close) },
            )
        }
    } else if s[i] == '.' {
        if i + 1 >= s.len() {
            SpecText {
                pieces: seq![],
                property: None,
                error: Some(SpecPathError::EmptyPropertyName),
            }
        } else {
            SpecText {
                pieces: seq![],
                property: Some(s.subrange(i + 1, s.len() as int)),
                error: None,
            }
        }
    } else {
        let end = name_end(s, i);
        if end <= i || end > s.len() {
            SpecText { pieces: seq![], property: None, error: None }
        } else {
            spec_text(s, end).after(Piece::Prim(s.subrange(i, end)))
        }
    }
}

/// The names in a list of components, in order.
pub open spec fn piece_names(pieces: Seq<Piece>) -> Seq<Seq<char>>
    decreases pieces.len(),
{
    if pieces.len() == 0 {
        seq![]
    } else {
        piece_names(pieces.drop_last()) + match pieces.last() {
            Piece::Prim(name) => seq![name],
            Piece::Variant { set, variant } => seq![set, variant],
        }
    }
}

/// The text behind one component.
pub open spec fn piece_of(component: SpecComponent, tokens: Seq<Seq<char>>) -> Piece {
    match component {
        SpecComponent::Prim(id) => Piece::Prim(tokens[id.index as int]),
        SpecComponent::VariantSelection { set, variant } => Piece::Variant {
            set: tokens[set.index as int],
            variant: tokens[variant.index as int],
        },
    }
}

/// The texts behind a list of components.
pub open spec fn pieces_of(components: Seq<SpecComponent>, tokens: Seq<Seq<char>>) -> Seq<Piece> {
    components.map_values(|c: SpecComponent| piece_of(c, tokens))
}

/// Whether a component's tokens are known.
pub open spec fn component_known(component: SpecComponent, tokens: Seq<Seq<char>>) -> bool {
    match component {
        SpecComponent::Prim(id) => id.index < tokens.len(),
        SpecComponent::VariantSelection { set, variant } => set.index < tokens.len()
            && variant.index < tokens.len(),
    }
}

/// Whether the tokens of all components are known.
pub open spec fn components_known(components: Seq<SpecComponent>, tokens: Seq<Seq<char>>) -> bool {
    forall|i: int| 0 <= i < components.len() ==> component_known(#[trigger] components[i], tokens)
}

/// The prim segments among the components.
pub open spec fn prim_segments(components: Seq<SpecComponent>) -> Seq<TokenId>
    decreases components.len(),
{
    if components.len() == 0 {
        seq![]
    } else {
        match components.last() {
            SpecComponent::Prim(id) => prim_segments(components.drop_last()).push(id),
            _ => prim_segments(components.drop_last()),
        }
    }
}

/// How components and a property suffix are written, `slash` saying whether
/// the next prim name needs a separator before it.
pub open spec fn written(pieces: Seq<Piece>, slash: bool, property: Option<Seq<char>>) -> Seq<char>
    decreases pieces.len(),
{
    if pieces.len() == 0 {
        match property {
            Some(name) => seq!['.'] + name,
            None => seq![],
        }
    } else {
        match pieces[0] {
            Piece::Prim(name) => (if slash {
                seq!['/']
            } else {
                seq![]
            }) + name + written(pieces.drop_first(), true, property),
            Piece::Variant { set, variant } => seq!['{'] + set + seq!['='] + variant + seq!['}']
                + written(pieces.drop_first(), false, property),
        }
    }
}

/// Whether a component can be told from the text around it.
pub open spec fn legible(piece: Piece) -> bool {
    match piece {
        Piece::Prim(name) => name.len() > 0 && forall|i: int|
            0 <= i < name.len() ==> !ends_name(#[trigger] name[i]),
        Piece::Variant { set, variant } => !set.contains('=') && !variant.contains('}'),
    }
}

/// A prim name, and the slash before it, read as one component.
proof fn lemma_name_reads(before: Seq<char>, slash: bool, name: Seq<char>, tail: Seq<char>)
    requires
        legible(Piece::Prim(name)),
        tail.len() > 0 ==> ends_name(tail[0]),
        slash && before.len() > 0 ==> before.last() != '/',
    ensures
        ({
            let lead: Seq<char> = if slash {
                seq!['/']
            } else {
                seq![]
            };
            let upto = before + lead + name;
            spec_text(upto + tail, before.len() as int) == spec_text(
                upto + tail,
                upto.len() as int,
            ).after(Piece::Prim(name))
        }),
{
    let lead: Seq<char> = if slash {
        seq!['/']
    } else {
        seq![]
    };
    let at = before.len() as int;
    let start = at + lead.len();
    let end = start + name.len();
    let s = before + lead + name + tail;
    assert(s.subrange(start, end) =~= name);
    assert forall|i: int| start <= i < end implies !ends_name(#[trigger] s[i]) by {
        assert(s[i] == name[i - start]);
    }
    if end < s.len() {
        assert(s[end] == tail[0]);
    }
    lemma_name_end(s, start, end);
    assert(s[start] == name[0]);
    assert(!ends_name(name[0]));
    assert(spec_text(s, start) == spec_text(s, end).after(Piece::Prim(name)));
    if slash {
        assert(s[at] == '/');
        if at > 0 {
            assert(s[at - 1] == before.last());
        }
        assert(!empties_segment(s, at));
        assert(spec_text(s, at) == spec_text(s, at + 1));
    }
}

/// A variant selection reads as one component.
proof fn lemma_selection_reads(
    before: Seq<char>,
    set: Seq<char>,
    variant: Seq<char>,
    tail: Seq<char>,
)
    requires
        legible(Piece::Variant { set, variant }),
    ensures
        ({
            let upto = before + seq!['{'] + set + seq!['='] + variant + seq!['}'];
            spec_text(upto + tail, before.len() as int) == spec_text(
                upto + tail,
                upto.len() as int,
            ).after(Piece::Variant { set, variant })
        }),
{
    let upto = before + seq!['{'] + set + seq!['='] + variant + seq!['}'];
    let s = upto + tail;
    let at = before.len() as int;
    let eq = at + 1 + set.len();
    let close = eq + 1 + variant.len();
    assert(s[at] == '{');
    assert(s[eq] == '=');
    assert(s[close] == '}');
    assert(s.subrange(at + 1, eq) =~= set);
    assert(s.subrange(eq + 1, close) =~= variant);
    assert forall|i: int| at + 1 <= i < eq implies s[i] != '=' by {
        assert(s[i] == set[i - at - 1]);
    }
    assert forall|i: int| eq + 1 <= i < close implies s[i] != '}' by {
        assert(s[i] == variant[i - eq - 1]);
    }
    lemma_index_of_unique(s, at + 1, '=', eq);
    lemma_index_of_unique(s, eq + 1, '}', close);
}

/// What follows a prim name ends that name.
proof fn lemma_written_ends_name(pieces: Seq<Piece>, property: Option<Seq<char>>)
    ensures
        written(pieces, true, property).len() > 0 ==> ends_name(
            written(pieces, true, property)[0],
        ),
{
    if pieces.len() > 0 {
        match pieces[0] {
            Piece::Prim(name) => {
                assert(written(pieces, true, property)[0] == '/');
            },
            Piece::Variant { set, variant } => {
                assert(written(pieces, true, property)[0] == '{');
            },
        }
    }
}

/// A written spec path reads back as the components and the property that it
/// was written from.
///
/// Prim names must not be empty nor hold `/`, `{` or `.`; set names must not
/// hold `=`, variant names must not hold `}`, and a property name must not be
/// empty.
pub proof fn law_written_reads_back(
    before: Seq<char>,
    pieces: Seq<Piece>,
    slash: bool,
    property: Option<Seq<char>>,
)
    requires
        forall|i: int| 0 <= i < pieces.len() ==> legible(#[trigger] pieces[i]),
        property is Some ==> property->0.len() > 0,
        slash && before.len() > 0 ==> before.last() != '/',
    ensures
        spec_text(before + written(pieces, slash, property), before.len() as int) == (SpecText {
            pieces,
            property,
            error: None,
        }),
    decreases pieces.len(),
{
    let s = before + written(pieces, slash, property);
    let at = before.len() as int;
    if pieces.len() == 0 {
        if property is Some {
            assert(s[at] == '.');
            assert(s.subrange(at + 1, s.len() as int) =~= property->0);
        }
        assert(pieces =~= seq![]);
    } else {
        let rest = pieces.drop_first();
        assert forall|i: int| 0 <= i < rest.len() implies legible(#[trigger] rest[i]) by {
            assert(rest[i] == pieces[i + 1]);
        }
        assert(legible(pieces[0]));
        assert(seq![pieces[0]] + rest =~= pieces);
        match pieces[0] {
            Piece::Prim(name) => {
                let lead: Seq<char> = if slash {
                    seq!['/']
                } else {
                    seq![]
                };
                let tail = written(rest, true, property);
                let upto = before + lead + name;
                assert(s =~= upto + tail);
                assert(upto.last() == name.last());
                assert(!ends_name(name[name.len() - 1]));
                law_written_reads_back(upto, rest, true, property);
                lemma_written_ends_name(rest, property);
                lemma_name_reads(before, slash, name, tail);
            },
            Piece::Variant { set, variant } => {
                let tail = written(rest, false, property);
                let upto = before + seq!['{'] + set + seq!['='] + variant + seq!['}'];
                assert(s =~= upto + tail);
                law_written_reads_back(upto, rest, false, property);
                lemma_selection_reads(before, set, variant, tail);
            },
        }
    }
}

/// How far the sites from `from` on sit at the host `prefix`.
pub open spec fn sites_end(
    hosts: Seq<Seq<TokenId>>,
    from: int,
    prefix: Seq<TokenId>,
) -> int
    decreases hosts.len() - from,
{
    if 0 <= from < hosts.len() && hosts[from] == prefix {
        sites_end(hosts, from + 1, prefix)
    } else {
        from
    }
}

/// How many sites sit at the first `depth` prefixes of `prim`, taken outer to
/// inner.
pub open spec fn sites_within(hosts: Seq<Seq<TokenId>>, prim: Seq<TokenId>, depth: nat) -> int
    decreases depth,
{
    if depth == 0 {
        0
    } else {
        sites_end(hosts, sites_within(hosts, prim, (depth - 1) as nat), prim.take(depth as int))
    }
}

/// The selection written for a site.
pub open spec fn site_component(site: VariantSelectionSite) -> SpecComponent {
    SpecComponent::VariantSelection { set: site.set, variant: site.variant }
}

/// The first `depth` segments of `prim`, each followed by the selections whose
/// host it ends.
pub open spec fn qualified_components(
    hosts: Seq<Seq<TokenId>>,
    sites: Seq<VariantSelectionSite>,
    prim: Seq<TokenId>,
    depth: nat,
) -> Seq<SpecComponent>
    decreases depth,
{
    if depth == 0 {
        seq![]
    } else {
        let outer = (depth - 1) as nat;
        qualified_components(hosts, sites, prim, outer).push(
            SpecComponent::Prim(prim[depth - 1]),
        ) + sites.subrange(
            sites_within(hosts, prim, outer),
            sites_within(hosts, prim, depth),
        ).map_values(|site: VariantSelectionSite| site_component(site))
    }
}

/// The host paths of a list of sites.
pub open spec fn hosts_of(
    sites: Seq<VariantSelectionSite>,
    paths: Seq<Seq<TokenId>>,
) -> Seq<Seq<TokenId>> {
    sites.map_values(|site: VariantSelectionSite| paths[site.host_path.index as int])
}

proof fn lemma_sites_end(hosts: Seq<Seq<TokenId>>, from: int, prefix: Seq<TokenId>)
    requires
        0 <= from <= hosts.len(),
    ensures
        from <= sites_end(hosts, from, prefix) <= hosts.len(),
    decreases hosts.len() - from,
{
    if from < hosts.len() && hosts[from] == prefix {
        lemma_sites_end(hosts, from + 1, prefix);
    }
}

/// A variant-qualified spec path.
///
/// Unlike [`Path`], this can represent variant selections and property suffixes
/// while still preserving the concrete prim path used to look up authored data.
#[derive(Clone, Debug, PartialEq, Eq, Hash, PartialOrd, Ord)]
pub struct SpecPath {
    prim_path: PathId,
    components: Vec<SpecComponent>,
    property: Option<TokenId>,
}

/// The mathematical value of a [`SpecPath`].
#[verifier::ext_equal]
pub struct SpecPathView {
    pub prim_path: PathId,
    pub components: Seq<SpecComponent>,
    pub property: Option<TokenId>,
}

impl View for SpecPath {
    type V = SpecPathView;

    closed spec fn view(&self) -> SpecPathView {
        SpecPathView {
            prim_path: self.prim_path,
            components: self.components@,
            property: self.property,
        }
    }
}

/// The order of two components: prim segments before variant selections, then
/// by token.
pub open spec fn order_component(a: SpecComponent, b: SpecComponent) -> Order {
    match (a, b) {
        (SpecComponent::Prim(x), SpecComponent::Prim(y)) => order_int(
            x.index as int,
            y.index as int,
        ),
        (SpecComponent::Prim(_), _) => Order::Less,
        (_, SpecComponent::Prim(_)) => Order::Greater,
        (
            SpecComponent::VariantSelection { set: s, variant: v },
            SpecComponent::VariantSelection { set: t, variant: w },
        ) => order_int(s.index as int, t.index as int).spec_or(
            order_int(v.index as int, w.index as int),
        ),
    }
}

/// The order of two lists of components: entry by entry, a proper prefix first.
pub open spec fn order_components(a: Seq<SpecComponent>, b: Seq<SpecComponent>) -> Order
    decreases a.len(),
{
    if a.len() == 0 {
        if b.len() == 0 {
            Order::Equal
        } else {
            Order::Less
        }
    } else if b.len() == 0 {
        Order::Greater
    } else {
        order_component(a[0], b[0]).spec_or(order_components(a.drop_first(), b.drop_first()))
    }
}

/// The order of two optional tokens: none first.
pub open spec fn order_property(a: Option<TokenId>, b: Option<TokenId>) -> Order {
    match (a, b) {
        (None, None) => Order::Equal,
        (None, Some(_)) => Order::Less,
        (Some(_), None) => Order::Greater,
        (Some(x), Some(y)) => order_int(x.index as int, y.index as int),
    }
}

/// The order of two spec paths by their ids: by prim path, then by components,
/// then by property.
pub open spec fn order_spec_paths(a: SpecPathView, b: SpecPathView) -> Order {
    order_int(a.prim_path.index as int, b.prim_path.index as int).spec_or(
        order_components(a.components, b.components),
    ).spec_or(order_property(a.property, b.property))
}

fn compare_component(a: SpecComponent, b: SpecComponent) -> (out: Order)
    ensures
        out == order_component(a, b),
{
    match (a, b) {
        (SpecComponent::Prim(x), SpecComponent::Prim(y)) => compare_usize(x.index, y.index),
        (SpecComponent::Prim(_), _) => Order::Less,
        (_, SpecComponent::Prim(_)) => Order::Greater,
        (
            SpecComponent::VariantSelection { set: s, variant: v },
            SpecComponent::VariantSelection { set: t, variant: w },
        ) => compare_usize(s.index, t.index).or(compare_usize(v.index, w.index)),
    }
}

impl SpecPath {
    /// The concrete prim path.
    pub open spec fn spec_prim_path(&self) -> PathId {
        self@.prim_path
    }

    /// The components, outermost first.
    pub open spec fn spec_components(&self) -> Seq<SpecComponent> {
        self@.components
    }

    /// The property suffix.
    pub open spec fn spec_property(&self) -> Option<TokenId> {
        self@.property
    }

    /// A copy of this path.
    pub fn copy(&self) -> (path: Self)
        ensures
            path@ == self@,
    {
        let components = self.components.clone();
        assert(components@ =~= self.components@);
        SpecPath { prim_path: self.prim_path, components, property: self.property }
    }

    /// Whether the two paths have the same prim path, components and property.
    pub fn same(&self, other: &SpecPath) -> (same: bool)
        ensures
            same == (self@ == other@),
    {
        if self.prim_path != other.prim_path || self.components.len() != other.components.len()
            || self.property != other.property {
            return false;
        }
        let mut i: usize = 0;
        while i < self.components.len()
            invariant
                i <= self.components.len(),
                self.components@.len() == other.components@.len(),
                forall|j: int| 0 <= j < i ==> self.components@[j] == other.components@[j],
            decreases self.components.len() - i,
        {
            if self.components[i] != other.components[i] {
                return false;
            }
            i = i + 1;
        }
        assert(self@ =~= other@);
        true
    }

    /// Compares two paths by their ids: by prim path, then by components, then
    /// by property.
    pub fn compare(&self, other: &SpecPath) -> (out: Order)
        ensures
            out == order_spec_paths(self@, other@),
    {
        let by_prim = compare_usize(self.prim_path.index, other.prim_path.index);
        let ghost a = self.components@;
        let ghost b = other.components@;
        let mut by_components = Order::Equal;
        let mut i: usize = 0;
        assert(a.skip(0) =~= a);
        assert(b.skip(0) =~= b);
        while by_components == Order::Equal && i < self.components.len() && i
            < other.components.len()
            invariant
                a == self.components@,
                b == other.components@,
                i <= a.len(),
                i <= b.len(),
                order_components(a, b) == by_components.spec_or(
                    order_components(a.skip(i as int), b.skip(i as int)),
                ),
            decreases a.len() - i,
        {
            assert(a.skip(i as int).drop_first() =~= a.skip(i + 1));
            assert(b.skip(i as int).drop_first() =~= b.skip(i + 1));
            by_components = compare_component(self.components[i], other.components[i]);
            i = i + 1;
        }
        if by_components == Order::Equal {
            by_components = compare_usize(self.components.len(), other.components.len());
        }
        let by_property = match (self.property, other.property) {
            (None, None) => Order::Equal,
            (None, Some(_)) => Order::Less,
            (Some(_), None) => Order::Greater,
            (Some(x), Some(y)) => compare_usize(x.index, y.index),
        };
        by_prim.or(by_components).or(by_property)
    }

    /// Whether every token of this path is known.
    pub open spec fn known(&self, tokens: Seq<Seq<char>>) -> bool {
        &&& components_known(self.spec_components(), tokens)
        &&& self.spec_property() is Some ==> self.spec_property()->0.index < tokens.len()
    }

    /// The text of the property suffix.
    pub open spec fn property_text(&self, tokens: Seq<Seq<char>>) -> Option<Seq<char>> {
        match self.spec_property() {
            Some(id) => Some(tokens[id.index as int]),
            None => None,
        }
    }

    /// Builds a plain prim spec path from a concrete prim path.
    #[must_use]
    pub fn from_prim_path(prim_path: PathId, paths: &PathInterner) -> (path: Self)
        requires
            paths.has(prim_path),
        ensures
            path.spec_prim_path() == prim_path,
            path.spec_components() == paths.path(prim_path).map_values(
                |id: TokenId| SpecComponent::Prim(id),
            ),
            path.spec_property() is None,
    {
        let prim = paths.resolve(prim_path);
        let segments = prim.segments();
        let mut components: Vec<SpecComponent> = Vec::new();
        let mut i: usize = 0;
        while i < segments.len()
            invariant
                i <= segments.len(),
                components@ =~= segments@.take(i as int).map_values(
                    |id: TokenId| SpecComponent::Prim(id),
                ),
            decreases segments.len() - i,
        {
            components.push(SpecComponent::Prim(segments[i]));
            i = i + 1;
        }
        assert(segments@.take(i as int) =~= segments@);
        SpecPath { prim_path, components, property: None }
    }

    /// Builds a plain property spec path from a concrete [`PropertyPath`].
    #[must_use]
    pub fn from_property_path(property_path: PropertyPath, paths: &PathInterner) -> (path: Self)
        requires
            paths.has(property_path.prim_path),
        ensures
            path.spec_prim_path() == property_path.prim_path,
            path.spec_components() == paths.path(property_path.prim_path).map_values(
                |id: TokenId| SpecComponent::Prim(id),
            ),
            path.spec_property() == Some(property_path.property),
    {
        Self::from_prim_path(property_path.prim_path, paths).with_property(property_path.property)
    }

    /// Builds a variant-qualified spec path by inserting `selections` after
    /// `variant_host` in `prim_path`.
    ///
    /// `variant_host` must be equal to or a prefix of `prim_path`, and not the
    /// root, unless there are no selections.
    #[must_use]
    pub fn from_variant_qualified_prim_path(
        prim_path: PathId,
        variant_host: PathId,
        selections: &[(TokenId, TokenId)],
        paths: &PathInterner,
    ) -> (path: Self)
        requires
            paths.has(prim_path),
            paths.has(variant_host),
            selections@.len() > 0 ==> {
                &&& 0 < paths.path(variant_host).len()
                &&& paths.path(variant_host).is_prefix_of(paths.path(prim_path))
            },
        ensures
            path.spec_prim_path() == prim_path,
            path.spec_property() is None,
            ({
                let prim = paths.path(prim_path);
                let prims = prim.map_values(|id: TokenId| SpecComponent::Prim(id));
                let depth = paths.path(variant_host).len() as int;
                let chosen = selections@.map_values(
                    |s: (TokenId, TokenId)|
                        SpecComponent::VariantSelection { set: s.0, variant: s.1 },
                );
                path.spec_components() == (if selections@.len() == 0 {
                    prims
                } else {
                    prims.take(depth) + chosen + prims.skip(depth)
                })
            }),
    {
        let mut sites: Vec<VariantSelectionSite> = Vec::new();
        let mut i: usize = 0;
        while i < selections.len()
            invariant
                i <= selections.len(),
                sites@.len() == i,
                forall|j: int|
                    0 <= j < i ==> #[trigger] sites@[j] == (VariantSelectionSite {
                        host_path: variant_host,
                        set: selections@[j].0,
                        variant: selections@[j].1,
                    }),
            decreases selections.len() - i,
        {
            sites.push(
                VariantSelectionSite {
                    host_path: variant_host,
                    set: selections[i].0,
                    variant: selections[i].1,
                },
            );
            i = i + 1;
        }
        let ghost prim = paths.path(prim_path);
        let ghost hosts = hosts_of(sites@, paths@);
        let ghost host = paths.path(variant_host);
        proof {
            assert forall|j: int| 0 <= j < hosts.len() implies hosts[j] == host by {}
            lemma_single_host(hosts, sites@, prim, host, prim.len());
        }
        let path = Self::from_variant_selection_sites(prim_path, &sites, paths);
        proof {
            let prims = prim.map_values(|id: TokenId| SpecComponent::Prim(id));
            assert(prim.take(prim.len() as int) =~= prim);
            if selections@.len() > 0 {
                assert(prim.take(host.len() as int).map_values(|id: TokenId| SpecComponent::Prim(id))
                    =~= prims.take(host.len() as int));
                assert(prim.subrange(host.len() as int, prim.len() as int).map_values(
                    |id: TokenId| SpecComponent::Prim(id),
                ) =~= prims.skip(host.len() as int));
                assert(sites@.map_values(|site: VariantSelectionSite| site_component(site))
                    =~= selections@.map_values(
                    |s: (TokenId, TokenId)|
                        SpecComponent::VariantSelection { set: s.0, variant: s.1 },
                ));
            }
        }
        path
    }

    /// Builds a variant-qualified spec path from ordered host-aware selection
    /// sites.
    ///
    /// Each site host must be equal to or a prefix of `prim_path`, and the
    /// provided sites must appear in outer-to-inner order.
    #[must_use]
    pub fn from_variant_selection_sites(
        prim_path: PathId,
        selection_sites: &Vec<VariantSelectionSite>,
        paths: &PathInterner,
    ) -> (path: Self)
        requires
            paths.has(prim_path),
            forall|i: int|
                0 <= i < selection_sites@.len() ==> paths.has(
                    (#[trigger] selection_sites@[i]).host_path,
                ),
            sites_within(
                hosts_of(selection_sites@, paths@),
                paths.path(prim_path),
                paths.path(prim_path).len(),
            ) == selection_sites@.len(),
        ensures
            path.spec_prim_path() == prim_path,
            path.spec_property() is None,
            path.spec_components() == qualified_components(
                hosts_of(selection_sites@, paths@),
                selection_sites@,
                paths.path(prim_path),
                paths.path(prim_path).len(),
            ),
    {
        let prim = paths.resolve(prim_path);
        let ghost hosts = hosts_of(selection_sites@, paths@);
        let mut components: Vec<SpecComponent> = Vec::new();
        let mut emitted: usize = 0;
        let mut depth: usize = 0;
        while depth < prim.depth()
            invariant
                prim@ == paths.path(prim_path),
                hosts == hosts_of(selection_sites@, paths@),
                forall|i: int|
                    0 <= i < selection_sites@.len() ==> paths.has(
                        (#[trigger] selection_sites@[i]).host_path,
                    ),
                depth <= prim@.len(),
                emitted == sites_within(hosts, prim@, depth as nat),
                emitted <= selection_sites@.len(),
                components@ == qualified_components(
                    hosts,
                    selection_sites@,
                    prim@,
                    depth as nat,
                ),
            decreases prim@.len() - depth,
        {
            let segment = prim.segments()[depth];
            let prefix = prim.prefix(depth + 1);
            let ghost outer = components@;
            let ghost from = emitted as int;
            components.push(SpecComponent::Prim(segment));
            proof {
                lemma_sites_end(hosts, emitted as int, prefix@);
            }
            while emitted < selection_sites.len() && paths.resolve(
                selection_sites[emitted].host_path,
            ).same(&prefix)
                invariant
                    hosts == hosts_of(selection_sites@, paths@),
                    forall|i: int|
                        0 <= i < selection_sites@.len() ==> paths.has(
                            (#[trigger] selection_sites@[i]).host_path,
                        ),
                    0 <= from <= emitted <= selection_sites@.len(),
                    sites_end(hosts, from, prefix@) == sites_end(hosts, emitted as int, prefix@),
                    components@ =~= outer.push(SpecComponent::Prim(segment))
                        + selection_sites@.subrange(from, emitted as int).map_values(
                        |site: VariantSelectionSite| site_component(site),
                    ),
                decreases selection_sites@.len() - emitted,
            {
                let site = selection_sites[emitted];
                components.push(
                    SpecComponent::VariantSelection { set: site.set, variant: site.variant },
                );
                emitted = emitted + 1;
            }
            depth = depth + 1;
        }
        SpecPath { prim_path, components, property: None }
    }

    /// Parses a spec path like `/A{v=red}B/C.attr`.
    ///
    /// Two slashes in a row, a slash at the end and a slash before a selection
    /// or a property leave a prim segment empty; the leading slash alone does
    /// not.
    pub fn parse(s: &str, tokens: &mut TokenInterner, paths: &mut PathInterner) -> (path: Result<
        Self,
        SpecPathError,
    >)
        ensures
            (s@.len() == 0 || s@[0] != '/') ==> {
                &&& path == Err::<Self, SpecPathError>(SpecPathError::NotAbsolute)
                &&& final(tokens)@ == old(tokens)@
                &&& final(paths)@ == old(paths)@
            },
            (s@.len() > 0 && s@[0] == '/') ==> {
                let said = spec_text(s@, 1);
                let names = piece_names(said.pieces);
                match said.error {
                    Some(error) => {
                        &&& path == Err::<Self, SpecPathError>(error)
                        &&& final(tokens)@ == with_entries(old(tokens)@, names)
                        &&& final(paths)@ == old(paths)@
                    },
                    None => {
                        &&& path is Ok
                        &&& final(tokens)@ == (match said.property {
                            Some(name) => with_entry(with_entries(old(tokens)@, names), name),
                            None => with_entries(old(tokens)@, names),
                        })
                        &&& path->Ok_0.known(final(tokens)@)
                        &&& pieces_of(path->Ok_0.spec_components(), final(tokens)@) == said.pieces
                        &&& path->Ok_0.property_text(final(tokens)@) == said.property
                        &&& final(paths)@ == with_entry(
                            old(paths)@,
                            prim_segments(path->Ok_0.spec_components()),
                        )
                        &&& final(paths).has(path->Ok_0.spec_prim_path())
                        &&& final(paths).path(path->Ok_0.spec_prim_path()) == prim_segments(
                            path->Ok_0.spec_components(),
                        )
                    },
                }
            },
            extends(final(tokens)@, old(tokens)@),
    {
        let chars = chars_of(s);
        if chars.len() == 0 || chars[0] != '/' {
            return Err(SpecPathError::NotAbsolute);
        }
        let ghost said = spec_text(s@, 1);
        let ghost mut done: Seq<Piece> = seq![];
        let mut components: Vec<SpecComponent> = Vec::new();
        let mut segments: Vec<TokenId> = Vec::new();
        let mut property: Option<TokenId> = None;
        let mut idx: usize = 1;
        let len = chars.len();
        proof {
            assert(done + spec_text(s@, 1).pieces =~= said.pieces);
            assert(pieces_of(components@, tokens@) =~= done);
        }
        while idx < len
            invariant_except_break
                property is None,
                said.pieces == done + spec_text(s@, idx as int).pieces,
                said.property == spec_text(s@, idx as int).property,
                said.error == spec_text(s@, idx as int).error,
                tokens@ == with_entries(old(tokens)@, piece_names(done)),
            invariant
                chars@ == s@,
                len == chars.len(),
                1 <= idx <= len,
                s@[0] == '/',
                said == spec_text(s@, 1),
                extends(tokens@, old(tokens)@),
                paths@ == old(paths)@,
                components_known(components@, tokens@),
                pieces_of(components@, tokens@) == done,
                segments@ == prim_segments(components@),
            ensures
                said.error is None,
                said.pieces == done,
                property is Some ==> property->0.index < tokens@.len(),
                said.property == (match property {
                    Some(id) => Some(tokens@[id.index as int]),
                    None => None,
                }),
                tokens@ == (match said.property {
                    Some(name) => with_entry(
                        with_entries(old(tokens)@, piece_names(done)),
                        name,
                    ),
                    None => with_entries(old(tokens)@, piece_names(done)),
                }),
            decreases len - idx,
        {
            let c = chars[idx];
            let ghost rest = spec_text(s@, idx as int);
            let ghost earlier = tokens@;
            let ghost was = components@;
            if c == '/' {
                if chars[idx - 1] == '/' || idx + 1 >= len || chars[idx + 1] == '/'
                    || chars[idx + 1] == '{' || chars[idx + 1] == '.' {
                    proof {
                        assert(said.pieces =~= done);
                    }
                    return Err(SpecPathError::EmptySegment);
                }
                idx = idx + 1;
            } else if c == '{' {
                let eq = find_char(&chars, idx + 1, '=');
                if eq == len {
                    proof {
                        assert(said.pieces =~= done);
                    }
                    return Err(SpecPathError::MalformedVariantSelection);
                }
                let set_text = string_of(&chars, idx + 1, eq);
                let close = find_char(&chars, eq + 1, '}');
                if close == len {
                    proof {
                        assert(said.pieces =~= done);
                    }
                    return Err(SpecPathError::MalformedVariantSelection);
                }
                let variant_text = string_of(&chars, eq + 1, close);
                let set = tokens.intern(set_text.as_str());
                let ghost middle = tokens@;
                let variant = tokens.intern(variant_text.as_str());
                components.push(SpecComponent::VariantSelection { set, variant });
                proof {
                    let piece = Piece::Variant { set: set_text@, variant: variant_text@ };
                    let names = piece_names(done);
                    assert(done.push(piece).drop_last() =~= done);
                    assert(piece_names(done.push(piece)) == names + seq![set_text@, variant_text@]);
                    lemma_entries_two(old(tokens)@, names, set_text@, variant_text@);
                    assert(components@.drop_last() =~= was);
                    lemma_pieces_kept(was, earlier, tokens@);
                    assert(pieces_of(components@, tokens@) =~= done.push(piece));
                    let later = spec_text(s@, close + 1);
                    assert(done + (seq![piece] + later.pieces) =~= done.push(piece) + later.pieces);
                    done = done.push(piece);
                }
                idx = close + 1;
            } else if c == '.' {
                if idx + 1 >= len {
                    proof {
                        assert(said.pieces =~= done);
                    }
                    return Err(SpecPathError::EmptyPropertyName);
                }
                let name = string_of(&chars, idx + 1, len);
                let id = tokens.intern(name.as_str());
                property = Some(id);
                proof {
                    lemma_pieces_kept(was, earlier, tokens@);
                    assert(said.pieces =~= done);
                }
                break;
            } else {
                let start = idx;
                idx = idx + 1;
                while idx < len && chars[idx] != '/' && chars[idx] != '{' && chars[idx] != '.'
                    invariant
                        chars@ == s@,
                        len == chars.len(),
                        start < idx <= len,
                        !ends_name(s@[start as int]),
                        forall|i: int| start <= i < idx ==> !ends_name(#[trigger] s@[i]),
                    decreases len - idx,
                {
                    idx = idx + 1;
                }
                proof {
                    lemma_name_end(s@, start as int, idx as int);
                }
                let name = string_of(&chars, start, idx);
                let token = tokens.intern(name.as_str());
                segments.push(token);
                components.push(SpecComponent::Prim(token));
                proof {
                    let piece = Piece::Prim(name@);
                    let names = piece_names(done);
                    assert(done.push(piece).drop_last() =~= done);
                    assert((names + seq![name@]).drop_last() =~= names);
                    assert(components@.drop_last() =~= was);
                    lemma_pieces_kept(was, earlier, tokens@);
                    assert(pieces_of(components@, tokens@) =~= done.push(piece));
                    let later = spec_text(s@, idx as int);
                    assert(done + (seq![piece] + later.pieces) =~= done.push(piece) + later.pieces);
                    done = done.push(piece);
                }
            }
        }
        let prim_path = paths.intern(Path::from_segments(segments));
        Ok(SpecPath { prim_path, components, property })
    }

    /// Returns the concrete prim path used to look up authored prim data.
    #[must_use]
    pub fn prim_path(&self) -> (path: PathId)
        ensures
            path == self.spec_prim_path(),
    {
        self.prim_path
    }

    /// Returns the property suffix, if any.
    #[must_use]
    pub fn property(&self) -> (property: Option<TokenId>)
        ensures
            property == self.spec_property(),
    {
        self.property
    }

    /// Returns the structured components.
    #[must_use]
    pub fn components(&self) -> (components: &Vec<SpecComponent>)
        ensures
            components@ == self.spec_components(),
    {
        &self.components
    }

    /// Returns a copy of this path with a property suffix attached.
    #[must_use]
    pub fn with_property(&self, property: TokenId) -> (path: Self)
        ensures
            path.spec_prim_path() == self.spec_prim_path(),
            path.spec_components() == self.spec_components(),
            path.spec_property() == Some(property),
    {
        let components = self.components.clone();
        assert(components@ =~= self.components@);
        SpecPath { prim_path: self.prim_path, components, property: Some(property) }
    }

    /// Returns a copy of this path without a property suffix.
    #[must_use]
    pub fn prim_spec(&self) -> (path: Self)
        ensures
            path.spec_prim_path() == self.spec_prim_path(),
            path.spec_components() == self.spec_components(),
            path.spec_property() is None,
    {
        let components = self.components.clone();
        assert(components@ =~= self.components@);
        SpecPath { prim_path: self.prim_path, components, property: None }
    }

    /// Formats this path in spec-path syntax.
    #[must_use]
    pub fn display(&self, tokens: &TokenInterner) -> (out: String)
        requires
            self.known(tokens@),
        ensures
            out@ == seq!['/'] + written(
                pieces_of(self.spec_components(), tokens@),
                false,
                self.property_text(tokens@),
            ),
    {
        let ghost pieces = pieces_of(self.components@, tokens@);
        let ghost property = self.property_text(tokens@);
        let mut out = String::new();
        out.push('/');
        let mut need_slash = false;
        let mut i: usize = 0;
        assert(pieces.skip(0) =~= pieces);
        assert(out@ =~= seq!['/']);
        while i < self.components.len()
            invariant
                i <= self.components.len(),
                self.known(tokens@),
                pieces == pieces_of(self.components@, tokens@),
                out@ + written(pieces.skip(i as int), need_slash, property) == seq!['/'] + written(
                    pieces,
                    false,
                    property,
                ),
            decreases self.components.len() - i,
        {
            let ghost so_far = out@;
            assert(pieces.skip(i as int).drop_first() =~= pieces.skip(i + 1));
            assert(component_known(self.spec_components()[i as int], tokens@));
            match self.components[i] {
                SpecComponent::Prim(segment) => {
                    if need_slash {
                        out.push('/');
                    }
                    push_text(&mut out, tokens.resolve(segment));
                    assert(out@ + written(pieces.skip(i + 1), true, property) =~= so_far + written(
                        pieces.skip(i as int),
                        need_slash,
                        property,
                    ));
                    need_slash = true;
                },
                SpecComponent::VariantSelection { set, variant } => {
                    out.push('{');
                    push_text(&mut out, tokens.resolve(set));
                    out.push('=');
                    push_text(&mut out, tokens.resolve(variant));
                    out.push('}');
                    assert(out@ + written(pieces.skip(i + 1), false, property) =~= so_far
                        + written(pieces.skip(i as int), need_slash, property));
                    need_slash = false;
                },
            }
            i = i + 1;
        }
        assert(pieces.skip(i as int) =~= Seq::<Piece>::empty());
        let ghost so_far = out@;
        if let Some(id) = self.property {
            out.push('.');
            push_text(&mut out, tokens.resolve(id));
            assert(out@ =~= so_far + written(Seq::<Piece>::empty(), need_slash, property));
        } else {
            assert(out@ =~= so_far + written(Seq::<Piece>::empty(), need_slash, property));
        }
        out
    }
}

proof fn lemma_entries_two(
    s: Seq<Seq<char>>,
    names: Seq<Seq<char>>,
    first: Seq<char>,
    second: Seq<char>,
)
    ensures
        with_entries(s, names + seq![first, second]) == with_entry(
            with_entry(with_entries(s, names), first),
            second,
        ),
{
    reveal_with_fuel(with_entries, 3);
    let both = names + seq![first, second];
    assert(both.drop_last() =~= names + seq![first]);
    assert(both.drop_last().drop_last() =~= names);
    assert(both.last() == second);
    assert(both.drop_last().last() == first);
}

proof fn lemma_pieces_kept(
    components: Seq<SpecComponent>,
    earlier: Seq<Seq<char>>,
    tokens: Seq<Seq<char>>,
)
    requires
        components_known(components, earlier),
        extends(tokens, earlier),
    ensures
        components_known(components, tokens),
        pieces_of(components, tokens) == pieces_of(components, earlier),
{
    assert forall|i: int| 0 <= i < components.len() implies component_known(
        #[trigger] components[i],
        tokens,
    ) by {
        assert(component_known(components[i], earlier));
    }
    assert forall|i: int| 0 <= i < components.len() implies piece_of(components[i], tokens)
        == piece_of(components[i], earlier) by {
        assert(component_known(components[i], earlier));
    }
    assert(pieces_of(components, tokens) =~= pieces_of(components, earlier));
}

proof fn lemma_sites_all(hosts: Seq<Seq<TokenId>>, from: int, prefix: Seq<TokenId>)
    requires
        0 <= from <= hosts.len(),
        forall|j: int| 0 <= j < hosts.len() ==> hosts[j] == prefix,
    ensures
        sites_end(hosts, from, prefix) == hosts.len(),
    decreases hosts.len() - from,
{
    if from < hosts.len() {
        lemma_sites_all(hosts, from + 1, prefix);
    }
}

/// Where every site sits at one host, all selections stand behind that host.
proof fn lemma_single_host(
    hosts: Seq<Seq<TokenId>>,
    sites: Seq<VariantSelectionSite>,
    prim: Seq<TokenId>,
    host: Seq<TokenId>,
    depth: nat,
)
    requires
        hosts.len() == sites.len(),
        forall|j: int| 0 <= j < hosts.len() ==> hosts[j] == host,
        depth <= prim.len(),
        hosts.len() > 0 ==> 0 < host.len() && host.is_prefix_of(prim),
    ensures
        sites_within(hosts, prim, depth) == (if depth < host.len() {
            0
        } else {
            hosts.len() as int
        }) || hosts.len() == 0 && sites_within(hosts, prim, depth) == 0,
        ({
            let prims = |s: Seq<TokenId>| s.map_values(|id: TokenId| SpecComponent::Prim(id));
            let chosen = sites.map_values(|site: VariantSelectionSite| site_component(site));
            qualified_components(hosts, sites, prim, depth) == (if hosts.len() == 0 || depth
                < host.len() {
                prims(prim.take(depth as int))
            } else {
                prims(prim.take(host.len() as int)) + chosen + prims(
                    prim.subrange(host.len() as int, depth as int),
                )
            })
        }),
    decreases depth,
{
    if depth == 0 {
        assert(qualified_components(hosts, sites, prim, depth) =~= prim.take(0).map_values(
            |id: TokenId| SpecComponent::Prim(id),
        ));
    } else {
        let outer = (depth - 1) as nat;
        lemma_single_host(hosts, sites, prim, host, outer);
        let prefix = prim.take(depth as int);
        let from = sites_within(hosts, prim, outer);
        let to = sites_within(hosts, prim, depth);
        if hosts.len() > 0 {
            if depth == host.len() {
                assert(host =~= prefix);
                lemma_sites_all(hosts, from, prefix);
            }
            assert(depth != host.len() ==> prefix != host);
        }
        let between = sites.subrange(from, to);
        if hosts.len() > 0 && depth == host.len() {
            assert(between =~= sites);
        } else {
            assert(between =~= Seq::<VariantSelectionSite>::empty());
        }
        assert(prim.take(depth as int) =~= prim.take(outer as int).push(prim[depth - 1]));
        if hosts.len() > 0 && depth > host.len() {
            assert(prim.subrange(host.len() as int, depth as int) =~= prim.subrange(
                host.len() as int,
                outer as int,
            ).push(prim[depth - 1]));
        }
        let prims = |s: Seq<TokenId>| s.map_values(|id: TokenId| SpecComponent::Prim(id));
        let chosen = sites.map_values(|site: VariantSelectionSite| site_component(site));
        if hosts.len() == 0 || depth < host.len() {
            assert(qualified_components(hosts, sites, prim, depth) =~= prims(
                prim.take(depth as int),
            ));
        } else {
            assert(qualified_components(hosts, sites, prim, depth) =~= prims(
                prim.take(host.len() as int),
            ) + chosen + prims(prim.subrange(host.len() as int, depth as int)));
        }
    }
}

} // verus!
