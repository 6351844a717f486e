//! Checking a flattened layer against the stage it was flattened from: what is
//! compared, and when two things read alike.

use crate::doc::{copy_entries, copy_values, values_alike, Specifier, Value, ValueView};
use crate::fields::TargetPath;
use crate::flatten::anchored::{anchor_value, anchored, anchors_view};
use crate::flatten::report::{
    findings_view, object_text, FindingKind, FindingView, FlattenReport, KindView, Loss, ObjectPath,
    ObjectView, Transformation, TransformationView,
};
use crate::interner::{TokenId, TokenInterner};
use crate::path::{prim_display, property_display, PathId, PathInterner};
use crate::property::TypeView;
use crate::resolution::{DeclarationView, PropertyDeclaration, ResolvedValue, ResolvedView};
use crate::text::{chars_of, same_text, text, texts};
use vstd::prelude::*;

verus! {

// ── What is compared ────────────────────────────────────────────────────

/// What a mismatch is about.
#[derive(Debug)]
pub enum MismatchKind {
    /// A prim that one stage composes and the other does not.
    Prim,
    Specifier,
    TypeName,
    /// The children, in order.
    Children,
    /// A prim metadata field.
    Metadata { field: String },
    /// A property that one stage composes and the other does not.
    Property,
    /// How a property is declared.
    Declaration,
    /// A property metadata field.
    PropertyMetadata { field: String },
    /// Relationship targets or attribute connections.
    Targets,
    /// The value at the default time.
    Default,
    /// The value at a stage time, by its bits.
    ValueAt { time: u64 },
}

/// The mathematical value of a [`MismatchKind`].
pub enum MismatchKindView {
    Prim,
    Specifier,
    TypeName,
    Children,
    Metadata { field: Seq<char> },
    Property,
    Declaration,
    PropertyMetadata { field: Seq<char> },
    Targets,
    Default,
    ValueAt { time: u64 },
}

impl View for MismatchKind {
    type V = MismatchKindView;

    open spec fn view(&self) -> MismatchKindView {
        match self {
            MismatchKind::Prim => MismatchKindView::Prim,
            MismatchKind::Specifier => MismatchKindView::Specifier,
            MismatchKind::TypeName => MismatchKindView::TypeName,
            MismatchKind::Children => MismatchKindView::Children,
            MismatchKind::Metadata { field } => MismatchKindView::Metadata { field: field@ },
            MismatchKind::Property => MismatchKindView::Property,
            MismatchKind::Declaration => MismatchKindView::Declaration,
            MismatchKind::PropertyMetadata { field } => MismatchKindView::PropertyMetadata {
                field: field@,
            },
            MismatchKind::Targets => MismatchKindView::Targets,
            MismatchKind::Default => MismatchKindView::Default,
            MismatchKind::ValueAt { time } => MismatchKindView::ValueAt { time: *time },
        }
    }
}

/// What a stage composes for something that is compared.
#[derive(Debug)]
pub enum Seen {
    /// No prim, or no property.
    Absent,
    /// A prim, or a property.
    Present,
    Specifier(Option<Specifier>),
    Label(Option<TokenId>),
    Paths(Vec<PathId>),
    Flag(Option<bool>),
    Order(Option<Vec<TokenId>>),
    Resolved(Option<ResolvedValue>),
    Declaration(PropertyDeclaration),
    Targets(Vec<TargetPath>),
    Value(Option<Value>),
}

/// The mathematical value of a [`Seen`].
pub enum SeenView {
    Absent,
    Present,
    Specifier(Option<Specifier>),
    Label(Option<TokenId>),
    Paths(Seq<PathId>),
    Flag(Option<bool>),
    Order(Option<Seq<TokenId>>),
    Resolved(Option<ResolvedView>),
    Declaration(DeclarationView),
    Targets(Seq<TargetPath>),
    Value(Option<ValueView>),
}

/// The view of an optional resolved value.
pub open spec fn resolved_view(value: Option<ResolvedValue>) -> Option<ResolvedView> {
    match value {
        Some(value) => Some(value@),
        None => None,
    }
}

impl View for Seen {
    type V = SeenView;

    open spec fn view(&self) -> SeenView {
        match self {
            Seen::Absent => SeenView::Absent,
            Seen::Present => SeenView::Present,
            Seen::Specifier(specifier) => SeenView::Specifier(*specifier),
            Seen::Label(label) => SeenView::Label(*label),
            Seen::Paths(paths) => SeenView::Paths(paths@),
            Seen::Flag(flag) => SeenView::Flag(*flag),
            Seen::Order(order) => SeenView::Order(crate::stage::sources::order_option(*order)),
            Seen::Resolved(value) => SeenView::Resolved(resolved_view(*value)),
            Seen::Declaration(declaration) => SeenView::Declaration(declaration@),
            Seen::Targets(targets) => SeenView::Targets(targets@),
            Seen::Value(value) => SeenView::Value(crate::doc::value_option(*value)),
        }
    }
}

/// A difference between a stage and the stage of its flattened layer.
#[derive(Debug)]
pub struct Mismatch {
    /// The composed prim or property.
    pub path: ObjectPath,
    pub kind: MismatchKind,
    /// What the stage composes.
    pub expected: Seen,
    /// What the flattened stage composes.
    pub found: Seen,
}

/// The mathematical value of a [`Mismatch`].
pub struct MismatchView {
    pub path: ObjectView,
    pub kind: MismatchKindView,
    pub expected: SeenView,
    pub found: SeenView,
}

impl View for Mismatch {
    type V = MismatchView;

    open spec fn view(&self) -> MismatchView {
        MismatchView {
            path: self.path@,
            kind: self.kind@,
            expected: self.expected@,
            found: self.found@,
        }
    }
}

/// Why something is not compared.
#[derive(Clone, Copy, Debug, PartialEq, Eq, Structural)]
pub enum SkipReason {
    /// The report records it as lost.
    Lost(Loss),
}

/// Something that is not compared.
#[derive(Debug)]
pub struct Skipped {
    /// The composed prim or property.
    pub path: ObjectPath,
    pub reason: SkipReason,
}

impl View for Skipped {
    type V = (ObjectView, SkipReason);

    open spec fn view(&self) -> (ObjectView, SkipReason) {
        (self.path@, self.reason)
    }
}

/// What was compared. Counts stop at the largest that can be held.
#[derive(Debug)]
pub struct VerifiedScope {
    pub prims: usize,
    pub properties: usize,
    /// Prim and property metadata fields.
    pub metadata_fields: usize,
    /// Property values, one per property and time, the default time included.
    pub values: usize,
    /// The distinct stage times of samples that some property was compared at.
    pub sample_times: usize,
    /// The times that every property was compared at, by their bits, as given.
    pub times: Vec<u64>,
    pub skipped: Vec<Skipped>,
}

/// The mathematical value of a [`VerifiedScope`].
#[verifier::ext_equal]
pub struct ScopeView {
    pub prims: usize,
    pub properties: usize,
    pub metadata_fields: usize,
    pub values: usize,
    pub sample_times: usize,
    pub times: Seq<u64>,
    pub skipped: Seq<(ObjectView, SkipReason)>,
}

impl View for VerifiedScope {
    type V = ScopeView;

    open spec fn view(&self) -> ScopeView {
        ScopeView {
            prims: self.prims,
            properties: self.properties,
            metadata_fields: self.metadata_fields,
            values: self.values,
            sample_times: self.sample_times,
            times: self.times@,
            skipped: self.skipped@.map_values(|s: Skipped| s@),
        }
    }
}

/// What was compared, and every difference that was found.
#[derive(Debug)]
pub struct FlattenVerification {
    pub scope: VerifiedScope,
    /// Every difference, in the order of the walk over the stage.
    pub mismatches: Vec<Mismatch>,
}

/// The mathematical value of a [`FlattenVerification`].
#[verifier::ext_equal]
pub struct VerificationView {
    pub scope: ScopeView,
    pub mismatches: Seq<MismatchView>,
}

/// The values of a list of mismatches.
pub open spec fn mismatches_view(mismatches: Seq<Mismatch>) -> Seq<MismatchView> {
    mismatches.map_values(|m: Mismatch| m@)
}

impl View for FlattenVerification {
    type V = VerificationView;

    open spec fn view(&self) -> VerificationView {
        VerificationView { scope: self.scope@, mismatches: mismatches_view(self.mismatches@) }
    }
}

impl FlattenVerification {
    /// Whether the flattened stage composes what the stage composes, wherever
    /// they were compared.
    pub fn is_equivalent(&self) -> (yes: bool)
        ensures
            yes == (self@.mismatches.len() == 0),
    {
        self.mismatches.len() == 0
    }
}

// ── Reading alike ───────────────────────────────────────────────────────

/// The value that a resolved value reads as, unless it is a list of tokens or
/// of targets.
pub open spec fn as_plain(value: ResolvedView) -> Option<ValueView> {
    match value {
        ResolvedView::Scalar(value) => Some(value),
        ResolvedView::Dictionary(entries) => Some(ValueView::Dictionary(entries)),
        ResolvedView::ValueList(items) => Some(ValueView::Array(items)),
        ResolvedView::TokenList(_) => None,
        ResolvedView::PathList(_) => None,
    }
}

/// Whether a resolved value is a list, or an array, without items.
pub open spec fn is_empty_list(value: ResolvedView) -> bool {
    match value {
        ResolvedView::TokenList(items) => items.len() == 0,
        ResolvedView::PathList(items) => items.len() == 0,
        _ => as_plain(value) matches Some(ValueView::Array(items)) && items.len() == 0,
    }
}

/// The text of a token, where it is interned.
pub open spec fn name_text(name: TokenId, tokens: Seq<Seq<char>>) -> Option<Seq<char>> {
    if name.index < tokens.len() {
        Some(tokens[name.index as int])
    } else {
        None
    }
}

/// The text of a type's name, where it is interned; that of a prim without a
/// type is `none`.
pub open spec fn label_text(label: Option<TokenId>, tokens: Seq<Seq<char>>) -> Option<Seq<char>> {
    match label {
        Some(name) => name_text(name, tokens),
        None => Some("none"@),
    }
}

/// The text of a target, where it is interned.
pub open spec fn target_text(
    target: TargetPath,
    paths: Seq<Seq<TokenId>>,
    tokens: Seq<Seq<char>>,
) -> Option<Seq<char>> {
    match target {
        TargetPath::Prim(prim) => if prim.index < paths.len() {
            Some(prim_display(prim, paths, tokens))
        } else {
            None
        },
        TargetPath::Property(property) => if property.prim_path.index < paths.len()
            && property.property.index < tokens.len() {
            Some(property_display(property, paths, tokens))
        } else {
            None
        },
    }
}

/// The texts of prims.
pub open spec fn prim_texts(
    prims: Seq<PathId>,
    paths: Seq<Seq<TokenId>>,
    tokens: Seq<Seq<char>>,
) -> Seq<Option<Seq<char>>> {
    prims.map_values(|prim: PathId| target_text(TargetPath::Prim(prim), paths, tokens))
}

/// The texts of targets.
pub open spec fn target_texts(
    targets: Seq<TargetPath>,
    paths: Seq<Seq<TokenId>>,
    tokens: Seq<Seq<char>>,
) -> Seq<Option<Seq<char>>> {
    targets.map_values(|target: TargetPath| target_text(target, paths, tokens))
}

/// The texts of what a list of tokens or of targets holds.
pub open spec fn entry_texts(
    value: ResolvedView,
    paths: Seq<Seq<TokenId>>,
    tokens: Seq<Seq<char>>,
) -> Seq<Option<Seq<char>>> {
    match value {
        ResolvedView::TokenList(names) => names.map_values(|name: TokenId| name_text(name, tokens)),
        ResolvedView::PathList(targets) => target_texts(targets, paths, tokens),
        _ => seq![],
    }
}

/// Whether two lists of texts are the same, and none of them is missing.
pub open spec fn texts_alike(a: Seq<Option<Seq<char>>>, b: Seq<Option<Seq<char>>>) -> bool {
    &&& a == b
    &&& forall|i: int| 0 <= i < a.len() ==> #[trigger] a[i] is Some
}

/// Whether two resolved values read alike. Lists do when their texts are the
/// same: names may hold the characters that part them.
pub open spec fn resolved_alike(
    a: ResolvedView,
    b: ResolvedView,
    paths: Seq<Seq<TokenId>>,
    tokens: Seq<Seq<char>>,
) -> bool {
    ||| is_empty_list(a) && is_empty_list(b)
    ||| match (as_plain(a), as_plain(b)) {
        (Some(x), Some(y)) => values_alike(x, y),
        (None, None) => a == b || texts_alike(
            entry_texts(a, paths, tokens),
            entry_texts(b, paths, tokens),
        ),
        _ => false,
    }
}

/// Whether two declared types read alike.
pub open spec fn types_alike(a: Option<TypeView>, b: Option<TypeView>) -> bool {
    match (a, b) {
        (None, None) => true,
        (Some(x), Some(y)) => x.name == y.name && x.is_array == y.is_array && values_alike(
            x.default_scalar,
            y.default_scalar,
        ),
        _ => false,
    }
}

/// Whether two declarations read alike.
pub open spec fn declarations_alike(a: DeclarationView, b: DeclarationView) -> bool {
    &&& a.kind == b.kind
    &&& a.variability == b.variability
    &&& a.custom == b.custom
    &&& types_alike(a.declared_type, b.declared_type)
}

/// Whether what two stages compose reads alike.
pub open spec fn seen_alike(
    a: SeenView,
    b: SeenView,
    paths: Seq<Seq<TokenId>>,
    tokens: Seq<Seq<char>>,
) -> bool {
    match (a, b) {
        (SeenView::Label(x), SeenView::Label(y)) => {
            ||| x == y
            ||| label_text(x, tokens) is Some && label_text(x, tokens) == label_text(y, tokens)
        },
        (SeenView::Paths(x), SeenView::Paths(y)) => x == y || texts_alike(
            prim_texts(x, paths, tokens),
            prim_texts(y, paths, tokens),
        ),
        (SeenView::Targets(x), SeenView::Targets(y)) => x == y || texts_alike(
            target_texts(x, paths, tokens),
            target_texts(y, paths, tokens),
        ),
        (SeenView::Resolved(Some(x)), SeenView::Resolved(Some(y))) => resolved_alike(
            x,
            y,
            paths,
            tokens,
        ),
        (SeenView::Declaration(x), SeenView::Declaration(y)) => declarations_alike(x, y),
        (SeenView::Value(Some(x)), SeenView::Value(Some(y))) => values_alike(x, y),
        _ => a == b,
    }
}

/// Whether two lists of tokens are equal.
fn same_tokens(a: &Vec<TokenId>, b: &Vec<TokenId>) -> (same: bool)
    ensures
        same == (a@ == b@),
{
    if a.len() != b.len() {
        return false;
    }
    let mut i: usize = 0;
    while i < a.len()
        invariant
            i <= a@.len() == b@.len(),
            forall|k: int| 0 <= k < i ==> a@[k] == b@[k],
        decreases a@.len() - i,
    {
        if a[i] != b[i] {
            return false;
        }
        i = i + 1;
    }
    assert(a@ =~= b@);
    true
}

/// Whether two lists of targets are equal.
fn same_targets(a: &Vec<TargetPath>, b: &Vec<TargetPath>) -> (same: bool)
    ensures
        same == (a@ == b@),
{
    if a.len() != b.len() {
        return false;
    }
    let mut i: usize = 0;
    while i < a.len()
        invariant
            i <= a@.len() == b@.len(),
            forall|k: int| 0 <= k < i ==> a@[k] == b@[k],
        decreases a@.len() - i,
    {
        if a[i] != b[i] {
            return false;
        }
        i = i + 1;
    }
    assert(a@ =~= b@);
    true
}

/// Whether two lists of paths are equal.
fn same_paths(a: &Vec<PathId>, b: &Vec<PathId>) -> (same: bool)
    ensures
        same == (a@ == b@),
{
    if a.len() != b.len() {
        return false;
    }
    let mut i: usize = 0;
    while i < a.len()
        invariant
            i <= a@.len() == b@.len(),
            forall|k: int| 0 <= k < i ==> a@[k] == b@[k],
        decreases a@.len() - i,
    {
        if a[i] != b[i] {
            return false;
        }
        i = i + 1;
    }
    assert(a@ =~= b@);
    true
}

/// The views of optional texts.
pub open spec fn option_texts(list: Seq<Option<String>>) -> Seq<Option<Seq<char>>> {
    list.map_values(
        |text: Option<String>|
            match text {
                Some(text) => Some(text@),
                None => None,
            },
    )
}

/// Whether two lists of texts are the same, and none of them is missing.
fn same_texts(a: &Vec<Option<String>>, b: &Vec<Option<String>>) -> (same: bool)
    ensures
        same == texts_alike(option_texts(a@), option_texts(b@)),
{
    let ghost x = option_texts(a@);
    let ghost y = option_texts(b@);
    if a.len() != b.len() {
        return false;
    }
    let mut i: usize = 0;
    while i < a.len()
        invariant
            i <= a@.len() == b@.len(),
            x == option_texts(a@),
            y == option_texts(b@),
            forall|k: int| 0 <= k < i ==> #[trigger] x[k] is Some,
            forall|k: int| 0 <= k < i ==> #[trigger] x[k] == y[k],
        decreases a@.len() - i,
    {
        let same = match (&a[i], &b[i]) {
            (Some(one), Some(other)) => same_text(one.as_str(), other.as_str()),
            _ => false,
        };
        assert(same == (x[i as int] is Some && x[i as int] == y[i as int]));
        if !same {
            return false;
        }
        i = i + 1;
    }
    assert(x =~= y);
    true
}

/// The text of a token, where it is interned.
pub fn token_words(name: TokenId, tokens: &TokenInterner) -> (out: Option<String>)
    ensures
        (match out {
            Some(text) => Some(text@),
            None => None,
        }) == name_text(name, tokens@),
{
    if name.index < tokens.len() {
        Some(text(tokens.resolve(name)))
    } else {
        None
    }
}

/// The text of a target, where it is interned.
fn target_words(target: TargetPath, paths: &PathInterner, tokens: &TokenInterner) -> (out: Option<
    String,
>)
    requires
        paths.named_by(tokens@),
    ensures
        (match out {
            Some(text) => Some(text@),
            None => None,
        }) == target_text(target, paths@, tokens@),
{
    match target {
        TargetPath::Prim(prim) => if prim.index < paths.len() {
            Some(paths.resolve(prim).display(tokens))
        } else {
            None
        },
        TargetPath::Property(property) => if property.prim_path.index < paths.len()
            && property.property.index < tokens.len() {
            Some(property.display(paths, tokens))
        } else {
            None
        },
    }
}

/// The texts of targets.
pub fn list_targets(targets: &Vec<TargetPath>, paths: &PathInterner, tokens: &TokenInterner) -> (out:
    Vec<Option<String>>)
    requires
        paths.named_by(tokens@),
    ensures
        option_texts(out@) == target_texts(targets@, paths@, tokens@),
{
    let mut out: Vec<Option<String>> = Vec::new();
    let mut i: usize = 0;
    while i < targets.len()
        invariant
            i <= targets@.len(),
            paths.named_by(tokens@),
            option_texts(out@) =~= target_texts(targets@, paths@, tokens@).take(i as int),
        decreases targets@.len() - i,
    {
        let ghost had = out@;
        out.push(target_words(targets[i], paths, tokens));
        assert(out@.drop_last() =~= had);
        assert(option_texts(out@) =~= option_texts(had).push(option_texts(out@)[i as int]));
        i = i + 1;
    }
    out
}

/// The texts of tokens.
pub fn list_tokens(names: &Vec<TokenId>, tokens: &TokenInterner) -> (out: Vec<Option<String>>)
    ensures
        option_texts(out@) == names@.map_values(|name: TokenId| name_text(name, tokens@)),
{
    let ghost all = names@.map_values(|name: TokenId| name_text(name, tokens@));
    let mut out: Vec<Option<String>> = Vec::new();
    let mut i: usize = 0;
    while i < names.len()
        invariant
            i <= names@.len(),
            all == names@.map_values(|name: TokenId| name_text(name, tokens@)),
            option_texts(out@) =~= all.take(i as int),
        decreases names@.len() - i,
    {
        let ghost had = out@;
        out.push(token_words(names[i], tokens));
        assert(option_texts(out@) =~= option_texts(had).push(option_texts(out@)[i as int]));
        i = i + 1;
    }
    out
}

/// The targets that prims are.
pub fn prim_targets(prims: &Vec<PathId>) -> (out: Vec<TargetPath>)
    ensures
        out@ == prims@.map_values(|prim: PathId| TargetPath::Prim(prim)),
{
    let mut out: Vec<TargetPath> = Vec::new();
    let mut i: usize = 0;
    while i < prims.len()
        invariant
            i <= prims@.len(),
            out@ =~= prims@.map_values(|prim: PathId| TargetPath::Prim(prim)).take(i as int),
        decreases prims@.len() - i,
    {
        out.push(TargetPath::Prim(prims[i]));
        i = i + 1;
    }
    out
}

/// Whether two targets lists are the same, or are written alike.
fn alike_targets(
    a: &Vec<TargetPath>,
    b: &Vec<TargetPath>,
    paths: &PathInterner,
    tokens: &TokenInterner,
) -> (same: bool)
    requires
        paths.named_by(tokens@),
    ensures
        same == (a@ == b@ || texts_alike(
            target_texts(a@, paths@, tokens@),
            target_texts(b@, paths@, tokens@),
        )),
{
    same_targets(a, b) || same_texts(
        &list_targets(a, paths, tokens),
        &list_targets(b, paths, tokens),
    )
}

/// The value that a resolved value reads as.
fn plain_value(value: &ResolvedValue) -> (out: Option<Value>)
    ensures
        crate::doc::value_option(out) == as_plain(value@),
{
    match value {
        ResolvedValue::Scalar(value) => Some(value.copy()),
        ResolvedValue::Dictionary(entries) => Some(Value::Dictionary(copy_entries(entries))),
        ResolvedValue::ValueList(items) => Some(Value::Array(copy_values(items))),
        ResolvedValue::TokenList(_) => None,
        ResolvedValue::PathList(_) => None,
    }
}

/// Whether a resolved value is a list, or an array, without items.
fn empty_list(value: &ResolvedValue) -> (yes: bool)
    ensures
        yes == is_empty_list(value@),
{
    match value {
        ResolvedValue::TokenList(items) => items.len() == 0,
        ResolvedValue::PathList(items) => items.len() == 0,
        ResolvedValue::ValueList(items) => {
            proof {
                crate::doc::lemma_values_view(items@);
            }
            items.len() == 0
        },
        ResolvedValue::Scalar(Value::Array(items)) => {
            proof {
                crate::doc::lemma_values_view(items@);
            }
            items.len() == 0
        },
        _ => false,
    }
}

/// Whether two resolved values read alike.
fn same_resolved(
    a: &ResolvedValue,
    b: &ResolvedValue,
    paths: &PathInterner,
    tokens: &TokenInterner,
) -> (same: bool)
    requires
        paths.named_by(tokens@),
    ensures
        same == resolved_alike(a@, b@, paths@, tokens@),
{
    if empty_list(a) && empty_list(b) {
        return true;
    }
    match (plain_value(a), plain_value(b)) {
        (Some(x), Some(y)) => x.alike(&y),
        (None, None) => match (a, b) {
            (ResolvedValue::TokenList(x), ResolvedValue::TokenList(y)) => same_tokens(x, y)
                || same_texts(&list_tokens(x, tokens), &list_tokens(y, tokens)),
            (ResolvedValue::PathList(x), ResolvedValue::PathList(y)) => alike_targets(
                x,
                y,
                paths,
                tokens,
            ),
            (ResolvedValue::TokenList(x), ResolvedValue::PathList(y)) => same_texts(
                &list_tokens(x, tokens),
                &list_targets(y, paths, tokens),
            ),
            (ResolvedValue::PathList(x), ResolvedValue::TokenList(y)) => same_texts(
                &list_targets(x, paths, tokens),
                &list_tokens(y, tokens),
            ),
            _ => false,
        },
        _ => false,
    }
}

/// Whether a token reads as `none`.
fn is_none_text(name: TokenId, tokens: &TokenInterner) -> (yes: bool)
    ensures
        yes == (name_text(name, tokens@) == Some("none"@)),
{
    name.index < tokens.len() && same_text(tokens.resolve(name), "none")
}

/// Whether two declarations read alike.
fn same_declaration(a: &PropertyDeclaration, b: &PropertyDeclaration) -> (same: bool)
    ensures
        same == declarations_alike(a@, b@),
{
    if a.kind != b.kind || a.variability != b.variability || a.custom != b.custom {
        return false;
    }
    match (&a.declared_type, &b.declared_type) {
        (None, None) => true,
        (Some(x), Some(y)) => same_text(x.name.as_str(), y.name.as_str()) && x.is_array
            == y.is_array && x.default_scalar.alike(&y.default_scalar),
        _ => false,
    }
}

impl Seen {
    /// Whether what two stages compose reads alike.
    pub fn alike(&self, other: &Seen, paths: &PathInterner, tokens: &TokenInterner) -> (same: bool)
        requires
            paths.named_by(tokens@),
        ensures
            same == seen_alike(self@, other@, paths@, tokens@),
    {
        match (self, other) {
            (Seen::Absent, Seen::Absent) => true,
            (Seen::Present, Seen::Present) => true,
            (Seen::Specifier(a), Seen::Specifier(b)) => match (a, b) {
                (None, None) => true,
                (Some(x), Some(y)) => *x == *y,
                _ => false,
            },
            (Seen::Label(a), Seen::Label(b)) => match (a, b) {
                (None, None) => true,
                (Some(x), Some(y)) => *x == *y || match (
                    token_words(*x, tokens),
                    token_words(*y, tokens),
                ) {
                    (Some(one), Some(other)) => same_text(one.as_str(), other.as_str()),
                    _ => false,
                },
                (Some(x), None) => is_none_text(*x, tokens),
                (None, Some(y)) => is_none_text(*y, tokens),
            },
            (Seen::Paths(a), Seen::Paths(b)) => {
                let x = prim_targets(a);
                let y = prim_targets(b);
                proof {
                    assert(target_texts(x@, paths@, tokens@) =~= prim_texts(a@, paths@, tokens@));
                    assert(target_texts(y@, paths@, tokens@) =~= prim_texts(b@, paths@, tokens@));
                }
                same_paths(a, b) || same_texts(
                    &list_targets(&x, paths, tokens),
                    &list_targets(&y, paths, tokens),
                )
            },
            (Seen::Flag(a), Seen::Flag(b)) => match (a, b) {
                (None, None) => true,
                (Some(x), Some(y)) => *x == *y,
                _ => false,
            },
            (Seen::Order(a), Seen::Order(b)) => match (a, b) {
                (None, None) => true,
                (Some(x), Some(y)) => same_tokens(x, y),
                _ => false,
            },
            (Seen::Resolved(a), Seen::Resolved(b)) => match (a, b) {
                (None, None) => true,
                (Some(x), Some(y)) => same_resolved(x, y, paths, tokens),
                _ => false,
            },
            (Seen::Declaration(a), Seen::Declaration(b)) => same_declaration(a, b),
            (Seen::Targets(a), Seen::Targets(b)) => alike_targets(a, b, paths, tokens),
            (Seen::Value(a), Seen::Value(b)) => match (a, b) {
                (None, None) => true,
                (Some(x), Some(y)) => x.alike(y),
                _ => false,
            },
            _ => false,
        }
    }
}

// ── What the report says ────────────────────────────────────────────────

/// The asset paths that findings record as anchored at an object.
pub open spec fn anchors_at(findings: Seq<FindingView>, path: Seq<char>) -> Seq<
    (Seq<char>, Seq<char>),
>
    decreases findings.len(),
{
    if findings.len() == 0 {
        seq![]
    } else {
        let earlier = anchors_at(findings.drop_last(), path);
        match findings.last().kind {
            KindView::Transformed(
                TransformationView::AssetPathAnchored { authored, anchored },
            ) => if object_text(findings.last().path) == path {
                earlier.push((authored, anchored))
            } else {
                earlier
            },
            _ => earlier,
        }
    }
}

/// Why an object is not compared: the first loss that findings record of it,
/// but for an asset path that was not anchored.
pub open spec fn skip_at(findings: Seq<FindingView>, path: Seq<char>) -> Option<SkipReason>
    decreases findings.len(),
{
    if findings.len() == 0 {
        None
    } else {
        match skip_at(findings.drop_last(), path) {
            Some(reason) => Some(reason),
            None => match findings.last().kind {
                KindView::Lost(loss) => if loss != Loss::UnanchoredAssetPath && object_text(
                    findings.last().path,
                ) == path {
                    Some(SkipReason::Lost(loss))
                } else {
                    None
                },
                _ => None,
            },
        }
    }
}

/// A declaration as findings record that the layer holds it.
pub open spec fn declared_at(
    findings: Seq<FindingView>,
    path: Seq<char>,
    declaration: DeclarationView,
) -> DeclarationView
    decreases findings.len(),
{
    if findings.len() == 0 {
        declaration
    } else {
        let earlier = declared_at(findings.drop_last(), path, declaration);
        let here = object_text(findings.last().path) == path;
        match findings.last().kind {
            KindView::Transformed(TransformationView::CustomFromWeakestOpinion { custom }) => if here {
                DeclarationView { custom, ..earlier }
            } else {
                earlier
            },
            KindView::Transformed(TransformationView::DefinedBySchema { variability }) => if here {
                DeclarationView { custom: false, variability, ..earlier }
            } else {
                earlier
            },
            _ => earlier,
        }
    }
}

/// Whether a path is that of a prim or lies under it.
pub open spec fn lies_at(prim: Seq<char>, path: Seq<char>) -> bool {
    path == prim || prim.len() < path.len() && path.take(prim.len() as int) == prim
        && path[prim.len() as int] == '/'
}

/// Whether a path is that of one of a list of prims or lies under one.
pub open spec fn among_prototypes(prototypes: Seq<Seq<char>>, path: Seq<char>) -> bool {
    exists|i: int| 0 <= i < prototypes.len() && lies_at(#[trigger] prototypes[i], path)
}

/// A resolved value as the layer should hold it.
pub open spec fn resolved_anchored(
    value: ResolvedView,
    anchors: Seq<(Seq<char>, Seq<char>)>,
) -> ResolvedView {
    match value {
        ResolvedView::Scalar(value) => ResolvedView::Scalar(anchored(value, anchors)),
        ResolvedView::Dictionary(entries) => ResolvedView::Dictionary(
            crate::leaves::entries_rewritten(
                entries,
                crate::flatten::anchored::anchoring(anchors),
            ),
        ),
        _ => value,
    }
}

/// The asset paths that a report records as anchored at an object.
pub fn find_anchors(report: &FlattenReport, path: &str) -> (out: Vec<(String, String)>)
    ensures
        anchors_view(out@) == anchors_at(report@.findings, path@),
{
    let ghost all = report@.findings;
    let mut out: Vec<(String, String)> = Vec::new();
    let mut i: usize = 0;
    assert(all.take(0) =~= seq![]);
    assert(anchors_view(out@) =~= seq![]);
    while i < report.findings.len()
        invariant
            i <= report.findings@.len(),
            all == findings_view(report.findings@),
            anchors_view(out@) == anchors_at(all.take(i as int), path@),
        decreases report.findings@.len() - i,
    {
        let finding = &report.findings[i];
        proof {
            assert(all.take(i + 1).drop_last() =~= all.take(i as int));
            assert(all.take(i + 1).last() == finding@);
        }
        match &finding.kind {
            FindingKind::Transformed(
                Transformation::AssetPathAnchored { authored, anchored },
            ) => {
                let at = finding.path.display();
                if same_text(at.as_str(), path) {
                    let ghost had = out@;
                    let pair = (text(authored.as_str()), text(anchored.as_str()));
                    out.push(pair);
                    assert(anchors_view(out@) =~= anchors_view(had).push((pair.0@, pair.1@)));
                }
            },
            _ => {},
        }
        i = i + 1;
    }
    assert(all.take(i as int) =~= all);
    out
}

/// Why an object is not compared.
pub fn skip_reason(report: &FlattenReport, path: &str) -> (out: Option<SkipReason>)
    ensures
        out == skip_at(report@.findings, path@),
{
    let ghost all = report@.findings;
    let mut out: Option<SkipReason> = None;
    let mut i: usize = 0;
    assert(all.take(0) =~= seq![]);
    while i < report.findings.len()
        invariant
            i <= report.findings@.len(),
            all == findings_view(report.findings@),
            out == skip_at(all.take(i as int), path@),
        decreases report.findings@.len() - i,
    {
        let finding = &report.findings[i];
        proof {
            assert(all.take(i + 1).drop_last() =~= all.take(i as int));
            assert(all.take(i + 1).last() == finding@);
        }
        if out.is_none() {
            match &finding.kind {
                FindingKind::Lost(loss) => {
                    let at = finding.path.display();
                    if *loss != Loss::UnanchoredAssetPath && same_text(at.as_str(), path) {
                        out = Some(SkipReason::Lost(*loss));
                    }
                },
                _ => {},
            }
        }
        i = i + 1;
    }
    assert(all.take(i as int) =~= all);
    out
}

/// A declaration as a report records that the layer holds it.
pub fn expected_declaration(
    report: &FlattenReport,
    path: &str,
    declaration: PropertyDeclaration,
) -> (out: PropertyDeclaration)
    ensures
        out@ == declared_at(report@.findings, path@, declaration@),
{
    let ghost all = report@.findings;
    let ghost given = declaration@;
    let mut out = declaration;
    let mut i: usize = 0;
    assert(all.take(0) =~= seq![]);
    while i < report.findings.len()
        invariant
            i <= report.findings@.len(),
            all == findings_view(report.findings@),
            out@ == declared_at(all.take(i as int), path@, given),
        decreases report.findings@.len() - i,
    {
        let finding = &report.findings[i];
        proof {
            assert(all.take(i + 1).drop_last() =~= all.take(i as int));
            assert(all.take(i + 1).last() == finding@);
        }
        match &finding.kind {
            FindingKind::Transformed(Transformation::CustomFromWeakestOpinion { custom }) => {
                let at = finding.path.display();
                if same_text(at.as_str(), path) {
                    out.custom = *custom;
                }
            },
            FindingKind::Transformed(Transformation::DefinedBySchema { variability }) => {
                let at = finding.path.display();
                if same_text(at.as_str(), path) {
                    out.custom = false;
                    out.variability = *variability;
                }
            },
            _ => {},
        }
        i = i + 1;
    }
    assert(all.take(i as int) =~= all);
    out
}

/// Whether a path is that of one of a list of prims or lies under one.
pub fn is_prototype(prototypes: &Vec<String>, path: &str) -> (yes: bool)
    ensures
        yes == among_prototypes(texts(prototypes@), path@),
{
    let ghost all = texts(prototypes@);
    let shown = chars_of(path);
    let mut i: usize = 0;
    while i < prototypes.len()
        invariant
            i <= prototypes@.len(),
            all == texts(prototypes@),
            shown@ == path@,
            forall|k: int| 0 <= k < i ==> !lies_at(#[trigger] all[k], path@),
        decreases prototypes@.len() - i,
    {
        assert(all[i as int] == prototypes@[i as int]@);
        let prim = chars_of(prototypes[i].as_str());
        let mut same = prim.len() <= shown.len();
        let mut k: usize = 0;
        while same && k < prim.len()
            invariant
                k <= prim@.len(),
                same ==> prim@.len() <= shown@.len(),
                same ==> forall|m: int| 0 <= m < k ==> prim@[m] == shown@[m],
                !same ==> !(prim@.len() <= shown@.len() && shown@.take(prim@.len() as int)
                    == prim@),
            decreases prim@.len() - k, same as int,
        {
            if prim[k] != shown[k] {
                same = false;
                assert(shown@.take(prim@.len() as int)[k as int] == shown@[k as int]);
            } else {
                k = k + 1;
            }
        }
        if same {
            assert(shown@.take(prim@.len() as int) =~= prim@);
            if prim.len() == shown.len() {
                assert(shown@.take(prim@.len() as int) =~= shown@);
                assert(lies_at(all[i as int], path@));
                return true;
            }
            if shown[prim.len()] == '/' {
                assert(lies_at(all[i as int], path@));
                return true;
            }
        } else {
            assert(path@ == prim@ ==> shown@.take(prim@.len() as int) =~= prim@);
        }
        i = i + 1;
    }
    false
}

/// A resolved value as the layer should hold it.
pub fn expected_resolved(value: Option<ResolvedValue>, anchors: &Vec<(String, String)>) -> (out:
    Option<ResolvedValue>)
    ensures
        resolved_view(out) == (match resolved_view(value) {
            Some(value) => Some(resolved_anchored(value, anchors_view(anchors@))),
            None => None,
        }),
{
    match value {
        Some(ResolvedValue::Scalar(value)) => Some(
            ResolvedValue::Scalar(anchor_value(&value, anchors)),
        ),
        Some(ResolvedValue::Dictionary(entries)) => {
            let mapped = anchor_value(&Value::Dictionary(entries), anchors);
            match mapped {
                Value::Dictionary(entries) => Some(ResolvedValue::Dictionary(entries)),
                other => Some(ResolvedValue::Scalar(other)),
            }
        },
        other => other,
    }
}

// ── Laws ────────────────────────────────────────────────────────────────

/// What a stage composes reads like itself.
pub proof fn law_seen_reads_like_itself(
    seen: SeenView,
    paths: Seq<Seq<TokenId>>,
    tokens: Seq<Seq<char>>,
)
    ensures
        seen_alike(seen, seen, paths, tokens),
{
    match seen {
        SeenView::Resolved(Some(value)) => match as_plain(value) {
            Some(value) => crate::doc::law_values_read_like_themselves(value),
            None => {},
        },
        SeenView::Declaration(declaration) => match declaration.declared_type {
            Some(declared) => crate::doc::law_values_read_like_themselves(declared.default_scalar),
            None => {},
        },
        SeenView::Value(Some(value)) => crate::doc::law_values_read_like_themselves(value),
        _ => {},
    }
}

} // verus!
