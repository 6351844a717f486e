//! Resolving a chain of opinions, strongest first.

use crate::arrays::{
    applied, array_seed, chain_fits, fill_for, fill_of, fold_array_chain, folded, lemma_fold_load, refs_view,
    seed_of, seed_room, shapes_of, ArrayFold, FoldedArray,
};
use crate::dictionary::{chain_view, combine_dictionary_chain, combined, holds_key, Entries};
use crate::doc::{
    copy_option, entries_view, lemma_values_push, value_option, value_ref, values_view, Value,
    ValueView,
};
use crate::fields::{
    items_view, named, FieldValue, FieldView, ItemView, ListItem, ListKind, ListOp, ListOpView,
    TargetPath,
};
use crate::interner::TokenId;
use crate::lists::{chained, ops_view, resolve_list_chain};
use crate::opinion::{
    default_place, find_default, lemma_default_place, opinions_view, Opinion, OpinionValue, OpinionValueView, OpinionView,
};
use crate::property::{
    type_option, type_ref, PropertyKind, PropertyType, TypeView, Variability,
};
use vstd::prelude::*;

verus! {

// ── Resolved values ─────────────────────────────────────────────────────

/// A resolved field.
#[derive(Debug)]
pub enum ResolvedValue {
    /// The strongest value.
    Scalar(Value),
    /// A list of tokens, chained.
    TokenList(Vec<TokenId>),
    /// A list of targets, chained.
    PathList(Vec<TargetPath>),
    /// A dictionary, combined.
    Dictionary(Vec<(String, Value)>),
    /// A list of strings or integers, chained.
    ValueList(Vec<Value>),
}

/// The mathematical value of a [`ResolvedValue`].
pub enum ResolvedView {
    Scalar(ValueView),
    TokenList(Seq<TokenId>),
    PathList(Seq<TargetPath>),
    Dictionary(Entries),
    ValueList(Seq<ValueView>),
}

impl View for ResolvedValue {
    type V = ResolvedView;

    open spec fn view(&self) -> ResolvedView {
        match self {
            ResolvedValue::Scalar(value) => ResolvedView::Scalar(value.view()),
            ResolvedValue::TokenList(items) => ResolvedView::TokenList(items@),
            ResolvedValue::PathList(items) => ResolvedView::PathList(items@),
            ResolvedValue::Dictionary(entries) => ResolvedView::Dictionary(entries_view(entries@)),
            ResolvedValue::ValueList(items) => ResolvedView::ValueList(values_view(items@)),
        }
    }
}

/// The tokens among a list of items.
pub open spec fn tokens_among(items: Seq<ItemView>) -> Seq<TokenId>
    decreases items.len(),
{
    if items.len() == 0 {
        seq![]
    } else {
        match items.last() {
            ItemView::Token(token) => tokens_among(items.drop_last()).push(token),
            _ => tokens_among(items.drop_last()),
        }
    }
}

/// The targets among a list of items.
pub open spec fn targets_among(items: Seq<ItemView>) -> Seq<TargetPath>
    decreases items.len(),
{
    if items.len() == 0 {
        seq![]
    } else {
        match items.last() {
            ItemView::Target(target) => targets_among(items.drop_last()).push(target),
            _ => targets_among(items.drop_last()),
        }
    }
}

/// The value of an item of a list of strings or integers.
pub open spec fn item_value(item: ItemView) -> Option<ValueView> {
    match item {
        ItemView::Text(text) => Some(ValueView::Text(text)),
        ItemView::Int(n) => Some(ValueView::Int(n)),
        ItemView::UInt(n) => Some(ValueView::UInt(n)),
        ItemView::Int64(n) => Some(ValueView::Int64(n)),
        ItemView::UInt64(n) => Some(ValueView::UInt64(n)),
        _ => None,
    }
}

/// The strings and integers among a list of items.
pub open spec fn values_among(items: Seq<ItemView>) -> Seq<ValueView>
    decreases items.len(),
{
    if items.len() == 0 {
        seq![]
    } else {
        match item_value(items.last()) {
            Some(value) => values_among(items.drop_last()).push(value),
            None => values_among(items.drop_last()),
        }
    }
}

/// The tokens among a list of items.
pub fn token_items(items: &Vec<ListItem>) -> (out: Vec<TokenId>)
    ensures
        out@ == tokens_among(items_view(items@)),
{
    let ghost all = items_view(items@);
    let mut out: Vec<TokenId> = Vec::new();
    let mut i: usize = 0;
    assert(all.take(0) =~= seq![]);
    while i < items.len()
        invariant
            i <= items@.len(),
            all == items_view(items@),
            out@ == tokens_among(all.take(i as int)),
        decreases items@.len() - i,
    {
        assert(all.take(i + 1).drop_last() =~= all.take(i as int));
        assert(all[i as int] == items@[i as int]@);
        match &items[i] {
            ListItem::Token(token) => {
                out.push(*token);
            },
            _ => {},
        }
        i = i + 1;
    }
    assert(all.take(i as int) =~= all);
    out
}

/// The targets among a list of items.
pub fn target_items(items: &Vec<ListItem>) -> (out: Vec<TargetPath>)
    ensures
        out@ == targets_among(items_view(items@)),
{
    let ghost all = items_view(items@);
    let mut out: Vec<TargetPath> = Vec::new();
    let mut i: usize = 0;
    assert(all.take(0) =~= seq![]);
    while i < items.len()
        invariant
            i <= items@.len(),
            all == items_view(items@),
            out@ == targets_among(all.take(i as int)),
        decreases items@.len() - i,
    {
        assert(all.take(i + 1).drop_last() =~= all.take(i as int));
        assert(all[i as int] == items@[i as int]@);
        match &items[i] {
            ListItem::Target(target) => {
                out.push(*target);
            },
            _ => {},
        }
        i = i + 1;
    }
    assert(all.take(i as int) =~= all);
    out
}

/// The strings and integers among a list of items.
pub fn value_items(items: &Vec<ListItem>) -> (out: Vec<Value>)
    ensures
        values_view(out@) == values_among(items_view(items@)),
{
    let ghost all = items_view(items@);
    let mut out: Vec<Value> = Vec::new();
    let mut i: usize = 0;
    assert(all.take(0) =~= seq![]);
    while i < items.len()
        invariant
            i <= items@.len(),
            all == items_view(items@),
            values_view(out@) == values_among(all.take(i as int)),
        decreases items@.len() - i,
    {
        assert(all.take(i + 1).drop_last() =~= all.take(i as int));
        assert(all[i as int] == items@[i as int]@);
        let value = match &items[i] {
            ListItem::Text(text) => Some(Value::String(text.clone())),
            ListItem::Int(n) => Some(Value::Int(*n)),
            ListItem::UInt(n) => Some(Value::UInt(*n)),
            ListItem::Int64(n) => Some(Value::Int64(*n)),
            ListItem::UInt64(n) => Some(Value::UInt64(*n)),
            _ => None,
        };
        match value {
            Some(value) => {
                proof {
                    lemma_values_push(out@, value);
                }
                out.push(value);
            },
            None => {},
        }
        i = i + 1;
    }
    assert(all.take(i as int) =~= all);
    out
}

// ── Lists ───────────────────────────────────────────────────────────────

/// The list edits of one kind among a list of fields.
pub open spec fn edits_of(fields: Seq<FieldView>, kind: ListKind) -> Seq<ListOpView>
    decreases fields.len(),
{
    if fields.len() == 0 {
        seq![]
    } else {
        let before = edits_of(fields.drop_last(), kind);
        match fields.last() {
            FieldView::List(found, op) => if found == kind {
                before.push(op)
            } else {
                before
            },
            FieldView::Value(_) => before,
        }
    }
}

/// What the items of a chained list resolve to.
pub open spec fn resolved_items(kind: ListKind, items: Seq<ItemView>) -> ResolvedView {
    match kind {
        ListKind::Tokens => ResolvedView::TokenList(tokens_among(items)),
        ListKind::Targets => ResolvedView::PathList(targets_among(items)),
        _ => ResolvedView::ValueList(values_among(items)),
    }
}

/// The chain of the list edits of one kind, strongest first. Edits of another
/// kind are skipped.
pub open spec fn resolved_list(fields: Seq<FieldView>, kind: ListKind) -> ResolvedView {
    resolved_items(kind, chained(edits_of(fields, kind)))
}

/// The views of a list of borrowed fields.
pub open spec fn field_refs(fields: Seq<&FieldValue>) -> Seq<FieldView> {
    fields.map_values(|f: &FieldValue| f@)
}

/// Chains the list edits of one kind, strongest first.
pub fn chain_field_list(kind: ListKind, fields: &Vec<&FieldValue>) -> (out: ResolvedValue)
    ensures
        out@ == resolved_list(field_refs(fields@), kind),
{
    let ghost all = field_refs(fields@);
    let mut ops: Vec<ListOp> = Vec::new();
    let mut i: usize = 0;
    assert(all.take(0) =~= seq![]);
    assert(ops_view(ops@) =~= seq![]);
    while i < fields.len()
        invariant
            i <= fields@.len(),
            all == field_refs(fields@),
            ops_view(ops@) == edits_of(all.take(i as int), kind),
        decreases fields@.len() - i,
    {
        assert(all.take(i + 1).drop_last() =~= all.take(i as int));
        assert(all[i as int] == fields@[i as int]@);
        match fields[i] {
            FieldValue::List(found, op) => {
                if *found == kind {
                    let copy = op.copy();
                    assert(ops_view(ops@.push(copy)) =~= ops_view(ops@).push(copy@));
                    ops.push(copy);
                }
            },
            FieldValue::Value(_) => {},
        }
        i = i + 1;
    }
    assert(all.take(i as int) =~= all);
    let items = resolve_list_chain(&ops);
    match kind {
        ListKind::Tokens => ResolvedValue::TokenList(token_items(&items)),
        ListKind::Targets => ResolvedValue::PathList(target_items(&items)),
        _ => ResolvedValue::ValueList(value_items(&items)),
    }
}

/// The targets that a chain of opinions authors, strongest first.
pub open spec fn target_edits(opinions: Seq<OpinionView>) -> Seq<ListOpView>
    decreases opinions.len(),
{
    if opinions.len() == 0 {
        seq![]
    } else {
        match opinions.last().value.targets() {
            Some(list) => target_edits(opinions.drop_last()).push(list),
            None => target_edits(opinions.drop_last()),
        }
    }
}

/// Whether one of the opinions is a relationship.
pub open spec fn any_relationship(opinions: Seq<OpinionView>) -> bool {
    exists|i: int| 0 <= i < opinions.len() && (#[trigger] opinions[i]).value.is_relationship()
}

/// The place of the strongest opinion that authors targets; the length when
/// there is none.
pub open spec fn targets_place(opinions: Seq<OpinionView>, from: int) -> int
    decreases opinions.len() - from,
{
    if from < 0 || from >= opinions.len() {
        opinions.len() as int
    } else if opinions[from].value.targets() is Some {
        from
    } else {
        targets_place(opinions, from + 1)
    }
}

/// What a query resolves to: the value, and the place of the opinion that it
/// is due to, if one is named.
pub struct Outcome {
    pub value: ResolvedView,
    pub due_to: Option<int>,
}

/// The targets of a chain of opinions: those of every opinion that authors
/// any, chained. Nothing where none does, unless one is a relationship.
pub open spec fn resolved_targets(opinions: Seq<OpinionView>) -> Option<(Seq<TargetPath>, int)> {
    let at = targets_place(opinions, 0);
    if at >= opinions.len() && !any_relationship(opinions) {
        None
    } else {
        Some(
            (
                targets_among(chained(target_edits(opinions))),
                if at < opinions.len() {
                    at
                } else {
                    0
                },
            ),
        )
    }
}

/// The targets of a chain of opinions, none where it has no list of them.
pub open spec fn targets_of(opinions: Seq<OpinionView>) -> Seq<TargetPath> {
    match resolved_targets(opinions) {
        Some((targets, _)) => targets,
        None => seq![],
    }
}

proof fn lemma_targets_distinct(items: Seq<ItemView>)
    requires
        items.no_duplicates(),
    ensures
        targets_among(items).no_duplicates(),
        forall|k: int|
            0 <= k < targets_among(items).len() ==> items.contains(
                ItemView::Target(#[trigger] targets_among(items)[k]),
            ),
    decreases items.len(),
{
    if items.len() > 0 {
        let rest = items.drop_last();
        assert(rest.no_duplicates()) by {
            assert forall|i: int, j: int|
                0 <= i < rest.len() && 0 <= j < rest.len() && i != j implies rest[i] != rest[j] by {
                assert(items[i] != items[j]);
            }
        }
        lemma_targets_distinct(rest);
        let earlier = targets_among(rest);
        assert forall|k: int| 0 <= k < earlier.len() implies items.contains(
            ItemView::Target(#[trigger] earlier[k]),
        ) && ItemView::Target(earlier[k]) != items.last() by {
            let at = choose|at: int|
                0 <= at < rest.len() && #[trigger] rest[at] == ItemView::Target(earlier[k]);
            assert(items[at] == rest[at]);
            assert(items[at] != items[items.len() - 1]);
        }
        assert(items.contains(items.last())) by {
            assert(items[items.len() - 1] == items.last());
        }
    }
}

/// The targets of a list of nothing else are all of it.
pub proof fn lemma_targets_of_targets(targets: Seq<TargetPath>)
    ensures
        targets_among(targets.map_values(|target: TargetPath| ItemView::Target(target)))
            == targets,
    decreases targets.len(),
{
    let items = targets.map_values(|target: TargetPath| ItemView::Target(target));
    if targets.len() > 0 {
        let rest = targets.drop_last();
        lemma_targets_of_targets(rest);
        assert(items.drop_last() =~= rest.map_values(
            |target: TargetPath| ItemView::Target(target),
        ));
        assert(rest.push(targets.last()) =~= targets);
    }
}

/// Resolves the targets of a chain of opinions.
pub fn resolve_targets(opinions: &Vec<Opinion>) -> (out: Option<(Vec<TargetPath>, usize)>)
    ensures
        (match out {
            Some((targets, at)) => Some((targets@, at as int)),
            None => None,
        }) == resolved_targets(opinions_view(opinions@)),
        out matches Some((_, at)) ==> at < opinions@.len(),
        out matches Some((targets, _)) ==> targets@.no_duplicates(),
{
    let ghost all = opinions_view(opinions@);
    let mut ops: Vec<ListOp> = Vec::new();
    let mut strongest: Option<usize> = None;
    let mut is_relationship = false;
    let mut i: usize = 0;
    assert(all.take(0) =~= seq![]);
    assert(ops_view(ops@) =~= seq![]);
    while i < opinions.len()
        invariant
            i <= opinions@.len(),
            all == opinions_view(opinions@),
            ops_view(ops@) == target_edits(all.take(i as int)),
            is_relationship == any_relationship(all.take(i as int)),
            match strongest {
                Some(at) => at < i && targets_place(all, 0) == at,
                None => targets_place(all, 0) == targets_place(all, i as int),
            },
        decreases opinions@.len() - i,
    {
        let opinion = &opinions[i];
        proof {
            assert(all.take(i + 1).drop_last() =~= all.take(i as int));
            assert(all[i as int] == opinion@);
            let part = all.take(i as int);
            let next = all.take(i + 1);
            if any_relationship(part) {
                let k = choose|k: int|
                    0 <= k < part.len() && (#[trigger] part[k]).value.is_relationship();
                assert(next[k] == part[k]);
            }
            if any_relationship(next) {
                let k = choose|k: int|
                    0 <= k < next.len() && (#[trigger] next[k]).value.is_relationship();
                if k < i {
                    assert(part[k] == next[k]);
                }
            }
            assert(next[i as int] == opinion@);
        }
        match opinion.value.targets() {
            Some(list) => {
                if strongest.is_none() {
                    strongest = Some(i);
                }
                let copy = list.copy();
                assert(ops_view(ops@.push(copy)) =~= ops_view(ops@).push(copy@));
                ops.push(copy);
            },
            None => {},
        }
        if opinion.value.is_relationship() {
            is_relationship = true;
        }
        i = i + 1;
    }
    assert(all.take(i as int) =~= all);
    if strongest.is_none() && !is_relationship {
        return None;
    }
    let items = resolve_list_chain(&ops);
    proof {
        lemma_targets_distinct(items_view(items@));
    }
    let targets = target_items(&items);
    match strongest {
        Some(at) => Some((targets, at)),
        None => Some((targets, 0)),
    }
}

// ── Defaults ────────────────────────────────────────────────────────────

/// The dictionaries that combine: every default that is one, stronger than the
/// strongest block, from `from` on.
pub open spec fn dictionary_defaults(opinions: Seq<OpinionView>, from: int) -> Seq<Entries>
    decreases opinions.len() - from,
{
    if from < 0 || from >= opinions.len() {
        seq![]
    } else {
        match opinions[from].value.default_value() {
            Some(ValueView::Blocked) => seq![],
            Some(ValueView::Dictionary(entries)) => seq![entries] + dictionary_defaults(
                opinions,
                from + 1,
            ),
            _ => dictionary_defaults(opinions, from + 1),
        }
    }
}

/// The fallback's entries, where it is a dictionary.
pub open spec fn fallback_entries(fallback: Option<ValueView>) -> Seq<Entries> {
    match fallback {
        Some(ValueView::Dictionary(entries)) => seq![entries],
        _ => seq![],
    }
}

/// Combines the dictionaries of a chain of opinions, over the fallback.
pub fn resolve_dictionary_chain(opinions: &Vec<Opinion>, fallback: Option<&Value>) -> (out: Vec<
    (String, Value),
>)
    ensures
        entries_view(out@) == combined(
            dictionary_defaults(opinions_view(opinions@), 0) + fallback_entries(
                value_ref(fallback),
            ),
        ),
{
    let ghost all = opinions_view(opinions@);
    let ghost expected = dictionary_defaults(all, 0);
    let mut chain: Vec<&Vec<(String, Value)>> = Vec::new();
    let mut i: usize = 0;
    let mut open = true;
    assert(chain_view(chain@) + dictionary_defaults(all, 0) =~= expected);
    while open && i < opinions.len()
        invariant
            i <= opinions@.len(),
            all == opinions_view(opinions@),
            open ==> expected == chain_view(chain@) + dictionary_defaults(all, i as int),
            !open ==> expected == chain_view(chain@),
        decreases opinions@.len() - i, open as int,
    {
        assert(all[i as int] == opinions@[i as int]@);
        match opinions[i].value.default_value() {
            Some(Value::Blocked) => {
                open = false;
                assert(expected =~= chain_view(chain@));
            },
            Some(Value::Dictionary(entries)) => {
                let ghost had = chain@;
                chain.push(entries);
                assert(chain_view(chain@) =~= chain_view(had).push(entries_view(entries@)));
                assert(expected =~= chain_view(chain@) + dictionary_defaults(all, i + 1));
                i = i + 1;
            },
            _ => {
                i = i + 1;
            },
        }
    }
    assert(expected =~= chain_view(chain@));
    match fallback {
        Some(Value::Dictionary(entries)) => {
            let ghost had = chain@;
            chain.push(entries);
            assert(chain_view(chain@) =~= chain_view(had) + seq![entries_view(entries@)]);
        },
        _ => {
            assert(expected + seq![] =~= expected);
        },
    }
    combine_dictionary_chain(&chain)
}

/// What resolving sparse values comes to.
#[derive(Debug)]
pub enum SparseResolveResult {
    /// No array takes part.
    NotApplicable,
    /// A block suppressed the value.
    Blocked,
    /// A dense value.
    Resolved(Value),
}

/// The mathematical value of a [`SparseResolveResult`].
pub enum SparseView {
    NotApplicable,
    Blocked,
    Resolved(ValueView),
}

impl View for SparseResolveResult {
    type V = SparseView;

    open spec fn view(&self) -> SparseView {
        match self {
            SparseResolveResult::NotApplicable => SparseView::NotApplicable,
            SparseResolveResult::Blocked => SparseView::Blocked,
            SparseResolveResult::Resolved(value) => SparseView::Resolved(value.view()),
        }
    }
}

/// Whether a value is an array or an edit of one.
pub open spec fn is_array_value(value: ValueView) -> bool {
    value is Array || value is ArrayEdit
}

/// The defaults that fold: the arrays, edits and blocks from `from` on, up to
/// the first default of another kind.
pub open spec fn array_defaults(opinions: Seq<OpinionView>, from: int) -> Seq<ValueView>
    decreases opinions.len() - from,
{
    if from < 0 || from >= opinions.len() {
        seq![]
    } else {
        match opinions[from].value.default_value() {
            None => array_defaults(opinions, from + 1),
            Some(value) => if is_array_value(value) || value is Blocked {
                seq![value] + array_defaults(opinions, from + 1)
            } else {
                seq![]
            },
        }
    }
}

/// The strongest default, else the fallback.
pub open spec fn leading_value(
    opinions: Seq<OpinionView>,
    fallback: Option<ValueView>,
) -> Option<ValueView> {
    let at = default_place(opinions, 0);
    if at < opinions.len() {
        opinions[at].value.default_value()
    } else {
        fallback
    }
}

/// The default of an array attribute: its defaults fold, over the fallback.
pub open spec fn sparse_default(
    opinions: Seq<OpinionView>,
    fallback: Option<ValueView>,
    fill: Option<ValueView>,
) -> SparseView {
    match leading_value(opinions, fallback) {
        None => SparseView::NotApplicable,
        Some(leading) => {
            if !is_array_value(leading) {
                SparseView::NotApplicable
            } else {
                let seed = array_seed(fallback, fill);
                match folded(array_defaults(opinions, 0), 0, None, seed, fill) {
                    ArrayFold::Items(items) => SparseView::Resolved(ValueView::Array(items)),
                    ArrayFold::Blocked => SparseView::Blocked,
                    ArrayFold::Absent => if fallback is Some {
                        SparseView::Resolved(ValueView::Array(seed))
                    } else {
                        SparseView::NotApplicable
                    },
                }
            }
        },
    }
}

/// Whether the default of an array attribute composes in memory: only the
/// members that its fold visits take room.
pub open spec fn default_fits(
    opinions: Seq<OpinionView>,
    fallback: Option<ValueView>,
    filled: bool,
) -> bool {
    leading_value(opinions, fallback) matches Some(leading) ==> is_array_value(leading)
        ==> chain_fits(array_defaults(opinions, 0), fallback, filled)
}

/// The defaults that fold.
pub fn gather_defaults(opinions: &Vec<Opinion>) -> (chain: Vec<&Value>)
    ensures
        refs_view(chain@) == array_defaults(opinions_view(opinions@), 0),
{
    let ghost all = opinions_view(opinions@);
    let ghost expected = array_defaults(all, 0);
    let mut chain: Vec<&Value> = Vec::new();
    let mut i: usize = 0;
    let mut open = true;
    assert(refs_view(chain@) + array_defaults(all, 0) =~= expected);
    while open && i < opinions.len()
        invariant
            i <= opinions@.len(),
            all == opinions_view(opinions@),
            open ==> expected == refs_view(chain@) + array_defaults(all, i as int),
            !open ==> expected == refs_view(chain@),
        decreases opinions@.len() - i, open as int,
    {
        assert(all[i as int] == opinions@[i as int]@);
        match opinions[i].value.default_value() {
            None => {
                i = i + 1;
            },
            Some(value) => {
                let folds = match value {
                    Value::Array(_) => true,
                    Value::ArrayEdit(_) => true,
                    Value::Blocked => true,
                    _ => false,
                };
                if folds {
                    let ghost had = chain@;
                    chain.push(value);
                    assert(refs_view(chain@) =~= refs_view(had).push(value.view()));
                    assert(expected =~= refs_view(chain@) + array_defaults(all, i + 1));
                    i = i + 1;
                } else {
                    open = false;
                    assert(expected =~= refs_view(chain@));
                }
            },
        }
    }
    assert(expected =~= refs_view(chain@));
    chain
}

/// Whether the strongest default, else the fallback, is an array.
pub fn leads_with_array(opinions: &Vec<Opinion>, fallback: Option<&Value>) -> (yes: bool)
    ensures
        yes == (leading_value(opinions_view(opinions@), value_ref(fallback)) matches Some(leading)
            && is_array_value(leading)),
{
    let ghost all = opinions_view(opinions@);
    let at = find_default(opinions);
    let leading = if at < opinions.len() {
        opinions[at].value.default_value()
    } else {
        fallback
    };
    proof {
        lemma_default_place(all, 0);
        if at < opinions@.len() {
            assert(all[at as int] == opinions@[at as int]@);
        }
        assert(value_ref(leading) == leading_value(all, value_ref(fallback)));
    }
    match leading {
        Some(Value::Array(_)) => true,
        Some(Value::ArrayEdit(_)) => true,
        _ => false,
    }
}

/// Resolves the default of an array attribute.
pub fn resolve_sparse_default(
    opinions: &Vec<Opinion>,
    fallback: Option<&Value>,
    fill: &Option<Value>,
) -> (out: SparseResolveResult)
    requires
        default_fits(opinions_view(opinions@), value_ref(fallback), fill is Some),
    ensures
        out@ == sparse_default(
            opinions_view(opinions@),
            value_ref(fallback),
            value_option(*fill),
        ),
{
    if !leads_with_array(opinions, fallback) {
        return SparseResolveResult::NotApplicable;
    }
    let chain = gather_defaults(opinions);
    let seed = seed_of(fallback, fill);
    proof {
        lemma_fold_load(
            shapes_of(refs_view(chain@), fill is Some),
            0,
            None,
            seed@.len(),
            seed_room(value_ref(fallback), fill is Some),
        );
    }
    match fold_array_chain(&chain, &seed, fill) {
        FoldedArray::Items(items) => SparseResolveResult::Resolved(Value::Array(items)),
        FoldedArray::Blocked => SparseResolveResult::Blocked,
        FoldedArray::Absent => {
            if fallback.is_some() {
                SparseResolveResult::Resolved(Value::Array(seed))
            } else {
                SparseResolveResult::NotApplicable
            }
        },
    }
}

/// Why a fold of path expressions stopped.
#[derive(Clone, Copy, Debug, PartialEq, Eq, Structural)]
pub enum Stop {
    /// A block.
    Block,
    /// A value that is no path expression.
    Incompatible,
}

/// What the path expressions of a chain compose to: each that refers to the
/// next weaker one composes over it.
#[derive(Debug)]
pub struct ExpressionFold {
    /// The composed expression.
    pub value: Option<Value>,
    /// The places of the opinions that contributed, strongest first; none for
    /// the fallback.
    pub contributors: Vec<Option<usize>>,
    /// Where the fold stopped, and why.
    pub stopped_at: Option<(Option<usize>, Stop)>,
}

/// The mathematical value of an [`ExpressionFold`].
pub struct FoldView {
    pub value: Option<ValueView>,
    pub contributors: Seq<Option<usize>>,
    pub stopped_at: Option<(Option<usize>, Stop)>,
}

impl View for ExpressionFold {
    type V = FoldView;

    open spec fn view(&self) -> FoldView {
        FoldView {
            value: value_option(self.value),
            contributors: self.contributors@,
            stopped_at: self.stopped_at,
        }
    }
}

/// The view of an optional borrowed fold.
pub open spec fn fold_ref(fold: Option<&ExpressionFold>) -> Option<FoldView> {
    match fold {
        Some(fold) => Some(fold@),
        None => None,
    }
}

/// The default-time value of a chain of opinions, over a fallback: composed
/// path expressions, else composed arrays, else the strongest default, where
/// dictionaries combine and a block is no value.
pub open spec fn resolved_default(
    opinions: Seq<OpinionView>,
    fold: Option<FoldView>,
    fill: Option<ValueView>,
    fallback: Option<ValueView>,
) -> Option<Outcome> {
    let at = default_place(opinions, 0);
    let due_to = if at < opinions.len() {
        Some(at)
    } else {
        None
    };
    match fold {
        Some(fold) => match fold.value {
            Some(value) => Some(Outcome { value: ResolvedView::Scalar(value), due_to }),
            None => None,
        },
        None => match sparse_default(opinions, fallback, fill) {
            SparseView::Resolved(value) => Some(
                Outcome { value: ResolvedView::Scalar(value), due_to },
            ),
            SparseView::Blocked => None,
            SparseView::NotApplicable => if at >= opinions.len() {
                None
            } else {
                match opinions[at].value.default_value() {
                    Some(ValueView::Blocked) => None,
                    Some(ValueView::Dictionary(_)) => Some(
                        Outcome {
                            value: ResolvedView::Dictionary(
                                combined(
                                    dictionary_defaults(opinions, 0) + fallback_entries(
                                        fallback,
                                    ),
                                ),
                            ),
                            due_to,
                        },
                    ),
                    Some(value) => Some(Outcome { value: ResolvedView::Scalar(value), due_to }),
                    None => None,
                }
            },
        },
    }
}

/// The view of what a query resolves to.
pub open spec fn outcome_view(out: Option<(ResolvedValue, Option<usize>)>) -> Option<Outcome> {
    match out {
        Some((value, due_to)) => Some(
            Outcome {
                value: value@,
                due_to: match due_to {
                    Some(at) => Some(at as int),
                    None => None,
                },
            },
        ),
        None => None,
    }
}

/// Whether the place that a value is due to is that of an opinion.
pub open spec fn due_in(out: Option<(ResolvedValue, Option<usize>)>, count: nat) -> bool {
    out matches Some((_, Some(at))) ==> at < count
}

/// Resolves the default-time value of a chain of opinions, over a fallback.
pub fn resolve_default(
    opinions: &Vec<Opinion>,
    fold: Option<&ExpressionFold>,
    property_type: Option<&PropertyType>,
    fallback: Option<&Value>,
) -> (out: Option<(ResolvedValue, Option<usize>)>)
    requires
        default_fits(
            opinions_view(opinions@),
            value_ref(fallback),
            fill_of(type_ref(property_type)) is Some,
        ),
    ensures
        outcome_view(out) == resolved_default(
            opinions_view(opinions@),
            fold_ref(fold),
            fill_of(type_ref(property_type)),
            value_ref(fallback),
        ),
        due_in(out, opinions@.len()),
{
    let ghost all = opinions_view(opinions@);
    let at = find_default(opinions);
    let due_to = if at < opinions.len() {
        Some(at)
    } else {
        None
    };
    match fold {
        Some(fold) => {
            return match &fold.value {
                Some(value) => Some((ResolvedValue::Scalar(value.copy()), due_to)),
                None => None,
            };
        },
        None => {},
    }
    let fill = fill_for(property_type);
    match resolve_sparse_default(opinions, fallback, &fill) {
        SparseResolveResult::Resolved(value) => {
            return Some((ResolvedValue::Scalar(value), due_to));
        },
        SparseResolveResult::Blocked => {
            return None;
        },
        SparseResolveResult::NotApplicable => {},
    }
    if at >= opinions.len() {
        return None;
    }
    assert(all[at as int] == opinions@[at as int]@);
    match opinions[at].value.default_value() {
        Some(Value::Blocked) => None,
        Some(Value::Dictionary(_)) => Some(
            (ResolvedValue::Dictionary(resolve_dictionary_chain(opinions, fallback)), due_to),
        ),
        Some(value) => Some((ResolvedValue::Scalar(value.copy()), due_to)),
        None => None,
    }
}

/// The fields among a chain of opinions.
pub open spec fn fields_among(opinions: Seq<OpinionView>) -> Seq<FieldView>
    decreases opinions.len(),
{
    if opinions.len() == 0 {
        seq![]
    } else {
        match opinions.last().value {
            OpinionValueView::Field(field) => fields_among(opinions.drop_last()).push(field),
            OpinionValueView::Property(_) => fields_among(opinions.drop_last()),
        }
    }
}

/// The fields among a chain of opinions.
pub fn opinion_fields(opinions: &Vec<Opinion>) -> (out: Vec<&FieldValue>)
    ensures
        field_refs(out@) == fields_among(opinions_view(opinions@)),
{
    let ghost all = opinions_view(opinions@);
    let mut out: Vec<&FieldValue> = Vec::new();
    let mut i: usize = 0;
    assert(all.take(0) =~= seq![]);
    assert(field_refs(out@) =~= seq![]);
    while i < opinions.len()
        invariant
            i <= opinions@.len(),
            all == opinions_view(opinions@),
            field_refs(out@) == fields_among(all.take(i as int)),
        decreases opinions@.len() - i,
    {
        assert(all.take(i + 1).drop_last() =~= all.take(i as int));
        assert(all[i as int] == opinions@[i as int]@);
        match &opinions[i].value {
            OpinionValue::Field(field) => {
                let ghost had = out@;
                out.push(field);
                assert(field_refs(out@) =~= field_refs(had).push(field@));
            },
            OpinionValue::Property(_) => {},
        }
        i = i + 1;
    }
    assert(all.take(i as int) =~= all);
    out
}

/// The value of a chain of opinions at the default time: the targets of a
/// relationship, the chained list of a list field, else the default.
pub open spec fn resolved_value(
    opinions: Seq<OpinionView>,
    fold: Option<FoldView>,
    fill: Option<ValueView>,
) -> Option<Outcome> {
    if opinions.len() == 0 {
        None
    } else {
        match opinions[0].value {
            OpinionValueView::Field(FieldView::List(kind, _)) => if kind == ListKind::Targets {
                targets_outcome(opinions)
            } else {
                Some(
                    Outcome {
                        value: resolved_list(fields_among(opinions), kind),
                        due_to: Some(0),
                    },
                )
            },
            value => if value.is_relationship() {
                targets_outcome(opinions)
            } else {
                resolved_default(opinions, fold, fill, None)
            },
        }
    }
}

/// The targets of a chain of opinions, as what a query resolves to.
pub open spec fn targets_outcome(opinions: Seq<OpinionView>) -> Option<Outcome> {
    match resolved_targets(opinions) {
        Some((targets, at)) => Some(
            Outcome { value: ResolvedView::PathList(targets), due_to: Some(at) },
        ),
        None => None,
    }
}

/// Resolves the value of a chain of opinions at the default time.
pub fn resolve_value(
    opinions: &Vec<Opinion>,
    fold: Option<&ExpressionFold>,
    property_type: Option<&PropertyType>,
) -> (out: Option<(ResolvedValue, Option<usize>)>)
    requires
        default_fits(
            opinions_view(opinions@),
            None,
            fill_of(type_ref(property_type)) is Some,
        ),
    ensures
        outcome_view(out) == resolved_value(
            opinions_view(opinions@),
            fold_ref(fold),
            fill_of(type_ref(property_type)),
        ),
        due_in(out, opinions@.len()),
{
    if opinions.len() == 0 {
        return None;
    }
    assert(opinions_view(opinions@)[0] == opinions@[0]@);
    let strongest = &opinions[0];
    let mut has_targets = strongest.value.is_relationship();
    match &strongest.value {
        OpinionValue::Field(FieldValue::List(kind, _)) => {
            if *kind == ListKind::Targets {
                has_targets = true;
            } else {
                let fields = opinion_fields(opinions);
                return Some((chain_field_list(*kind, &fields), Some(0)));
            }
        },
        _ => {},
    }
    if has_targets {
        return match resolve_targets(opinions) {
            Some((targets, at)) => Some((ResolvedValue::PathList(targets), Some(at))),
            None => None,
        };
    }
    resolve_default(opinions, fold, property_type, None)
}

// ── Times ───────────────────────────────────────────────────────────────

/// A value, unless it is a block.
pub open spec fn unblocked(value: Option<ValueView>) -> Option<ValueView> {
    match value {
        Some(ValueView::Blocked) => None,
        _ => value,
    }
}

/// What an opinion offers at a time, where `reading` is what its samples or
/// its spline evaluate to: nothing where it authors no value, and no value for
/// a block, which hides every weaker opinion.
pub open spec fn offered(opinion: OpinionView, reading: Option<ValueView>) -> Option<
    Option<ValueView>,
> {
    if opinion.value.time_samples() is Some || opinion.value.spline() is Some {
        Some(unblocked(reading))
    } else {
        match opinion.value.default_value() {
            Some(value) => Some(unblocked(Some(value))),
            None => None,
        }
    }
}

/// What an opinion offers at a time.
pub fn value_at_time(opinion: &Opinion, reading: &Option<Value>) -> (out: Option<Option<Value>>)
    ensures
        (match out {
            Some(value) => Some(value_option(value)),
            None => None,
        }) == offered(opinion@, value_option(*reading)),
{
    let value = if opinion.value.time_samples().is_some() || opinion.value.spline().is_some() {
        copy_option(reading)
    } else {
        match opinion.value.default_value() {
            Some(value) => Some(value.copy()),
            None => {
                return None;
            },
        }
    };
    match value {
        Some(Value::Blocked) => Some(None),
        value => Some(value),
    }
}

/// The views of a list of readings.
pub open spec fn readings_view(readings: Seq<Option<Value>>) -> Seq<Option<ValueView>> {
    readings.map_values(|r: Option<Value>| value_option(r))
}

/// The place of the strongest opinion that offers something, from `from` on;
/// the length when there is none.
pub open spec fn offer_place(
    opinions: Seq<OpinionView>,
    readings: Seq<Option<ValueView>>,
    from: int,
) -> int
    decreases opinions.len() - from,
{
    if from < 0 || from >= opinions.len() {
        opinions.len() as int
    } else if offered(opinions[from], readings[from]) is Some {
        from
    } else {
        offer_place(opinions, readings, from + 1)
    }
}

/// The value of a chain of opinions at a time: composed path expressions, else
/// composed arrays, else what the strongest opinion offers.
pub open spec fn resolved_at_time(
    opinions: Seq<OpinionView>,
    fold: Option<FoldView>,
    arrays: SparseView,
    readings: Seq<Option<ValueView>>,
) -> Option<(ValueView, Option<int>)> {
    match fold {
        Some(fold) => match fold.value {
            Some(value) => Some(
                (
                    value,
                    if fold.contributors.len() > 0 && fold.contributors[0] is Some {
                        Some(fold.contributors[0]->0 as int)
                    } else {
                        None
                    },
                ),
            ),
            None => None,
        },
        None => match arrays {
            SparseView::Resolved(value) => if opinions.len() > 0 {
                Some((value, Some(0)))
            } else {
                None
            },
            SparseView::Blocked => None,
            SparseView::NotApplicable => {
                let at = offer_place(opinions, readings, 0);
                if at >= opinions.len() {
                    None
                } else {
                    match offered(opinions[at], readings[at])->0 {
                        Some(value) => Some((value, Some(at))),
                        None => None,
                    }
                }
            },
        },
    }
}

/// Resolves the value of a chain of opinions at a time, where `arrays` is what
/// its arrays compose to there, and `readings` what the samples or the spline
/// of each opinion evaluate to.
pub fn resolve_at_time(
    opinions: &Vec<Opinion>,
    fold: Option<&ExpressionFold>,
    arrays: SparseResolveResult,
    readings: &Vec<Option<Value>>,
) -> (out: Option<(Value, Option<usize>)>)
    requires
        readings@.len() == opinions@.len(),
    ensures
        (match out {
            Some((value, due_to)) => Some(
                (
                    value.view(),
                    match due_to {
                        Some(at) => Some(at as int),
                        None => None,
                    },
                ),
            ),
            None => None,
        }) == resolved_at_time(
            opinions_view(opinions@),
            fold_ref(fold),
            arrays@,
            readings_view(readings@),
        ),
{
    let ghost all = opinions_view(opinions@);
    let ghost shown = readings_view(readings@);
    match fold {
        Some(fold) => {
            return match &fold.value {
                Some(value) => {
                    let strongest = if fold.contributors.len() > 0 {
                        fold.contributors[0]
                    } else {
                        None
                    };
                    Some((value.copy(), strongest))
                },
                None => None,
            };
        },
        None => {},
    }
    match arrays {
        SparseResolveResult::Resolved(value) => {
            return if opinions.len() > 0 {
                Some((value, Some(0)))
            } else {
                None
            };
        },
        SparseResolveResult::Blocked => {
            return None;
        },
        SparseResolveResult::NotApplicable => {},
    }
    let mut i: usize = 0;
    while i < opinions.len()
        invariant
            i <= opinions@.len(),
            readings@.len() == opinions@.len(),
            all == opinions_view(opinions@),
            shown == readings_view(readings@),
            fold is None,
            arrays@ is NotApplicable,
            offer_place(all, shown, 0) == offer_place(all, shown, i as int),
        decreases opinions@.len() - i,
    {
        assert(all[i as int] == opinions@[i as int]@);
        assert(shown[i as int] == value_option(readings@[i as int]));
        match value_at_time(&opinions[i], &readings[i]) {
            Some(value) => {
                return match value {
                    Some(value) => Some((value, Some(i))),
                    None => None,
                };
            },
            None => {},
        }
        i = i + 1;
    }
    None
}

/// Whether an opinion makes a time query one of arrays: a sample is an array
/// or an edit, or, without samples, the default is.
pub open spec fn is_array_opinion(opinion: OpinionView) -> bool {
    match opinion.value.time_samples() {
        Some(samples) => holds_array(samples),
        None => opinion.value.default_value() matches Some(value) && is_array_value(value),
    }
}

/// Whether one of a list of samples is an array or an edit.
pub open spec fn holds_array(samples: Seq<(u64, ValueView)>) -> bool {
    exists|i: int| 0 <= i < samples.len() && is_array_value((#[trigger] samples[i]).1)
}

/// Whether a time query is one of arrays.
pub open spec fn is_array_chain(opinions: Seq<OpinionView>) -> bool {
    exists|i: int| 0 <= i < opinions.len() && is_array_opinion(#[trigger] opinions[i])
}

/// Whether a value is an array or an edit of one.
fn array_value(value: &Value) -> (yes: bool)
    ensures
        yes == is_array_value(value.view()),
{
    match value {
        Value::Array(_) => true,
        Value::ArrayEdit(_) => true,
        _ => false,
    }
}

/// Whether a time query over a chain of opinions is one of arrays.
pub fn reads_arrays(opinions: &Vec<Opinion>) -> (yes: bool)
    ensures
        yes == is_array_chain(opinions_view(opinions@)),
{
    let ghost all = opinions_view(opinions@);
    let mut i: usize = 0;
    while i < opinions.len()
        invariant
            i <= opinions@.len(),
            all == opinions_view(opinions@),
            forall|k: int| 0 <= k < i ==> !is_array_opinion(#[trigger] all[k]),
        decreases opinions@.len() - i,
    {
        assert(all[i as int] == opinions@[i as int]@);
        let found = match opinions[i].value.time_samples() {
            Some(samples) => {
                let ghost shown = crate::property::samples_view(samples@);
                let mut found = false;
                let mut k: usize = 0;
                while k < samples.len()
                    invariant
                        k <= samples@.len(),
                        shown == crate::property::samples_view(samples@),
                        !found ==> forall|m: int|
                            0 <= m < k ==> !is_array_value((#[trigger] shown[m]).1),
                        found ==> holds_array(shown),
                    decreases samples@.len() - k,
                {
                    if array_value(&samples[k].1) {
                        assert(is_array_value(shown[k as int].1));
                        found = true;
                    }
                    k = k + 1;
                }
                found
            },
            None => match opinions[i].value.default_value() {
                Some(value) => array_value(value),
                None => false,
            },
        };
        if found {
            assert(is_array_opinion(all[i as int]));
            return true;
        }
        i = i + 1;
    }
    false
}

// ── Property metadata and declarations ──────────────────────────────────

/// The field `key` of the property that an opinion authors.
pub open spec fn metadata_field(opinion: OpinionView, key: TokenId) -> Option<FieldView> {
    match opinion.value {
        OpinionValueView::Property(spec) => named(spec.metadata, key),
        OpinionValueView::Field(_) => None,
    }
}

/// The place of the strongest opinion that authors the metadata field `key`,
/// from `from` on; the length when there is none.
pub open spec fn metadata_place(opinions: Seq<OpinionView>, key: TokenId, from: int) -> int
    decreases opinions.len() - from,
{
    if from < 0 || from >= opinions.len() {
        opinions.len() as int
    } else if metadata_field(opinions[from], key) is Some {
        from
    } else {
        metadata_place(opinions, key, from + 1)
    }
}

/// The metadata fields `key` of a chain of opinions, strongest first.
pub open spec fn metadata_fields(opinions: Seq<OpinionView>, key: TokenId) -> Seq<FieldView>
    decreases opinions.len(),
{
    if opinions.len() == 0 {
        seq![]
    } else {
        match metadata_field(opinions.last(), key) {
            Some(field) => metadata_fields(opinions.drop_last(), key).push(field),
            None => metadata_fields(opinions.drop_last(), key),
        }
    }
}

/// The dictionaries among a list of fields, up to the first block.
pub open spec fn dictionary_fields(fields: Seq<FieldView>, from: int) -> Seq<Entries>
    decreases fields.len() - from,
{
    if from < 0 || from >= fields.len() {
        seq![]
    } else {
        match fields[from] {
            FieldView::Value(ValueView::Blocked) => seq![],
            FieldView::Value(ValueView::Dictionary(entries)) => seq![entries] + dictionary_fields(
                fields,
                from + 1,
            ),
            _ => dictionary_fields(fields, from + 1),
        }
    }
}

/// A metadata field of a composed property: the strongest wins, dictionaries
/// combine, list edits chain, and a block is no value.
pub open spec fn resolved_metadata(opinions: Seq<OpinionView>, key: TokenId) -> Option<Outcome> {
    let fields = metadata_fields(opinions, key);
    let at = metadata_place(opinions, key, 0);
    if at >= opinions.len() {
        None
    } else {
        match metadata_field(opinions[at], key)->0 {
            FieldView::Value(ValueView::Blocked) => None,
            FieldView::Value(ValueView::Dictionary(_)) => Some(
                Outcome {
                    value: ResolvedView::Dictionary(combined(dictionary_fields(fields, 0))),
                    due_to: Some(at),
                },
            ),
            FieldView::Value(value) => Some(
                Outcome { value: ResolvedView::Scalar(value), due_to: Some(at) },
            ),
            FieldView::List(kind, _) => Some(
                Outcome { value: resolved_list(fields, kind), due_to: Some(at) },
            ),
        }
    }
}

/// Resolves a metadata field of a composed property.
pub fn resolve_metadata(opinions: &Vec<Opinion>, key: TokenId) -> (out: Option<
    (ResolvedValue, Option<usize>),
>)
    ensures
        outcome_view(out) == resolved_metadata(opinions_view(opinions@), key),
        due_in(out, opinions@.len()),
        out matches Some((_, due_to)) ==> due_to is Some,
{
    let ghost all = opinions_view(opinions@);
    let mut fields: Vec<&FieldValue> = Vec::new();
    let mut strongest: Option<usize> = None;
    let mut i: usize = 0;
    assert(all.take(0) =~= seq![]);
    assert(field_refs(fields@) =~= seq![]);
    while i < opinions.len()
        invariant
            i <= opinions@.len(),
            all == opinions_view(opinions@),
            field_refs(fields@) == metadata_fields(all.take(i as int), key),
            match strongest {
                Some(at) => {
                    &&& at < i
                    &&& metadata_place(all, key, 0) == at
                    &&& fields@.len() > 0
                    &&& metadata_field(all[at as int], key) == Some(fields@[0]@)
                },
                None => fields@.len() == 0 && metadata_place(all, key, 0) == metadata_place(
                    all,
                    key,
                    i as int,
                ),
            },
        decreases opinions@.len() - i,
    {
        assert(all.take(i + 1).drop_last() =~= all.take(i as int));
        assert(all[i as int] == opinions@[i as int]@);
        let field = match &opinions[i].value {
            OpinionValue::Property(spec) => spec.metadata(key),
            OpinionValue::Field(_) => None,
        };
        match field {
            Some(field) => {
                if strongest.is_none() {
                    strongest = Some(i);
                }
                let ghost had = fields@;
                fields.push(field);
                assert(field_refs(fields@) =~= field_refs(had).push(field@));
            },
            None => {},
        }
        i = i + 1;
    }
    assert(all.take(i as int) =~= all);
    let at = match strongest {
        Some(at) => at,
        None => {
            return None;
        },
    };
    match fields[0] {
        FieldValue::Value(Value::Blocked) => None,
        FieldValue::Value(Value::Dictionary(_)) => {
            let ghost shown = field_refs(fields@);
            let ghost expected = dictionary_fields(shown, 0);
            let mut chain: Vec<&Vec<(String, Value)>> = Vec::new();
            let mut k: usize = 0;
            let mut open = true;
            assert(chain_view(chain@) + dictionary_fields(shown, 0) =~= expected);
            while open && k < fields.len()
                invariant
                    k <= fields@.len(),
                    shown == field_refs(fields@),
                    open ==> expected == chain_view(chain@) + dictionary_fields(shown, k as int),
                    !open ==> expected == chain_view(chain@),
                decreases fields@.len() - k, open as int,
            {
                assert(shown[k as int] == fields@[k as int]@);
                match fields[k] {
                    FieldValue::Value(Value::Blocked) => {
                        open = false;
                        assert(expected =~= chain_view(chain@));
                    },
                    FieldValue::Value(Value::Dictionary(entries)) => {
                        let ghost had = chain@;
                        chain.push(entries);
                        assert(chain_view(chain@) =~= chain_view(had).push(
                            entries_view(entries@),
                        ));
                        assert(expected =~= chain_view(chain@) + dictionary_fields(shown, k + 1));
                        k = k + 1;
                    },
                    _ => {
                        k = k + 1;
                    },
                }
            }
            assert(expected =~= chain_view(chain@));
            Some((ResolvedValue::Dictionary(combine_dictionary_chain(&chain)), Some(at)))
        },
        FieldValue::Value(value) => Some((ResolvedValue::Scalar(value.copy()), Some(at))),
        FieldValue::List(kind, _) => Some((chain_field_list(*kind, &fields), Some(at))),
    }
}

/// How a composed property is declared.
#[derive(Debug)]
pub struct PropertyDeclaration {
    pub kind: PropertyKind,
    /// The declared type of an attribute.
    pub declared_type: Option<PropertyType>,
    pub variability: Variability,
    /// Whether any opinion declares the property `custom`.
    pub custom: bool,
}

/// The mathematical value of a [`PropertyDeclaration`].
pub struct DeclarationView {
    pub kind: PropertyKind,
    pub declared_type: Option<TypeView>,
    pub variability: Variability,
    pub custom: bool,
}

impl View for PropertyDeclaration {
    type V = DeclarationView;

    open spec fn view(&self) -> DeclarationView {
        DeclarationView {
            kind: self.kind,
            declared_type: type_option(self.declared_type),
            variability: self.variability,
            custom: self.custom,
        }
    }
}

/// How a chain of opinions declares a property: with the kind of the strongest
/// and the type of the strongest with one, `custom` where any is, and with the
/// variability of the weakest. Nothing where none is a property.
pub open spec fn declared_as(opinions: Seq<OpinionView>) -> Option<DeclarationView>
    decreases opinions.len(),
{
    if opinions.len() == 0 {
        None
    } else {
        match (declared_as(opinions.drop_last()), opinions.last().value) {
            (before, OpinionValueView::Field(_)) => before,
            (None, OpinionValueView::Property(spec)) => Some(
                DeclarationView {
                    kind: spec.kind,
                    declared_type: spec.declared_type,
                    variability: spec.variability,
                    custom: spec.custom,
                },
            ),
            (Some(before), OpinionValueView::Property(spec)) => Some(
                DeclarationView {
                    kind: before.kind,
                    declared_type: match before.declared_type {
                        Some(declared) => Some(declared),
                        None => spec.declared_type,
                    },
                    variability: spec.variability,
                    custom: before.custom || spec.custom,
                },
            ),
        }
    }
}

/// The view of an optional declaration.
pub open spec fn declaration_option(out: Option<PropertyDeclaration>) -> Option<DeclarationView> {
    match out {
        Some(declaration) => Some(declaration@),
        None => None,
    }
}

/// Resolves how a chain of opinions declares a property.
pub fn resolve_declaration(opinions: &Vec<Opinion>) -> (out: Option<PropertyDeclaration>)
    ensures
        declaration_option(out) == declared_as(opinions_view(opinions@)),
{
    let ghost all = opinions_view(opinions@);
    let mut out: Option<PropertyDeclaration> = None;
    let mut i: usize = 0;
    assert(all.take(0) =~= seq![]);
    while i < opinions.len()
        invariant
            i <= opinions@.len(),
            all == opinions_view(opinions@),
            declaration_option(out) == declared_as(all.take(i as int)),
        decreases opinions@.len() - i,
    {
        assert(all.take(i + 1).drop_last() =~= all.take(i as int));
        assert(all[i as int] == opinions@[i as int]@);
        match &opinions[i].value {
            OpinionValue::Property(spec) => {
                out =
                match out {
                    None => Some(
                        PropertyDeclaration {
                            kind: spec.kind,
                            declared_type: crate::property::copy_type(&spec.declared_type),
                            variability: spec.variability,
                            custom: spec.custom,
                        },
                    ),
                    Some(before) => Some(
                        PropertyDeclaration {
                            kind: before.kind,
                            declared_type: match before.declared_type {
                                Some(declared) => Some(declared),
                                None => crate::property::copy_type(&spec.declared_type),
                            },
                            variability: spec.variability,
                            custom: before.custom || spec.custom,
                        },
                    ),
                };
            },
            OpinionValue::Field(_) => {},
        }
        i = i + 1;
    }
    assert(all.take(i as int) =~= all);
    out
}

/// A strongest default that is a block hides every weaker default.
pub proof fn law_block_hides_weaker_defaults(opinions: Seq<OpinionView>, fill: Option<ValueView>)
    requires
        default_place(opinions, 0) < opinions.len(),
        opinions[default_place(opinions, 0)].value.default_value() == Some(ValueView::Blocked),
    ensures
        resolved_default(opinions, None, fill, None) is None,
{
}

/// A strongest default that is neither an array, a dictionary nor a block is
/// what a default-time query resolves to, whatever weaker opinions author.
pub proof fn law_strongest_default_wins(
    opinions: Seq<OpinionView>,
    fill: Option<ValueView>,
    value: ValueView,
)
    requires
        default_place(opinions, 0) < opinions.len(),
        opinions[default_place(opinions, 0)].value.default_value() == Some(value),
        !is_array_value(value) && !(value is Dictionary) && !(value is Blocked),
    ensures
        resolved_default(opinions, None, fill, None) == Some(
            Outcome {
                value: ResolvedView::Scalar(value),
                due_to: Some(default_place(opinions, 0)),
            },
        ),
{
}

/// Time samples and splines never answer a default-time query: without a
/// default there is no value.
pub proof fn law_samples_answer_no_default_query(
    opinions: Seq<OpinionView>,
    fill: Option<ValueView>,
)
    requires
        forall|i: int|
            0 <= i < opinions.len() ==> (#[trigger] opinions[i]).value.default_value() is None,
    ensures
        resolved_default(opinions, None, fill, None) is None,
{
    crate::opinion::lemma_default_place(opinions, 0);
}

/// A property is declared custom exactly when an opinion declares it so.
pub proof fn law_custom_when_any_opinion_is(opinions: Seq<OpinionView>)
    ensures
        declared_as(opinions) matches Some(declared) ==> (declared.custom <==> exists|i: int|
            0 <= i < opinions.len() && #[trigger] declares_custom(opinions[i])),
    decreases opinions.len(),
{
    if opinions.len() > 0 {
        let part = opinions.drop_last();
        law_custom_when_any_opinion_is(part);
        if exists|i: int| 0 <= i < part.len() && #[trigger] declares_custom(part[i]) {
            let i = choose|i: int| 0 <= i < part.len() && #[trigger] declares_custom(part[i]);
            assert(declares_custom(opinions[i]));
        }
        if declares_custom(opinions.last()) {
            assert(declares_custom(opinions[opinions.len() - 1]));
        }
        if exists|i: int| 0 <= i < opinions.len() && #[trigger] declares_custom(opinions[i]) {
            let i = choose|i: int|
                0 <= i < opinions.len() && #[trigger] declares_custom(opinions[i]);
            if i < part.len() {
                assert(declares_custom(part[i]));
            }
        }
        if declared_as(part) is None {
            lemma_undeclared(part);
        }
    }
}

/// Whether an opinion declares a custom property.
pub open spec fn declares_custom(opinion: OpinionView) -> bool {
    opinion.value matches OpinionValueView::Property(spec) && spec.custom
}

proof fn lemma_undeclared(opinions: Seq<OpinionView>)
    requires
        declared_as(opinions) is None,
    ensures
        forall|i: int| 0 <= i < opinions.len() ==> !#[trigger] declares_custom(opinions[i]),
    decreases opinions.len(),
{
    if opinions.len() > 0 {
        lemma_undeclared(opinions.drop_last());
        assert forall|i: int| 0 <= i < opinions.len() implies !#[trigger] declares_custom(
            opinions[i],
        ) by {
            if i < opinions.len() - 1 {
                assert(!declares_custom(opinions.drop_last()[i]));
            }
        }
    }
}

// ── The strongest opinion ───────────────────────────────────────────────

/// Whether an opinion is the strongest that authors a default.
spec fn first_default(opinions: Seq<OpinionView>, i: int) -> bool {
    &&& 0 <= i < opinions.len()
    &&& opinions[i].value.default_value() is Some
    &&& forall|k: int|
        0 <= k < i ==> (#[trigger] opinions[k]).value.default_value() is None
}

proof fn lemma_first_default(opinions: Seq<OpinionView>, i: int)
    requires
        first_default(opinions, i),
    ensures
        default_place(opinions, 0) == i,
{
    crate::opinion::lemma_default_place(opinions, 0);
    let at = default_place(opinions, 0);
    if i < at {
        assert(opinions[i].value.default_value() is None);
    }
    if at < i {
        assert(opinions[at].value.default_value() is None);
    }
}

/// A query for the default of an attribute or a field resolves to what the
/// strongest opinion with a default authors, where that is neither an array nor
/// a dictionary, and says so; a block resolves to nothing.
pub proof fn law_the_strongest_default_is_resolved(
    opinions: Seq<OpinionView>,
    fill: Option<ValueView>,
    i: int,
    value: ValueView,
)
    requires
        0 <= i < opinions.len(),
        opinions[i].value.default_value() == Some(value),
        forall|k: int|
            0 <= k < i ==> (#[trigger] opinions[k]).value.default_value() is None,
        !(opinions[0].value matches OpinionValueView::Field(FieldView::List(_, _))),
        !(opinions[0].value matches OpinionValueView::Property(spec) && spec.kind
            == PropertyKind::Relationship),
        !(value is Array || value is ArrayEdit || value is Dictionary),
    ensures
        value is Blocked ==> resolved_value(opinions, None, fill) is None,
        !(value is Blocked) ==> resolved_value(opinions, None, fill) == Some(
            Outcome { value: ResolvedView::Scalar(value), due_to: Some(i) },
        ),
{
    lemma_first_default(opinions, i);
}

proof fn lemma_dictionary_defaults(opinions: Seq<OpinionView>, from: int, i: int)
    requires
        0 <= from <= i < opinions.len(),
        opinions[i].value.default_value() matches Some(value) && value is Dictionary,
        forall|k: int|
            from <= k < i ==> (#[trigger] opinions[k]).value.default_value() != Some(
                ValueView::Blocked,
            ),
    ensures
        dictionary_defaults(opinions, from).contains(
            opinions[i].value.default_value()->0->Dictionary_0,
        ),
    decreases i - from,
{
    let entries = opinions[i].value.default_value()->0->Dictionary_0;
    let out = dictionary_defaults(opinions, from);
    if from < i {
        lemma_dictionary_defaults(opinions, from + 1, i);
        let rest = dictionary_defaults(opinions, from + 1);
        let k = choose|k: int| 0 <= k < rest.len() && rest[k] == entries;
        assert(opinions[from].value.default_value() != Some(ValueView::Blocked));
        if out.len() == rest.len() {
            assert(out[k] == entries);
        } else {
            assert(out[k + 1] == entries);
        }
    } else {
        assert(out[0] == entries);
    }
}

proof fn lemma_dictionary_default(opinions: Seq<OpinionView>, from: int, k: int) -> (i: int)
    requires
        0 <= from,
        0 <= k < dictionary_defaults(opinions, from).len(),
    ensures
        from <= i < opinions.len(),
        opinions[i].value.default_value() == Some(
            ValueView::Dictionary(dictionary_defaults(opinions, from)[k]),
        ),
        forall|j: int|
            from <= j < i ==> (#[trigger] opinions[j]).value.default_value() != Some(
                ValueView::Blocked,
            ),
    decreases opinions.len() - from,
{
    match opinions[from].value.default_value() {
        Some(ValueView::Dictionary(entries)) => if k == 0 {
            from
        } else {
            let rest = dictionary_defaults(opinions, from + 1);
            assert(dictionary_defaults(opinions, from)[k] == rest[k - 1]);
            lemma_dictionary_default(opinions, from + 1, k - 1)
        },
        _ => lemma_dictionary_default(opinions, from + 1, k),
    }
}

/// Where the strongest default is a dictionary, the default resolves to a
/// dictionary with the keys of every dictionary that no stronger opinion blocks,
/// and with no others.
pub proof fn law_dictionary_defaults_combine(
    opinions: Seq<OpinionView>,
    fill: Option<ValueView>,
    first: int,
    key: Seq<char>,
)
    requires
        0 <= first < opinions.len(),
        opinions[first].value.default_value() matches Some(value) && value is Dictionary,
        forall|k: int|
            0 <= k < first ==> (#[trigger] opinions[k]).value.default_value() is None,
        !(opinions[0].value matches OpinionValueView::Field(FieldView::List(_, _))),
        !(opinions[0].value matches OpinionValueView::Property(spec) && spec.kind
            == PropertyKind::Relationship),
    ensures
        resolved_value(opinions, None, fill) matches Some(outcome) && outcome.due_to == Some(first)
            && (outcome.value matches ResolvedView::Dictionary(entries) && (holds_key(entries, key)
            <==> exists|i: int|
            0 <= i < opinions.len() && ((#[trigger] opinions[i]).value.default_value() matches Some(
                ValueView::Dictionary(own),
            ) && holds_key(own, key)) && forall|j: int|
                0 <= j < i ==> (#[trigger] opinions[j]).value.default_value() != Some(
                    ValueView::Blocked,
                ))),
{
    lemma_first_default(opinions, first);
    let chain = dictionary_defaults(opinions, 0);
    assert(chain + fallback_entries(None) =~= chain);
    crate::dictionary::law_combined_keeps_every_key(chain, key);
    if holds_key(combined(chain), key) {
        let k = choose|k: int| 0 <= k < chain.len() && holds_key(#[trigger] chain[k], key);
        let i = lemma_dictionary_default(opinions, 0, k);
        assert(opinions[i].value.default_value() == Some(ValueView::Dictionary(chain[k])));
    }
    if exists|i: int|
        0 <= i < opinions.len() && ((#[trigger] opinions[i]).value.default_value() matches Some(
            ValueView::Dictionary(own),
        ) && holds_key(own, key)) && forall|j: int|
            0 <= j < i ==> (#[trigger] opinions[j]).value.default_value() != Some(
                ValueView::Blocked,
            ) {
        let i = choose|i: int|
            0 <= i < opinions.len() && ((#[trigger] opinions[i]).value.default_value() matches Some(
                ValueView::Dictionary(own),
            ) && holds_key(own, key)) && forall|j: int|
                0 <= j < i ==> (#[trigger] opinions[j]).value.default_value() != Some(
                    ValueView::Blocked,
                );
        lemma_dictionary_defaults(opinions, 0, i);
        let own = opinions[i].value.default_value()->0->Dictionary_0;
        let k = choose|k: int| 0 <= k < chain.len() && chain[k] == own;
        assert(holds_key(chain[k], key));
    }
}

/// A dense array as the strongest default is what the default resolves to,
/// whatever is weaker; an edit over a dense array, with no default between,
/// resolves to the array edited.
pub proof fn law_array_defaults_compose(
    opinions: Seq<OpinionView>,
    fill: Option<ValueView>,
    i: int,
    j: int,
)
    requires
        0 <= i < opinions.len(),
        forall|k: int|
            0 <= k < i ==> (#[trigger] opinions[k]).value.default_value() is None,
        !(opinions[0].value matches OpinionValueView::Field(FieldView::List(_, _))),
        !(opinions[0].value matches OpinionValueView::Property(spec) && spec.kind
            == PropertyKind::Relationship),
    ensures
        opinions[i].value.default_value() matches Some(ValueView::Array(items)) ==> resolved_value(
            opinions,
            None,
            fill,
        ) == Some(
            Outcome {
                value: ResolvedView::Scalar(ValueView::Array(items)),
                due_to: Some(i),
            },
        ),
        opinions[i].value.default_value() matches Some(ValueView::ArrayEdit(ops)) ==> (i < j
            < opinions.len() && (forall|k: int|
            i < k < j ==> (#[trigger] opinions[k]).value.default_value() is None)) ==> (
        opinions[j].value.default_value() matches Some(ValueView::Array(items)) ==> resolved_value(
            opinions,
            None,
            fill,
        ) == Some(
            Outcome {
                value: ResolvedView::Scalar(ValueView::Array(applied(items, ops, fill))),
                due_to: Some(i),
            },
        )),
{
    if opinions[i].value.default_value() is Some {
        lemma_first_default(opinions, i);
        lemma_array_defaults(opinions, 0, i);
        let chain = array_defaults(opinions, i);
        if opinions[i].value.default_value()->0 is Array {
            assert(chain[0] == opinions[i].value.default_value()->0);
        } else if opinions[i].value.default_value()->0 is ArrayEdit && i < j < opinions.len()
            && (forall|k: int|
            i < k < j ==> (#[trigger] opinions[k]).value.default_value() is None)
            && opinions[j].value.default_value() is Some && opinions[j].value.default_value()->0
            is Array {
            lemma_array_defaults(opinions, i + 1, j);
            let rest = array_defaults(opinions, j);
            assert(chain[0] == opinions[i].value.default_value()->0);
            assert(rest[0] == opinions[j].value.default_value()->0);
            assert(chain[1] == rest[0]);
            reveal_with_fuel(folded, 3);
        }
    }
}

proof fn lemma_array_defaults(opinions: Seq<OpinionView>, from: int, i: int)
    requires
        0 <= from <= i < opinions.len(),
        forall|k: int|
            from <= k < i ==> (#[trigger] opinions[k]).value.default_value() is None,
    ensures
        array_defaults(opinions, from) == array_defaults(opinions, i),
    decreases i - from,
{
    if from < i {
        lemma_array_defaults(opinions, from + 1, i);
    }
}

/// At a time, an attribute without arrays resolves to what the strongest opinion
/// with samples, a spline or a default gives there: what its samples or spline
/// read as, else its default; a block resolves to nothing.
pub proof fn law_the_strongest_offer_is_resolved_at_a_time(
    opinions: Seq<OpinionView>,
    readings: Seq<Option<ValueView>>,
    i: int,
)
    requires
        0 <= i < opinions.len(),
        forall|k: int|
            0 <= k < i ==> (#[trigger] opinions[k]).value.default_value() is None
                && opinions[k].value.time_samples() is None && opinions[k].value.spline() is None,
    ensures
        ({
            let out = resolved_at_time(opinions, None, SparseView::NotApplicable, readings);
            let timed = opinions[i].value.time_samples() is Some || opinions[i].value.spline()
                is Some;
            &&& timed ==> (match readings[i] {
                Some(ValueView::Blocked) => out is None,
                Some(value) => out == Some((value, Some(i))),
                None => out is None,
            })
            &&& !timed ==> (match opinions[i].value.default_value() {
                Some(ValueView::Blocked) => out is None,
                Some(value) => out == Some((value, Some(i))),
                None => true,
            })
        }),
{
    lemma_no_offer(opinions, readings, 0, i);
}

proof fn lemma_no_offer(
    opinions: Seq<OpinionView>,
    readings: Seq<Option<ValueView>>,
    from: int,
    i: int,
)
    requires
        0 <= from <= i < opinions.len(),
        forall|k: int|
            from <= k < i ==> (#[trigger] opinions[k]).value.default_value() is None
                && opinions[k].value.time_samples() is None && opinions[k].value.spline() is None,
    ensures
        offer_place(opinions, readings, from) == offer_place(opinions, readings, i),
    decreases i - from,
{
    if from < i {
        assert(opinions[from].value.default_value() is None);
        lemma_no_offer(opinions, readings, from + 1, i);
    }
}

/// A property is of the kind that its strongest opinion declares, of the
/// strongest type that one declares, and of the weakest variability.
pub proof fn law_declarations_combine(opinions: Seq<OpinionView>, i: int)
    requires
        0 <= i < opinions.len(),
        opinions[i].value is Property,
    ensures
        declared_as(opinions) is Some,
        (forall|k: int| 0 <= k < i ==> !((#[trigger] opinions[k]).value is Property))
            ==> declared_as(opinions)->0.kind == opinions[i].value->Property_0.kind,
        (forall|k: int| i < k < opinions.len() ==> !((#[trigger] opinions[k]).value is Property))
            ==> declared_as(opinions)->0.variability == opinions[i].value->Property_0.variability,
        opinions[i].value->Property_0.declared_type is Some && (forall|k: int|
            0 <= k < i ==> !((#[trigger] opinions[k]).value is Property
                && opinions[k].value->Property_0.declared_type is Some)) ==> declared_as(
            opinions,
        )->0.declared_type == opinions[i].value->Property_0.declared_type,
    decreases opinions.len(),
{
    let rest = opinions.drop_last();
    let n = opinions.len() - 1;
    assert(opinions[n] == opinions.last());
    if i < n {
        assert(rest[i] == opinions[i]);
        law_declarations_combine(rest, i);
        let kinds = forall|k: int| 0 <= k < i ==> !((#[trigger] opinions[k]).value is Property);
        if kinds {
            assert forall|k: int| 0 <= k < i implies !((#[trigger] rest[k]).value is Property) by {
                assert(rest[k] == opinions[k]);
            }
        }
        if forall|k: int| i < k < opinions.len() ==> !((#[trigger] opinions[k]).value is Property) {
            assert forall|k: int| i < k < rest.len() implies !((
            #[trigger] rest[k]).value is Property) by {
                assert(rest[k] == opinions[k]);
            }
            assert(!(opinions[n].value is Property));
        }
        if forall|k: int|
            0 <= k < i ==> !((#[trigger] opinions[k]).value is Property
                && opinions[k].value->Property_0.declared_type is Some) {
            assert forall|k: int| 0 <= k < i implies !((#[trigger] rest[k]).value is Property
                && rest[k].value->Property_0.declared_type is Some) by {
                assert(rest[k] == opinions[k]);
            }
        }
    } else {
        lemma_declared_before(rest);
        if forall|k: int| 0 <= k < i ==> !((#[trigger] opinions[k]).value is Property) {
            assert forall|k: int| 0 <= k < rest.len() implies !((
            #[trigger] rest[k]).value is Property) by {
                assert(rest[k] == opinions[k]);
            }
        }
        if forall|k: int|
            0 <= k < i ==> !((#[trigger] opinions[k]).value is Property
                && opinions[k].value->Property_0.declared_type is Some) {
            assert forall|k: int| 0 <= k < rest.len() implies !((#[trigger] rest[k]).value
                is Property && rest[k].value->Property_0.declared_type is Some) by {
                assert(rest[k] == opinions[k]);
            }
        }
    }
}

proof fn lemma_declared_before(opinions: Seq<OpinionView>)
    ensures
        (forall|k: int| 0 <= k < opinions.len() ==> !((#[trigger] opinions[k]).value is Property))
            ==> declared_as(opinions) is None,
        (forall|k: int|
            0 <= k < opinions.len() ==> !((#[trigger] opinions[k]).value is Property
                && opinions[k].value->Property_0.declared_type is Some)) ==> (declared_as(
            opinions,
        ) matches Some(declared) ==> declared.declared_type is None),
    decreases opinions.len(),
{
    if opinions.len() > 0 {
        let rest = opinions.drop_last();
        lemma_declared_before(rest);
        assert(opinions[opinions.len() - 1] == opinions.last());
        if forall|k: int| 0 <= k < opinions.len() ==> !((#[trigger] opinions[k]).value is Property) {
            assert forall|k: int| 0 <= k < rest.len() implies !((
            #[trigger] rest[k]).value is Property) by {
                assert(rest[k] == opinions[k]);
            }
        }
        if forall|k: int|
            0 <= k < opinions.len() ==> !((#[trigger] opinions[k]).value is Property
                && opinions[k].value->Property_0.declared_type is Some) {
            assert forall|k: int| 0 <= k < rest.len() implies !((#[trigger] rest[k]).value
                is Property && rest[k].value->Property_0.declared_type is Some) by {
                assert(rest[k] == opinions[k]);
            }
        }
    }
}

/// A metadata field of a property resolves to what the strongest opinion that
/// authors it says, where that is neither a dictionary nor a list, and says so;
/// a block resolves to nothing.
pub proof fn law_the_strongest_metadata_is_resolved(
    opinions: Seq<OpinionView>,
    key: TokenId,
    i: int,
    value: ValueView,
)
    requires
        0 <= i < opinions.len(),
        metadata_field(opinions[i], key) == Some(FieldView::Value(value)),
        forall|k: int| 0 <= k < i ==> metadata_field(#[trigger] opinions[k], key) is None,
        !(value is Dictionary),
    ensures
        value is Blocked ==> resolved_metadata(opinions, key) is None,
        !(value is Blocked) ==> resolved_metadata(opinions, key) == Some(
            Outcome { value: ResolvedView::Scalar(value), due_to: Some(i) },
        ),
{
    lemma_metadata_place(opinions, key, 0, i);
}

proof fn lemma_metadata_place(opinions: Seq<OpinionView>, key: TokenId, from: int, i: int)
    requires
        0 <= from <= i < opinions.len(),
        metadata_field(opinions[i], key) is Some,
        forall|k: int| from <= k < i ==> metadata_field(#[trigger] opinions[k], key) is None,
    ensures
        metadata_place(opinions, key, from) == i,
    decreases i - from,
{
    if from < i {
        lemma_metadata_place(opinions, key, from + 1, i);
    }
}

/// A property's metadata field is the first of that name that the property
/// authors; an opinion on a field has none.
pub proof fn law_metadata_is_found_by_name(opinion: OpinionView, key: TokenId, f: int)
    ensures
        opinion.value is Field ==> metadata_field(opinion, key) is None,
        opinion.value matches OpinionValueView::Property(spec) ==> (0 <= f < spec.metadata.len()
            && spec.metadata[f].0 == key && (forall|g: int|
            0 <= g < f ==> (#[trigger] spec.metadata[g]).0 != key)) ==> metadata_field(opinion, key)
            == Some(spec.metadata[f].1),
{
    if opinion.value is Property {
        let list = opinion.value->Property_0.metadata;
        if 0 <= f < list.len() && list[f].0 == key && (forall|g: int|
            0 <= g < f ==> (#[trigger] list[g]).0 != key) {
            crate::fields::lemma_place_of_unique(list, key, f);
        }
    }
}

proof fn lemma_target_edits(opinions: Seq<OpinionView>, i: int)
    requires
        0 <= i < opinions.len(),
        opinions[i].value.targets() is Some,
        forall|k: int| 0 <= k < i ==> (#[trigger] opinions[k]).value.targets() is None,
    ensures
        target_edits(opinions).len() > 0,
        target_edits(opinions)[0] == opinions[i].value.targets()->0,
    decreases opinions.len(),
{
    let rest = opinions.drop_last();
    if i < rest.len() {
        assert(rest[i] == opinions[i]);
        assert forall|k: int| 0 <= k < i implies (#[trigger] rest[k]).value.targets() is None by {
            assert(rest[k] == opinions[k]);
        }
        lemma_target_edits(rest, i);
    } else {
        lemma_no_target_edits(rest);
        assert forall|k: int| 0 <= k < rest.len() implies (#[trigger] rest[k]).value.targets()
            is None by {
            assert(rest[k] == opinions[k]);
        }
    }
}

proof fn lemma_no_target_edits(opinions: Seq<OpinionView>)
    ensures
        (forall|k: int| 0 <= k < opinions.len() ==> (#[trigger] opinions[k]).value.targets() is None)
            ==> target_edits(opinions).len() == 0,
    decreases opinions.len(),
{
    if opinions.len() > 0 {
        let rest = opinions.drop_last();
        lemma_no_target_edits(rest);
        if forall|k: int|
            0 <= k < opinions.len() ==> (#[trigger] opinions[k]).value.targets() is None {
            assert(opinions[opinions.len() - 1].value.targets() is None);
            assert forall|k: int| 0 <= k < rest.len() implies (#[trigger] rest[k]).value.targets()
                is None by {
                assert(rest[k] == opinions[k]);
            }
        }
    }
}

proof fn lemma_targets_place(opinions: Seq<OpinionView>, from: int, i: int)
    requires
        0 <= from <= i < opinions.len(),
        opinions[i].value.targets() is Some,
        forall|k: int| from <= k < i ==> (#[trigger] opinions[k]).value.targets() is None,
    ensures
        targets_place(opinions, from) == i,
    decreases i - from,
{
    if from < i {
        lemma_targets_place(opinions, from + 1, i);
    }
}

/// Where the strongest opinion with targets replaces the list, the targets
/// resolve to those that it lists, whatever is weaker, and are due to it.
pub proof fn law_the_strongest_replacement_gives_the_targets(
    opinions: Seq<OpinionView>,
    i: int,
    items: Seq<ItemView>,
    target: TargetPath,
)
    requires
        0 <= i < opinions.len(),
        opinions[i].value.targets() matches Some(op) && op.explicit == Some(items),
        forall|k: int| 0 <= k < i ==> (#[trigger] opinions[k]).value.targets() is None,
    ensures
        resolved_targets(opinions) matches Some((targets, at)) && at == i && (targets.contains(
            target,
        ) <==> items.contains(ItemView::Target(target))),
{
    lemma_targets_place(opinions, 0, i);
    lemma_target_edits(opinions, i);
    let entered = crate::interner::with_entries(seq![], items);
    lemma_entered(seq![], items, ItemView::Target(target));
    lemma_among(entered, target);
}

proof fn lemma_entered(start: Seq<ItemView>, items: Seq<ItemView>, item: ItemView)
    ensures
        crate::interner::with_entries(start, items).contains(item) <==> start.contains(item)
            || items.contains(item),
    decreases items.len(),
{
    if items.len() > 0 {
        let rest = items.drop_last();
        lemma_entered(start, rest, item);
        let before = crate::interner::with_entries(start, rest);
        let out = crate::interner::with_entries(start, items);
        crate::interner::lemma_first_position(before, items.last());
        assert(items[items.len() - 1] == items.last());
        if before.contains(item) {
            let k = choose|k: int| 0 <= k < before.len() && before[k] == item;
            assert(out[k] == item);
        }
        if rest.contains(item) {
            let k = choose|k: int| 0 <= k < rest.len() && rest[k] == item;
            assert(items[k] == item);
        }
        if item == items.last() {
            let p = crate::interner::first_position(before, item);
            if p < before.len() {
                assert(before.contains(item));
            } else {
                assert(out[before.len() as int] == item);
            }
        }
        if out.contains(item) && !before.contains(item) {
            let k = choose|k: int| 0 <= k < out.len() && out[k] == item;
            if k < before.len() {
                assert(before[k] == item);
            }
        }
        if items.contains(item) && !rest.contains(item) {
            let k = choose|k: int| 0 <= k < items.len() && items[k] == item;
            if k < rest.len() {
                assert(rest[k] == item);
            }
        }
    }
}

proof fn lemma_among(items: Seq<ItemView>, target: TargetPath)
    ensures
        targets_among(items).contains(target) <==> items.contains(ItemView::Target(target)),
    decreases items.len(),
{
    if items.len() > 0 {
        let rest = items.drop_last();
        lemma_among(rest, target);
        let before = targets_among(rest);
        let out = targets_among(items);
        let item = ItemView::Target(target);
        assert(items[items.len() - 1] == items.last());
        if before.contains(target) {
            let k = choose|k: int| 0 <= k < before.len() && before[k] == target;
            assert(out[k] == target);
        }
        if rest.contains(item) {
            let k = choose|k: int| 0 <= k < rest.len() && rest[k] == item;
            assert(items[k] == item);
        }
        if items.last() == item {
            assert(out[out.len() - 1] == target);
        }
        if out.contains(target) && !before.contains(target) {
            let k = choose|k: int| 0 <= k < out.len() && out[k] == target;
            if k < before.len() {
                assert(before[k] == target);
            }
        }
        if items.contains(item) && !rest.contains(item) {
            let k = choose|k: int| 0 <= k < items.len() && items[k] == item;
            if k < rest.len() {
                assert(rest[k] == item);
            }
        }
    }
}

/// A property has targets where an opinion authors some, or declares it a
/// relationship.
pub proof fn law_targets_are_there_where_authored(opinions: Seq<OpinionView>)
    ensures
        resolved_targets(opinions) is Some <==> exists|i: int|
            0 <= i < opinions.len() && ((#[trigger] opinions[i]).value.targets() is Some || (
            opinions[i].value matches OpinionValueView::Property(spec) && spec.kind
                == PropertyKind::Relationship)),
{
    if exists|i: int|
        0 <= i < opinions.len() && (#[trigger] opinions[i]).value.targets() is Some {
        let i = choose|i: int|
            0 <= i < opinions.len() && (#[trigger] opinions[i]).value.targets() is Some;
        lemma_place_before(opinions, 0, i);
    } else {
        lemma_no_place(opinions, 0);
    }
    if any_relationship(opinions) {
        let i = choose|i: int|
            0 <= i < opinions.len() && (#[trigger] opinions[i]).value.is_relationship();
        assert(opinions[i].value is Property);
    }
    if exists|i: int|
        0 <= i < opinions.len() && ((#[trigger] opinions[i]).value matches OpinionValueView::Property(
            spec,
        ) && spec.kind == PropertyKind::Relationship) {
        let i = choose|i: int|
            0 <= i < opinions.len() && ((#[trigger] opinions[i]).value matches OpinionValueView::Property(
                spec,
            ) && spec.kind == PropertyKind::Relationship);
        assert(opinions[i].value.is_relationship());
    }
}

proof fn lemma_place_before(opinions: Seq<OpinionView>, from: int, i: int)
    requires
        0 <= from <= i < opinions.len(),
        opinions[i].value.targets() is Some,
    ensures
        targets_place(opinions, from) <= i,
    decreases i - from,
{
    if from < i && opinions[from].value.targets() is None {
        lemma_place_before(opinions, from + 1, i);
    }
}

proof fn lemma_no_place(opinions: Seq<OpinionView>, from: int)
    requires
        0 <= from <= opinions.len(),
        forall|i: int|
            0 <= i < opinions.len() ==> (#[trigger] opinions[i]).value.targets() is None,
    ensures
        targets_place(opinions, from) == opinions.len(),
    decreases opinions.len() - from,
{
    if from < opinions.len() {
        lemma_no_place(opinions, from + 1);
    }
}

} // verus!
