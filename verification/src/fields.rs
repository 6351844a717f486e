//! Authored fields: values and list edits by name.

use crate::doc::{Value, ValueView};
use crate::interner::TokenId;
use crate::path::{PathId, PropertyPath};
use crate::text::same_text;
use vstd::prelude::*;

verus! {

/// What a relationship or a connection points at.
#[derive(Clone, Copy, Debug, PartialEq, Eq, Structural, Hash)]
pub enum TargetPath {
    Prim(PathId),
    Property(PropertyPath),
}

/// An item of a list edit.
#[derive(Debug)]
pub enum ListItem {
    Token(TokenId),
    Target(TargetPath),
    Text(String),
    Int(i32),
    UInt(u32),
    Int64(i64),
    UInt64(u64),
}

/// The mathematical value of a [`ListItem`].
pub enum ItemView {
    Token(TokenId),
    Target(TargetPath),
    Text(Seq<char>),
    Int(i32),
    UInt(u32),
    Int64(i64),
    UInt64(u64),
}

impl View for ListItem {
    type V = ItemView;

    open spec fn view(&self) -> ItemView {
        match self {
            ListItem::Token(t) => ItemView::Token(*t),
            ListItem::Target(t) => ItemView::Target(*t),
            ListItem::Text(s) => ItemView::Text(s@),
            ListItem::Int(n) => ItemView::Int(*n),
            ListItem::UInt(n) => ItemView::UInt(*n),
            ListItem::Int64(n) => ItemView::Int64(*n),
            ListItem::UInt64(n) => ItemView::UInt64(*n),
        }
    }
}

impl ListItem {
    /// Whether two items are equal.
    pub fn same(&self, other: &ListItem) -> (same: bool)
        ensures
            same == (self@ == other@),
    {
        match (self, other) {
            (ListItem::Token(a), ListItem::Token(b)) => *a == *b,
            (ListItem::Target(a), ListItem::Target(b)) => *a == *b,
            (ListItem::Text(a), ListItem::Text(b)) => same_text(a.as_str(), b.as_str()),
            (ListItem::Int(a), ListItem::Int(b)) => *a == *b,
            (ListItem::UInt(a), ListItem::UInt(b)) => *a == *b,
            (ListItem::Int64(a), ListItem::Int64(b)) => *a == *b,
            (ListItem::UInt64(a), ListItem::UInt64(b)) => *a == *b,
            _ => false,
        }
    }

    /// A copy of this item.
    pub fn copy(&self) -> (out: ListItem)
        ensures
            out@ == self@,
    {
        match self {
            ListItem::Token(t) => ListItem::Token(*t),
            ListItem::Target(t) => ListItem::Target(*t),
            ListItem::Text(s) => ListItem::Text(s.clone()),
            ListItem::Int(n) => ListItem::Int(*n),
            ListItem::UInt(n) => ListItem::UInt(*n),
            ListItem::Int64(n) => ListItem::Int64(*n),
            ListItem::UInt64(n) => ListItem::UInt64(*n),
        }
    }
}

/// The values of a list of items.
pub open spec fn items_view(items: Seq<ListItem>) -> Seq<ItemView> {
    items.map_values(|i: ListItem| i@)
}

/// Copies a list of items.
pub fn copy_items(items: &Vec<ListItem>) -> (out: Vec<ListItem>)
    ensures
        items_view(out@) == items_view(items@),
{
    let mut out: Vec<ListItem> = Vec::new();
    let mut i: usize = 0;
    while i < items.len()
        invariant
            i <= items@.len(),
            items_view(out@) == items_view(items@).take(i as int),
        decreases items@.len() - i,
    {
        let item = items[i].copy();
        assert(items_view(out@.push(item)) =~= items_view(out@).push(item@));
        assert(items_view(items@).take(i + 1) =~= items_view(items@).take(i as int).push(
            items@[i as int]@,
        ));
        out.push(item);
        i = i + 1;
    }
    assert(items_view(items@).take(i as int) =~= items_view(items@));
    out
}

/// An edit of a list: a replacement, or changes to a weaker list.
#[derive(Debug)]
pub struct ListOp {
    /// The whole list.
    pub explicit: Option<Vec<ListItem>>,
    /// Items moved or inserted at the front.
    pub prepend: Vec<ListItem>,
    /// Items moved or inserted at the back.
    pub append: Vec<ListItem>,
    /// Items removed.
    pub delete: Vec<ListItem>,
    /// Items inserted at the back unless the list holds them.
    pub add: Vec<ListItem>,
    /// The order to move the named items into.
    pub reorder: Vec<ListItem>,
}

/// The mathematical value of a [`ListOp`].
#[verifier::ext_equal]
pub struct ListOpView {
    pub explicit: Option<Seq<ItemView>>,
    pub prepend: Seq<ItemView>,
    pub append: Seq<ItemView>,
    pub delete: Seq<ItemView>,
    pub add: Seq<ItemView>,
    pub reorder: Seq<ItemView>,
}

/// The replacement by `items`.
pub open spec fn explicit_list(items: Seq<ItemView>) -> ListOpView {
    ListOpView {
        explicit: Some(items),
        prepend: seq![],
        append: seq![],
        delete: seq![],
        add: seq![],
        reorder: seq![],
    }
}

impl View for ListOp {
    type V = ListOpView;

    open spec fn view(&self) -> ListOpView {
        ListOpView {
            explicit: match self.explicit {
                Some(items) => Some(items_view(items@)),
                None => None,
            },
            prepend: items_view(self.prepend@),
            append: items_view(self.append@),
            delete: items_view(self.delete@),
            add: items_view(self.add@),
            reorder: items_view(self.reorder@),
        }
    }
}

impl ListOp {
    /// The replacement by `items`.
    pub fn replace_with(items: Vec<ListItem>) -> (op: ListOp)
        ensures
            op@ == explicit_list(items_view(items@)),
    {
        let op = ListOp {
            explicit: Some(items),
            prepend: Vec::new(),
            append: Vec::new(),
            delete: Vec::new(),
            add: Vec::new(),
            reorder: Vec::new(),
        };
        assert(op@ =~= explicit_list(items_view(items@)));
        op
    }

    /// A copy of this edit.
    pub fn copy(&self) -> (out: ListOp)
        ensures
            out@ == self@,
    {
        ListOp {
            explicit: match &self.explicit {
                Some(items) => Some(copy_items(items)),
                None => None,
            },
            prepend: copy_items(&self.prepend),
            append: copy_items(&self.append),
            delete: copy_items(&self.delete),
            add: copy_items(&self.add),
            reorder: copy_items(&self.reorder),
        }
    }
}

/// The kinds of list.
#[derive(Clone, Copy, Debug, PartialEq, Eq, Structural, Hash)]
pub enum ListKind {
    Tokens,
    Targets,
    Texts,
    Ints,
    UInts,
    Int64s,
    UInt64s,
}

/// What a field holds.
#[derive(Debug)]
pub enum FieldValue {
    Value(Value),
    List(ListKind, ListOp),
}

/// The mathematical value of a [`FieldValue`].
pub enum FieldView {
    Value(ValueView),
    List(ListKind, ListOpView),
}

impl View for FieldValue {
    type V = FieldView;

    open spec fn view(&self) -> FieldView {
        match self {
            FieldValue::Value(value) => FieldView::Value(value.view()),
            FieldValue::List(kind, op) => FieldView::List(*kind, op@),
        }
    }
}

impl FieldValue {
    /// A copy of this field's contents.
    pub fn copy(&self) -> (out: FieldValue)
        ensures
            out@ == self@,
    {
        match self {
            FieldValue::Value(value) => FieldValue::Value(value.copy()),
            FieldValue::List(kind, op) => FieldValue::List(*kind, op.copy()),
        }
    }

}

/// The view of an optional field.
pub open spec fn field_option(value: Option<FieldValue>) -> Option<FieldView> {
    match value {
        Some(value) => Some(value@),
        None => None,
    }
}

/// The view of an optional borrowed field.
pub open spec fn field_ref(value: Option<&FieldValue>) -> Option<FieldView> {
    match value {
        Some(value) => Some(value@),
        None => None,
    }
}

/// A named field.
#[derive(Debug)]
pub struct FieldEntry {
    pub name: TokenId,
    pub value: FieldValue,
}

/// The names and contents of a list of fields.
pub open spec fn fields_view(fields: Seq<FieldEntry>) -> Seq<(TokenId, FieldView)> {
    fields.map_values(|f: FieldEntry| (f.name, f.value@))
}

/// The first place in `entries`, from `from` on, whose name is `name`; the
/// length when there is none.
pub open spec fn place_of<K, T>(entries: Seq<(K, T)>, name: K, from: int) -> int
    decreases entries.len() - from,
{
    if from < 0 || from >= entries.len() {
        entries.len() as int
    } else if entries[from].0 == name {
        from
    } else {
        place_of(entries, name, from + 1)
    }
}

/// The entry named `name`, if there is one.
pub open spec fn named<K, T>(entries: Seq<(K, T)>, name: K) -> Option<T> {
    let at = place_of(entries, name, 0);
    if at < entries.len() {
        Some(entries[at].1)
    } else {
        None
    }
}

/// `entries` with `value` under `name`: in place of the entry of that name,
/// else behind the others.
pub open spec fn with_named<K, T>(entries: Seq<(K, T)>, name: K, value: T) -> Seq<(K, T)> {
    let at = place_of(entries, name, 0);
    if at < entries.len() {
        entries.update(at, (name, value))
    } else {
        entries.push((name, value))
    }
}

/// `entries` without the first entry named `name`.
pub open spec fn without_named<K, T>(entries: Seq<(K, T)>, name: K) -> Seq<(K, T)> {
    let at = place_of(entries, name, 0);
    if at < entries.len() {
        entries.remove(at)
    } else {
        entries
    }
}

pub proof fn lemma_place_of<K, T>(entries: Seq<(K, T)>, name: K, from: int)
    requires
        0 <= from <= entries.len(),
    ensures
        from <= place_of(entries, name, from) <= entries.len(),
        forall|i: int| from <= i < place_of(entries, name, from) ==> (#[trigger] entries[i]).0
            != name,
        place_of(entries, name, from) < entries.len() ==> entries[place_of(
            entries,
            name,
            from,
        )].0 == name,
    decreases entries.len() - from,
{
    if from < entries.len() && entries[from].0 != name {
        lemma_place_of(entries, name, from + 1);
    }
}

pub proof fn lemma_place_of_unique<K, T>(entries: Seq<(K, T)>, name: K, at: int)
    requires
        0 <= at <= entries.len(),
        forall|i: int| 0 <= i < at ==> (#[trigger] entries[i]).0 != name,
        at < entries.len() ==> entries[at].0 == name,
    ensures
        place_of(entries, name, 0) == at,
{
    lemma_place_of(entries, name, 0);
    let found = place_of(entries, name, 0);
    if found < at {
        assert(entries[found].0 != name);
    }
}

/// The place of the field named `name`, or the length.
fn field_place(fields: &Vec<FieldEntry>, name: TokenId) -> (at: usize)
    ensures
        at == place_of(fields_view(fields@), name, 0),
        at <= fields@.len(),
{
    let mut i: usize = 0;
    while i < fields.len()
        invariant
            i <= fields@.len(),
            forall|k: int| 0 <= k < i ==> (#[trigger] fields_view(fields@)[k]).0 != name,
        decreases fields@.len() - i,
    {
        if fields[i].name == name {
            proof {
                lemma_place_of_unique(fields_view(fields@), name, i as int);
            }
            return i;
        }
        i = i + 1;
    }
    proof {
        lemma_place_of_unique(fields_view(fields@), name, i as int);
    }
    i
}

/// The field named `name`, if present.
pub fn get_field<'f>(fields: &'f Vec<FieldEntry>, name: &TokenId) -> (value: Option<&'f FieldValue>)
    ensures
        field_ref(value) == named(fields_view(fields@), *name),
{
    let at = field_place(fields, *name);
    if at < fields.len() {
        Some(&fields[at].value)
    } else {
        None
    }
}

/// Inserts or replaces the field named `name`, keeping the place of a
/// replaced one.
pub fn set_field_vec(fields: &mut Vec<FieldEntry>, name: TokenId, value: FieldValue)
    ensures
        fields_view(final(fields)@) == with_named(fields_view(old(fields)@), name, value@),
{
    let ghost before = fields@;
    let at = field_place(fields, name);
    let entry = FieldEntry { name, value };
    if at < fields.len() {
        fields.set(at, entry);
        assert(fields_view(fields@) =~= fields_view(before).update(at as int, (name, value@)));
    } else {
        fields.push(entry);
        assert(fields_view(fields@) =~= fields_view(before).push((name, value@)));
    }
}

/// Removes the field named `name` and returns what it held.
pub fn remove_field(fields: &mut Vec<FieldEntry>, name: TokenId) -> (value: Option<FieldValue>)
    ensures
        field_option(value) == named(fields_view(old(fields)@), name),
        fields_view(final(fields)@) == without_named(fields_view(old(fields)@), name),
{
    let ghost before = fields@;
    let at = field_place(fields, name);
    if at < fields.len() {
        let entry = fields.remove(at);
        assert(fields_view(fields@) =~= fields_view(before).remove(at as int));
        Some(entry.value)
    } else {
        None
    }
}

/// Copies a list of fields.
pub fn copy_fields(fields: &Vec<FieldEntry>) -> (out: Vec<FieldEntry>)
    ensures
        fields_view(out@) == fields_view(fields@),
{
    let mut out: Vec<FieldEntry> = Vec::new();
    let mut i: usize = 0;
    while i < fields.len()
        invariant
            i <= fields@.len(),
            fields_view(out@) == fields_view(fields@).take(i as int),
        decreases fields@.len() - i,
    {
        let entry = FieldEntry { name: fields[i].name, value: fields[i].value.copy() };
        assert(fields_view(out@.push(entry)) =~= fields_view(out@).push(
            (entry.name, entry.value@),
        ));
        assert(fields_view(fields@).take(i + 1) =~= fields_view(fields@).take(i as int).push(
            (fields@[i as int].name, fields@[i as int].value@),
        ));
        out.push(entry);
        i = i + 1;
    }
    assert(fields_view(fields@).take(i as int) =~= fields_view(fields@));
    out
}

} // verus!
