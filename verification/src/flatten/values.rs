//! How single values are written, and what is noted of them.

use crate::doc::{
    entries_view, lemma_entries_view, lemma_values_view, values_view, Value, ValueView,
};
use crate::fields::{
    explicit_list, items_view, FieldValue, FieldView, ItemView, ListItem, ListKind, ListOp,
    TargetPath,
};
use crate::flatten::report::{
    copy_source, enter_text, object_of, source_option, ExternalDependency, Finding,
    FindingKind, FindingSource, FindingView, FlattenReport, KindView, Loss, ObjectPath, ReportView,
    TransformationView,
};
use crate::interner::{extends, first_position, with_entries, with_entry, TokenId};
use crate::path::{all_known, PathId, PathInterner, PropertyPath};
use crate::prim_index::LayerId;
use crate::resolution::{ResolvedValue, ResolvedView};
use crate::text::{chars_of, index_of, text, texts};
use vstd::prelude::*;

verus! {

/// A report with one more finding.
pub open spec fn noted(
    report: ReportView,
    path: Seq<char>,
    kind: KindView,
    source: Option<(LayerId, Seq<char>)>,
) -> ReportView {
    ReportView {
        findings: report.findings.push(FindingView { path: object_of(path), kind, source }),
        ..report
    }
}

/// Records a finding at `path`.
pub fn note(report: &mut FlattenReport, path: &str, kind: FindingKind, source: Option<FindingSource>)
    ensures
        final(report)@ == noted(old(report)@, path@, kind@, source_option(source)),
{
    let ghost before = report.findings@;
    let finding = Finding { path: ObjectPath::from_composed(path), kind, source };
    report.findings.push(finding);
    assert(crate::flatten::report::findings_view(report.findings@)
        =~= crate::flatten::report::findings_view(before).push(finding@));
}

/// A report with one more transformation.
pub open spec fn transformed(
    report: ReportView,
    path: Seq<char>,
    transformation: TransformationView,
    source: Option<(LayerId, Seq<char>)>,
) -> ReportView {
    noted(report, path, KindView::Transformed(transformation), source)
}

/// A report with one more loss.
pub open spec fn lost(
    report: ReportView,
    path: Seq<char>,
    loss: Loss,
    source: Option<(LayerId, Seq<char>)>,
) -> ReportView {
    noted(report, path, KindView::Lost(loss), source)
}

/// The asset paths in a value: alone, in arrays and in dictionaries.
pub open spec fn assets_in(value: ValueView) -> Seq<Seq<char>>
    decreases value,
{
    match value {
        ValueView::Asset(path) => seq![path],
        ValueView::Array(items) => assets_of_values(items),
        ValueView::Dictionary(entries) => assets_of_entries(entries),
        _ => seq![],
    }
}

/// The asset paths in a list of values.
pub open spec fn assets_of_values(items: Seq<ValueView>) -> Seq<Seq<char>>
    decreases items,
{
    if items.len() == 0 {
        seq![]
    } else {
        assets_of_values(items.drop_last()) + assets_in(items.last())
    }
}

/// The asset paths in the values of a dictionary.
pub open spec fn assets_of_entries(entries: Seq<(Seq<char>, ValueView)>) -> Seq<Seq<char>>
    decreases entries,
{
    if entries.len() == 0 {
        seq![]
    } else {
        assets_of_entries(entries.drop_last()) + assets_in(entries.last().1)
    }
}

/// Collects the asset paths in a value.
pub fn asset_paths(value: &Value, out: &mut Vec<String>)
    ensures
        texts(final(out)@) == texts(old(out)@) + assets_in(value.view()),
    decreases value,
{
    let ghost before = texts(out@);
    match value {
        Value::Asset(path) => {
            let ghost had = out@;
            out.push(text(path.as_str()));
            assert(texts(out@) =~= before + seq![path@]);
        },
        Value::Array(items) => {
            proof {
                lemma_values_view(items@);
            }
            let mut i: usize = 0;
            assert(values_view(items@).take(0) =~= seq![]);
            assert(texts(out@) =~= before + assets_of_values(values_view(items@).take(0)));
            while i < items.len()
                invariant
                    i <= items@.len(),
                    decreases_to!(value => items),
                    values_view(items@).len() == items@.len(),
                    forall|k: int|
                        0 <= k < items@.len() ==> #[trigger] values_view(items@)[k]
                            == items@[k].view(),
                    texts(out@) == before + assets_of_values(values_view(items@).take(i as int)),
                decreases items@.len() - i,
            {
                asset_paths(&items[i], out);
                proof {
                    let all = values_view(items@);
                    assert(all.take(i + 1).drop_last() =~= all.take(i as int));
                    assert(all.take(i + 1).last() == items@[i as int].view());
                    assert(texts(out@) =~= before + assets_of_values(all.take(i + 1)));
                }
                i = i + 1;
            }
            assert(values_view(items@).take(i as int) =~= values_view(items@));
        },
        Value::Dictionary(entries) => {
            proof {
                lemma_entries_view(entries@);
            }
            let mut i: usize = 0;
            assert(entries_view(entries@).take(0) =~= seq![]);
            assert(texts(out@) =~= before + assets_of_entries(entries_view(entries@).take(0)));
            while i < entries.len()
                invariant
                    i <= entries@.len(),
                    decreases_to!(value => entries),
                    entries_view(entries@).len() == entries@.len(),
                    forall|k: int|
                        0 <= k < entries@.len() ==> #[trigger] entries_view(entries@)[k] == (
                            entries@[k].0@,
                            entries@[k].1.view(),
                        ),
                    texts(out@) == before + assets_of_entries(
                        entries_view(entries@).take(i as int),
                    ),
                decreases entries@.len() - i,
            {
                asset_paths(&entries[i].1, out);
                proof {
                    let all = entries_view(entries@);
                    assert(all.take(i + 1).drop_last() =~= all.take(i as int));
                    assert(all.take(i + 1).last().1 == entries@[i as int].1.view());
                    assert(texts(out@) =~= before + assets_of_entries(all.take(i + 1)));
                }
                i = i + 1;
            }
            assert(entries_view(entries@).take(i as int) =~= entries_view(entries@));
        },
        _ => {
            assert(texts(out@) =~= before + seq![]);
        },
    }
}

/// Whether a character can stand in a scheme.
pub open spec fn is_scheme_char(c: char) -> bool {
    ||| 'a' <= c <= 'z'
    ||| 'A' <= c <= 'Z'
    ||| '0' <= c <= '9'
    ||| c == '+'
    ||| c == '-'
    ||| c == '.'
}

/// Whether an asset path means the same wherever the layer that holds it is: a
/// path from the root, a drive path, or one behind a scheme.
pub open spec fn is_absolute_asset(path: Seq<char>) -> bool {
    let colon = index_of(path, 0, ':');
    ||| path.len() > 0 && (path[0] == '/' || path[0] == '\\')
    ||| 0 < colon < path.len() && forall|i: int|
        0 <= i < colon ==> is_scheme_char(#[trigger] path[i])
}

/// Whether an asset path means the same wherever the layer that holds it is.
pub fn is_absolute_asset_path(path: &str) -> (yes: bool)
    ensures
        yes == is_absolute_asset(path@),
{
    let chars = chars_of(path);
    if chars.len() > 0 && (chars[0] == '/' || chars[0] == '\\') {
        return true;
    }
    let colon = crate::text::find_char(&chars, 0, ':');
    if colon == 0 || colon >= chars.len() {
        return false;
    }
    let mut i: usize = 0;
    while i < colon
        invariant
            0 < colon < chars@.len(),
            i <= colon,
            chars@ == path@,
            colon == index_of(path@, 0, ':'),
            path@[0] != '/' && path@[0] != '\\',
            forall|k: int| 0 <= k < i ==> is_scheme_char(#[trigger] path@[k]),
        decreases colon - i,
    {
        let c = chars[i];
        let fits = ('a' <= c && c <= 'z') || ('A' <= c && c <= 'Z') || ('0' <= c && c <= '9') || c
            == '+' || c == '-' || c == '.';
        if !fits {
            assert(!is_scheme_char(path@[i as int]));
            return false;
        }
        i = i + 1;
    }
    true
}

/// The asset paths of a list that name something.
pub open spec fn naming(assets: Seq<Seq<char>>) -> Seq<Seq<char>>
    decreases assets.len(),
{
    if assets.len() == 0 {
        seq![]
    } else if assets.last().len() == 0 {
        naming(assets.drop_last())
    } else {
        naming(assets.drop_last()).push(assets.last())
    }
}

/// A report with what is to be said of each asset path of a list: that the
/// layer refers to it, and, where `anchoring`, that one is not anchored.
pub open spec fn with_assets(
    report: ReportView,
    path: Seq<char>,
    assets: Seq<Seq<char>>,
    anchoring: bool,
    source: Option<(LayerId, Seq<char>)>,
) -> ReportView
    decreases assets.len(),
{
    if assets.len() == 0 {
        report
    } else {
        let earlier = with_assets(report, path, assets.drop_last(), anchoring, source);
        let checked = if anchoring && !is_absolute_asset(assets.last()) {
            lost(earlier, path, Loss::UnanchoredAssetPath, source)
        } else {
            earlier
        };
        noted(checked, path, KindView::External(assets.last()), source)
    }
}

/// A report with what is to be said of the asset paths in a value, each once.
pub open spec fn assets_noted(
    report: ReportView,
    path: Seq<char>,
    value: ValueView,
    anchoring: bool,
    source: Option<(LayerId, Seq<char>)>,
) -> ReportView {
    with_assets(
        report,
        path,
        with_entries(seq![], naming(assets_in(value))),
        anchoring,
        source,
    )
}

/// Records the asset paths in a value.
pub fn note_assets(
    report: &mut FlattenReport,
    path: &str,
    value: &Value,
    anchoring: bool,
    source: &Option<FindingSource>,
)
    ensures
        final(report)@ == assets_noted(
            old(report)@,
            path@,
            value.view(),
            anchoring,
            source_option(*source),
        ),
{
    let mut found: Vec<String> = Vec::new();
    asset_paths(value, &mut found);
    let ghost all = assets_in(value.view());
    assert(texts(found@) =~= all);
    let mut seen: Vec<String> = Vec::new();
    let mut i: usize = 0;
    assert(all.take(0) =~= seq![]);
    assert(texts(seen@) =~= seq![]);
    while i < found.len()
        invariant
            i <= found@.len(),
            all == texts(found@),
            texts(seen@) == with_entries(seq![], naming(all.take(i as int))),
        decreases found@.len() - i,
    {
        proof {
            assert(all.take(i + 1).drop_last() =~= all.take(i as int));
            assert(all.take(i + 1).last() == found@[i as int]@);
        }
        if !is_empty_text(found[i].as_str()) {
            proof {
                let earlier = naming(all.take(i as int));
                assert(earlier.push(found@[i as int]@).drop_last() =~= earlier);
            }
            enter_text(&mut seen, found[i].as_str());
        }
        i = i + 1;
    }
    assert(all.take(i as int) =~= all);
    let ghost list = texts(seen@);
    let ghost before = report@;
    i = 0;
    assert(list.take(0) =~= seq![]);
    while i < seen.len()
        invariant
            i <= seen@.len(),
            list == texts(seen@),
            report@ == with_assets(
                before,
                path@,
                list.take(i as int),
                anchoring,
                source_option(*source),
            ),
        decreases seen@.len() - i,
    {
        let asset = seen[i].as_str();
        proof {
            assert(list.take(i + 1).drop_last() =~= list.take(i as int));
            assert(list.take(i + 1).last() == asset@);
        }
        if anchoring && !is_absolute_asset_path(asset) {
            note(report, path, FindingKind::Lost(Loss::UnanchoredAssetPath), copy_source(source));
        }
        note(
            report,
            path,
            FindingKind::External(ExternalDependency::AssetPath(text(asset))),
            copy_source(source),
        );
        i = i + 1;
    }
    assert(list.take(i as int) =~= list);
}

/// Whether a text has no characters.
fn is_empty_text(s: &str) -> (yes: bool)
    ensures
        yes == (s@.len() == 0),
{
    chars_of(s).len() == 0
}

/// How paths beneath an instance map onto the prototype that stands for it.
#[derive(Clone, Copy, Debug, PartialEq, Eq, Structural)]
pub struct Remap {
    pub from: PathId,
    pub to: PathId,
}

/// The prim of a target.
pub open spec fn target_prim(target: TargetPath) -> PathId {
    match target {
        TargetPath::Prim(prim) => prim,
        TargetPath::Property(property) => property.prim_path,
    }
}

/// A target on another prim.
pub open spec fn retargeted(target: TargetPath, prim: PathId) -> TargetPath {
    match target {
        TargetPath::Prim(_) => TargetPath::Prim(prim),
        TargetPath::Property(property) => TargetPath::Property(
            PropertyPath { prim_path: prim, property: property.property },
        ),
    }
}

/// A target beneath the instance that a prototype copies, as the target
/// beneath the prototype; any other as it is, one whose path is not interned
/// too. The paths are those interned, with that of the new target among them.
pub open spec fn remapped(
    target: TargetPath,
    remap: Option<Remap>,
    paths: Seq<Seq<TokenId>>,
) -> (TargetPath, Seq<Seq<TokenId>>) {
    match remap {
        None => (target, paths),
        Some(remap) => {
            let from = paths[remap.from.index as int];
            let prim = paths[target_prim(target).index as int];
            if target_prim(target).index < paths.len() && from.is_prefix_of(prim) {
                let mapped = paths[remap.to.index as int] + prim.skip(from.len() as int);
                (
                    retargeted(
                        target,
                        PathId { index: first_position(paths, mapped) as usize },
                    ),
                    with_entry(paths, mapped),
                )
            } else {
                (target, paths)
            }
        },
    }
}

/// The targets of a list, each remapped in turn.
pub open spec fn all_remapped(
    targets: Seq<TargetPath>,
    remap: Option<Remap>,
    paths: Seq<Seq<TokenId>>,
) -> (Seq<TargetPath>, Seq<Seq<TokenId>>)
    decreases targets.len(),
{
    if targets.len() == 0 {
        (seq![], paths)
    } else {
        let earlier = all_remapped(targets.drop_last(), remap, paths);
        let last = remapped(targets.last(), remap, earlier.1);
        (earlier.0.push(last.0), last.1)
    }
}

/// Whether every name of every path is that of a token.
pub open spec fn paths_named(paths: Seq<Seq<TokenId>>, tokens: Seq<Seq<char>>) -> bool {
    forall|i: int| 0 <= i < paths.len() ==> all_known(#[trigger] paths[i], tokens)
}

/// Whether the later paths are named wherever the earlier ones are.
pub open spec fn keeps_names(after: Seq<Seq<TokenId>>, before: Seq<Seq<TokenId>>) -> bool {
    forall|tokens: Seq<Seq<char>>| #[trigger]
        paths_named(after, tokens) || !paths_named(before, tokens)
}

pub proof fn lemma_entry_named(paths: Seq<Seq<TokenId>>, path: Seq<TokenId>, tokens: Seq<Seq<char>>)
    requires
        paths_named(paths, tokens),
        all_known(path, tokens),
    ensures
        paths_named(with_entry(paths, path), tokens),
{
    let after = with_entry(paths, path);
    assert forall|i: int| 0 <= i < after.len() implies all_known(#[trigger] after[i], tokens) by {
        if i < paths.len() {
            assert(after[i] == paths[i]);
        }
    }
}

/// Whether the paths of a remapping are interned.
pub open spec fn remap_known(remap: Option<Remap>, count: nat) -> bool {
    remap matches Some(remap) ==> remap.from.index < count && remap.to.index < count
}

/// Maps a target beneath the instance that a prototype copies onto the
/// prototype.
pub fn remap_target(target: TargetPath, remap: Option<Remap>, paths: &mut PathInterner) -> (out:
    TargetPath)
    requires
        remap_known(remap, old(paths)@.len()),
    ensures
        (out, final(paths)@) == remapped(target, remap, old(paths)@),
        extends(final(paths)@, old(paths)@),
        keeps_names(final(paths)@, old(paths)@),
{
    let remap = match remap {
        Some(remap) => remap,
        None => {
            return target;
        },
    };
    let prim = match target {
        TargetPath::Prim(prim) => prim,
        TargetPath::Property(property) => property.prim_path,
    };
    if prim.index >= paths.len() {
        return target;
    }
    let rest = match paths.resolve(prim).strip_prefix(paths.resolve(remap.from)) {
        Some(rest) => rest,
        None => {
            return target;
        },
    };
    let mapped = paths.resolve(remap.to).join(rest.as_slice());
    proof {
        let before = paths@;
        assert forall|tokens: Seq<Seq<char>>|
            #![trigger paths_named(with_entry(before, mapped@), tokens)]
            paths_named(before, tokens) implies paths_named(
            with_entry(before, mapped@),
            tokens,
        ) by {
            let whole = before[prim.index as int];
            let onto = before[remap.to.index as int];
            let from = before[remap.from.index as int];
            assert(all_known(whole, tokens) && all_known(onto, tokens));
            assert forall|i: int| 0 <= i < mapped@.len() implies (#[trigger] mapped@[i]).index
                < tokens.len() by {
                if i < onto.len() {
                    assert(mapped@[i] == onto[i]);
                } else {
                    assert(mapped@[i] == whole[i - onto.len() + from.len()]);
                }
            }
            lemma_entry_named(before, mapped@, tokens);
        }
    }
    let id = paths.intern(mapped);
    match target {
        TargetPath::Prim(_) => TargetPath::Prim(id),
        TargetPath::Property(property) => TargetPath::Property(
            PropertyPath::new(id, property.property),
        ),
    }
}

/// Maps each target of a list.
pub fn remap_targets(targets: &Vec<TargetPath>, remap: Option<Remap>, paths: &mut PathInterner) -> (
out: Vec<TargetPath>)
    requires
        remap_known(remap, old(paths)@.len()),
    ensures
        (out@, final(paths)@) == all_remapped(targets@, remap, old(paths)@),
        extends(final(paths)@, old(paths)@),
        keeps_names(final(paths)@, old(paths)@),
{
    let ghost before = paths@;
    let mut out: Vec<TargetPath> = Vec::new();
    let mut i: usize = 0;
    assert(targets@.take(0) =~= seq![]);
    assert(out@ =~= seq![]);
    while i < targets.len()
        invariant
            i <= targets@.len(),
            remap_known(remap, before.len()),
            (out@, paths@) == all_remapped(targets@.take(i as int), remap, before),
            extends(paths@, before),
            keeps_names(paths@, before),
        decreases targets@.len() - i,
    {
        proof {
            assert(targets@.take(i + 1).drop_last() =~= targets@.take(i as int));
            assert(targets@.take(i + 1).last() == targets@[i as int]);
        }
        let target = targets[i];
        let mapped = remap_target(target, remap, paths);
        out.push(mapped);
        i = i + 1;
    }
    assert(targets@.take(i as int) =~= targets@);
    out
}

/// A target as an item of a list.
pub open spec fn target_item() -> spec_fn(TargetPath) -> ItemView {
    |target: TargetPath| ItemView::Target(target)
}

/// A token as an item of a list.
pub open spec fn token_item() -> spec_fn(TokenId) -> ItemView {
    |token: TokenId| ItemView::Token(token)
}

/// The value as an item of a list of a kind, where it is one.
pub open spec fn item_of_kind(kind: ListKind, value: ValueView) -> Option<ItemView> {
    match (kind, value) {
        (ListKind::Ints, ValueView::Int(n)) => Some(ItemView::Int(n)),
        (ListKind::UInts, ValueView::UInt(n)) => Some(ItemView::UInt(n)),
        (ListKind::Int64s, ValueView::Int64(n)) => Some(ItemView::Int64(n)),
        (ListKind::UInt64s, ValueView::UInt64(n)) => Some(ItemView::UInt64(n)),
        (ListKind::Texts, ValueView::Text(s)) => Some(ItemView::Text(s)),
        _ => None,
    }
}

/// The values that are items of a list of a kind, as items.
pub open spec fn items_of_kind(kind: ListKind, values: Seq<ValueView>) -> Seq<ItemView>
    decreases values.len(),
{
    if values.len() == 0 {
        seq![]
    } else {
        let earlier = items_of_kind(kind, values.drop_last());
        match item_of_kind(kind, values.last()) {
            Some(item) => earlier.push(item),
            None => earlier,
        }
    }
}

/// The kind of list that values are written as: that of the field that
/// authors them where it is one of numbers, else one of texts.
pub open spec fn value_kind(authored: Option<FieldView>) -> ListKind {
    match authored {
        Some(FieldView::List(ListKind::Ints, _)) => ListKind::Ints,
        Some(FieldView::List(ListKind::UInts, _)) => ListKind::UInts,
        Some(FieldView::List(ListKind::Int64s, _)) => ListKind::Int64s,
        Some(FieldView::List(ListKind::UInt64s, _)) => ListKind::UInt64s,
        _ => ListKind::Texts,
    }
}

/// A resolved metadata value as the explicit field that authors it, with the
/// paths that are interned then.
pub open spec fn field_written(
    resolved: ResolvedView,
    authored: Option<FieldView>,
    remap: Option<Remap>,
    paths: Seq<Seq<TokenId>>,
) -> (FieldView, Seq<Seq<TokenId>>) {
    match resolved {
        ResolvedView::Scalar(value) => (FieldView::Value(value), paths),
        ResolvedView::Dictionary(entries) => (
            FieldView::Value(ValueView::Dictionary(entries)),
            paths,
        ),
        ResolvedView::TokenList(items) => (
            FieldView::List(ListKind::Tokens, explicit_list(items.map_values(token_item()))),
            paths,
        ),
        ResolvedView::PathList(items) => {
            let mapped = all_remapped(items, remap, paths);
            (
                FieldView::List(
                    ListKind::Targets,
                    explicit_list(mapped.0.map_values(target_item())),
                ),
                mapped.1,
            )
        },
        ResolvedView::ValueList(items) => {
            let kind = value_kind(authored);
            (FieldView::List(kind, explicit_list(items_of_kind(kind, items))), paths)
        },
    }
}

/// The targets as a list edit that replaces what is weaker.
pub fn explicit_targets(targets: &Vec<TargetPath>) -> (op: ListOp)
    ensures
        op@ == explicit_list(targets@.map_values(target_item())),
{
    let mut items: Vec<ListItem> = Vec::new();
    let mut i: usize = 0;
    while i < targets.len()
        invariant
            i <= targets@.len(),
            items_view(items@) == targets@.take(i as int).map_values(target_item()),
        decreases targets@.len() - i,
    {
        let ghost had = items@;
        items.push(ListItem::Target(targets[i]));
        proof {
            assert(items_view(items@) =~= items_view(had).push(ItemView::Target(targets@[i as int])));
            assert(targets@.take(i + 1).map_values(target_item()) =~= targets@.take(
                i as int,
            ).map_values(target_item()).push(ItemView::Target(targets@[i as int])));
        }
        i = i + 1;
    }
    assert(targets@.take(i as int) =~= targets@);
    ListOp::replace_with(items)
}

/// A resolved metadata value as the explicit field that authors it.
pub fn field_value(
    resolved: ResolvedValue,
    authored: Option<&FieldValue>,
    remap: Option<Remap>,
    paths: &mut PathInterner,
) -> (out: FieldValue)
    requires
        remap_known(remap, old(paths)@.len()),
    ensures
        (out@, final(paths)@) == field_written(
            resolved@,
            crate::fields::field_ref(authored),
            remap,
            old(paths)@,
        ),
        extends(final(paths)@, old(paths)@),
        keeps_names(final(paths)@, old(paths)@),
{
    match resolved {
        ResolvedValue::Scalar(value) => FieldValue::Value(value),
        ResolvedValue::Dictionary(entries) => FieldValue::Value(Value::Dictionary(entries)),
        ResolvedValue::TokenList(tokens) => {
            let mut items: Vec<ListItem> = Vec::new();
            let mut i: usize = 0;
            while i < tokens.len()
                invariant
                    i <= tokens@.len(),
                    items_view(items@) == tokens@.take(i as int).map_values(token_item()),
                decreases tokens@.len() - i,
            {
                let ghost had = items@;
                items.push(ListItem::Token(tokens[i]));
                proof {
                    assert(items_view(items@) =~= items_view(had).push(
                        ItemView::Token(tokens@[i as int]),
                    ));
                    assert(tokens@.take(i + 1).map_values(token_item()) =~= tokens@.take(
                        i as int,
                    ).map_values(token_item()).push(ItemView::Token(tokens@[i as int])));
                }
                i = i + 1;
            }
            assert(tokens@.take(i as int) =~= tokens@);
            FieldValue::List(ListKind::Tokens, ListOp::replace_with(items))
        },
        ResolvedValue::PathList(targets) => {
            let mapped = remap_targets(&targets, remap, paths);
            FieldValue::List(ListKind::Targets, explicit_targets(&mapped))
        },
        ResolvedValue::ValueList(values) => {
            let kind = match authored {
                Some(FieldValue::List(ListKind::Ints, _)) => ListKind::Ints,
                Some(FieldValue::List(ListKind::UInts, _)) => ListKind::UInts,
                Some(FieldValue::List(ListKind::Int64s, _)) => ListKind::Int64s,
                Some(FieldValue::List(ListKind::UInt64s, _)) => ListKind::UInt64s,
                _ => ListKind::Texts,
            };
            let items = list_items(kind, &values);
            FieldValue::List(kind, ListOp::replace_with(items))
        },
    }
}

/// The values that are items of a list of a kind, as items.
fn list_items(kind: ListKind, values: &Vec<Value>) -> (items: Vec<ListItem>)
    ensures
        items_view(items@) == items_of_kind(kind, values_view(values@)),
{
    proof {
        lemma_values_view(values@);
    }
    let ghost all = values_view(values@);
    let mut items: Vec<ListItem> = Vec::new();
    let mut i: usize = 0;
    assert(all.take(0) =~= seq![]);
    assert(items_view(items@) =~= seq![]);
    while i < values.len()
        invariant
            i <= values@.len(),
            all == values_view(values@),
            all.len() == values@.len(),
            forall|k: int| 0 <= k < values@.len() ==> #[trigger] all[k] == values@[k].view(),
            items_view(items@) == items_of_kind(kind, all.take(i as int)),
        decreases values@.len() - i,
    {
        proof {
            assert(all.take(i + 1).drop_last() =~= all.take(i as int));
            assert(all.take(i + 1).last() == values@[i as int].view());
        }
        let item = match (kind, &values[i]) {
            (ListKind::Ints, Value::Int(n)) => Some(ListItem::Int(*n)),
            (ListKind::UInts, Value::UInt(n)) => Some(ListItem::UInt(*n)),
            (ListKind::Int64s, Value::Int64(n)) => Some(ListItem::Int64(*n)),
            (ListKind::UInt64s, Value::UInt64(n)) => Some(ListItem::UInt64(*n)),
            (ListKind::Texts, Value::String(s)) => Some(ListItem::Text(text(s.as_str()))),
            _ => None,
        };
        match item {
            Some(item) => {
                let ghost had = items@;
                items.push(item);
                assert(items_view(items@) =~= items_view(had).push(item@));
            },
            None => {},
        }
        i = i + 1;
    }
    assert(all.take(i as int) =~= all);
    items
}

/// Whether an authored field is written as it is authored: a plain value, or a
/// list that is explicit.
pub open spec fn is_explicit_field(field: FieldView) -> bool {
    match field {
        FieldView::Value(_) => true,
        FieldView::List(_, op) => op.explicit is Some,
    }
}

/// Whether an authored field is written as it is authored.
pub fn is_explicit(field: &FieldValue) -> (yes: bool)
    ensures
        yes == is_explicit_field(field@),
{
    match field {
        FieldValue::Value(_) => true,
        FieldValue::List(_, op) => op.explicit.is_some(),
    }
}

/// A target that does not lie beneath the instance stays as it is.
pub proof fn law_remapping_leaves_others_alone(
    target: TargetPath,
    remap: Remap,
    paths: Seq<Seq<TokenId>>,
)
    requires
        !paths[remap.from.index as int].is_prefix_of(paths[target_prim(target).index as int]),
    ensures
        remapped(target, Some(remap), paths) == (target, paths),
{
}

/// A target at or beneath the remapped prim is remapped to the same place at or
/// beneath the other prim, with its property.
pub proof fn law_remapping_moves_what_lies_beneath(
    target: TargetPath,
    remap: Remap,
    paths: Seq<Seq<TokenId>>,
)
    requires
        target_prim(target).index < paths.len(),
        paths.len() < usize::MAX,
        paths[remap.from.index as int].is_prefix_of(paths[target_prim(target).index as int]),
    ensures
        ({
            let (out, after) = remapped(target, Some(remap), paths);
            let from = paths[remap.from.index as int];
            let prim = paths[target_prim(target).index as int];
            let id = match out {
                TargetPath::Prim(id) => id,
                TargetPath::Property(property) => property.prim_path,
            };
            &&& id.index < after.len()
            &&& after[id.index as int] == paths[remap.to.index as int] + prim.skip(
                from.len() as int,
            )
            &&& target is Prim <==> out is Prim
            &&& target matches TargetPath::Property(property) ==> (out matches TargetPath::Property(
                moved,
            ) && moved.property == property.property)
            &&& forall|i: int| 0 <= i < paths.len() ==> #[trigger] after[i] == paths[i]
        }),
{
    let from = paths[remap.from.index as int];
    let prim = paths[target_prim(target).index as int];
    let mapped = paths[remap.to.index as int] + prim.skip(from.len() as int);
    crate::interner::lemma_with_entry(paths, mapped);
    crate::interner::lemma_first_position(paths, mapped);
}

/// The asset paths of a value are those of the assets that it holds, in its
/// arrays and dictionaries too.
pub proof fn law_assets_are_found_everywhere(value: ValueView, i: int, path: Seq<char>)
    ensures
        value == ValueView::Asset(path) ==> assets_in(value).contains(path),
        value matches ValueView::Array(items) ==> 0 <= i < items.len() ==> assets_in(
            items[i],
        ).contains(path) ==> assets_in(value).contains(path),
        value matches ValueView::Dictionary(entries) ==> 0 <= i < entries.len() ==> assets_in(
            entries[i].1,
        ).contains(path) ==> assets_in(value).contains(path),
{
    if value is Asset {
        assert(assets_in(value)[0] == value->Asset_0);
    }
    match value {
        ValueView::Array(items) => if 0 <= i < items.len() && assets_in(items[i]).contains(path) {
            lemma_item_assets(items, i, path);
        },
        ValueView::Dictionary(entries) => if 0 <= i < entries.len() && assets_in(
            entries[i].1,
        ).contains(path) {
            lemma_entry_assets(entries, i, path);
        },
        _ => {},
    }
}

proof fn lemma_item_assets(items: Seq<ValueView>, i: int, path: Seq<char>)
    requires
        0 <= i < items.len(),
        assets_in(items[i]).contains(path),
    ensures
        assets_of_values(items).contains(path),
    decreases items.len(),
{
    let before = assets_of_values(items.drop_last());
    let out = assets_of_values(items);
    if i < items.len() - 1 {
        assert(items.drop_last()[i] == items[i]);
        lemma_item_assets(items.drop_last(), i, path);
        let k = choose|k: int| 0 <= k < before.len() && before[k] == path;
        assert(out[k] == path);
    } else {
        let own = assets_in(items.last());
        let k = choose|k: int| 0 <= k < own.len() && own[k] == path;
        assert(out[before.len() + k] == path);
    }
}

proof fn lemma_entry_assets(entries: Seq<(Seq<char>, ValueView)>, i: int, path: Seq<char>)
    requires
        0 <= i < entries.len(),
        assets_in(entries[i].1).contains(path),
    ensures
        assets_of_entries(entries).contains(path),
    decreases entries.len(),
{
    let before = assets_of_entries(entries.drop_last());
    let out = assets_of_entries(entries);
    if i < entries.len() - 1 {
        assert(entries.drop_last()[i] == entries[i]);
        lemma_entry_assets(entries.drop_last(), i, path);
        let k = choose|k: int| 0 <= k < before.len() && before[k] == path;
        assert(out[k] == path);
    } else {
        let own = assets_in(entries.last().1);
        let k = choose|k: int| 0 <= k < own.len() && own[k] == path;
        assert(out[before.len() + k] == path);
    }
}

/// Every asset path that a value names is noted as external, at its object and
/// with its source; and one that is not absolute as not anchored, where asset
/// paths are to be anchored.
pub proof fn law_assets_are_noted(
    report: ReportView,
    path: Seq<char>,
    assets: Seq<Seq<char>>,
    anchoring: bool,
    source: Option<(LayerId, Seq<char>)>,
    i: int,
)
    requires
        0 <= i < assets.len(),
    ensures
        ({
            let out = with_assets(report, path, assets, anchoring, source).findings;
            &&& out.contains(
                FindingView {
                    path: object_of(path),
                    kind: KindView::External(assets[i]),
                    source,
                },
            )
            &&& anchoring && !is_absolute_asset(assets[i]) ==> out.contains(
                FindingView {
                    path: object_of(path),
                    kind: KindView::Lost(Loss::UnanchoredAssetPath),
                    source,
                },
            )
        }),
    decreases assets.len(),
{
    let rest = assets.drop_last();
    let before = with_assets(report, path, rest, anchoring, source).findings;
    let out = with_assets(report, path, assets, anchoring, source).findings;
    let external = FindingView {
        path: object_of(path),
        kind: KindView::External(assets[i]),
        source,
    };
    let loss = FindingView {
        path: object_of(path),
        kind: KindView::Lost(Loss::UnanchoredAssetPath),
        source,
    };
    if i < rest.len() {
        assert(rest[i] == assets[i]);
        law_assets_are_noted(report, path, rest, anchoring, source, i);
        let k = choose|k: int| 0 <= k < before.len() && before[k] == external;
        assert(out[k] == external);
        if anchoring && !is_absolute_asset(assets[i]) {
            let l = choose|l: int| 0 <= l < before.len() && before[l] == loss;
            assert(out[l] == loss);
        }
    } else {
        assert(out[out.len() - 1] == external);
        if anchoring && !is_absolute_asset(assets[i]) {
            assert(out[before.len() as int] == loss);
        }
    }
}

/// An asset path is absolute where it starts with a slash of either kind, or
/// with a scheme: letters, digits, `+`, `-` and `.`, at least one, up to its
/// first colon.
pub proof fn law_absolute_asset_paths(path: Seq<char>, colon: int)
    requires
        path.len() > 0,
    ensures
        path[0] == '/' || path[0] == '\\' ==> is_absolute_asset(path),
        0 < colon < path.len() && path[colon] == ':' && (forall|i: int|
            0 <= i < colon ==> ('a' <= #[trigger] path[i] <= 'z' || 'A' <= path[i] <= 'Z' || '0'
                <= path[i] <= '9' || path[i] == '+' || path[i] == '-' || path[i] == '.'))
            ==> is_absolute_asset(path),
        path[0] != '/' && path[0] != '\\' && (forall|i: int|
            0 <= i < path.len() ==> #[trigger] path[i] != ':') ==> !is_absolute_asset(path),
{
    crate::text::lemma_index_of(path, 0, ':');
    let at = index_of(path, 0, ':');
    if 0 < colon < path.len() && path[colon] == ':' && (forall|i: int|
        0 <= i < colon ==> ('a' <= #[trigger] path[i] <= 'z' || 'A' <= path[i] <= 'Z' || '0'
            <= path[i] <= '9' || path[i] == '+' || path[i] == '-' || path[i] == '.')) {
        if at < colon {
            assert(path[at] == ':');
        }
        assert(at == colon);
    }
}

/// A field is written so that it reads back what was resolved: a value as
/// itself, tokens and targets as a replacement that lists them.
pub proof fn law_fields_are_written_as_resolved(
    resolved: ResolvedView,
    authored: Option<FieldView>,
    remap: Option<Remap>,
    paths: Seq<Seq<TokenId>>,
    i: int,
)
    ensures
        ({
            let (field, after) = field_written(resolved, authored, remap, paths);
            &&& resolved matches ResolvedView::Scalar(value) ==> field == FieldView::Value(value)
                && after == paths
            &&& resolved matches ResolvedView::Dictionary(entries) ==> field == FieldView::Value(
                ValueView::Dictionary(entries),
            ) && after == paths
            &&& resolved matches ResolvedView::TokenList(items) ==> (field matches FieldView::List(
                ListKind::Tokens,
                op,
            ) && (op.explicit matches Some(listed) && listed.len() == items.len() && (0 <= i
                < items.len() ==> listed[i] == ItemView::Token(items[i]))))
            &&& resolved matches ResolvedView::PathList(items) ==> remap is None ==> (
            field matches FieldView::List(ListKind::Targets, op) && (op.explicit matches Some(
                listed,
            ) && listed.len() == items.len() && (0 <= i < items.len() ==> listed[i]
                == ItemView::Target(items[i]))))
        }),
{
    if resolved is PathList && remap is None {
        lemma_unmapped(resolved->PathList_0, paths);
    }
}

proof fn lemma_unmapped(targets: Seq<TargetPath>, paths: Seq<Seq<TokenId>>)
    ensures
        all_remapped(targets, None, paths) == (targets, paths),
    decreases targets.len(),
{
    if targets.len() > 0 {
        lemma_unmapped(targets.drop_last(), paths);
        assert(targets.drop_last().push(targets.last()) =~= targets);
    } else {
        assert(all_remapped(targets, None, paths).0 =~= targets);
    }
}

} // verus!
