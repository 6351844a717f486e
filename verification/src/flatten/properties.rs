//! How a composed property is written.

use crate::arrays::fill_of;
use crate::doc::{Value, ValueView};
use crate::fields::{
    explicit_list, fields_view, FieldEntry, FieldValue, FieldView, ItemView, TargetPath,
};
use crate::flatten::report::{
    copy_source, counted, source_option, FindingKind, FindingSource, FlattenReport,
    Loss, Preserved, ReportView, Transformation, TransformationView,
};
use crate::flatten::values::{
    all_remapped, assets_noted, explicit_targets, field_value, field_written, is_explicit,
    is_explicit_field, keeps_names, lost, note, note_assets, remap_known, remap_targets, target_item,
    transformed, Remap,
};
use crate::interner::{
    extends, lemma_first_position_unique, with_entries, with_entry, TokenId, TokenInterner,
};
use crate::lists::law_explicit_list_reads_back;
use crate::opinion::{
    declared_type, default_place, find_declared_type, find_default, opinions_view, Opinion,
    OpinionValueView, OpinionView,
};
use crate::order::{compare_text, order_text, Order};
use crate::path::{PathId, PathInterner};
use crate::prim_index::{LayerId, LayerOffset};
use crate::property::{
    empty_property, property_option, samples_view, PropertyKind, PropertySpec, PropertyView,
    TimeSample,
};
use crate::resolution::{
    default_fits, declared_as, fold_ref, lemma_targets_of_targets, metadata_field, metadata_place, resolve_declaration, resolve_metadata,
    resolve_targets, resolve_value, resolved_metadata, resolved_value,
    target_edits, targets_among, targets_of, targets_place, ExpressionFold, FoldView, Outcome, ResolvedValue, ResolvedView,
};
use crate::sorting::{sort_stable, stable_sorted};
use crate::spec_path::{components_known, pieces_of, written};
use crate::stage::fallback::is_value_chain;
use crate::stage::{as_value, Lookup, ProvenanceView, StageView};
use crate::stage_time::{
    all_in_stage_time, in_stage_time, is_retimed, lemma_read_fits, opinions_in_stage_time,
    property_retimed, retime_value, retiming,
};
use crate::text::text;
use crate::times::{stage_time, TimeTable, Times};
use vstd::prelude::*;

verus! {

/// What writing a prim or a property reads besides the opinions.
#[derive(Clone, Copy, Debug)]
pub struct Writing<'a> {
    pub tokens: &'a TokenInterner,
    /// How layer times map to stage times.
    pub times: &'a TimeTable,
    /// Whether asset paths that are not anchored are reported.
    pub anchoring: bool,
    /// How targets are mapped, in a prototype.
    pub remap: Option<Remap>,
}

/// The mathematical value of a [`Writing`].
pub struct WritingView {
    pub tokens: Seq<Seq<char>>,
    pub times: Times,
    pub anchoring: bool,
    pub remap: Option<Remap>,
}

impl<'a> View for Writing<'a> {
    type V = WritingView;

    open spec fn view(&self) -> WritingView {
        WritingView {
            tokens: self.tokens@,
            times: self.times@,
            anchoring: self.anchoring,
            remap: self.remap,
        }
    }
}

/// How far writing has come: the paths interned, and the report.
#[verifier::ext_equal]
pub struct Progress {
    pub paths: Seq<Seq<TokenId>>,
    pub report: ReportView,
}

/// Whether the names that writing an opinion reads are those of tokens.
pub open spec fn opinion_known(opinion: OpinionView, tokens: Seq<Seq<char>>) -> bool {
    &&& components_known(opinion.key.spec_path.components, tokens)
    &&& opinion.field.index < tokens.len()
    &&& opinion.value matches OpinionValueView::Property(spec) ==> names_known(
        spec.metadata,
        tokens,
    )
}

/// Whether the names of a list of fields are those of tokens.
pub open spec fn names_known(fields: Seq<(TokenId, FieldView)>, tokens: Seq<Seq<char>>) -> bool {
    forall|i: int| 0 <= i < fields.len() ==> (#[trigger] fields[i]).0.index < tokens.len()
}

/// Whether the names that writing a chain of opinions reads are those of
/// tokens.
pub open spec fn chain_known(opinions: Seq<OpinionView>, tokens: Seq<Seq<char>>) -> bool {
    forall|i: int| 0 <= i < opinions.len() ==> opinion_known(#[trigger] opinions[i], tokens)
}

/// The layer and the spec of an opinion.
pub open spec fn opinion_source(
    opinion: OpinionView,
    property: bool,
    tokens: Seq<Seq<char>>,
) -> (LayerId, Seq<char>) {
    (
        opinion.key.layer_id,
        seq!['/'] + written(
            pieces_of(opinion.key.spec_path.components, tokens),
            false,
            if property {
                Some(tokens[opinion.field.index as int])
            } else {
                None
            },
        ),
    )
}

/// The layer and the spec of an opinion, for a finding.
pub fn finding_source(opinion: &Opinion, property: bool, tokens: &TokenInterner) -> (out:
    FindingSource)
    requires
        opinion_known(opinion@, tokens@),
    ensures
        (out.layer, out.spec@) == opinion_source(opinion@, property, tokens@),
{
    let spec = if property {
        opinion.key.spec_path.with_property(opinion.field)
    } else {
        opinion.key.spec_path.prim_spec()
    };
    FindingSource { layer: opinion.key.layer_id, spec: spec.display(tokens) }
}

/// A count and some more, as far as a count can go.
fn count_more(count: usize, more: usize) -> (out: usize)
    ensures
        out == counted(count, more as nat),
{
    if more <= usize::MAX - count {
        count + more
    } else {
        usize::MAX
    }
}

/// A report that counts one more metadata field written exactly.
pub open spec fn field_preserved(report: ReportView) -> ReportView {
    ReportView {
        preserved: Preserved {
            metadata_fields: counted(report.preserved.metadata_fields, 1),
            ..report.preserved
        },
        ..report
    }
}

/// Counts one more metadata field written exactly.
pub fn preserve_field(report: &mut FlattenReport)
    ensures
        final(report)@ == field_preserved(old(report)@),
{
    report.preserved.metadata_fields = count_more(report.preserved.metadata_fields, 1);
}

/// Whether the default that an opinion authors holds times that its offset
/// moves.
pub open spec fn default_retimed(opinion: OpinionView, times: Times) -> bool {
    match opinion.value.default_value() {
        Some(value) => retiming(value, opinion.layer_offset, times) is Some,
        None => false,
    }
}

/// Records that the default of an opinion holds times that were moved into
/// stage time. Returns `true` when it holds none, so that the value is written
/// as it is authored.
pub fn note_retimed(
    report: &mut FlattenReport,
    path: &str,
    opinion: &Opinion,
    source: &Option<FindingSource>,
    times: &TimeTable,
) -> (as_authored: bool)
    ensures
        as_authored == !default_retimed(opinion@, times@),
        final(report)@ == (if default_retimed(opinion@, times@) {
            transformed(
                old(report)@,
                path@,
                TransformationView::TimeCodesRetimed { offset: opinion.layer_offset },
                source_option(*source),
            )
        } else {
            old(report)@
        }),
{
    let value = match opinion.value.default_value() {
        Some(value) => value,
        None => {
            return true;
        },
    };
    match retime_value(value, opinion.layer_offset, times) {
        None => true,
        Some(_) => {
            note(
                report,
                path,
                FindingKind::Transformed(
                    Transformation::TimeCodesRetimed { offset: opinion.layer_offset },
                ),
                copy_source(source),
            );
            false
        },
    }
}

// ── Metadata ────────────────────────────────────────────────────────────

/// The names of the metadata that a chain of opinions authors, each once, the
/// strongest first.
pub open spec fn metadata_keys(opinions: Seq<OpinionView>) -> Seq<TokenId>
    decreases opinions.len(),
{
    if opinions.len() == 0 {
        seq![]
    } else {
        let earlier = metadata_keys(opinions.drop_last());
        match opinions.last().value {
            OpinionValueView::Property(spec) => with_entries(earlier, field_names(spec.metadata)),
            OpinionValueView::Field(_) => earlier,
        }
    }
}

/// The names of a list of fields.
pub open spec fn field_names(fields: Seq<(TokenId, FieldView)>) -> Seq<TokenId> {
    fields.map_values(|f: (TokenId, FieldView)| f.0)
}

/// The order of tokens by their texts.
pub open spec fn by_text(tokens: Seq<Seq<char>>) -> spec_fn(TokenId, TokenId) -> bool {
    |a: TokenId, b: TokenId|
        order_text(tokens[a.index as int], tokens[b.index as int]) == Order::Less
}

/// Sorts tokens by their texts.
pub fn sort_tokens(list: &mut Vec<TokenId>, tokens: &TokenInterner)
    requires
        forall|i: int| 0 <= i < old(list)@.len() ==> (#[trigger] old(list)@[i]).index < tokens@.len(),
    ensures
        final(list)@ == stable_sorted(old(list)@, by_text(tokens@)),
        forall|i: int|
            0 <= i < final(list)@.len() ==> (#[trigger] final(list)@[i]).index < tokens@.len(),
{
    let before = |a: &TokenId, b: &TokenId| -> (first: bool)
        requires
            a.index < tokens@.len(),
            b.index < tokens@.len(),
        ensures
            first == (order_text(tokens@[a.index as int], tokens@[b.index as int])
                == Order::Less),
    {
        compare_text(tokens.resolve(*a), tokens.resolve(*b)) == Order::Less
    };
    let ghost given = list@;
    sort_stable(list, before, Ghost(by_text(tokens@)));
    proof {
        crate::sorting::lemma_stable_sorted(given, by_text(tokens@));
        assert forall|i: int| 0 <= i < list@.len() implies (#[trigger] list@[i]).index
            < tokens@.len() by {
            assert(list@.contains(list@[i]));
            assert(given.contains(list@[i]));
            let k = choose|k: int| 0 <= k < given.len() && given[k] == list@[i];
            assert(given[k].index < tokens@.len());
        }
    }
}

/// Enters a token, unless it is there.
pub fn enter_token(list: &mut Vec<TokenId>, token: TokenId)
    ensures
        final(list)@ == with_entry(old(list)@, token),
{
    let mut i: usize = 0;
    while i < list.len()
        invariant
            i <= list@.len(),
            list@ == old(list)@,
            forall|k: int| 0 <= k < i ==> list@[k] != token,
        decreases list@.len() - i,
    {
        if list[i] == token {
            proof {
                lemma_first_position_unique(list@, token, i as int);
            }
            return ;
        }
        i = i + 1;
    }
    proof {
        lemma_first_position_unique(list@, token, i as int);
    }
    list.push(token);
}

/// Collects the names of the metadata that a chain of opinions authors.
fn collect_keys(opinions: &Vec<Opinion>, Ghost(tokens): Ghost<Seq<Seq<char>>>) -> (keys: Vec<
    TokenId,
>)
    requires
        chain_known(opinions_view(opinions@), tokens),
    ensures
        keys@ == metadata_keys(opinions_view(opinions@)),
        forall|i: int| 0 <= i < keys@.len() ==> (#[trigger] keys@[i]).index < tokens.len(),
{
    let ghost all = opinions_view(opinions@);
    let mut keys: Vec<TokenId> = Vec::new();
    let mut i: usize = 0;
    assert(all.take(0) =~= seq![]);
    assert(keys@ =~= seq![]);
    while i < opinions.len()
        invariant
            i <= opinions@.len(),
            all == opinions_view(opinions@),
            chain_known(all, tokens),
            keys@ == metadata_keys(all.take(i as int)),
            forall|k: int| 0 <= k < keys@.len() ==> (#[trigger] keys@[k]).index < tokens.len(),
        decreases opinions@.len() - i,
    {
        proof {
            assert(all.take(i + 1).drop_last() =~= all.take(i as int));
            assert(all.take(i + 1).last() == opinions@[i as int]@);
            assert(opinion_known(all[i as int], tokens));
        }
        match opinions[i].value.as_property() {
            Some(spec) => {
                let ghost earlier = keys@;
                let ghost names = field_names(spec@.metadata);
                let mut k: usize = 0;
                assert(names.take(0) =~= seq![]);
                while k < spec.metadata.len()
                    invariant
                        k <= spec.metadata@.len(),
                        names == field_names(fields_view(spec.metadata@)),
                        names_known(fields_view(spec.metadata@), tokens),
                        keys@ == with_entries(earlier, names.take(k as int)),
                        forall|m: int|
                            0 <= m < keys@.len() ==> (#[trigger] keys@[m]).index < tokens.len(),
                    decreases spec.metadata@.len() - k,
                {
                    proof {
                        assert(names.take(k + 1).drop_last() =~= names.take(k as int));
                        assert(fields_view(spec.metadata@)[k as int].0
                            == spec.metadata@[k as int].name);
                    }
                    enter_token(&mut keys, spec.metadata[k].name);
                    k = k + 1;
                }
                assert(names.take(k as int) =~= names);
            },
            None => {},
        }
        i = i + 1;
    }
    assert(all.take(i as int) =~= all);
    keys
}

/// Whether a field holds times that an offset moves.
pub open spec fn field_is_retimed(field: FieldView, offset: LayerOffset, times: Times) -> bool {
    field matches FieldView::Value(value) && retiming(value, offset, times) is Some
}

/// A report with what is to be said of the asset paths in a field.
pub open spec fn field_assets(
    report: ReportView,
    path: Seq<char>,
    field: FieldView,
    anchoring: bool,
    source: Option<(LayerId, Seq<char>)>,
) -> ReportView {
    match field {
        FieldView::Value(value) => assets_noted(report, path, value, anchoring, source),
        FieldView::List(_, _) => report,
    }
}

/// The opinions on a property as the stage reads them: with their `timecode`
/// values in stage time.
pub open spec fn as_read(opinions: Seq<OpinionView>, w: WritingView) -> Seq<OpinionView> {
    all_in_stage_time(opinions, declared_type(opinions), w.times)
}

/// Writing one metadata field of a property.
pub open spec fn key_written(
    before: (Progress, Seq<(TokenId, FieldView)>),
    opinions: Seq<OpinionView>,
    key: TokenId,
    path: Seq<char>,
    w: WritingView,
) -> (Progress, Seq<(TokenId, FieldView)>) {
    match resolved_metadata(as_read(opinions, w), key) {
        None => before,
        Some(outcome) => {
            let strongest = opinions[metadata_place(opinions, key, 0)];
            let source = Some(opinion_source(strongest, true, w.tokens));
            let authored = metadata_field(strongest, key)->0;
            let report = before.0.report;
            let said = if !is_explicit_field(authored) {
                transformed(
                    report,
                    path,
                    TransformationView::ListOpMadeExplicit { field: w.tokens[key.index as int] },
                    source,
                )
            } else if field_is_retimed(authored, strongest.layer_offset, w.times) {
                transformed(
                    report,
                    path,
                    TransformationView::TimeCodesRetimed { offset: strongest.layer_offset },
                    source,
                )
            } else {
                field_preserved(report)
            };
            let field = field_written(outcome.value, Some(authored), w.remap, before.0.paths);
            (
                Progress {
                    paths: field.1,
                    report: field_assets(said, path, field.0, w.anchoring, source),
                },
                before.1.push((key, field.0)),
            )
        },
    }
}

/// Writing the metadata fields of a property.
pub open spec fn keys_written(
    before: Progress,
    opinions: Seq<OpinionView>,
    keys: Seq<TokenId>,
    path: Seq<char>,
    w: WritingView,
) -> (Progress, Seq<(TokenId, FieldView)>)
    decreases keys.len(),
{
    if keys.len() == 0 {
        (before, seq![])
    } else {
        key_written(
            keys_written(before, opinions, keys.drop_last(), path, w),
            opinions,
            keys.last(),
            path,
            w,
        )
    }
}

/// Writing the metadata of a property, in the order of the names.
pub open spec fn metadata_written(
    before: Progress,
    opinions: Seq<OpinionView>,
    path: Seq<char>,
    w: WritingView,
) -> (Progress, Seq<(TokenId, FieldView)>) {
    keys_written(
        before,
        opinions,
        stable_sorted(metadata_keys(opinions), by_text(w.tokens)),
        path,
        w,
    )
}

proof fn lemma_metadata_place(opinions: Seq<OpinionView>, key: TokenId, from: int)
    requires
        0 <= from <= opinions.len(),
    ensures
        from <= metadata_place(opinions, key, from) <= opinions.len(),
        metadata_place(opinions, key, from) < opinions.len() ==> metadata_field(
            opinions[metadata_place(opinions, key, from)],
            key,
        ) is Some,
    decreases opinions.len() - from,
{
    if from < opinions.len() && metadata_field(opinions[from], key) is None {
        lemma_metadata_place(opinions, key, from + 1);
    }
}

/// Reading opinions in stage time changes neither which of them author a
/// metadata field nor what names it has.
proof fn lemma_place_read(opinions: Seq<OpinionView>, w: WritingView, key: TokenId, from: int)
    requires
        0 <= from <= opinions.len(),
    ensures
        metadata_place(as_read(opinions, w), key, from) == metadata_place(opinions, key, from),
    decreases opinions.len() - from,
{
    if from < opinions.len() {
        lemma_field_read(opinions[from], declared_type(opinions), w.times, key);
        assert(as_read(opinions, w)[from] == in_stage_time(
            opinions[from],
            declared_type(opinions),
            w.times,
        ));
        lemma_place_read(opinions, w, key, from + 1);
    }
}

proof fn lemma_field_read(
    opinion: OpinionView,
    declared: Option<crate::property::TypeView>,
    times: Times,
    key: TokenId,
)
    ensures
        metadata_field(in_stage_time(opinion, declared, times), key) is Some == (metadata_field(
            opinion,
            key,
        ) is Some),
{
    if is_retimed(opinion, declared) {
        match opinion.value {
            OpinionValueView::Property(spec) => {
                let moved = property_retimed(spec, opinion.layer_offset, times);
                crate::fields::lemma_place_of(spec.metadata, key, 0);
                crate::fields::lemma_place_of_unique(
                    moved.metadata,
                    key,
                    crate::fields::place_of(spec.metadata, key, 0),
                );
            },
            OpinionValueView::Field(_) => {},
        }
    }
}

/// Writes one metadata field of a property.
fn write_key(
    fields: &mut Vec<FieldEntry>,
    report: &mut FlattenReport,
    paths: &mut PathInterner,
    opinions: &Vec<Opinion>,
    read: &Vec<Opinion>,
    key: TokenId,
    path: &str,
    writing: &Writing<'_>,
)
    requires
        chain_known(opinions_view(opinions@), writing.tokens@),
        opinions_view(read@) == as_read(opinions_view(opinions@), writing@),
        key.index < writing.tokens@.len(),
        remap_known(writing.remap, old(paths)@.len()),
    ensures
        (
            (Progress { paths: final(paths)@, report: final(report)@ }),
            fields_view(final(fields)@),
        ) == key_written(
            (
                Progress { paths: old(paths)@, report: old(report)@ },
                fields_view(old(fields)@),
            ),
            opinions_view(opinions@),
            key,
            path@,
            writing@,
        ),
        extends(final(paths)@, old(paths)@),
        keeps_names(final(paths)@, old(paths)@),
{
    let ghost all = opinions_view(opinions@);
    let (resolved, at) = match resolve_metadata(read, key) {
        Some((resolved, Some(at))) => (resolved, at),
        _ => {
            return ;
        },
    };
    proof {
        lemma_place_read(all, writing@, key, 0);
        lemma_metadata_place(all, key, 0);
        assert(at == metadata_place(all, key, 0));
        assert(all[at as int] == opinions@[at as int]@);
    }
    let strongest = &opinions[at];
    let authored = match strongest.value.as_property() {
        Some(spec) => spec.metadata(key),
        None => None,
    };
    let authored = match authored {
        Some(authored) => authored,
        None => {
            assert(false);
            return ;
        },
    };
    let source = Some(finding_source(strongest, true, writing.tokens));
    let is_moved = match authored {
        FieldValue::Value(value) => retime_value(
            value,
            strongest.layer_offset,
            writing.times,
        ).is_some(),
        FieldValue::List(_, _) => false,
    };
    if !is_explicit(authored) {
        note(
            report,
            path,
            FindingKind::Transformed(
                Transformation::ListOpMadeExplicit { field: text(writing.tokens.resolve(key)) },
            ),
            copy_source(&source),
        );
    } else if is_moved {
        note(
            report,
            path,
            FindingKind::Transformed(
                Transformation::TimeCodesRetimed { offset: strongest.layer_offset },
            ),
            copy_source(&source),
        );
    } else {
        preserve_field(report);
    }
    let value = field_value(resolved, Some(authored), writing.remap, paths);
    match &value {
        FieldValue::Value(value) => {
            note_assets(report, path, value, writing.anchoring, &source);
        },
        FieldValue::List(_, _) => {},
    }
    let ghost had = fields@;
    let entry = FieldEntry { name: key, value };
    fields.push(entry);
    assert(fields_view(fields@) =~= fields_view(had).push((key, entry.value@)));
}

/// Writes the composed metadata of a property.
pub fn property_metadata(
    report: &mut FlattenReport,
    paths: &mut PathInterner,
    opinions: &Vec<Opinion>,
    read: &Vec<Opinion>,
    path: &str,
    writing: &Writing<'_>,
) -> (fields: Vec<FieldEntry>)
    requires
        chain_known(opinions_view(opinions@), writing.tokens@),
        opinions_view(read@) == as_read(opinions_view(opinions@), writing@),
        remap_known(writing.remap, old(paths)@.len()),
    ensures
        (
            (Progress { paths: final(paths)@, report: final(report)@ }),
            fields_view(fields@),
        ) == metadata_written(
            Progress { paths: old(paths)@, report: old(report)@ },
            opinions_view(opinions@),
            path@,
            writing@,
        ),
        extends(final(paths)@, old(paths)@),
        keeps_names(final(paths)@, old(paths)@),
{
    let ghost before = Progress { paths: paths@, report: report@ };
    let mut keys = collect_keys(opinions, Ghost(writing.tokens@));
    sort_tokens(&mut keys, writing.tokens);
    let mut fields: Vec<FieldEntry> = Vec::new();
    let mut i: usize = 0;
    assert(keys@.take(0) =~= seq![]);
    assert(fields_view(fields@) =~= seq![]);
    while i < keys.len()
        invariant
            i <= keys@.len(),
            chain_known(opinions_view(opinions@), writing.tokens@),
            opinions_view(read@) == as_read(opinions_view(opinions@), writing@),
            forall|k: int|
                0 <= k < keys@.len() ==> (#[trigger] keys@[k]).index < writing.tokens@.len(),
            remap_known(writing.remap, before.paths.len()),
            extends(paths@, before.paths),
            keeps_names(paths@, before.paths),
            (
                (Progress { paths: paths@, report: report@ }),
                fields_view(fields@),
            ) == keys_written(
                before,
                opinions_view(opinions@),
                keys@.take(i as int),
                path@,
                writing@,
            ),
        decreases keys@.len() - i,
    {
        proof {
            assert(keys@.take(i + 1).drop_last() =~= keys@.take(i as int));
            assert(keys@.take(i + 1).last() == keys@[i as int]);
        }
        write_key(&mut fields, report, paths, opinions, read, keys[i], path, writing);
        i = i + 1;
    }
    assert(keys@.take(i as int) =~= keys@);
    fields
}

// ── Targets ─────────────────────────────────────────────────────────────

/// The name of the field that holds a property's targets.
pub open spec fn targets_field(kind: PropertyKind) -> Seq<char> {
    match kind {
        PropertyKind::Relationship => "targetPaths"@,
        PropertyKind::Attribute => "connectionPaths"@,
    }
}

/// Whether the strongest list of targets is explicit.
pub open spec fn explicitly_targeted(opinions: Seq<OpinionView>) -> bool {
    let at = targets_place(opinions, 0);
    &&& at < opinions.len()
    &&& opinions[at].value.targets() matches Some(list)
    &&& list.explicit is Some
}

/// Writing the targets of a property: none are written where there are none.
pub open spec fn targets_written(
    before: (Progress, PropertyView),
    opinions: Seq<OpinionView>,
    path: Seq<char>,
    w: WritingView,
) -> (Progress, PropertyView) {
    let targets = targets_of(opinions);
    if targets.len() == 0 {
        before
    } else {
        let report = before.0.report;
        let at = targets_place(opinions, 0);
        let said = if explicitly_targeted(opinions) {
            ReportView {
                preserved: Preserved {
                    targets: counted(report.preserved.targets, targets.len()),
                    ..report.preserved
                },
                ..report
            }
        } else {
            transformed(
                report,
                path,
                TransformationView::ListOpMadeExplicit { field: targets_field(before.1.kind) },
                if at < opinions.len() {
                    Some(opinion_source(opinions[at], true, w.tokens))
                } else {
                    None
                },
            )
        };
        let mapped = all_remapped(targets, w.remap, before.0.paths);
        (
            Progress { paths: mapped.1, report: said },
            PropertyView {
                targets: Some(explicit_list(mapped.0.map_values(target_item()))),
                ..before.1
            },
        )
    }
}

/// The place of the strongest opinion that authors targets, or the length.
fn find_targets(opinions: &Vec<Opinion>) -> (at: usize)
    ensures
        at == targets_place(opinions_view(opinions@), 0),
        at <= opinions@.len(),
{
    let ghost all = opinions_view(opinions@);
    let mut i: usize = 0;
    while i < opinions.len()
        invariant
            i <= opinions@.len(),
            all == opinions_view(opinions@),
            targets_place(all, 0) == targets_place(all, i as int),
        decreases opinions@.len() - i,
    {
        assert(all[i as int] == opinions@[i as int]@);
        if opinions[i].value.targets().is_some() {
            return i;
        }
        i = i + 1;
    }
    i
}

/// Writes the targets of a property.
fn write_targets(
    spec: &mut PropertySpec,
    report: &mut FlattenReport,
    paths: &mut PathInterner,
    opinions: &Vec<Opinion>,
    path: &str,
    writing: &Writing<'_>,
)
    requires
        chain_known(opinions_view(opinions@), writing.tokens@),
        remap_known(writing.remap, old(paths)@.len()),
    ensures
        ((Progress { paths: final(paths)@, report: final(report)@ }), final(spec)@)
            == targets_written(
            (Progress { paths: old(paths)@, report: old(report)@ }, old(spec)@),
            opinions_view(opinions@),
            path@,
            writing@,
        ),
        extends(final(paths)@, old(paths)@),
        keeps_names(final(paths)@, old(paths)@),
{
    let ghost all = opinions_view(opinions@);
    let targets = match resolve_targets(opinions) {
        Some((targets, _)) => targets,
        None => {
            return ;
        },
    };
    if targets.len() == 0 {
        return ;
    }
    let at = find_targets(opinions);
    let mut is_listed = false;
    if at < opinions.len() {
        assert(all[at as int] == opinions@[at as int]@);
        match opinions[at].value.targets() {
            Some(list) => {
                is_listed = list.explicit.is_some();
            },
            None => {},
        }
    }
    if is_listed {
        report.preserved.targets = count_more(report.preserved.targets, targets.len());
    } else {
        let field = match spec.kind {
            PropertyKind::Relationship => "targetPaths",
            PropertyKind::Attribute => "connectionPaths",
        };
        let source = if at < opinions.len() {
            assert(opinion_known(all[at as int], writing.tokens@));
            Some(finding_source(&opinions[at], true, writing.tokens))
        } else {
            None
        };
        note(
            report,
            path,
            FindingKind::Transformed(Transformation::ListOpMadeExplicit { field: text(field) }),
            source,
        );
    }
    let mapped = remap_targets(&targets, writing.remap, paths);
    spec.targets = Some(explicit_targets(&mapped));
}

// ── Values ──────────────────────────────────────────────────────────────

/// The place of the strongest opinion that authors a value of any kind, from
/// `from` on; the length when there is none.
pub open spec fn value_place(opinions: Seq<OpinionView>, from: int) -> int
    decreases opinions.len() - from,
{
    if from < 0 || from >= opinions.len() {
        opinions.len() as int
    } else if opinions[from].value.time_samples() is Some || opinions[from].value.spline() is Some
        || opinions[from].value.default_value() is Some {
        from
    } else {
        value_place(opinions, from + 1)
    }
}

/// Whether a list of samples holds a sparse edit.
pub open spec fn holds_edit(samples: Seq<(u64, ValueView)>) -> bool {
    exists|i: int| 0 <= i < samples.len() && (#[trigger] samples[i]).1 is ArrayEdit
}

/// Whether an opinion of a list has samples.
pub open spec fn any_sampled(opinions: Seq<OpinionView>) -> bool {
    exists|i: int|
        0 <= i < opinions.len() && (#[trigger] opinions[i]).value.time_samples() is Some
}

/// Whether the default that an opinion authors is a sparse edit.
pub open spec fn defaults_to_edit(opinion: OpinionView) -> bool {
    opinion.value.default_value() matches Some(value) && value is ArrayEdit
}

/// A sample in stage time.
pub open spec fn sample_moved(sample: (u64, ValueView), offset: LayerOffset, times: Times) -> (
    u64,
    ValueView,
) {
    (
        stage_time(times, offset, sample.0),
        match retiming(sample.1, offset, times) {
            Some(value) => value,
            None => sample.1,
        },
    )
}

/// Samples in stage time.
pub open spec fn samples_moved(
    samples: Seq<(u64, ValueView)>,
    offset: LayerOffset,
    times: Times,
) -> Seq<(u64, ValueView)> {
    samples.map_values(|s: (u64, ValueView)| sample_moved(s, offset, times))
}

/// Whether a sample holds `timecode` values that are moved with it.
pub open spec fn any_value_moved(
    samples: Seq<(u64, ValueView)>,
    offset: LayerOffset,
    times: Times,
) -> bool {
    exists|i: int|
        0 <= i < samples.len() && retiming((#[trigger] samples[i]).1, offset, times) is Some
}

/// A report with what is to be said of the asset paths in a list of samples.
pub open spec fn samples_assets(
    report: ReportView,
    path: Seq<char>,
    samples: Seq<(u64, ValueView)>,
    anchoring: bool,
    source: Option<(LayerId, Seq<char>)>,
) -> ReportView
    decreases samples.len(),
{
    if samples.len() == 0 {
        report
    } else {
        assets_noted(
            samples_assets(report, path, samples.drop_last(), anchoring, source),
            path,
            samples.last().1,
            anchoring,
            source,
        )
    }
}

/// A report with what is to be said of samples moved into stage time.
pub open spec fn samples_reported(
    report: ReportView,
    path: Seq<char>,
    samples: Seq<(u64, ValueView)>,
    offset: LayerOffset,
    source: (LayerId, Seq<char>),
    w: WritingView,
) -> ReportView {
    let said = if offset.spec_is_identity() {
        ReportView {
            preserved: Preserved {
                time_samples: counted(report.preserved.time_samples, samples.len()),
                ..report.preserved
            },
            ..report
        }
    } else {
        let moved = transformed(
            report,
            path,
            TransformationView::SamplesRetimed { offset },
            Some(source),
        );
        if any_value_moved(samples, offset, w.times) {
            transformed(
                moved,
                path,
                TransformationView::TimeCodesRetimed { offset },
                Some(source),
            )
        } else {
            moved
        }
    };
    samples_assets(
        said,
        path,
        samples_moved(samples, offset, w.times),
        w.anchoring,
        Some(source),
    )
}

/// Moves samples into stage time.
pub fn stage_samples(
    report: &mut FlattenReport,
    path: &str,
    samples: &Vec<TimeSample>,
    offset: LayerOffset,
    source: &Option<FindingSource>,
    writing: &Writing<'_>,
) -> (out: Vec<TimeSample>)
    requires
        source is Some,
    ensures
        samples_view(out@) == samples_moved(samples_view(samples@), offset, writing.times@),
        final(report)@ == samples_reported(
            old(report)@,
            path@,
            samples_view(samples@),
            offset,
            source_option(*source)->0,
            writing@,
        ),
{
    let ghost all = samples_view(samples@);
    let ghost moved = samples_moved(all, offset, writing.times@);
    let mut out: Vec<TimeSample> = Vec::new();
    let mut changed = false;
    let mut i: usize = 0;
    while i < samples.len()
        invariant
            i <= samples@.len(),
            all == samples_view(samples@),
            moved == samples_moved(all, offset, writing.times@),
            samples_view(out@) == moved.take(i as int),
            changed ==> any_value_moved(all, offset, writing.times@),
            !changed ==> forall|k: int|
                0 <= k < i ==> retiming((#[trigger] all[k]).1, offset, writing.times@) is None,
        decreases samples@.len() - i,
    {
        let time = writing.times.to_stage_time(offset, samples[i].0);
        assert(all[i as int] == (samples@[i as int].0, samples@[i as int].1.view()));
        let value = match retime_value(&samples[i].1, offset, writing.times) {
            Some(value) => {
                changed = true;
                value
            },
            None => samples[i].1.copy(),
        };
        assert(sample_moved(all[i as int], offset, writing.times@) == (time, value.view()));
        let ghost had = out@;
        let sample: TimeSample = (time, value);
        out.push(sample);
        proof {
            assert(samples_view(out@) =~= samples_view(had).push((time, value.view())));
            assert(moved.take(i + 1) =~= moved.take(i as int).push(moved[i as int]));
        }
        i = i + 1;
    }
    assert(moved.take(i as int) =~= moved);
    assert(changed == any_value_moved(all, offset, writing.times@));
    if offset.is_identity() {
        report.preserved.time_samples = count_more(report.preserved.time_samples, out.len());
    } else {
        note(
            report,
            path,
            FindingKind::Transformed(Transformation::SamplesRetimed { offset }),
            copy_source(source),
        );
        if changed {
            note(
                report,
                path,
                FindingKind::Transformed(Transformation::TimeCodesRetimed { offset }),
                copy_source(source),
            );
        }
    }
    let ghost said = report@;
    i = 0;
    assert(moved.take(0) =~= seq![]);
    while i < out.len()
        invariant
            i <= out@.len(),
            moved == samples_view(out@),
            report@ == samples_assets(
                said,
                path@,
                moved.take(i as int),
                writing.anchoring,
                source_option(*source),
            ),
        decreases out@.len() - i,
    {
        proof {
            assert(moved.take(i + 1).drop_last() =~= moved.take(i as int));
            assert(moved.take(i + 1).last().1 == out@[i as int].1.view());
        }
        note_assets(report, path, &out[i].1, writing.anchoring, source);
        i = i + 1;
    }
    assert(moved.take(i as int) =~= moved);
    out
}

/// Writing the samples or the spline of a property, where its strongest value
/// is one.
pub open spec fn animation_written(
    before: (ReportView, PropertyView),
    opinions: Seq<OpinionView>,
    path: Seq<char>,
    w: WritingView,
) -> (ReportView, PropertyView) {
    let at = value_place(opinions, 0);
    if at >= opinions.len() {
        before
    } else {
        let opinion = opinions[at];
        let source = opinion_source(opinion, true, w.tokens);
        match (opinion.value.time_samples(), opinion.value.spline()) {
            (Some(samples), _) => if holds_edit(samples) {
                (lost(before.0, path, Loss::ArrayEditSamples, Some(source)), before.1)
            } else {
                (
                    samples_reported(before.0, path, samples, opinion.layer_offset, source, w),
                    PropertyView {
                        time_samples: Some(samples_moved(samples, opinion.layer_offset, w.times)),
                        ..before.1
                    },
                )
            },
            (None, Some(spline)) => if opinion.layer_offset.spec_is_identity() {
                (
                    ReportView {
                        preserved: Preserved {
                            splines: counted(before.0.preserved.splines, 1),
                            ..before.0.preserved
                        },
                        ..before.0
                    },
                    PropertyView { spline: Some(spline), ..before.1 },
                )
            } else {
                (lost(before.0, path, Loss::RetimedSpline, Some(source)), before.1)
            },
            (None, None) => if defaults_to_edit(opinion) && any_sampled(opinions) {
                (lost(before.0, path, Loss::ArrayEditSamples, Some(source)), before.1)
            } else {
                before
            },
        }
    }
}

/// Whether a list of samples holds a sparse edit.
fn samples_hold_edit(samples: &Vec<TimeSample>) -> (yes: bool)
    ensures
        yes == holds_edit(samples_view(samples@)),
{
    let ghost all = samples_view(samples@);
    let mut i: usize = 0;
    while i < samples.len()
        invariant
            i <= samples@.len(),
            all == samples_view(samples@),
            forall|k: int| 0 <= k < i ==> !((#[trigger] all[k]).1 is ArrayEdit),
        decreases samples@.len() - i,
    {
        assert(all[i as int].1 == samples@[i as int].1.view());
        match &samples[i].1 {
            Value::ArrayEdit(_) => {
                return true;
            },
            _ => {},
        }
        i = i + 1;
    }
    false
}

/// Whether an opinion of a list has samples.
fn has_samples(opinions: &Vec<Opinion>) -> (yes: bool)
    ensures
        yes == any_sampled(opinions_view(opinions@)),
{
    let ghost all = opinions_view(opinions@);
    let mut i: usize = 0;
    while i < opinions.len()
        invariant
            i <= opinions@.len(),
            all == opinions_view(opinions@),
            forall|k: int| 0 <= k < i ==> (#[trigger] all[k]).value.time_samples() is None,
        decreases opinions@.len() - i,
    {
        assert(all[i as int] == opinions@[i as int]@);
        if opinions[i].value.time_samples().is_some() {
            return true;
        }
        i = i + 1;
    }
    false
}

/// The place of the strongest opinion that authors a value, or the length.
fn find_value(opinions: &Vec<Opinion>) -> (at: usize)
    ensures
        at == value_place(opinions_view(opinions@), 0),
        at <= opinions@.len(),
{
    let ghost all = opinions_view(opinions@);
    let mut i: usize = 0;
    while i < opinions.len()
        invariant
            i <= opinions@.len(),
            all == opinions_view(opinions@),
            value_place(all, 0) == value_place(all, i as int),
        decreases opinions@.len() - i,
    {
        assert(all[i as int] == opinions@[i as int]@);
        let value = &opinions[i].value;
        if value.time_samples().is_some() || value.spline().is_some()
            || value.default_value().is_some() {
            return i;
        }
        i = i + 1;
    }
    i
}

/// Writes the samples or the spline of a property.
fn write_animation(
    spec: &mut PropertySpec,
    report: &mut FlattenReport,
    opinions: &Vec<Opinion>,
    path: &str,
    writing: &Writing<'_>,
)
    requires
        chain_known(opinions_view(opinions@), writing.tokens@),
    ensures
        (final(report)@, final(spec)@) == animation_written(
            (old(report)@, old(spec)@),
            opinions_view(opinions@),
            path@,
            writing@,
        ),
{
    let ghost all = opinions_view(opinions@);
    let at = find_value(opinions);
    if at >= opinions.len() {
        return ;
    }
    let opinion = &opinions[at];
    assert(all[at as int] == opinion@);
    assert(opinion_known(all[at as int], writing.tokens@));
    let source = Some(finding_source(opinion, true, writing.tokens));
    match opinion.value.time_samples() {
        Some(samples) => {
            if samples_hold_edit(samples) {
                note(report, path, FindingKind::Lost(Loss::ArrayEditSamples), source);
            } else {
                let moved = stage_samples(
                    report,
                    path,
                    samples,
                    opinion.layer_offset,
                    &source,
                    writing,
                );
                spec.time_samples = Some(moved);
            }
            return ;
        },
        None => {},
    }
    match opinion.value.spline() {
        Some(spline) => {
            if opinion.layer_offset.is_identity() {
                spec.spline = Some(spline.copy());
                report.preserved.splines = count_more(report.preserved.splines, 1);
            } else {
                note(report, path, FindingKind::Lost(Loss::RetimedSpline), source);
            }
            return ;
        },
        None => {},
    }
    let is_edit = match opinion.value.default_value() {
        Some(Value::ArrayEdit(_)) => true,
        _ => false,
    };
    if is_edit && has_samples(opinions) {
        note(report, path, FindingKind::Lost(Loss::ArrayEditSamples), source);
    }
}

/// What a default is written as: what it resolves to, a block where that is
/// nothing.
pub open spec fn default_of(resolved: Option<Outcome>) -> ValueView {
    match resolved {
        Some(outcome) => match as_value(outcome.value) {
            Some(value) => value,
            None => ValueView::Blocked,
        },
        None => ValueView::Blocked,
    }
}

/// Writing the default of a property, where an opinion authors one.
pub open spec fn default_written(
    before: (ReportView, PropertyView),
    opinions: Seq<OpinionView>,
    fold: Option<FoldView>,
    path: Seq<char>,
    w: WritingView,
) -> (ReportView, PropertyView) {
    let at = default_place(opinions, 0);
    if at >= opinions.len() {
        before
    } else {
        let value = default_of(
            resolved_value(as_read(opinions, w), fold, fill_of(declared_type(opinions))),
        );
        let source = Some(opinion_source(opinions[at], true, w.tokens));
        let said = if default_retimed(opinions[at], w.times) {
            transformed(
                before.0,
                path,
                TransformationView::TimeCodesRetimed { offset: opinions[at].layer_offset },
                source,
            )
        } else {
            ReportView {
                preserved: Preserved {
                    defaults: counted(before.0.preserved.defaults, 1),
                    ..before.0.preserved
                },
                ..before.0
            }
        };
        (
            assets_noted(said, path, value, w.anchoring, source),
            PropertyView { default: Some(value), ..before.1 },
        )
    }
}

/// Writes the default of a property.
fn write_default(
    spec: &mut PropertySpec,
    report: &mut FlattenReport,
    opinions: &Vec<Opinion>,
    read: &Vec<Opinion>,
    fold: Option<&ExpressionFold>,
    path: &str,
    writing: &Writing<'_>,
)
    requires
        chain_known(opinions_view(opinions@), writing.tokens@),
        opinions_view(read@) == as_read(opinions_view(opinions@), writing@),
        default_fits(
            opinions_view(opinions@),
            None,
            fill_of(declared_type(opinions_view(opinions@))) is Some,
        ),
    ensures
        (final(report)@, final(spec)@) == default_written(
            (old(report)@, old(spec)@),
            opinions_view(opinions@),
            fold_ref(fold),
            path@,
            writing@,
        ),
{
    let ghost all = opinions_view(opinions@);
    let at = find_default(opinions);
    if at >= opinions.len() {
        return ;
    }
    proof {
        lemma_read_fits(all, declared_type(all), writing.times@, None);
    }
    let resolved = resolve_value(read, fold, find_declared_type(opinions));
    let value = match resolved {
        Some((ResolvedValue::Scalar(value), _)) => value,
        Some((ResolvedValue::Dictionary(entries), _)) => Value::Dictionary(entries),
        _ => Value::Blocked,
    };
    assert(all[at as int] == opinions@[at as int]@);
    assert(opinion_known(all[at as int], writing.tokens@));
    let source = Some(finding_source(&opinions[at], true, writing.tokens));
    if note_retimed(report, path, &opinions[at], &source, writing.times) {
        report.preserved.defaults = count_more(report.preserved.defaults, 1);
    }
    note_assets(report, path, &value, writing.anchoring, &source);
    spec.default = Some(value);
}

/// Writing a composed property: nothing is written where no opinion declares
/// it, or where it is an attribute without a type.
pub open spec fn property_written(
    before: Progress,
    opinions: Seq<OpinionView>,
    fold: Option<FoldView>,
    path: Seq<char>,
    w: WritingView,
) -> (Progress, Option<PropertyView>) {
    match declared_as(opinions) {
        None => (before, None),
        Some(declared) => {
            let (after, metadata) = metadata_written(before, opinions, path, w);
            let bare = PropertyView {
                custom: declared.custom,
                variability: declared.variability,
                metadata,
                ..empty_property(declared.kind)
            };
            let (aimed, spec) = targets_written((after, bare), opinions, path, w);
            match (declared.kind, declared.declared_type) {
                (PropertyKind::Relationship, _) => (aimed, Some(spec)),
                (PropertyKind::Attribute, None) => (
                    Progress {
                        report: lost(
                            aimed.report,
                            path,
                            Loss::UntypedAttribute,
                            Some(opinion_source(opinions[0], true, w.tokens)),
                        ),
                        ..aimed
                    },
                    None,
                ),
                (PropertyKind::Attribute, Some(declared_as)) => {
                    let typed = PropertyView { declared_type: Some(declared_as), ..spec };
                    let animated = animation_written((aimed.report, typed), opinions, path, w);
                    let (report, done) = default_written(animated, opinions, fold, path, w);
                    (Progress { report, ..aimed }, Some(done))
                },
            }
        },
    }
}

/// Writes a composed property, or records why it cannot be.
pub fn copy_property(
    report: &mut FlattenReport,
    paths: &mut PathInterner,
    opinions: &Vec<Opinion>,
    fold: Option<&ExpressionFold>,
    path: &str,
    writing: &Writing<'_>,
) -> (out: Option<PropertySpec>)
    requires
        chain_known(opinions_view(opinions@), writing.tokens@),
        remap_known(writing.remap, old(paths)@.len()),
        default_fits(
            opinions_view(opinions@),
            None,
            fill_of(declared_type(opinions_view(opinions@))) is Some,
        ),
    ensures
        ((Progress { paths: final(paths)@, report: final(report)@ }), property_option(out))
            == property_written(
            Progress { paths: old(paths)@, report: old(report)@ },
            opinions_view(opinions@),
            fold_ref(fold),
            path@,
            writing@,
        ),
        extends(final(paths)@, old(paths)@),
        keeps_names(final(paths)@, old(paths)@),
{
    let ghost all = opinions_view(opinions@);
    let declaration = match resolve_declaration(opinions) {
        Some(declaration) => declaration,
        None => {
            return None;
        },
    };
    let mut spec = PropertySpec::of_kind(declaration.kind);
    spec.custom = declaration.custom;
    spec.variability = declaration.variability;
    let in_stage_time = opinions_in_stage_time(
        opinions,
        find_declared_type(opinions),
        writing.times,
    );
    let read = in_stage_time.list();
    spec.metadata = property_metadata(report, paths, opinions, read, path, writing);
    let ghost after = metadata_written(
        Progress { paths: old(paths)@, report: old(report)@ },
        all,
        path@,
        writing@,
    );
    assert(spec@ =~= PropertyView {
        custom: declaration.custom,
        variability: declaration.variability,
        metadata: after.1,
        ..empty_property(declaration.kind)
    });
    write_targets(&mut spec, report, paths, opinions, path, writing);
    match declaration.kind {
        PropertyKind::Relationship => {
            return Some(spec);
        },
        PropertyKind::Attribute => {},
    }
    match declaration.declared_type {
        None => {
            assert(opinions@.len() > 0);
            assert(all[0] == opinions@[0]@);
            assert(opinion_known(all[0], writing.tokens@));
            let source = Some(finding_source(&opinions[0], true, writing.tokens));
            note(report, path, FindingKind::Lost(Loss::UntypedAttribute), source);
            None
        },
        Some(declared) => {
            spec.declared_type = Some(declared);
            write_animation(&mut spec, report, opinions, path, writing);
            write_default(&mut spec, report, opinions, read, fold, path, writing);
            Some(spec)
        },
    }
}

/// A written property is of the kind, the custom qualifier, the variability
/// and the type that its opinions declare.
pub proof fn law_written_property_keeps_its_declaration(
    before: Progress,
    opinions: Seq<OpinionView>,
    fold: Option<FoldView>,
    path: Seq<char>,
    w: WritingView,
)
    ensures
        property_written(before, opinions, fold, path, w).1 matches Some(spec) ==> {
            &&& declared_as(opinions) matches Some(declared)
            &&& spec.kind == declared.kind
            &&& spec.custom == declared.custom
            &&& spec.variability == declared.variability
            &&& spec.kind == PropertyKind::Attribute ==> spec.declared_type
                == declared.declared_type
        },
{
}

/// An attribute that is not written is reported as lost.
pub proof fn law_unwritten_attribute_is_reported(
    before: Progress,
    opinions: Seq<OpinionView>,
    fold: Option<FoldView>,
    path: Seq<char>,
    w: WritingView,
)
    requires
        declared_as(opinions) is Some,
    ensures
        property_written(before, opinions, fold, path, w).1 is None ==> {
            let findings = property_written(before, opinions, fold, path, w).0.report.findings;
            findings.len() > 0 && findings.last().kind == crate::flatten::report::KindView::Lost(
                Loss::UntypedAttribute,
            )
        },
{
}

proof fn lemma_edits_fold(
    chain: Seq<ValueView>,
    from: int,
    ops: Seq<crate::doc::OpView>,
    seed: Seq<ValueView>,
    fill: Option<ValueView>,
)
    requires
        0 <= from <= chain.len(),
    ensures
        crate::arrays::folded(chain, from, Some(ops), seed, fill) is Items,
    decreases chain.len() - from,
{
    if from < chain.len() {
        match chain[from] {
            ValueView::ArrayEdit(weaker) => {
                lemma_edits_fold(chain, from + 1, weaker + ops, seed, fill);
            },
            _ => {
                lemma_edits_fold(chain, from + 1, ops, seed, fill);
            },
        }
    }
}

proof fn lemma_leading_array(opinions: Seq<OpinionView>, from: int)
    requires
        0 <= from <= opinions.len(),
        default_place(opinions, from) < opinions.len(),
        opinions[default_place(opinions, from)].value.default_value() matches Some(value)
            && crate::resolution::is_array_value(value),
    ensures
        ({
            let chain = crate::resolution::array_defaults(opinions, from);
            &&& chain.len() > 0
            &&& Some(chain[0]) == opinions[default_place(
                opinions,
                from,
            )].value.default_value()
        }),
    decreases opinions.len() - from,
{
    if from < opinions.len() && opinions[from].value.default_value() is None {
        lemma_leading_array(opinions, from + 1);
    }
}

/// Where an opinion authors a value and no path expressions compose, the value
/// that is written, read on its own, resolves to what the opinions resolve to.
pub proof fn law_written_default_resolves_alike(
    opinions: Seq<OpinionView>,
    fill: Option<ValueView>,
    alone: OpinionView,
)
    requires
        default_place(opinions, 0) < opinions.len(),
        is_value_chain(opinions[0].value),
        is_value_chain(alone.value),
        alone.value.default_value() == Some(default_of(resolved_value(opinions, None, fill))),
    ensures
        ({
            let again = resolved_value(seq![alone], None, fill);
            match resolved_value(opinions, None, fill) {
                Some(outcome) => again matches Some(same) && same.value == outcome.value,
                None => again is None,
            }
        }),
{
    let chain: Seq<OpinionView> = seq![alone];
    let seed = crate::arrays::array_seed(None, fill);
    crate::opinion::lemma_default_place(opinions, 0);
    if crate::resolution::is_array_value(
        opinions[default_place(opinions, 0)].value.default_value()->0,
    ) {
        let folding = crate::resolution::array_defaults(opinions, 0);
        lemma_leading_array(opinions, 0);
        match folding[0] {
            ValueView::ArrayEdit(ops) => {
                lemma_edits_fold(folding, 1, ops, seed, fill);
            },
            _ => {},
        }
    }
    crate::opinion::lemma_default_place(chain, 0);
    assert(chain[0].value.default_value() == alone.value.default_value());
    let first = resolved_value(opinions, None, fill);
    let value = default_of(first);
    assert(first is Some && !(value is Blocked) ==> as_value((first->0).value) == Some(value));
    assert(default_place(chain, 0) == 0);
    assert(crate::resolution::array_defaults(chain, 1) =~= seq![]);
    match value {
        ValueView::Array(items) => {
            assert(crate::resolution::array_defaults(chain, 0) =~= seq![value]);
            assert(crate::arrays::folded(
                seq![value],
                0,
                None,
                seed,
                fill,
            ) == crate::arrays::ArrayFold::Items(items));
            assert(crate::resolution::leading_value(chain, None) == Some(value));
            assert(crate::resolution::sparse_default(chain, None, fill)
                == crate::resolution::SparseView::Resolved(value));
            assert(resolved_value(chain, None, fill) == Some(
                Outcome { value: ResolvedView::Scalar(value), due_to: Some(0) },
            ));
        },
        ValueView::Dictionary(entries) => {
            let parts = crate::resolution::dictionary_defaults(opinions, 0)
                + crate::resolution::fallback_entries(None);
            crate::dictionary::law_combining_is_idempotent(parts);
            assert(crate::resolution::dictionary_defaults(chain, 1) =~= seq![]);
            assert(crate::resolution::dictionary_defaults(chain, 0)
                + crate::resolution::fallback_entries(None) =~= seq![entries]);
        },
        _ => {},
    }
}

/// Reading opinions in stage time does not change which of them authors the
/// default.
proof fn lemma_default_read(opinions: Seq<OpinionView>, w: WritingView, from: int)
    requires
        0 <= from <= opinions.len(),
    ensures
        default_place(as_read(opinions, w), from) == default_place(opinions, from),
    decreases opinions.len() - from,
{
    if from < opinions.len() {
        assert(as_read(opinions, w)[from] == in_stage_time(
            opinions[from],
            declared_type(opinions),
            w.times,
        ));
        lemma_default_read(opinions, w, from + 1);
    }
}

/// Opinions declare the type that the strongest one with a type has, and,
/// where the first is a property, the kind of the first.
proof fn lemma_declared(opinions: Seq<OpinionView>)
    ensures
        match declared_as(opinions) {
            Some(declared) => declared.declared_type == declared_type(opinions),
            None => declared_type(opinions) is None,
        },
        opinions.len() > 0 ==> (opinions[0].value matches OpinionValueView::Property(first) ==> (
        declared_as(opinions) matches Some(declared) && declared.kind == first.kind)),
    decreases opinions.len(),
{
    if opinions.len() > 0 {
        lemma_declared(opinions.drop_last());
        if opinions.len() > 1 {
            assert(opinions.drop_last()[0] == opinions[0]);
        }
    }
}

/// What a resolved value is written as: a block where there is none.
pub open spec fn written_as(resolved: Option<(ResolvedView, Option<ProvenanceView>)>) -> ValueView {
    match resolved {
        Some((value, _)) => match as_value(value) {
            Some(value) => value,
            None => ValueView::Blocked,
        },
        None => ValueView::Blocked,
    }
}

/// Where an opinion authors a default, the default that is written is what the
/// stage resolves the attribute to, in stage time.
pub proof fn law_written_default_is_what_the_stage_resolves(
    stage: StageView,
    prim: PathId,
    name: TokenId,
    opinions: Seq<OpinionView>,
    before: Progress,
    fold: Option<FoldView>,
    path: Seq<char>,
    w: WritingView,
)
    requires
        w.times == stage.times,
        stage.opinions(prim, name, Lookup::Property) == Some(opinions),
        default_place(opinions, 0) < opinions.len(),
    ensures
        property_written(before, opinions, fold, path, w).1 matches Some(spec) ==> (spec.kind
            == PropertyKind::Attribute ==> spec.default == Some(
            written_as(stage.resolution(prim, name, Lookup::Property, fold)),
        )),
{
}

/// Where an opinion authors the default of an attribute and no path
/// expressions compose, a stage that holds the written attribute alone, read
/// through no offset, resolves it to what the stage resolves.
pub proof fn law_written_attribute_resolves_alike(
    stage: StageView,
    flat: StageView,
    prim: PathId,
    name: TokenId,
    opinions: Seq<OpinionView>,
    alone: OpinionView,
    before: Progress,
    path: Seq<char>,
    w: WritingView,
)
    requires
        w.times == stage.times,
        stage.opinions(prim, name, Lookup::Property) == Some(opinions),
        default_place(opinions, 0) < opinions.len(),
        opinions[0].value matches OpinionValueView::Property(first) && first.kind
            == PropertyKind::Attribute,
        flat.opinions(prim, name, Lookup::Property) == Some(seq![alone]),
        alone.layer_offset.spec_is_identity(),
        property_written(before, opinions, None, path, w).1 matches Some(spec) && alone.value
            == OpinionValueView::Property(spec),
    ensures
        ({
            let again = flat.resolution(prim, name, Lookup::Property, None);
            match stage.resolution(prim, name, Lookup::Property, None) {
                Some((value, _)) => again matches Some((same, _)) && same == value,
                None => again is None,
            }
        }),
{
    let spec = property_written(before, opinions, None, path, w).1->0;
    let chain: Seq<OpinionView> = seq![alone];
    let read = as_read(opinions, w);
    crate::stage_time::law_identity_offsets_change_nothing(
        chain,
        flat.property_type(prim, name),
        flat.times,
    );
    law_written_default_is_what_the_stage_resolves(
        stage,
        prim,
        name,
        opinions,
        before,
        None,
        path,
        w,
    );
    lemma_default_read(opinions, w, 0);
    assert(read[0] == in_stage_time(opinions[0], declared_type(opinions), w.times));
    assert(declared_type(chain) == spec.declared_type) by {
        reveal_with_fuel(declared_type, 2);
        assert(chain.drop_last() =~= seq![]);
    }
    lemma_declared(opinions);
    law_written_property_keeps_its_declaration(before, opinions, None, path, w);
    law_written_default_resolves_alike(read, fill_of(declared_type(opinions)), alone);
}

/// Where a metadata field of a property resolves to a value, the field that is
/// written, read on its own, resolves to the same value.
pub proof fn law_written_metadata_resolves_alike(
    opinions: Seq<OpinionView>,
    key: TokenId,
    value: ValueView,
    alone: OpinionView,
)
    requires
        resolved_metadata(opinions, key) matches Some(outcome) && as_value(outcome.value) == Some(
            value,
        ),
        metadata_field(alone, key) == Some(FieldView::Value(value)),
    ensures
        resolved_metadata(seq![alone], key) matches Some(again) && again.value
            == (resolved_metadata(opinions, key)->0).value,
{
    let chain: Seq<OpinionView> = seq![alone];
    let fields = crate::resolution::metadata_fields(chain, key);
    assert(fields =~= seq![FieldView::Value(value)]) by {
        reveal_with_fuel(crate::resolution::metadata_fields, 2);
        assert(chain.drop_last() =~= seq![]);
    }
    assert(metadata_place(chain, key, 0) == 0);
    lemma_metadata_place(opinions, key, 0);
    match value {
        ValueView::Dictionary(entries) => {
            let parts = crate::resolution::dictionary_fields(
                crate::resolution::metadata_fields(opinions, key),
                0,
            );
            crate::dictionary::law_combining_is_idempotent(parts);
            assert(crate::resolution::dictionary_fields(fields, 1) =~= seq![]);
            assert(crate::resolution::dictionary_fields(fields, 0) =~= seq![entries]);
        },
        _ => {},
    }
}

/// The targets that are written outside a prototype, read on their own, are
/// those of the opinions. The targets of a chain hold nothing twice, as
/// [`resolve_targets`] states.
pub proof fn law_written_targets_resolve_alike(
    before: Progress,
    opinions: Seq<OpinionView>,
    fold: Option<FoldView>,
    path: Seq<char>,
    w: WritingView,
    alone: OpinionView,
)
    requires
        w.remap is None,
        targets_of(opinions).no_duplicates(),
        property_written(before, opinions, fold, path, w).1 matches Some(spec) && alone.value
            == OpinionValueView::Property(spec),
    ensures
        targets_of(seq![alone]) == targets_of(opinions),
{
    let targets = targets_of(opinions);
    let spec = property_written(before, opinions, fold, path, w).1->0;
    let chain: Seq<OpinionView> = seq![alone];
    let edits = target_edits(chain);
    assert(targets_place(chain, 0) == if spec.targets is Some { 0int } else { 1int }) by {
        reveal_with_fuel(targets_place, 3);
    }
    assert(chain.drop_last() =~= seq![]);
    assert(target_edits(seq![]) =~= seq![]);
    if targets.len() == 0 {
        assert(spec.targets is None);
        assert(edits =~= seq![]);
        assert(targets_among(seq![]) =~= seq![]);
    } else {
        let items = targets.map_values(target_item());
        lemma_nothing_remapped(targets, metadata_written(before, opinions, path, w).0.paths);
        assert(spec.targets == Some(explicit_list(items)));
        assert(edits =~= seq![explicit_list(items)]);
        assert(items.no_duplicates()) by {
            assert forall|i: int, j: int|
                0 <= i < items.len() && 0 <= j < items.len() && i != j implies items[i]
                != items[j] by {
                assert(targets[i] != targets[j]);
            }
        }
        law_explicit_list_reads_back(items);
        lemma_targets_of_targets(targets);
        assert(items =~= targets.map_values(|target: TargetPath| ItemView::Target(target)));
    }
}

proof fn lemma_nothing_remapped(targets: Seq<TargetPath>, paths: Seq<Seq<TokenId>>)
    ensures
        all_remapped(targets, None, paths) == (targets, paths),
    decreases targets.len(),
{
    if targets.len() > 0 {
        lemma_nothing_remapped(targets.drop_last(), paths);
        assert(targets.drop_last().push(targets.last()) =~= targets);
    } else {
        assert(targets =~= seq![]);
    }
}

} // verus!
