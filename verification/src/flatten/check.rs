//! Checking a flattened layer against the stage it was flattened from: the
//! comparison of two stages, prim by prim.

use crate::doc::{Value, ValueView};
use crate::fields::{lemma_place_of, named, place_of};
use crate::flatten::anchored::{
    anchor_value, anchored, anchors_view, law_nothing_anchored_changes_nothing,
};
use crate::flatten::copy::{ids_below, names_below, scene_known, Scene, SceneView};
use crate::flatten::reading::{
    authored_keys, authored_times, chain_of, collect_authored, collect_keys, collect_times,
    declaration_seen, default_seen, field_seen, find_value, keys_of, members_of, metadata_seen,
    names_of, place_times, place_tokens, placed_times, placed_tokens, read_default, read_field,
    read_members, read_metadata, read_targets, targets_seen, timed_view, value_at, TimedValues,
};
use crate::flatten::report::{
    counted, object_of, shared_prototypes, FindingView, FlattenReport, ObjectPath,
};
use crate::flatten::values::paths_named;
use crate::flatten::verify::{
    among_prototypes, anchors_at, declared_at, expected_declaration, expected_resolved,
    find_anchors, is_prototype, law_seen_reads_like_itself, mismatches_view, resolved_anchored,
    seen_alike, skip_at, skip_reason, FlattenVerification, Mismatch, MismatchKind, MismatchKindView,
    MismatchView, ScopeView, Seen, SeenView, SkipReason, Skipped, VerificationView, VerifiedScope,
};
use crate::flatten::whole::{longest, longest_path, reaches, top, within_paths};
use crate::interner::{first_position, with_entries, TokenId, TokenInterner};
use crate::path::{prim_display, property_display, Path, PathId, PathInterner, PropertyPath};
use crate::resolution::{DeclarationView, ResolvedView};
use crate::stage::{children_in, Stage, StageView};
use crate::text::{text, texts};
use crate::times::{TimeTable, Times};
use vstd::prelude::*;

verus! {

/// What a comparison reads.
#[derive(Clone, Copy, Debug)]
pub struct Comparison<'a> {
    pub source: Scene<'a>,
    pub flattened: Scene<'a>,
    /// What the stage's properties compose to at times.
    pub source_values: &'a TimedValues,
    /// What the flattened stage's properties compose to at times.
    pub flattened_values: &'a TimedValues,
    pub times: &'a TimeTable,
    pub paths: &'a PathInterner,
    pub tokens: &'a TokenInterner,
    /// The report of the flatten.
    pub report: &'a FlattenReport,
    /// The times to compare every property at, besides those of its samples.
    pub at: &'a Vec<u64>,
}

/// The mathematical value of a [`Comparison`].
pub struct ComparisonView {
    pub source: SceneView,
    pub flattened: SceneView,
    pub source_values: Seq<((PropertyPath, u64), Option<ValueView>)>,
    pub flattened_values: Seq<((PropertyPath, u64), Option<ValueView>)>,
    pub times: Times,
    pub paths: Seq<Seq<TokenId>>,
    pub tokens: Seq<Seq<char>>,
    pub findings: Seq<FindingView>,
    pub at: Seq<u64>,
}

impl<'a> View for Comparison<'a> {
    type V = ComparisonView;

    open spec fn view(&self) -> ComparisonView {
        ComparisonView {
            source: self.source@,
            flattened: self.flattened@,
            source_values: timed_view(self.source_values@),
            flattened_values: timed_view(self.flattened_values@),
            times: self.times@,
            paths: self.paths@,
            tokens: self.tokens@,
            findings: self.report@.findings,
            at: self.at@,
        }
    }
}

impl ComparisonView {
    /// Whether what is read is known and fits in memory.
    pub open spec fn known(self) -> bool {
        &&& scene_known(self.source, self.tokens, self.paths.len())
        &&& scene_known(self.flattened, self.tokens, self.paths.len())
        &&& paths_named(self.paths, self.tokens)
        &&& self.paths.contains(seq![]) ==> within_paths(self.source.stage, self.paths)
            && within_paths(self.flattened.stage, self.paths)
    }

    /// The prototypes that the flatten added.
    pub open spec fn prototypes(self) -> Seq<Seq<char>> {
        with_entries(seq![], shared_prototypes(self.findings))
    }

    /// The text of a prim's path.
    pub open spec fn prim_text(self, prim: PathId) -> Seq<char> {
        prim_display(prim, self.paths, self.tokens)
    }

    /// The text of a token.
    pub open spec fn token_text(self, token: TokenId) -> Seq<char> {
        self.tokens[token.index as int]
    }
}

/// How far a comparison has come.
#[verifier::ext_equal]
pub struct CheckView {
    pub out: VerificationView,
    pub sample_times: Seq<u64>,
}

/// How far a comparison has come.
#[derive(Debug)]
pub struct Check {
    pub out: FlattenVerification,
    pub sample_times: Vec<u64>,
}

impl View for Check {
    type V = CheckView;

    open spec fn view(&self) -> CheckView {
        CheckView { out: self.out@, sample_times: self.sample_times@ }
    }
}

// ── One comparison ──────────────────────────────────────────────────────

/// A comparison with one more difference.
pub open spec fn mismatched(
    before: CheckView,
    path: Seq<char>,
    kind: MismatchKindView,
    expected: SeenView,
    found: SeenView,
) -> CheckView {
    let mismatch = MismatchView { path: object_of(path), kind, expected, found };
    CheckView {
        out: VerificationView { mismatches: before.out.mismatches.push(mismatch), ..before.out },
        ..before
    }
}

/// A comparison once two things are compared.
pub open spec fn compared(
    before: CheckView,
    c: ComparisonView,
    path: Seq<char>,
    kind: MismatchKindView,
    expected: SeenView,
    found: SeenView,
) -> CheckView {
    if seen_alike(expected, found, c.paths, c.tokens) {
        before
    } else {
        mismatched(before, path, kind, expected, found)
    }
}

/// A comparison with one more thing that is not compared.
pub open spec fn skipping(before: CheckView, path: Seq<char>, reason: SkipReason) -> CheckView {
    let scope = ScopeView {
        skipped: before.out.scope.skipped.push((object_of(path), reason)),
        ..before.out.scope
    };
    CheckView { out: VerificationView { scope, ..before.out }, ..before }
}

/// A comparison with one more prim.
pub open spec fn prim_counted(before: CheckView) -> CheckView {
    let scope = ScopeView { prims: counted(before.out.scope.prims, 1), ..before.out.scope };
    CheckView { out: VerificationView { scope, ..before.out }, ..before }
}

/// A comparison with one more property.
pub open spec fn property_counted(before: CheckView) -> CheckView {
    let scope = ScopeView {
        properties: counted(before.out.scope.properties, 1),
        ..before.out.scope
    };
    CheckView { out: VerificationView { scope, ..before.out }, ..before }
}

/// A comparison with one more metadata field.
pub open spec fn field_counted(before: CheckView) -> CheckView {
    let scope = ScopeView {
        metadata_fields: counted(before.out.scope.metadata_fields, 1),
        ..before.out.scope
    };
    CheckView { out: VerificationView { scope, ..before.out }, ..before }
}

/// A comparison with one more value.
pub open spec fn value_counted(before: CheckView) -> CheckView {
    let scope = ScopeView { values: counted(before.out.scope.values, 1), ..before.out.scope };
    CheckView { out: VerificationView { scope, ..before.out }, ..before }
}

fn one_more(count: usize) -> (out: usize)
    ensures
        out == counted(count, 1),
{
    if count < usize::MAX {
        count + 1
    } else {
        usize::MAX
    }
}

impl Check {
    fn mismatch(&mut self, path: &str, kind: MismatchKind, expected: Seen, found: Seen)
        ensures
            final(self)@ == mismatched(old(self)@, path@, kind@, expected@, found@),
    {
        let ghost had = self.out.mismatches@;
        let mismatch = Mismatch {
            path: ObjectPath::from_composed(path),
            kind,
            expected,
            found,
        };
        self.out.mismatches.push(mismatch);
        assert(mismatches_view(self.out.mismatches@) =~= mismatches_view(had).push(mismatch@));
    }

    fn compare(
        &mut self,
        comparison: &Comparison<'_>,
        path: &str,
        kind: MismatchKind,
        expected: Seen,
        found: Seen,
    )
        requires
            comparison.paths.named_by(comparison@.tokens),
        ensures
            final(self)@ == compared(
                old(self)@,
                comparison@,
                path@,
                kind@,
                expected@,
                found@,
            ),
    {
        if !expected.alike(&found, comparison.paths, comparison.tokens) {
            self.mismatch(path, kind, expected, found);
        }
    }

    fn skip(&mut self, path: &str, reason: SkipReason)
        ensures
            final(self)@ == skipping(old(self)@, path@, reason),
    {
        let ghost had = self.out.scope.skipped@;
        let skipped = Skipped { path: ObjectPath::from_composed(path), reason };
        self.out.scope.skipped.push(skipped);
        assert(self.out.scope.skipped@.map_values(|s: Skipped| s@) =~= had.map_values(
            |s: Skipped| s@,
        ).push(skipped@));
    }

    fn count_prim(&mut self)
        ensures
            final(self)@ == prim_counted(old(self)@),
    {
        self.out.scope.prims = one_more(self.out.scope.prims);
    }

    fn count_property(&mut self)
        ensures
            final(self)@ == property_counted(old(self)@),
    {
        self.out.scope.properties = one_more(self.out.scope.properties);
    }

    fn count_field(&mut self)
        ensures
            final(self)@ == field_counted(old(self)@),
    {
        self.out.scope.metadata_fields = one_more(self.out.scope.metadata_fields);
    }

    fn count_value(&mut self)
        ensures
            final(self)@ == value_counted(old(self)@),
    {
        self.out.scope.values = one_more(self.out.scope.values);
    }
}

/// Adds times to a list.
fn push_all(out: &mut Vec<u64>, times: &Vec<u64>)
    ensures
        final(out)@ == old(out)@ + times@,
{
    let ghost start = out@;
    let mut i: usize = 0;
    assert(start + times@.take(0) =~= start);
    while i < times.len()
        invariant
            i <= times@.len(),
            out@ == start + times@.take(i as int),
        decreases times@.len() - i,
    {
        assert((start + times@.take(i as int)).push(times@[i as int]) =~= start + times@.take(
            i + 1,
        ));
        out.push(times[i]);
        i = i + 1;
    }
    assert(times@.take(i as int) =~= times@);
}

// ── Properties ──────────────────────────────────────────────────────────

/// A comparison once a property metadata field is compared.
pub open spec fn field_compared(
    before: CheckView,
    c: ComparisonView,
    property: PropertyPath,
    key: TokenId,
) -> CheckView {
    let path = property_display(property, c.paths, c.tokens);
    let want = match field_seen(c.source, property, key) {
        Some(value) => Some(resolved_anchored(value, anchors_at(c.findings, path))),
        None => None,
    };
    compared(
        field_counted(before),
        c,
        path,
        MismatchKindView::PropertyMetadata { field: c.token_text(key) },
        SeenView::Resolved(want),
        SeenView::Resolved(field_seen(c.flattened, property, key)),
    )
}

/// A comparison once property metadata fields are compared.
pub open spec fn fields_compared(
    before: CheckView,
    c: ComparisonView,
    property: PropertyPath,
    keys: Seq<TokenId>,
) -> CheckView
    decreases keys.len(),
{
    if keys.len() == 0 {
        before
    } else {
        field_compared(
            fields_compared(before, c, property, keys.drop_last()),
            c,
            property,
            keys.last(),
        )
    }
}

/// A comparison once the values at a time are compared.
pub open spec fn time_compared(
    before: CheckView,
    c: ComparisonView,
    property: PropertyPath,
    time: u64,
) -> CheckView {
    let path = property_display(property, c.paths, c.tokens);
    let want = match value_at(c.source_values, property, time) {
        Some(value) => Some(anchored(value, anchors_at(c.findings, path))),
        None => None,
    };
    compared(
        value_counted(before),
        c,
        path,
        MismatchKindView::ValueAt { time },
        SeenView::Value(want),
        SeenView::Value(value_at(c.flattened_values, property, time)),
    )
}

/// A comparison once the values at times are compared.
pub open spec fn times_compared(
    before: CheckView,
    c: ComparisonView,
    property: PropertyPath,
    times: Seq<u64>,
) -> CheckView
    decreases times.len(),
{
    if times.len() == 0 {
        before
    } else {
        time_compared(
            times_compared(before, c, property, times.drop_last()),
            c,
            property,
            times.last(),
        )
    }
}

/// The stage times of the samples that either stage composes a property from.
pub open spec fn property_times(c: ComparisonView, property: PropertyPath) -> Seq<u64> {
    authored_times(chain_of(c.source.stage, property), c.times) + authored_times(
        chain_of(c.flattened.stage, property),
        c.times,
    )
}

/// A comparison once the targets and the default of a property are compared.
pub open spec fn value_compared(
    before: CheckView,
    c: ComparisonView,
    property: PropertyPath,
) -> CheckView {
    let path = property_display(property, c.paths, c.tokens);
    let pointed = compared(
        before,
        c,
        path,
        MismatchKindView::Targets,
        SeenView::Targets(targets_seen(c.source, property)),
        SeenView::Targets(targets_seen(c.flattened, property)),
    );
    let want = match default_seen(c.source, property) {
        Some(value) => Some(resolved_anchored(value, anchors_at(c.findings, path))),
        None => None,
    };
    compared(
        value_counted(pointed),
        c,
        path,
        MismatchKindView::Default,
        SeenView::Resolved(want),
        SeenView::Resolved(default_seen(c.flattened, property)),
    )
}

/// The metadata fields that either stage composes for a property.
pub open spec fn property_keys(c: ComparisonView, property: PropertyPath) -> Seq<TokenId> {
    placed_tokens(
        authored_keys(chain_of(c.source.stage, property)) + authored_keys(
            chain_of(c.flattened.stage, property),
        ),
    )
}

/// A comparison once a property that both stages compose is compared.
pub open spec fn both_compared(
    before: CheckView,
    c: ComparisonView,
    property: PropertyPath,
    declared: DeclarationView,
    found: DeclarationView,
) -> CheckView {
    let path = property_display(property, c.paths, c.tokens);
    let declaration = compared(
        property_counted(before),
        c,
        path,
        MismatchKindView::Declaration,
        SeenView::Declaration(declared_at(c.findings, path, declared)),
        SeenView::Declaration(found),
    );
    let fields = fields_compared(declaration, c, property, property_keys(c, property));
    let value = value_compared(fields, c, property);
    let sampled = property_times(c, property);
    times_compared(
        CheckView { sample_times: value.sample_times + sampled, ..value },
        c,
        property,
        placed_times(sampled + c.at),
    )
}

/// A comparison once a property of the stage is compared.
pub open spec fn property_compared(
    before: CheckView,
    c: ComparisonView,
    property: PropertyPath,
) -> CheckView {
    let path = property_display(property, c.paths, c.tokens);
    match skip_at(c.findings, path) {
        Some(reason) => skipping(before, path, reason),
        None => match (
            declaration_seen(c.source, property),
            declaration_seen(c.flattened, property),
        ) {
            (None, _) => before,
            (Some(_), None) => mismatched(
                before,
                path,
                MismatchKindView::Property,
                SeenView::Present,
                SeenView::Absent,
            ),
            (Some(declared), Some(found)) => both_compared(before, c, property, declared, found),
        },
    }
}

impl<'a> Comparison<'a> {
    fn compare_fields(
        &self,
        check: &mut Check,
        property: PropertyPath,
        path: &str,
        anchors: &Vec<(String, String)>,
        keys: &Vec<TokenId>,
    )
        requires
            self@.known(),
            path@ == property_display(property, self@.paths, self@.tokens),
            anchors_view(anchors@) == anchors_at(self@.findings, path@),
            names_below(keys@, self@.tokens.len()),
        ensures
            final(check)@ == fields_compared(old(check)@, self@, property, keys@),
    {
        let ghost start = check@;
        let mut i: usize = 0;
        assert(keys@.take(0) =~= seq![]);
        while i < keys.len()
            invariant
                i <= keys@.len(),
                self@.known(),
                path@ == property_display(property, self@.paths, self@.tokens),
                anchors_view(anchors@) == anchors_at(self@.findings, path@),
                names_below(keys@, self@.tokens.len()),
                check@ == fields_compared(start, self@, property, keys@.take(i as int)),
            decreases keys@.len() - i,
        {
            let key = keys[i];
            proof {
                assert(keys@.take(i + 1).drop_last() =~= keys@.take(i as int));
                assert(keys@.take(i + 1).last() == key);
            }
            check.count_field();
            let want = expected_resolved(read_field(&self.source, property, key), anchors);
            let got = read_field(&self.flattened, property, key);
            let field = text(self.tokens.resolve(key));
            check.compare(
                self,
                path,
                MismatchKind::PropertyMetadata { field },
                Seen::Resolved(want),
                Seen::Resolved(got),
            );
            i = i + 1;
        }
        assert(keys@.take(i as int) =~= keys@);
    }

    fn compare_times(
        &self,
        check: &mut Check,
        property: PropertyPath,
        path: &str,
        anchors: &Vec<(String, String)>,
        times: &Vec<u64>,
    )
        requires
            self@.known(),
            path@ == property_display(property, self@.paths, self@.tokens),
            anchors_view(anchors@) == anchors_at(self@.findings, path@),
        ensures
            final(check)@ == times_compared(old(check)@, self@, property, times@),
    {
        let ghost start = check@;
        let mut i: usize = 0;
        assert(times@.take(0) =~= seq![]);
        while i < times.len()
            invariant
                i <= times@.len(),
                self@.known(),
                path@ == property_display(property, self@.paths, self@.tokens),
                anchors_view(anchors@) == anchors_at(self@.findings, path@),
                check@ == times_compared(start, self@, property, times@.take(i as int)),
            decreases times@.len() - i,
        {
            let time = times[i];
            proof {
                assert(times@.take(i + 1).drop_last() =~= times@.take(i as int));
                assert(times@.take(i + 1).last() == time);
            }
            check.count_value();
            let want = match find_value(self.source_values, property, time) {
                Some(value) => Some(anchor_value(&value, anchors)),
                None => None,
            };
            let got = find_value(self.flattened_values, property, time);
            check.compare(
                self,
                path,
                MismatchKind::ValueAt { time },
                Seen::Value(want),
                Seen::Value(got),
            );
            i = i + 1;
        }
        assert(times@.take(i as int) =~= times@);
    }

    fn compare_value(
        &self,
        check: &mut Check,
        property: PropertyPath,
        path: &str,
        anchors: &Vec<(String, String)>,
    )
        requires
            self@.known(),
            path@ == property_display(property, self@.paths, self@.tokens),
            anchors_view(anchors@) == anchors_at(self@.findings, path@),
        ensures
            final(check)@ == value_compared(old(check)@, self@, property),
    {
        check.compare(
            self,
            path,
            MismatchKind::Targets,
            Seen::Targets(read_targets(&self.source, property)),
            Seen::Targets(read_targets(&self.flattened, property)),
        );
        check.count_value();
        let ghost tokens = self@.tokens;
        let ghost count = self@.paths.len();
        let want = expected_resolved(
            read_default(&self.source, property, Ghost(tokens), Ghost(count)),
            anchors,
        );
        let got = read_default(&self.flattened, property, Ghost(tokens), Ghost(count));
        check.compare(self, path, MismatchKind::Default, Seen::Resolved(want), Seen::Resolved(got));
    }

    /// Compares a property of the stage.
    pub fn compare_property(&self, check: &mut Check, property: PropertyPath)
        requires
            self@.known(),
            property.prim_path.index < self@.paths.len(),
            property.property.index < self@.tokens.len(),
        ensures
            final(check)@ == property_compared(old(check)@, self@, property),
    {
        let ghost start = check@;
        let path = property.display(self.paths, self.tokens);
        match skip_reason(self.report, path.as_str()) {
            Some(reason) => {
                check.skip(path.as_str(), reason);
                return ;
            },
            None => {},
        }
        let declared = match self.source.stage.resolve_property_declaration(
            property.prim_path,
            property.property,
        ) {
            Some(declared) => declared,
            None => {
                return ;
            },
        };
        let found = match self.flattened.stage.resolve_property_declaration(
            property.prim_path,
            property.property,
        ) {
            Some(found) => found,
            None => {
                check.mismatch(path.as_str(), MismatchKind::Property, Seen::Present, Seen::Absent);
                return ;
            },
        };
        check.count_property();
        let expected = expected_declaration(self.report, path.as_str(), declared);
        check.compare(
            self,
            path.as_str(),
            MismatchKind::Declaration,
            Seen::Declaration(expected),
            Seen::Declaration(found),
        );
        let anchors = find_anchors(self.report, path.as_str());
        let ghost tokens = self@.tokens;
        let ghost count = self@.paths.len();
        let mut keys: Vec<TokenId> = Vec::new();
        collect_authored(&self.source, property, &mut keys, Ghost(tokens), Ghost(count));
        collect_authored(&self.flattened, property, &mut keys, Ghost(tokens), Ghost(count));
        let ghost collected = keys@;
        let keys = place_tokens(keys);
        proof {
            assert(collected =~= authored_keys(chain_of(self@.source.stage, property))
                + authored_keys(chain_of(self@.flattened.stage, property)));
            assert forall|i: int| 0 <= i < keys@.len() implies (#[trigger] keys@[i]).index
                < tokens.len() by {
                assert(collected.contains(keys@[i]));
                let k = choose|k: int| 0 <= k < collected.len() && collected[k] == keys@[i];
                assert(collected[k].index < tokens.len());
            }
        }
        self.compare_fields(check, property, path.as_str(), &anchors, &keys);
        self.compare_value(check, property, path.as_str(), &anchors);
        let mut at: Vec<u64> = Vec::new();
        collect_times(&self.source, property, self.times, &mut at);
        collect_times(&self.flattened, property, self.times, &mut at);
        assert(at@ =~= property_times(self@, property));
        push_all(&mut check.sample_times, &at);
        push_all(&mut at, self.at);
        let at = place_times(at);
        self.compare_times(check, property, path.as_str(), &anchors, &at);
    }
}

// ── Prims ───────────────────────────────────────────────────────────────

/// The children of a prim that are not prototypes.
pub open spec fn shown_children(c: ComparisonView, children: Seq<PathId>) -> Seq<PathId>
    decreases children.len(),
{
    if children.len() == 0 {
        seq![]
    } else {
        let earlier = shown_children(c, children.drop_last());
        if among_prototypes(c.prototypes(), c.prim_text(children.last())) {
            earlier
        } else {
            earlier.push(children.last())
        }
    }
}

/// A comparison once what a prim's sources declare of it is compared.
pub open spec fn members_compared(before: CheckView, c: ComparisonView, prim: PathId) -> CheckView {
    let path = c.prim_text(prim);
    let want = members_of(c.source, prim);
    let got = members_of(c.flattened, prim);
    let specifier = compared(before, c, path, MismatchKindView::Specifier, want[0], got[0]);
    let label = compared(specifier, c, path, MismatchKindView::TypeName, want[1], got[1]);
    let children = compared(
        label,
        c,
        path,
        MismatchKindView::Children,
        SeenView::Paths(shown_children(c, children_in(c.source.stage, prim))),
        SeenView::Paths(shown_children(c, children_in(c.flattened.stage, prim))),
    );
    let active = compared(
        field_counted(children),
        c,
        path,
        MismatchKindView::Metadata { field: "active"@ },
        want[2],
        got[2],
    );
    let instanceable = compared(
        field_counted(active),
        c,
        path,
        MismatchKindView::Metadata { field: "instanceable"@ },
        want[3],
        got[3],
    );
    let prim_order = compared(
        field_counted(instanceable),
        c,
        path,
        MismatchKindView::Metadata { field: "primOrder"@ },
        want[4],
        got[4],
    );
    compared(
        field_counted(prim_order),
        c,
        path,
        MismatchKindView::Metadata { field: "propertyOrder"@ },
        want[5],
        got[5],
    )
}

/// A comparison once a prim metadata field is compared.
pub open spec fn key_compared(
    before: CheckView,
    c: ComparisonView,
    prim: PathId,
    key: TokenId,
) -> CheckView {
    let path = c.prim_text(prim);
    let want = match metadata_seen(c.source, prim, key) {
        Some(value) => Some(resolved_anchored(value, anchors_at(c.findings, path))),
        None => None,
    };
    compared(
        field_counted(before),
        c,
        path,
        MismatchKindView::Metadata { field: c.token_text(key) },
        SeenView::Resolved(want),
        SeenView::Resolved(metadata_seen(c.flattened, prim, key)),
    )
}

/// A comparison once prim metadata fields are compared.
pub open spec fn keys_compared(
    before: CheckView,
    c: ComparisonView,
    prim: PathId,
    keys: Seq<TokenId>,
) -> CheckView
    decreases keys.len(),
{
    if keys.len() == 0 {
        before
    } else {
        key_compared(keys_compared(before, c, prim, keys.drop_last()), c, prim, keys.last())
    }
}

/// The metadata fields that either stage composes for a prim.
pub open spec fn prim_keys(c: ComparisonView, prim: PathId) -> Seq<TokenId> {
    placed_tokens(keys_of(c.source.stage, prim) + keys_of(c.flattened.stage, prim))
}

/// A comparison once the metadata of a prim is compared, unless it was lost.
pub open spec fn metadata_compared(
    before: CheckView,
    c: ComparisonView,
    prim: PathId,
) -> CheckView {
    let path = c.prim_text(prim);
    match skip_at(c.findings, path) {
        Some(reason) => skipping(before, path, reason),
        None => keys_compared(before, c, prim, prim_keys(c, prim)),
    }
}

/// A comparison once properties of the stage are compared.
pub open spec fn properties_compared(
    before: CheckView,
    c: ComparisonView,
    prim: PathId,
    names: Seq<TokenId>,
) -> CheckView
    decreases names.len(),
{
    if names.len() == 0 {
        before
    } else {
        property_compared(
            properties_compared(before, c, prim, names.drop_last()),
            c,
            PropertyPath { prim_path: prim, property: names.last() },
        )
    }
}

/// A comparison once properties that only the flattened stage has are
/// reported.
pub open spec fn extras_compared(
    before: CheckView,
    c: ComparisonView,
    prim: PathId,
    names: Seq<TokenId>,
) -> CheckView
    decreases names.len(),
{
    if names.len() == 0 {
        before
    } else {
        let earlier = extras_compared(before, c, prim, names.drop_last());
        if names_of(c.source, prim).contains(names.last()) {
            earlier
        } else {
            mismatched(
                earlier,
                property_display(
                    PropertyPath { prim_path: prim, property: names.last() },
                    c.paths,
                    c.tokens,
                ),
                MismatchKindView::Property,
                SeenView::Absent,
                SeenView::Present,
            )
        }
    }
}

/// A comparison once a prim of the stage is compared.
pub open spec fn prim_compared(before: CheckView, c: ComparisonView, prim: PathId) -> CheckView {
    if named(c.flattened.stage.prims, prim) is None {
        mismatched(
            before,
            c.prim_text(prim),
            MismatchKindView::Prim,
            SeenView::Present,
            SeenView::Absent,
        )
    } else {
        let members = members_compared(prim_counted(before), c, prim);
        let metadata = metadata_compared(members, c, prim);
        let properties = properties_compared(metadata, c, prim, names_of(c.source, prim));
        extras_compared(properties, c, prim, names_of(c.flattened, prim))
    }
}

impl<'a> Comparison<'a> {
    fn prim_path(&self, prim: PathId) -> (out: String)
        requires
            self@.known(),
            prim.index < self@.paths.len(),
        ensures
            out@ == self@.prim_text(prim),
    {
        self.paths.resolve(prim).display(self.tokens)
    }

    fn children(&self, stage: &Stage, prim: PathId, prototypes: &Vec<String>) -> (out: Vec<PathId>)
        requires
            self@.known(),
            texts(prototypes@) == self@.prototypes(),
            ids_below(children_in(stage@, prim), self@.paths.len()),
        ensures
            out@ == shown_children(self@, children_in(stage@, prim)),
    {
        let mut out: Vec<PathId> = Vec::new();
        let children = match stage.children_of(prim) {
            Some(children) => children,
            None => {
                assert(out@ =~= seq![]);
                return out;
            },
        };
        let mut i: usize = 0;
        assert(children@.take(0) =~= seq![]);
        while i < children.len()
            invariant
                i <= children@.len(),
                self@.known(),
                texts(prototypes@) == self@.prototypes(),
                ids_below(children@, self@.paths.len()),
                out@ == shown_children(self@, children@.take(i as int)),
            decreases children@.len() - i,
        {
            let child = children[i];
            proof {
                assert(children@.take(i + 1).drop_last() =~= children@.take(i as int));
                assert(children@.take(i + 1).last() == child);
            }
            let path = self.prim_path(child);
            if !is_prototype(prototypes, path.as_str()) {
                out.push(child);
            }
            i = i + 1;
        }
        assert(children@.take(i as int) =~= children@);
        out
    }

    fn compare_members(
        &self,
        check: &mut Check,
        prim: PathId,
        path: &str,
        prototypes: &Vec<String>,
    )
        requires
            self@.known(),
            path@ == self@.prim_text(prim),
            texts(prototypes@) == self@.prototypes(),
        ensures
            final(check)@ == members_compared(old(check)@, self@, prim),
    {
        proof {
            lemma_children_known(self@.source, self@.tokens, self@.paths.len(), prim);
            lemma_children_known(self@.flattened, self@.tokens, self@.paths.len(), prim);
        }
        let want = read_members(&self.source, prim);
        let got = read_members(&self.flattened, prim);
        let ghost wanted = members_of(self@.source, prim);
        let ghost gotten = members_of(self@.flattened, prim);
        proof {
            assert(wanted[0] == want.specifier@ && gotten[0] == got.specifier@);
            assert(wanted[1] == want.type_label@ && gotten[1] == got.type_label@);
            assert(wanted[2] == want.active@ && gotten[2] == got.active@);
            assert(wanted[3] == want.instanceable@ && gotten[3] == got.instanceable@);
            assert(wanted[4] == want.prim_order@ && gotten[4] == got.prim_order@);
            assert(wanted[5] == want.property_order@ && gotten[5] == got.property_order@);
        }
        check.compare(self, path, MismatchKind::Specifier, want.specifier, got.specifier);
        check.compare(self, path, MismatchKind::TypeName, want.type_label, got.type_label);
        check.compare(
            self,
            path,
            MismatchKind::Children,
            Seen::Paths(self.children(self.source.stage, prim, prototypes)),
            Seen::Paths(self.children(self.flattened.stage, prim, prototypes)),
        );
        check.count_field();
        let field = text("active");
        check.compare(self, path, MismatchKind::Metadata { field }, want.active, got.active);
        check.count_field();
        let field = text("instanceable");
        check.compare(self, path, MismatchKind::Metadata { field }, want.instanceable, got.instanceable);
        check.count_field();
        let field = text("primOrder");
        check.compare(self, path, MismatchKind::Metadata { field }, want.prim_order, got.prim_order);
        check.count_field();
        let field = text("propertyOrder");
        check.compare(
            self,
            path,
            MismatchKind::Metadata { field },
            want.property_order,
            got.property_order,
        );
    }

    fn compare_metadata(&self, check: &mut Check, prim: PathId, path: &str)
        requires
            self@.known(),
            path@ == self@.prim_text(prim),
        ensures
            final(check)@ == metadata_compared(old(check)@, self@, prim),
    {
        match skip_reason(self.report, path) {
            Some(reason) => {
                check.skip(path, reason);
                return ;
            },
            None => {},
        }
        let anchors = find_anchors(self.report, path);
        let ghost tokens = self@.tokens;
        let ghost count = self@.paths.len();
        let mut keys: Vec<TokenId> = Vec::new();
        collect_keys(&self.source, prim, &mut keys, Ghost(tokens), Ghost(count));
        collect_keys(&self.flattened, prim, &mut keys, Ghost(tokens), Ghost(count));
        let ghost collected = keys@;
        let keys = place_tokens(keys);
        proof {
            assert(collected =~= keys_of(self@.source.stage, prim) + keys_of(
                self@.flattened.stage,
                prim,
            ));
            assert forall|i: int| 0 <= i < keys@.len() implies (#[trigger] keys@[i]).index
                < tokens.len() by {
                assert(collected.contains(keys@[i]));
                let k = choose|k: int| 0 <= k < collected.len() && collected[k] == keys@[i];
                assert(collected[k].index < tokens.len());
            }
        }
        let ghost start = check@;
        let mut i: usize = 0;
        assert(keys@.take(0) =~= seq![]);
        while i < keys.len()
            invariant
                i <= keys@.len(),
                self@.known(),
                tokens == self@.tokens,
                count == self@.paths.len(),
                path@ == self@.prim_text(prim),
                anchors_view(anchors@) == anchors_at(self@.findings, path@),
                names_below(keys@, tokens.len()),
                check@ == keys_compared(start, self@, prim, keys@.take(i as int)),
            decreases keys@.len() - i,
        {
            let key = keys[i];
            proof {
                assert(keys@.take(i + 1).drop_last() =~= keys@.take(i as int));
                assert(keys@.take(i + 1).last() == key);
            }
            check.count_field();
            let want = expected_resolved(
                read_metadata(&self.source, prim, key, Ghost(tokens), Ghost(count)),
                &anchors,
            );
            let got = read_metadata(&self.flattened, prim, key, Ghost(tokens), Ghost(count));
            let field = text(self.tokens.resolve(key));
            check.compare(
                self,
                path,
                MismatchKind::Metadata { field },
                Seen::Resolved(want),
                Seen::Resolved(got),
            );
            i = i + 1;
        }
        assert(keys@.take(i as int) =~= keys@);
    }

    fn property_names(&self, scene: &Scene<'a>, prim: PathId) -> (out: Vec<TokenId>)
        requires
            scene_known(scene@, self@.tokens, self@.paths.len()),
        ensures
            out@ == names_of(scene@, prim),
            names_below(out@, self@.tokens.len()),
    {
        match scene.source(prim) {
            Some(source) => {
                proof {
                    lemma_place_of(scene@.sources, prim, 0);
                    let at = place_of(scene@.sources, prim, 0);
                    assert(names_below(scene@.sources[at].1.property_names, self@.tokens.len()));
                }
                crate::schema::definition::copy_tokens(&source.property_names)
            },
            None => {
                let out: Vec<TokenId> = Vec::new();
                assert(out@ =~= seq![]);
                out
            },
        }
    }

    /// Compares a prim of the stage.
    pub fn compare_prim(&self, check: &mut Check, prim: PathId, prototypes: &Vec<String>)
        requires
            self@.known(),
            prim.index < self@.paths.len(),
            texts(prototypes@) == self@.prototypes(),
        ensures
            final(check)@ == prim_compared(old(check)@, self@, prim),
    {
        let path = self.prim_path(prim);
        if !self.flattened.stage.has_prim(prim) {
            check.mismatch(path.as_str(), MismatchKind::Prim, Seen::Present, Seen::Absent);
            return ;
        }
        check.count_prim();
        self.compare_members(check, prim, path.as_str(), prototypes);
        self.compare_metadata(check, prim, path.as_str());
        let names = self.property_names(&self.source, prim);
        let ghost start = check@;
        let mut i: usize = 0;
        assert(names@.take(0) =~= seq![]);
        while i < names.len()
            invariant
                i <= names@.len(),
                self@.known(),
                prim.index < self@.paths.len(),
                names_below(names@, self@.tokens.len()),
                check@ == properties_compared(start, self@, prim, names@.take(i as int)),
            decreases names@.len() - i,
        {
            proof {
                assert(names@.take(i + 1).drop_last() =~= names@.take(i as int));
                assert(names@.take(i + 1).last() == names@[i as int]);
            }
            self.compare_property(check, PropertyPath::new(prim, names[i]));
            i = i + 1;
        }
        assert(names@.take(i as int) =~= names@);
        let others = self.property_names(&self.flattened, prim);
        let ghost between = check@;
        i = 0;
        assert(others@.take(0) =~= seq![]);
        while i < others.len()
            invariant
                i <= others@.len(),
                self@.known(),
                prim.index < self@.paths.len(),
                names@ == names_of(self@.source, prim),
                names_below(others@, self@.tokens.len()),
                check@ == extras_compared(between, self@, prim, others@.take(i as int)),
            decreases others@.len() - i,
        {
            let name = others[i];
            proof {
                assert(others@.take(i + 1).drop_last() =~= others@.take(i as int));
                assert(others@.take(i + 1).last() == name);
            }
            if !crate::schema::definition::holds_token(&names, name) {
                let extra = PropertyPath::new(prim, name).display(self.paths, self.tokens);
                check.mismatch(
                    extra.as_str(),
                    MismatchKind::Property,
                    Seen::Absent,
                    Seen::Present,
                );
            }
            i = i + 1;
        }
        assert(others@.take(i as int) =~= others@);
    }
}

proof fn lemma_children_known(
    scene: SceneView,
    tokens: Seq<Seq<char>>,
    count: nat,
    prim: PathId,
)
    requires
        scene_known(scene, tokens, count),
    ensures
        ids_below(children_in(scene.stage, prim), count),
{
    lemma_place_of(scene.stage.children, prim, 0);
    let at = place_of(scene.stage.children, prim, 0);
    if at < scene.stage.children.len() {
        assert(ids_below(scene.stage.children[at].1, count));
    }
}

// ── Stages ──────────────────────────────────────────────────────────────

/// The prims at and below a prim, each before its children, down to a depth.
pub open spec fn walked(stage: StageView, prim: PathId, depth: nat) -> Seq<PathId>
    decreases depth, 1nat, 0nat,
{
    seq![prim] + walked_all(stage, children_in(stage, prim), depth)
}

/// The prims below a prim whose children are given.
pub open spec fn walked_all(stage: StageView, children: Seq<PathId>, depth: nat) -> Seq<PathId>
    decreases depth, 0nat, children.len(),
{
    if children.len() == 0 || depth == 0 {
        seq![]
    } else {
        walked_all(stage, children.drop_last(), depth) + walked(
            stage,
            children.last(),
            (depth - 1) as nat,
        )
    }
}

/// Collects the prims at and below a prim.
pub fn walk(
    scene: &Scene<'_>,
    prim: PathId,
    depth: usize,
    out: &mut Vec<PathId>,
    Ghost(tokens): Ghost<Seq<Seq<char>>>,
    Ghost(count): Ghost<nat>,
)
    requires
        scene_known(scene@, tokens, count),
        prim.index < count,
        reaches(scene@.stage, prim, depth as nat),
        ids_below(old(out)@, count),
    ensures
        final(out)@ == old(out)@ + walked(scene@.stage, prim, depth as nat),
        ids_below(final(out)@, count),
    decreases depth,
{
    let ghost start = out@;
    out.push(prim);
    let ghost reached = out@;
    let children = match scene.stage.children_of(prim) {
        Some(children) => children,
        None => {
            assert(out@ =~= start + walked(scene@.stage, prim, depth as nat));
            return ;
        },
    };
    if depth == 0 {
        assert(out@ =~= start + walked(scene@.stage, prim, depth as nat));
        return ;
    }
    proof {
        lemma_children_known(scene@, tokens, count, prim);
        assert(children@.take(0) =~= seq![]);
        assert(reached + walked_all(scene@.stage, children@.take(0), depth as nat) =~= reached);
    }
    let mut i: usize = 0;
    while i < children.len()
        invariant
            i <= children@.len(),
            depth > 0,
            scene_known(scene@, tokens, count),
            children@ == children_in(scene@.stage, prim),
            reaches(scene@.stage, prim, depth as nat),
            ids_below(children@, count),
            ids_below(out@, count),
            out@ == reached + walked_all(scene@.stage, children@.take(i as int), depth as nat),
        decreases children@.len() - i,
    {
        proof {
            assert(children@.take(i + 1).drop_last() =~= children@.take(i as int));
            assert(children@.take(i + 1).last() == children@[i as int]);
            assert(children_in(scene@.stage, prim)[i as int] == children@[i as int]);
        }
        walk(scene, children[i], depth - 1, out, Ghost(tokens), Ghost(count));
        assert(out@ =~= reached + walked_all(
            scene@.stage,
            children@.take(i + 1),
            depth as nat,
        ));
        i = i + 1;
    }
    assert(children@.take(i as int) =~= children@);
    assert(out@ =~= start + walked(scene@.stage, prim, depth as nat));
}

/// A comparison once prims of the stage, but for the root, are compared.
pub open spec fn prims_compared(
    before: CheckView,
    c: ComparisonView,
    root: PathId,
    prims: Seq<PathId>,
) -> CheckView
    decreases prims.len(),
{
    if prims.len() == 0 {
        before
    } else {
        let earlier = prims_compared(before, c, root, prims.drop_last());
        if prims.last() == root {
            earlier
        } else {
            prim_compared(earlier, c, prims.last())
        }
    }
}

/// A comparison once prims of the flattened stage that the stage lacks, but
/// for the root and the prototypes, are reported.
pub open spec fn extra_prims_compared(
    before: CheckView,
    c: ComparisonView,
    root: PathId,
    prims: Seq<PathId>,
) -> CheckView
    decreases prims.len(),
{
    if prims.len() == 0 {
        before
    } else {
        let earlier = extra_prims_compared(before, c, root, prims.drop_last());
        let prim = prims.last();
        if prim == root || named(c.source.stage.prims, prim) is Some || among_prototypes(
            c.prototypes(),
            c.prim_text(prim),
        ) {
            earlier
        } else {
            mismatched(
                earlier,
                c.prim_text(prim),
                MismatchKindView::Prim,
                SeenView::Absent,
                SeenView::Present,
            )
        }
    }
}

/// The comparison before anything is compared.
pub open spec fn nothing_compared(at: Seq<u64>) -> CheckView {
    CheckView {
        out: VerificationView {
            scope: ScopeView {
                prims: 0,
                properties: 0,
                metadata_fields: 0,
                values: 0,
                sample_times: 0,
                times: at,
                skipped: seq![],
            },
            mismatches: seq![],
        },
        sample_times: seq![],
    }
}

/// The comparison of two stages, root prim and all below it, down to the
/// longest path there is.
pub open spec fn stages_compared(c: ComparisonView) -> CheckView {
    if c.paths.contains(seq![]) {
        let root = top(c.paths);
        let depth = longest(c.paths);
        extra_prims_compared(
            prims_compared(
                nothing_compared(c.at),
                c,
                root,
                walked(c.source.stage, root, depth),
            ),
            c,
            root,
            walked(c.flattened.stage, root, depth),
        )
    } else {
        nothing_compared(c.at)
    }
}

/// The outcome of a comparison: what was compared, with the number of distinct
/// times of samples.
pub open spec fn verified(c: ComparisonView) -> VerificationView {
    let check = stages_compared(c);
    let scope = ScopeView {
        sample_times: placed_times(check.sample_times).len() as usize,
        ..check.out.scope
    };
    VerificationView { scope, ..check.out }
}

impl<'a> Comparison<'a> {
    fn run(&self, check: &mut Check)
        requires
            self@.known(),
            old(check)@ == nothing_compared(self@.at),
        ensures
            final(check)@ == stages_compared(self@),
    {
        let empty = Path::root();
        assert(empty@ =~= seq![]);
        let root = match self.paths.lookup(&empty) {
            Some(root) => root,
            None => {
                return ;
            },
        };
        let prototypes = self.report.prototypes();
        let depth = longest_path(self.paths);
        let ghost tokens = self@.tokens;
        let ghost count = self@.paths.len();
        let mut prims: Vec<PathId> = Vec::new();
        walk(&self.source, root, depth, &mut prims, Ghost(tokens), Ghost(count));
        assert(prims@ =~= walked(self@.source.stage, root, depth as nat));
        let ghost start = check@;
        let mut i: usize = 0;
        assert(prims@.take(0) =~= seq![]);
        while i < prims.len()
            invariant
                i <= prims@.len(),
                self@.known(),
                count == self@.paths.len(),
                texts(prototypes@) == self@.prototypes(),
                ids_below(prims@, count),
                check@ == prims_compared(start, self@, root, prims@.take(i as int)),
            decreases prims@.len() - i,
        {
            let prim = prims[i];
            proof {
                assert(prims@.take(i + 1).drop_last() =~= prims@.take(i as int));
                assert(prims@.take(i + 1).last() == prim);
            }
            if prim != root {
                self.compare_prim(check, prim, &prototypes);
            }
            i = i + 1;
        }
        assert(prims@.take(i as int) =~= prims@);
        let mut others: Vec<PathId> = Vec::new();
        walk(&self.flattened, root, depth, &mut others, Ghost(tokens), Ghost(count));
        assert(others@ =~= walked(self@.flattened.stage, root, depth as nat));
        let ghost between = check@;
        i = 0;
        assert(others@.take(0) =~= seq![]);
        while i < others.len()
            invariant
                i <= others@.len(),
                self@.known(),
                count == self@.paths.len(),
                texts(prototypes@) == self@.prototypes(),
                ids_below(others@, count),
                check@ == extra_prims_compared(between, self@, root, others@.take(i as int)),
            decreases others@.len() - i,
        {
            let prim = others[i];
            proof {
                assert(others@.take(i + 1).drop_last() =~= others@.take(i as int));
                assert(others@.take(i + 1).last() == prim);
            }
            if prim != root && !self.source.stage.has_prim(prim) {
                let path = self.prim_path(prim);
                if !is_prototype(&prototypes, path.as_str()) {
                    check.mismatch(path.as_str(), MismatchKind::Prim, Seen::Absent, Seen::Present);
                }
            }
            i = i + 1;
        }
        assert(others@.take(i as int) =~= others@);
    }
}

/// Checks that the stage of a flattened layer composes what the stage it was
/// flattened from composes, and reports what was compared.
///
/// What the flatten's report records as lost is skipped, the prototypes that
/// it added are not prims of the stage, and asset paths and declarations are
/// expected as the report records that the layer holds them.
pub fn verify_flattened(comparison: &Comparison<'_>) -> (out: FlattenVerification)
    requires
        comparison@.known(),
    ensures
        out@ == verified(comparison@),
{
    let mut times: Vec<u64> = Vec::new();
    push_all(&mut times, comparison.at);
    assert(times@ =~= comparison@.at);
    let skipped: Vec<Skipped> = Vec::new();
    let mismatches: Vec<Mismatch> = Vec::new();
    assert(skipped@.map_values(|s: Skipped| s@) =~= seq![]);
    assert(mismatches_view(mismatches@) =~= seq![]);
    let mut check = Check {
        out: FlattenVerification {
            scope: VerifiedScope {
                prims: 0,
                properties: 0,
                metadata_fields: 0,
                values: 0,
                sample_times: 0,
                times,
                skipped,
            },
            mismatches,
        },
        sample_times: Vec::new(),
    };
    assert(check@ =~= nothing_compared(comparison@.at));
    comparison.run(&mut check);
    let Check { out, sample_times } = check;
    let mut out = out;
    let distinct = place_times(sample_times);
    out.scope.sample_times = distinct.len();
    out
}

// ── Laws ────────────────────────────────────────────────────────────────

/// Whether both sides of a comparison are one stage, and nothing was found of
/// it.
pub open spec fn same_sides(c: ComparisonView) -> bool {
    &&& c.source == c.flattened
    &&& c.source_values == c.flattened_values
    &&& c.findings == Seq::<FindingView>::empty()
}

proof fn lemma_same_seen(
    before: CheckView,
    c: ComparisonView,
    path: Seq<char>,
    kind: MismatchKindView,
    seen: SeenView,
)
    ensures
        compared(before, c, path, kind, seen, seen) == before,
{
    law_seen_reads_like_itself(seen, c.paths, c.tokens);
}

proof fn lemma_unanchored(value: ResolvedView)
    ensures
        resolved_anchored(value, seq![]) == value,
{
    match value {
        ResolvedView::Scalar(value) => law_nothing_anchored_changes_nothing(value),
        ResolvedView::Dictionary(entries) => law_nothing_anchored_changes_nothing(
            ValueView::Dictionary(entries),
        ),
        _ => {},
    }
}

proof fn lemma_same_fields(
    before: CheckView,
    c: ComparisonView,
    property: PropertyPath,
    keys: Seq<TokenId>,
)
    requires
        same_sides(c),
    ensures
        fields_compared(before, c, property, keys).out.mismatches == before.out.mismatches,
    decreases keys.len(),
{
    if keys.len() > 0 {
        lemma_same_fields(before, c, property, keys.drop_last());
        let earlier = fields_compared(before, c, property, keys.drop_last());
        let path = property_display(property, c.paths, c.tokens);
        let seen = field_seen(c.source, property, keys.last());
        if seen is Some {
            lemma_unanchored(seen->0);
        }
        lemma_same_seen(
            field_counted(earlier),
            c,
            path,
            MismatchKindView::PropertyMetadata { field: c.token_text(keys.last()) },
            SeenView::Resolved(seen),
        );
    }
}

proof fn lemma_same_times(
    before: CheckView,
    c: ComparisonView,
    property: PropertyPath,
    times: Seq<u64>,
)
    requires
        same_sides(c),
    ensures
        times_compared(before, c, property, times).out.mismatches == before.out.mismatches,
    decreases times.len(),
{
    if times.len() > 0 {
        lemma_same_times(before, c, property, times.drop_last());
        let earlier = times_compared(before, c, property, times.drop_last());
        let path = property_display(property, c.paths, c.tokens);
        let seen = value_at(c.source_values, property, times.last());
        if seen is Some {
            law_nothing_anchored_changes_nothing(seen->0);
        }
        lemma_same_seen(
            value_counted(earlier),
            c,
            path,
            MismatchKindView::ValueAt { time: times.last() },
            SeenView::Value(seen),
        );
    }
}

proof fn lemma_same_property(before: CheckView, c: ComparisonView, property: PropertyPath)
    requires
        same_sides(c),
    ensures
        property_compared(before, c, property).out.mismatches == before.out.mismatches,
{
    let path = property_display(property, c.paths, c.tokens);
    match declaration_seen(c.source, property) {
        Some(declared) => {
            lemma_same_seen(
                property_counted(before),
                c,
                path,
                MismatchKindView::Declaration,
                SeenView::Declaration(declared),
            );
            let declaration = property_counted(before);
            lemma_same_fields(declaration, c, property, property_keys(c, property));
            let fields = fields_compared(declaration, c, property, property_keys(c, property));
            lemma_same_seen(
                fields,
                c,
                path,
                MismatchKindView::Targets,
                SeenView::Targets(targets_seen(c.source, property)),
            );
            let seen = default_seen(c.source, property);
            if seen is Some {
                lemma_unanchored(seen->0);
            }
            lemma_same_seen(
                value_counted(fields),
                c,
                path,
                MismatchKindView::Default,
                SeenView::Resolved(seen),
            );
            let value = value_compared(fields, c, property);
            let sampled = property_times(c, property);
            lemma_same_times(
                CheckView { sample_times: value.sample_times + sampled, ..value },
                c,
                property,
                placed_times(sampled + c.at),
            );
        },
        None => {},
    }
}

proof fn lemma_same_properties(
    before: CheckView,
    c: ComparisonView,
    prim: PathId,
    names: Seq<TokenId>,
)
    requires
        same_sides(c),
    ensures
        properties_compared(before, c, prim, names).out.mismatches == before.out.mismatches,
    decreases names.len(),
{
    if names.len() > 0 {
        lemma_same_properties(before, c, prim, names.drop_last());
        lemma_same_property(
            properties_compared(before, c, prim, names.drop_last()),
            c,
            PropertyPath { prim_path: prim, property: names.last() },
        );
    }
}

proof fn lemma_same_extras(
    before: CheckView,
    c: ComparisonView,
    prim: PathId,
    names: Seq<TokenId>,
)
    requires
        forall|i: int|
            0 <= i < names.len() ==> names_of(c.source, prim).contains(#[trigger] names[i]),
    ensures
        extras_compared(before, c, prim, names) == before,
    decreases names.len(),
{
    if names.len() > 0 {
        let rest = names.drop_last();
        assert forall|i: int| 0 <= i < rest.len() implies names_of(c.source, prim).contains(
            #[trigger] rest[i],
        ) by {
            assert(rest[i] == names[i]);
        }
        lemma_same_extras(before, c, prim, rest);
        assert(names_of(c.source, prim).contains(names[names.len() - 1]));
    }
}

proof fn lemma_same_keys(
    before: CheckView,
    c: ComparisonView,
    prim: PathId,
    keys: Seq<TokenId>,
)
    requires
        same_sides(c),
    ensures
        keys_compared(before, c, prim, keys).out.mismatches == before.out.mismatches,
    decreases keys.len(),
{
    if keys.len() > 0 {
        lemma_same_keys(before, c, prim, keys.drop_last());
        let earlier = keys_compared(before, c, prim, keys.drop_last());
        let seen = metadata_seen(c.source, prim, keys.last());
        if seen is Some {
            lemma_unanchored(seen->0);
        }
        lemma_same_seen(
            field_counted(earlier),
            c,
            c.prim_text(prim),
            MismatchKindView::Metadata { field: c.token_text(keys.last()) },
            SeenView::Resolved(seen),
        );
    }
}

proof fn lemma_same_members(before: CheckView, c: ComparisonView, prim: PathId)
    requires
        same_sides(c),
    ensures
        members_compared(before, c, prim).out.mismatches == before.out.mismatches,
{
    let path = c.prim_text(prim);
    let members = members_of(c.source, prim);
    lemma_same_seen(before, c, path, MismatchKindView::Specifier, members[0]);
    lemma_same_seen(before, c, path, MismatchKindView::TypeName, members[1]);
    lemma_same_seen(
        before,
        c,
        path,
        MismatchKindView::Children,
        SeenView::Paths(shown_children(c, children_in(c.source.stage, prim))),
    );
    let one = field_counted(before);
    let two = field_counted(one);
    let three = field_counted(two);
    let four = field_counted(three);
    lemma_same_seen(one, c, path, MismatchKindView::Metadata { field: "active"@ }, members[2]);
    lemma_same_seen(two, c, path, MismatchKindView::Metadata { field: "instanceable"@ }, members[3]);
    lemma_same_seen(three, c, path, MismatchKindView::Metadata { field: "primOrder"@ }, members[4]);
    lemma_same_seen(four, c, path, MismatchKindView::Metadata { field: "propertyOrder"@ }, members[5]);
}

proof fn lemma_same_prims(before: CheckView, c: ComparisonView, root: PathId, prims: Seq<PathId>)
    requires
        same_sides(c),
        forall|i: int|
            0 <= i < prims.len() && prims[i] != root ==> named(
                c.source.stage.prims,
                #[trigger] prims[i],
            ) is Some,
    ensures
        prims_compared(before, c, root, prims).out.mismatches == before.out.mismatches,
    decreases prims.len(),
{
    if prims.len() > 0 {
        let rest = prims.drop_last();
        assert forall|i: int| 0 <= i < rest.len() && rest[i] != root implies named(
            c.source.stage.prims,
            #[trigger] rest[i],
        ) is Some by {
            assert(rest[i] == prims[i]);
        }
        lemma_same_prims(before, c, root, rest);
        let earlier = prims_compared(before, c, root, rest);
        let prim = prims[prims.len() - 1];
        if prim != root {
            assert(named(c.source.stage.prims, prim) is Some);
            lemma_same_members(prim_counted(earlier), c, prim);
            let members = members_compared(prim_counted(earlier), c, prim);
            lemma_same_keys(members, c, prim, prim_keys(c, prim));
            let metadata = metadata_compared(members, c, prim);
            lemma_same_properties(metadata, c, prim, names_of(c.source, prim));
            let properties = properties_compared(metadata, c, prim, names_of(c.source, prim));
            lemma_same_extras(properties, c, prim, names_of(c.flattened, prim));
        }
    }
}

proof fn lemma_same_extra_prims(
    before: CheckView,
    c: ComparisonView,
    root: PathId,
    prims: Seq<PathId>,
)
    requires
        forall|i: int|
            0 <= i < prims.len() && prims[i] != root ==> named(
                c.source.stage.prims,
                #[trigger] prims[i],
            ) is Some,
    ensures
        extra_prims_compared(before, c, root, prims) == before,
    decreases prims.len(),
{
    if prims.len() > 0 {
        let rest = prims.drop_last();
        assert forall|i: int| 0 <= i < rest.len() && rest[i] != root implies named(
            c.source.stage.prims,
            #[trigger] rest[i],
        ) is Some by {
            assert(rest[i] == prims[i]);
        }
        lemma_same_extra_prims(before, c, root, rest);
        assert(prims[prims.len() - 1] == prims.last());
    }
}

/// A stage whose walk meets only its prims is equivalent to itself.
pub proof fn law_stage_is_equivalent_to_itself(c: ComparisonView, root: PathId)
    requires
        same_sides(c),
        root.index == first_position(c.paths, seq![]),
        forall|i: int|
            0 <= i < walked(c.source.stage, root, longest(c.paths)).len() && walked(
                c.source.stage,
                root,
                longest(c.paths),
            )[i] != root ==> named(
                c.source.stage.prims,
                #[trigger] walked(c.source.stage, root, longest(c.paths))[i],
            ) is Some,
    ensures
        verified(c).mismatches.len() == 0,
{
    let prims = walked(c.source.stage, root, longest(c.paths));
    let start = nothing_compared(c.at);
    lemma_same_prims(start, c, root, prims);
    lemma_same_extra_prims(prims_compared(start, c, root, prims), c, root, prims);
}

} // verus!
