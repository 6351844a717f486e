//! What a flatten must guarantee, and what it did.

use crate::interner::{lemma_first_position_unique, with_entries};
use crate::prim_index::{LayerId, LayerOffset};
use crate::property::Variability;
use crate::schema::registry::SchemaRegistry;
use crate::text::{chars_of, find_char, index_of, push_text, same_text, string_of, text};
use vstd::prelude::*;

verus! {

/// How instances are written.
#[derive(Clone, Copy, Debug, PartialEq, Eq, Structural)]
pub enum Instancing {
    /// Instances of one prototype keep sharing it.
    Preserve,
    /// Each instance gets its own copy of the prototype.
    Expand,
}

/// How asset paths are written.
#[derive(Clone, Copy, Debug, PartialEq, Eq, Structural)]
pub enum AssetPaths {
    /// As they are authored.
    AsAuthored,
    /// They must be anchored, so that they mean the same wherever the layer
    /// is: one that is not is a loss that refuses the flatten.
    Anchored,
    /// As they are authored, anchoring given up: one that is not anchored is
    /// reported as a loss.
    AnchoredOrReported,
}

impl AssetPaths {
    /// Whether asset paths that are not anchored are reported as lost.
    #[verifier::allow_in_spec]
    pub fn reports_unanchored(self) -> (yes: bool)
        returns
            self != AssetPaths::AsAuthored,
    {
        match self {
            AssetPaths::AsAuthored => false,
            AssetPaths::Anchored => true,
            AssetPaths::AnchoredOrReported => true,
        }
    }
}

/// Which losses refuse a flatten.
#[derive(Clone, Copy, Debug, PartialEq, Eq, Structural)]
pub enum LossPolicy {
    /// Any of them.
    RefuseAny,
    /// Those that a declared requirement speaks of.
    RefuseRequired,
}

/// A guarantee that a flatten can be held to.
#[derive(Clone, Copy, Debug, PartialEq, Eq, Structural)]
pub enum Requirement {
    ExactAnimation,
    AnchoredAssetPaths,
    NoLoss,
}

impl Requirement {
    /// The requirement in words.
    pub open spec fn words(self) -> Seq<char> {
        match self {
            Requirement::ExactAnimation => "exact animation"@,
            Requirement::AnchoredAssetPaths => "anchored asset paths"@,
            Requirement::NoLoss => "no loss"@,
        }
    }

    /// The requirement in words.
    pub fn display(self) -> (out: &'static str)
        ensures
            out@ == self.words(),
    {
        match self {
            Requirement::ExactAnimation => "exact animation",
            Requirement::AnchoredAssetPaths => "anchored asset paths",
            Requirement::NoLoss => "no loss",
        }
    }
}

/// What a layer cannot hold.
#[derive(Clone, Copy, Debug, PartialEq, Eq, Structural)]
pub enum Loss {
    /// Time samples that are, or compose under, sparse array edits.
    ArrayEditSamples,
    /// A spline seen through a layer offset.
    RetimedSpline,
    ValueClips,
    UntypedAttribute,
    UnanchoredAssetPath,
}

impl Loss {
    pub open spec fn spec_requirement(self) -> Option<Requirement> {
        match self {
            Loss::ArrayEditSamples => Some(Requirement::ExactAnimation),
            Loss::RetimedSpline => Some(Requirement::ExactAnimation),
            Loss::ValueClips => Some(Requirement::ExactAnimation),
            Loss::UnanchoredAssetPath => Some(Requirement::AnchoredAssetPaths),
            Loss::UntypedAttribute => None,
        }
    }

    /// The requirement that the loss breaks, if one speaks of it.
    pub fn requirement(self) -> (out: Option<Requirement>)
        ensures
            out == self.spec_requirement(),
    {
        match self {
            Loss::ArrayEditSamples => Some(Requirement::ExactAnimation),
            Loss::RetimedSpline => Some(Requirement::ExactAnimation),
            Loss::ValueClips => Some(Requirement::ExactAnimation),
            Loss::UnanchoredAssetPath => Some(Requirement::AnchoredAssetPaths),
            Loss::UntypedAttribute => None,
        }
    }

    /// The loss in words.
    pub open spec fn words(self) -> Seq<char> {
        match self {
            Loss::ArrayEditSamples => "time samples with sparse array edits"@,
            Loss::RetimedSpline => "a spline through a layer offset"@,
            Loss::ValueClips => "value clips"@,
            Loss::UntypedAttribute => "an attribute without a type"@,
            Loss::UnanchoredAssetPath => "an asset path that could not be anchored"@,
        }
    }

    /// The loss in words.
    pub fn display(self) -> (out: &'static str)
        ensures
            out@ == self.words(),
    {
        match self {
            Loss::ArrayEditSamples => "time samples with sparse array edits",
            Loss::RetimedSpline => "a spline through a layer offset",
            Loss::ValueClips => "value clips",
            Loss::UntypedAttribute => "an attribute without a type",
            Loss::UnanchoredAssetPath => "an asset path that could not be anchored",
        }
    }
}

/// A deliberate change that keeps the meaning.
#[derive(Debug)]
pub enum Transformation {
    /// A list op was written as the list that it resolves to.
    ListOpMadeExplicit { field: String },
    /// Time samples were moved into stage time.
    SamplesRetimed { offset: LayerOffset },
    /// Values that are times were moved into stage time.
    TimeCodesRetimed { offset: LayerOffset },
    /// Variant selections were applied.
    VariantSelectionsBaked { selections: Vec<(String, String)> },
    /// An instance was written as a reference to a shared prototype.
    InstanceShared { prototype: String },
    /// An instance was written out.
    InstanceExpanded,
    /// An asset path was anchored.
    AssetPathAnchored { authored: String, anchored: String },
    /// `custom` is that of the weakest opinion.
    CustomFromWeakestOpinion { custom: bool },
    /// The declaration is that of the schema.
    DefinedBySchema { variability: Variability },
}

/// The mathematical value of a [`Transformation`].
pub enum TransformationView {
    ListOpMadeExplicit { field: Seq<char> },
    SamplesRetimed { offset: LayerOffset },
    TimeCodesRetimed { offset: LayerOffset },
    VariantSelectionsBaked { selections: Seq<(Seq<char>, Seq<char>)> },
    InstanceShared { prototype: Seq<char> },
    InstanceExpanded,
    AssetPathAnchored { authored: Seq<char>, anchored: Seq<char> },
    CustomFromWeakestOpinion { custom: bool },
    DefinedBySchema { variability: Variability },
}

/// The texts of a list of selections.
pub open spec fn selections_view(list: Seq<(String, String)>) -> Seq<(Seq<char>, Seq<char>)> {
    list.map_values(|s: (String, String)| (s.0@, s.1@))
}

impl View for Transformation {
    type V = TransformationView;

    open spec fn view(&self) -> TransformationView {
        match self {
            Transformation::ListOpMadeExplicit { field } => TransformationView::ListOpMadeExplicit {
                field: field@,
            },
            Transformation::SamplesRetimed { offset } => TransformationView::SamplesRetimed {
                offset: *offset,
            },
            Transformation::TimeCodesRetimed { offset } => TransformationView::TimeCodesRetimed {
                offset: *offset,
            },
            Transformation::VariantSelectionsBaked { selections } =>
                TransformationView::VariantSelectionsBaked {
                selections: selections_view(selections@),
            },
            Transformation::InstanceShared { prototype } => TransformationView::InstanceShared {
                prototype: prototype@,
            },
            Transformation::InstanceExpanded => TransformationView::InstanceExpanded,
            Transformation::AssetPathAnchored { authored, anchored } =>
                TransformationView::AssetPathAnchored { authored: authored@, anchored: anchored@ },
            Transformation::CustomFromWeakestOpinion { custom } =>
                TransformationView::CustomFromWeakestOpinion { custom: *custom },
            Transformation::DefinedBySchema { variability } => TransformationView::DefinedBySchema {
                variability: *variability,
            },
        }
    }
}

impl Transformation {
    /// A copy of the transformation.
    pub fn copy(&self) -> (out: Transformation)
        ensures
            out@ == self@,
    {
        match self {
            Transformation::ListOpMadeExplicit { field } => Transformation::ListOpMadeExplicit {
                field: text(field.as_str()),
            },
            Transformation::SamplesRetimed { offset } => Transformation::SamplesRetimed {
                offset: *offset,
            },
            Transformation::TimeCodesRetimed { offset } => Transformation::TimeCodesRetimed {
                offset: *offset,
            },
            Transformation::VariantSelectionsBaked { selections } => {
                let mut out: Vec<(String, String)> = Vec::new();
                let mut i: usize = 0;
                while i < selections.len()
                    invariant
                        i <= selections@.len(),
                        selections_view(out@) == selections_view(selections@).take(i as int),
                    decreases selections@.len() - i,
                {
                    let pair = (
                        text(selections[i].0.as_str()),
                        text(selections[i].1.as_str()),
                    );
                    let ghost had = out@;
                    out.push(pair);
                    proof {
                        let all = selections_view(selections@);
                        assert(all[i as int] == (pair.0@, pair.1@));
                        assert(selections_view(out@) =~= selections_view(had).push(all[i as int]));
                        assert(all.take(i + 1) =~= all.take(i as int).push(all[i as int]));
                    }
                    i = i + 1;
                }
                assert(selections_view(selections@).take(i as int) =~= selections_view(
                    selections@,
                ));
                Transformation::VariantSelectionsBaked { selections: out }
            },
            Transformation::InstanceShared { prototype } => Transformation::InstanceShared {
                prototype: text(prototype.as_str()),
            },
            Transformation::InstanceExpanded => Transformation::InstanceExpanded,
            Transformation::AssetPathAnchored { authored, anchored } =>
                Transformation::AssetPathAnchored {
                authored: text(authored.as_str()),
                anchored: text(anchored.as_str()),
            },
            Transformation::CustomFromWeakestOpinion { custom } =>
                Transformation::CustomFromWeakestOpinion { custom: *custom },
            Transformation::DefinedBySchema { variability } => Transformation::DefinedBySchema {
                variability: *variability,
            },
        }
    }
}

/// What the flattened layer still refers to.
#[derive(Debug)]
pub enum ExternalDependency {
    AssetPath(String),
}

impl ExternalDependency {
    /// The dependency in words: the path between `@` signs.
    pub fn display(&self) -> (out: String)
        ensures
            match self {
                ExternalDependency::AssetPath(path) => out@ == seq!['@'] + path@ + seq!['@'],
            },
    {
        match self {
            ExternalDependency::AssetPath(path) => {
                let mut out = text("@");
                proof {
                    reveal_strlit("@");
                }
                push_text(&mut out, path.as_str());
                push_text(&mut out, "@");
                assert(out@ =~= seq!['@'] + path@ + seq!['@']);
                out
            },
        }
    }
}

/// What was found.
#[derive(Debug)]
pub enum FindingKind {
    Transformed(Transformation),
    Lost(Loss),
    External(ExternalDependency),
}

/// The mathematical value of a [`FindingKind`].
pub enum KindView {
    Transformed(TransformationView),
    Lost(Loss),
    External(Seq<char>),
}

impl View for FindingKind {
    type V = KindView;

    open spec fn view(&self) -> KindView {
        match self {
            FindingKind::Transformed(transformation) => KindView::Transformed(transformation@),
            FindingKind::Lost(loss) => KindView::Lost(*loss),
            FindingKind::External(ExternalDependency::AssetPath(path)) => KindView::External(path@),
        }
    }
}

/// The kinds of findings.
#[derive(Clone, Copy, Debug, PartialEq, Eq, Structural)]
pub enum FindingCategory {
    Transformed,
    Lost,
    External,
}

impl KindView {
    pub open spec fn category(self) -> FindingCategory {
        match self {
            KindView::Transformed(_) => FindingCategory::Transformed,
            KindView::Lost(_) => FindingCategory::Lost,
            KindView::External(_) => FindingCategory::External,
        }
    }
}

impl FindingKind {
    /// The category of the finding.
    pub fn category(&self) -> (out: FindingCategory)
        ensures
            out == self@.category(),
    {
        match self {
            FindingKind::Transformed(_) => FindingCategory::Transformed,
            FindingKind::Lost(_) => FindingCategory::Lost,
            FindingKind::External(_) => FindingCategory::External,
        }
    }

    /// A copy of the kind.
    pub fn copy(&self) -> (out: FindingKind)
        ensures
            out@ == self@,
    {
        match self {
            FindingKind::Transformed(transformation) => FindingKind::Transformed(
                transformation.copy(),
            ),
            FindingKind::Lost(loss) => FindingKind::Lost(*loss),
            FindingKind::External(ExternalDependency::AssetPath(path)) => FindingKind::External(
                ExternalDependency::AssetPath(text(path.as_str())),
            ),
        }
    }
}

/// A composed object: a prim, or a property of one.
#[derive(Debug)]
pub struct ObjectPath {
    pub prim: String,
    pub property: Option<String>,
}

/// The mathematical value of an [`ObjectPath`].
#[verifier::ext_equal]
pub struct ObjectView {
    pub prim: Seq<char>,
    pub property: Option<Seq<char>>,
}

impl View for ObjectPath {
    type V = ObjectView;

    open spec fn view(&self) -> ObjectView {
        ObjectView {
            prim: self.prim@,
            property: match self.property {
                Some(property) => Some(property@),
                None => None,
            },
        }
    }
}

/// The object that a composed path names: the part before the first dot is the
/// prim, what follows it the property.
pub open spec fn object_of(path: Seq<char>) -> ObjectView {
    let at = index_of(path, 0, '.');
    if at < path.len() {
        ObjectView { prim: path.take(at), property: Some(path.skip(at + 1)) }
    } else {
        ObjectView { prim: path, property: None }
    }
}

/// The path of an object.
pub open spec fn object_text(object: ObjectView) -> Seq<char> {
    match object.property {
        Some(property) => object.prim + seq!['.'] + property,
        None => object.prim,
    }
}

impl ObjectPath {
    /// The object that a composed path names.
    pub fn from_composed(path: &str) -> (out: ObjectPath)
        ensures
            out@ == object_of(path@),
    {
        let chars = chars_of(path);
        let at = find_char(&chars, 0, '.');
        if at < chars.len() {
            let prim = string_of(&chars, 0, at);
            let property = string_of(&chars, at + 1, chars.len());
            assert(prim@ =~= path@.take(at as int));
            assert(property@ =~= path@.skip(at + 1));
            ObjectPath { prim, property: Some(property) }
        } else {
            ObjectPath { prim: text(path), property: None }
        }
    }

    /// The path of the object.
    pub fn display(&self) -> (out: String)
        ensures
            out@ == object_text(self@),
    {
        let mut out = text(self.prim.as_str());
        match &self.property {
            Some(property) => {
                proof {
                    reveal_strlit(".");
                }
                push_text(&mut out, ".");
                push_text(&mut out, property.as_str());
                assert(out@ =~= object_text(self@));
            },
            None => {},
        }
        out
    }

    /// A copy of the path.
    pub fn copy(&self) -> (out: ObjectPath)
        ensures
            out@ == self@,
    {
        ObjectPath {
            prim: text(self.prim.as_str()),
            property: match &self.property {
                Some(property) => Some(text(property.as_str())),
                None => None,
            },
        }
    }
}

/// Splitting a composed path into its object keeps every character.
pub proof fn law_object_keeps_the_path(path: Seq<char>)
    ensures
        object_text(object_of(path)) == path,
{
    crate::text::lemma_index_of(path, 0, '.');
    let at = index_of(path, 0, '.');
    if at < path.len() {
        assert(path.take(at) + seq!['.'] + path.skip(at + 1) =~= path);
    }
}

/// Where a finding comes from.
#[derive(Debug)]
pub struct FindingSource {
    pub layer: LayerId,
    /// The path of the spec.
    pub spec: String,
}

/// The view of an optional source.
pub open spec fn source_option(source: Option<FindingSource>) -> Option<(LayerId, Seq<char>)> {
    match source {
        Some(source) => Some((source.layer, source.spec@)),
        None => None,
    }
}

/// A copy of an optional source.
pub fn copy_source(source: &Option<FindingSource>) -> (out: Option<FindingSource>)
    ensures
        source_option(out) == source_option(*source),
{
    match source {
        Some(source) => Some(
            FindingSource { layer: source.layer, spec: text(source.spec.as_str()) },
        ),
        None => None,
    }
}

/// Something that was not written exactly as it is composed.
#[derive(Debug)]
pub struct Finding {
    pub path: ObjectPath,
    pub kind: FindingKind,
    pub source: Option<FindingSource>,
}

/// The mathematical value of a [`Finding`].
pub struct FindingView {
    pub path: ObjectView,
    pub kind: KindView,
    pub source: Option<(LayerId, Seq<char>)>,
}

impl View for Finding {
    type V = FindingView;

    open spec fn view(&self) -> FindingView {
        FindingView { path: self.path@, kind: self.kind@, source: source_option(self.source) }
    }
}

impl Finding {
    /// A copy of the finding.
    pub fn copy(&self) -> (out: Finding)
        ensures
            out@ == self@,
    {
        Finding {
            path: self.path.copy(),
            kind: self.kind.copy(),
            source: copy_source(&self.source),
        }
    }
}

/// How much was written exactly as it is composed.
#[derive(Clone, Copy, Debug, PartialEq, Eq, Structural)]
pub struct Preserved {
    pub prims: usize,
    pub properties: usize,
    pub metadata_fields: usize,
    pub defaults: usize,
    pub time_samples: usize,
    pub splines: usize,
    pub targets: usize,
}

/// Nothing.
pub open spec fn nothing_preserved() -> Preserved {
    Preserved {
        prims: 0,
        properties: 0,
        metadata_fields: 0,
        defaults: 0,
        time_samples: 0,
        splines: 0,
        targets: 0,
    }
}

/// A count and some more, as far as a count can go.
pub open spec fn counted(count: usize, more: nat) -> usize {
    if count + more <= usize::MAX {
        (count + more) as usize
    } else {
        usize::MAX
    }
}

/// What a flatten did.
#[derive(Debug)]
pub struct FlattenReport {
    pub preserved: Preserved,
    /// Everything else, in the order it was found.
    pub findings: Vec<Finding>,
}

/// The mathematical value of a [`FlattenReport`].
#[verifier::ext_equal]
pub struct ReportView {
    pub preserved: Preserved,
    pub findings: Seq<FindingView>,
}

/// The findings of a list.
pub open spec fn findings_view(findings: Seq<Finding>) -> Seq<FindingView> {
    findings.map_values(|f: Finding| f@)
}

impl View for FlattenReport {
    type V = ReportView;

    open spec fn view(&self) -> ReportView {
        ReportView { preserved: self.preserved, findings: findings_view(self.findings@) }
    }
}

/// The report before anything is done.
pub open spec fn empty_report() -> ReportView {
    ReportView { preserved: nothing_preserved(), findings: seq![] }
}

/// The findings of a category, in order.
pub open spec fn in_category(findings: Seq<FindingView>, category: FindingCategory) -> Seq<
    FindingView,
>
    decreases findings.len(),
{
    if findings.len() == 0 {
        seq![]
    } else {
        let earlier = in_category(findings.drop_last(), category);
        if findings.last().kind.category() == category {
            earlier.push(findings.last())
        } else {
            earlier
        }
    }
}

/// The findings that a list refers to.
pub open spec fn finding_refs(findings: Seq<&Finding>) -> Seq<FindingView> {
    findings.map_values(|f: &Finding| f@)
}

/// The prototypes that findings speak of, in order.
pub open spec fn shared_prototypes(findings: Seq<FindingView>) -> Seq<Seq<char>>
    decreases findings.len(),
{
    if findings.len() == 0 {
        seq![]
    } else {
        let earlier = shared_prototypes(findings.drop_last());
        match findings.last().kind {
            KindView::Transformed(TransformationView::InstanceShared { prototype }) => earlier.push(
                prototype,
            ),
            _ => earlier,
        }
    }
}

impl Default for FlattenReport {
    /// The report before anything is done.
    fn default() -> (out: FlattenReport)
        ensures
            out@ == empty_report(),
    {
        let findings: Vec<Finding> = Vec::new();
        assert(findings_view(findings@) =~= seq![]);
        FlattenReport {
            preserved: Preserved {
                prims: 0,
                properties: 0,
                metadata_fields: 0,
                defaults: 0,
                time_samples: 0,
                splines: 0,
                targets: 0,
            },
            findings,
        }
    }
}

impl FlattenReport {
    /// The findings of a category.
    pub fn findings_in(&self, category: FindingCategory) -> (out: Vec<&Finding>)
        ensures
            finding_refs(out@) == in_category(self@.findings, category),
    {
        let ghost all = self@.findings;
        let mut out: Vec<&Finding> = Vec::new();
        let mut i: usize = 0;
        assert(all.take(0) =~= seq![]);
        assert(finding_refs(out@) =~= seq![]);
        while i < self.findings.len()
            invariant
                i <= self.findings@.len(),
                all == findings_view(self.findings@),
                finding_refs(out@) == in_category(all.take(i as int), category),
            decreases self.findings@.len() - i,
        {
            let finding = &self.findings[i];
            assert(all.take(i + 1).drop_last() =~= all.take(i as int));
            assert(all.take(i + 1).last() == finding@);
            if finding.kind.category() == category {
                let ghost had = out@;
                out.push(finding);
                assert(finding_refs(out@) =~= finding_refs(had).push(finding@));
            }
            i = i + 1;
        }
        assert(all.take(i as int) =~= all);
        out
    }

    /// What was transformed.
    pub fn transformed(&self) -> (out: Vec<&Finding>)
        ensures
            finding_refs(out@) == in_category(self@.findings, FindingCategory::Transformed),
    {
        self.findings_in(FindingCategory::Transformed)
    }

    /// What was lost.
    pub fn lost(&self) -> (out: Vec<&Finding>)
        ensures
            finding_refs(out@) == in_category(self@.findings, FindingCategory::Lost),
    {
        self.findings_in(FindingCategory::Lost)
    }

    /// What the layer still refers to.
    pub fn external(&self) -> (out: Vec<&Finding>)
        ensures
            finding_refs(out@) == in_category(self@.findings, FindingCategory::External),
    {
        self.findings_in(FindingCategory::External)
    }

    /// Whether nothing was lost.
    pub fn is_lossless(&self) -> (yes: bool)
        ensures
            yes == forall|i: int|
                0 <= i < self@.findings.len() ==> !((#[trigger] self@.findings[i]).kind is Lost),
    {
        let mut i: usize = 0;
        while i < self.findings.len()
            invariant
                i <= self.findings@.len(),
                forall|k: int|
                    0 <= k < i ==> !((#[trigger] self@.findings[k]).kind is Lost),
            decreases self.findings@.len() - i,
        {
            assert(self@.findings[i as int] == self.findings@[i as int]@);
            if self.findings[i].kind.category() == FindingCategory::Lost {
                return false;
            }
            i = i + 1;
        }
        true
    }

    /// The prototypes that instances share, each once, in the order they are
    /// first referred to.
    pub fn prototypes(&self) -> (out: Vec<String>)
        ensures
            crate::text::texts(out@) == with_entries(seq![], shared_prototypes(self@.findings)),
    {
        let ghost all = self@.findings;
        let mut out: Vec<String> = Vec::new();
        let mut i: usize = 0;
        assert(all.take(0) =~= seq![]);
        assert(crate::text::texts(out@) =~= seq![]);
        while i < self.findings.len()
            invariant
                i <= self.findings@.len(),
                all == findings_view(self.findings@),
                crate::text::texts(out@) == with_entries(
                    seq![],
                    shared_prototypes(all.take(i as int)),
                ),
            decreases self.findings@.len() - i,
        {
            let finding = &self.findings[i];
            proof {
                assert(all.take(i + 1).drop_last() =~= all.take(i as int));
                assert(all.take(i + 1).last() == finding@);
            }
            match &finding.kind {
                FindingKind::Transformed(Transformation::InstanceShared { prototype }) => {
                    proof {
                        let earlier = shared_prototypes(all.take(i as int));
                        assert(earlier.push(prototype@).drop_last() =~= earlier);
                    }
                    enter_text(&mut out, prototype.as_str());
                },
                _ => {},
            }
            i = i + 1;
        }
        assert(all.take(i as int) =~= all);
        out
    }
}

/// Enters a text in a list, unless it is there.
pub fn enter_text(list: &mut Vec<String>, entry: &str)
    ensures
        crate::text::texts(final(list)@) == crate::interner::with_entry(
            crate::text::texts(old(list)@),
            entry@,
        ),
{
    let ghost all = crate::text::texts(list@);
    let mut i: usize = 0;
    while i < list.len()
        invariant
            i <= list@.len(),
            list@ == old(list)@,
            all == crate::text::texts(list@),
            forall|k: int| 0 <= k < i ==> all[k] != entry@,
        decreases list@.len() - i,
    {
        assert(all[i as int] == list@[i as int]@);
        if same_text(list[i].as_str(), entry) {
            proof {
                lemma_first_position_unique(all, entry@, i as int);
            }
            return ;
        }
        i = i + 1;
    }
    proof {
        lemma_first_position_unique(all, entry@, i as int);
    }
    list.push(text(entry));
    assert(crate::text::texts(list@) =~= all.push(entry@));
}

/// What a caller needs of a flatten.
#[derive(Clone, Copy, Debug)]
pub struct FlattenRequirements<'a> {
    pub instancing: Instancing,
    /// Whether animation must be exact.
    pub exact_animation: bool,
    pub asset_paths: AssetPaths,
    pub losses: LossPolicy,
    /// The schemas that the caller works with. Flattening reads none of them:
    /// a property is declared as its opinions declare it.
    pub schemas: Option<&'a SchemaRegistry>,
}

impl<'a> Default for FlattenRequirements<'a> {
    /// Shared instances, exact animation, asset paths as they are authored,
    /// and no loss.
    fn default() -> (out: FlattenRequirements<'a>)
        ensures
            out == (FlattenRequirements {
                instancing: Instancing::Preserve,
                exact_animation: true,
                asset_paths: AssetPaths::AsAuthored,
                losses: LossPolicy::RefuseAny,
                schemas: None,
            }),
    {
        FlattenRequirements {
            instancing: Instancing::Preserve,
            exact_animation: true,
            asset_paths: AssetPaths::AsAuthored,
            losses: LossPolicy::RefuseAny,
            schemas: None,
        }
    }
}

/// A requirement that a flatten could not meet, with what it found.
#[derive(Debug)]
pub struct UnmetRequirement {
    pub requirement: Requirement,
    pub finding: Finding,
}

/// The requirements of a list, each with what was found.
pub open spec fn unmet_view(unmet: Seq<UnmetRequirement>) -> Seq<(Requirement, FindingView)> {
    unmet.map_values(|u: UnmetRequirement| (u.requirement, u.finding@))
}

/// Whether a requirement stands in a list.
pub open spec fn is_unmet(unmet: Seq<(Requirement, FindingView)>, wanted: Requirement) -> bool {
    exists|i: int| 0 <= i < unmet.len() && (#[trigger] unmet[i]).0 == wanted
}

/// Requirements relaxed to accept what was unmet: where anything was, losses
/// that no requirement speaks of are accepted; animation need not be exact
/// where that was unmet, nor asset paths anchored where that was, though the
/// ones that are not anchored are still reported.
pub open spec fn relaxed<'a>(
    requirements: FlattenRequirements<'a>,
    unmet: Seq<(Requirement, FindingView)>,
) -> FlattenRequirements<'a> {
    FlattenRequirements {
        losses: if unmet.len() > 0 {
            LossPolicy::RefuseRequired
        } else {
            requirements.losses
        },
        exact_animation: requirements.exact_animation && !is_unmet(
            unmet,
            Requirement::ExactAnimation,
        ),
        asset_paths: if is_unmet(unmet, Requirement::AnchoredAssetPaths) {
            AssetPaths::AnchoredOrReported
        } else {
            requirements.asset_paths
        },
        ..requirements
    }
}

/// The requirement that a loss leaves unmet, if it does: one that is declared
/// and that the loss breaks, else that there be no loss.
pub open spec fn broken_by(loss: Loss, requirements: FlattenRequirements<'_>) -> Option<
    Requirement,
> {
    let declared = match loss.spec_requirement() {
        Some(Requirement::ExactAnimation) => if requirements.exact_animation {
            Some(Requirement::ExactAnimation)
        } else {
            None
        },
        Some(Requirement::AnchoredAssetPaths) => if requirements.asset_paths
            == AssetPaths::Anchored {
            Some(Requirement::AnchoredAssetPaths)
        } else {
            None
        },
        other => other,
    };
    match declared {
        Some(requirement) => Some(requirement),
        None => match requirements.losses {
            LossPolicy::RefuseAny => Some(Requirement::NoLoss),
            LossPolicy::RefuseRequired => None,
        },
    }
}

/// The requirements that a list of findings leaves unmet, in order.
pub open spec fn unmet_by(
    findings: Seq<FindingView>,
    requirements: FlattenRequirements<'_>,
) -> Seq<(Requirement, FindingView)>
    decreases findings.len(),
{
    if findings.len() == 0 {
        seq![]
    } else {
        let earlier = unmet_by(findings.drop_last(), requirements);
        match findings.last().kind {
            KindView::Lost(loss) => match broken_by(loss, requirements) {
                Some(requirement) => earlier.push((requirement, findings.last())),
                None => earlier,
            },
            _ => earlier,
        }
    }
}

impl<'a> FlattenRequirements<'a> {
    /// These requirements relaxed just enough to accept what was unmet.
    ///
    /// A flatten of the same stage with them succeeds and reports the same
    /// losses.
    pub fn accepting(&self, unmet: &Vec<UnmetRequirement>) -> (out: FlattenRequirements<'a>)
        ensures
            out == relaxed(*self, unmet_view(unmet@)),
    {
        let ghost all = unmet_view(unmet@);
        let mut out = *self;
        let mut i: usize = 0;
        while i < unmet.len()
            invariant
                i <= unmet@.len(),
                all == unmet_view(unmet@),
                out == relaxed(*self, all.take(i as int)),
            decreases unmet@.len() - i,
        {
            let ghost part = all.take(i as int);
            let ghost next = all.take(i + 1);
            proof {
                assert(next[i as int] == (unmet@[i as int].requirement, unmet@[i as int].finding@));
                assert forall|wanted: Requirement| #[trigger] is_unmet(next, wanted) == (is_unmet(
                    part,
                    wanted,
                ) || unmet@[i as int].requirement == wanted) by {
                    if is_unmet(part, wanted) {
                        let k = choose|k: int| 0 <= k < part.len() && (#[trigger] part[k]).0
                            == wanted;
                        assert(next[k].0 == wanted);
                    }
                    if is_unmet(next, wanted) {
                        let k = choose|k: int| 0 <= k < next.len() && (#[trigger] next[k]).0
                            == wanted;
                        if k < i {
                            assert(part[k].0 == wanted);
                        }
                    }
                }
            }
            out.losses = LossPolicy::RefuseRequired;
            match unmet[i].requirement {
                Requirement::ExactAnimation => {
                    out.exact_animation = false;
                },
                Requirement::AnchoredAssetPaths => {
                    out.asset_paths = AssetPaths::AnchoredOrReported;
                },
                Requirement::NoLoss => {},
            }
            i = i + 1;
        }
        assert(all.take(i as int) =~= all);
        out
    }

    /// The requirement that a loss leaves unmet, if it does.
    fn broken(&self, loss: Loss) -> (out: Option<Requirement>)
        ensures
            out == broken_by(loss, *self),
    {
        let declared = match loss.requirement() {
            Some(Requirement::ExactAnimation) => if self.exact_animation {
                Some(Requirement::ExactAnimation)
            } else {
                None
            },
            Some(Requirement::AnchoredAssetPaths) => match self.asset_paths {
                AssetPaths::Anchored => Some(Requirement::AnchoredAssetPaths),
                AssetPaths::AsAuthored => None,
                AssetPaths::AnchoredOrReported => None,
            },
            other => other,
        };
        match declared {
            Some(requirement) => Some(requirement),
            None => match self.losses {
                LossPolicy::RefuseAny => Some(Requirement::NoLoss),
                LossPolicy::RefuseRequired => None,
            },
        }
    }

    /// The requirements that a report leaves unmet.
    pub fn unmet_in(&self, report: &FlattenReport) -> (out: Vec<UnmetRequirement>)
        ensures
            unmet_view(out@) == unmet_by(report@.findings, *self),
    {
        let ghost all = report@.findings;
        let mut out: Vec<UnmetRequirement> = Vec::new();
        let mut i: usize = 0;
        assert(all.take(0) =~= seq![]);
        assert(unmet_view(out@) =~= seq![]);
        while i < report.findings.len()
            invariant
                i <= report.findings@.len(),
                all == findings_view(report.findings@),
                unmet_view(out@) == unmet_by(all.take(i as int), *self),
            decreases report.findings@.len() - i,
        {
            let finding = &report.findings[i];
            assert(all.take(i + 1).drop_last() =~= all.take(i as int));
            assert(all.take(i + 1).last() == finding@);
            match &finding.kind {
                FindingKind::Lost(loss) => match self.broken(*loss) {
                    Some(requirement) => {
                        let ghost had = out@;
                        let unmet = UnmetRequirement { requirement, finding: finding.copy() };
                        out.push(unmet);
                        assert(unmet_view(out@) =~= unmet_view(had).push((requirement, finding@)));
                    },
                    None => {},
                },
                _ => {},
            }
            i = i + 1;
        }
        assert(all.take(i as int) =~= all);
        out
    }
}

/// Requirements relaxed to accept what a report left unmet accept that report.
pub proof fn law_accepting_accepts(
    findings: Seq<FindingView>,
    requirements: FlattenRequirements<'_>,
)
    ensures
        unmet_by(findings, relaxed(requirements, unmet_by(findings, requirements))).len() == 0,
{
    lemma_relaxed_accepts(findings, requirements, unmet_by(findings, requirements));
}

/// Anchoring is unmet only where it is required.
pub proof fn lemma_anchoring_was_required(
    findings: Seq<FindingView>,
    requirements: FlattenRequirements<'_>,
)
    ensures
        is_unmet(unmet_by(findings, requirements), Requirement::AnchoredAssetPaths)
            ==> requirements.asset_paths == AssetPaths::Anchored,
    decreases findings.len(),
{
    let unmet = unmet_by(findings, requirements);
    if is_unmet(unmet, Requirement::AnchoredAssetPaths) {
        let at = choose|i: int|
            0 <= i < unmet.len() && (#[trigger] unmet[i]).0 == Requirement::AnchoredAssetPaths;
        let earlier = unmet_by(findings.drop_last(), requirements);
        if at < earlier.len() {
            assert(earlier[at] == unmet[at]);
        }
        lemma_anchoring_was_required(findings.drop_last(), requirements);
    }
}

proof fn lemma_relaxed_accepts(
    findings: Seq<FindingView>,
    requirements: FlattenRequirements<'_>,
    unmet: Seq<(Requirement, FindingView)>,
)
    requires
        forall|i: int|
            0 <= i < unmet_by(findings, requirements).len() ==> unmet.contains(
                #[trigger] unmet_by(findings, requirements)[i],
            ),
    ensures
        unmet_by(findings, relaxed(requirements, unmet)).len() == 0,
    decreases findings.len(),
{
    if findings.len() > 0 {
        let all = unmet_by(findings, requirements);
        let earlier = unmet_by(findings.drop_last(), requirements);
        assert forall|i: int| 0 <= i < earlier.len() implies unmet.contains(
            #[trigger] earlier[i],
        ) by {
            assert(all[i] == earlier[i]);
        }
        lemma_relaxed_accepts(findings.drop_last(), requirements, unmet);
        match findings.last().kind {
            KindView::Lost(loss) => {
                match broken_by(loss, requirements) {
                    Some(requirement) => {
                        assert(all[earlier.len() as int] == (requirement, findings.last()));
                        let k = choose|k: int|
                            0 <= k < unmet.len() && unmet[k] == (requirement, findings.last());
                        assert(unmet[k].0 == requirement);
                        assert(is_unmet(unmet, requirement));
                    },
                    None => {},
                }
            },
            _ => {},
        }
    }
}

/// Requirements that refuse any loss accept exactly the reports without one.
pub proof fn law_refusing_any_loss_accepts_lossless(
    findings: Seq<FindingView>,
    requirements: FlattenRequirements<'_>,
)
    requires
        requirements.losses == LossPolicy::RefuseAny,
    ensures
        unmet_by(findings, requirements).len() == 0 <==> forall|i: int|
            0 <= i < findings.len() ==> !((#[trigger] findings[i]).kind is Lost),
    decreases findings.len(),
{
    if findings.len() > 0 {
        let part = findings.drop_last();
        law_refusing_any_loss_accepts_lossless(part, requirements);
        assert(findings[findings.len() - 1] == findings.last());
        assert forall|i: int| 0 <= i < part.len() implies #[trigger] part[i] == findings[i] by {}
        if forall|i: int| 0 <= i < findings.len() ==> !((#[trigger] findings[i]).kind is Lost) {
            assert forall|i: int| 0 <= i < part.len() implies !((#[trigger] part[i]).kind
                is Lost) by {
                assert(part[i] == findings[i]);
            }
        }
        if unmet_by(findings, requirements).len() == 0 {
            assert forall|i: int| 0 <= i < findings.len() implies !((#[trigger] findings[i]).kind
                is Lost) by {
                if i < part.len() {
                    assert(part[i] == findings[i]);
                }
            }
        }
    }
}

/// Why a flatten was refused.
#[derive(Debug)]
pub struct FlattenRefusal {
    /// Every requirement that was not met.
    pub unmet: Vec<UnmetRequirement>,
    pub report: FlattenReport,
}

/// Why a flatten has no result.
#[derive(Debug)]
pub enum FlattenError {
    /// The root layer is not there.
    MissingRootLayer(LayerId),
    Refused(FlattenRefusal),
}

// ── What breaks a requirement ───────────────────────────────────────────

/// Which requirement a loss breaks: that of exact animation, for a loss of
/// animation, where it is declared; that of anchored asset paths, for an asset
/// path that is not anchored, where it is declared; else that of no loss, where
/// any loss is refused; else none.
pub proof fn law_losses_break_requirements(loss: Loss, requirements: FlattenRequirements<'_>)
    ensures
        ({
            let animated = loss == Loss::ArrayEditSamples || loss == Loss::RetimedSpline || loss
                == Loss::ValueClips;
            let broken = broken_by(loss, requirements);
            &&& animated && requirements.exact_animation ==> broken == Some(
                Requirement::ExactAnimation,
            )
            &&& loss == Loss::UnanchoredAssetPath && requirements.asset_paths
                == AssetPaths::Anchored ==> broken == Some(Requirement::AnchoredAssetPaths)
            &&& !(animated && requirements.exact_animation) && !(loss == Loss::UnanchoredAssetPath
                && requirements.asset_paths == AssetPaths::Anchored) ==> broken == (
            if requirements.losses == LossPolicy::RefuseAny {
                Some(Requirement::NoLoss)
            } else {
                None
            })
        }),
{
}

/// A finding is listed as breaking a requirement exactly where it is a loss that
/// breaks it.
pub proof fn law_unmet_requirements_are_those_broken(
    findings: Seq<FindingView>,
    requirements: FlattenRequirements<'_>,
    requirement: Requirement,
    finding: FindingView,
)
    ensures
        unmet_by(findings, requirements).contains((requirement, finding)) <==> findings.contains(
            finding,
        ) && (finding.kind matches KindView::Lost(loss) && broken_by(loss, requirements) == Some(
            requirement,
        )),
    decreases findings.len(),
{
    if findings.len() > 0 {
        let rest = findings.drop_last();
        let last = findings.last();
        law_unmet_requirements_are_those_broken(rest, requirements, requirement, finding);
        let before = unmet_by(rest, requirements);
        let out = unmet_by(findings, requirements);
        let one = (requirement, finding);
        assert(findings[findings.len() - 1] == last);
        if before.contains(one) {
            let k = choose|k: int| 0 <= k < before.len() && before[k] == one;
            assert(out[k] == one);
        }
        if rest.contains(finding) {
            let k = choose|k: int| 0 <= k < rest.len() && rest[k] == finding;
            assert(findings[k] == finding);
        }
        if last == finding && out.len() > before.len() {
            assert(out[before.len() as int].1 == finding);
        }
        if out.contains(one) && !before.contains(one) {
            let k = choose|k: int| 0 <= k < out.len() && out[k] == one;
            if k < before.len() {
                assert(before[k] == one);
            }
        }
        if findings.contains(finding) && !rest.contains(finding) {
            let k = choose|k: int| 0 <= k < findings.len() && findings[k] == finding;
            if k < rest.len() {
                assert(rest[k] == finding);
            }
        }
    } else {
        assert(!findings.contains(finding));
        assert(!unmet_by(findings, requirements).contains((requirement, finding)));
    }
}

/// The findings of a category are those of its kind: what was transformed, what
/// was lost, and what is external.
pub proof fn law_categories_part_the_findings(findings: Seq<FindingView>, finding: FindingView)
    ensures
        in_category(findings, FindingCategory::Transformed).contains(finding) <==> findings.contains(
            finding,
        ) && finding.kind is Transformed,
        in_category(findings, FindingCategory::Lost).contains(finding) <==> findings.contains(
            finding,
        ) && finding.kind is Lost,
        in_category(findings, FindingCategory::External).contains(finding) <==> findings.contains(
            finding,
        ) && finding.kind is External,
        in_category(findings, FindingCategory::Transformed).len() + in_category(
            findings,
            FindingCategory::Lost,
        ).len() + in_category(findings, FindingCategory::External).len() == findings.len(),
    decreases findings.len(),
{
    lemma_in_category(findings, FindingCategory::Transformed, finding);
    lemma_in_category(findings, FindingCategory::Lost, finding);
    lemma_in_category(findings, FindingCategory::External, finding);
    if findings.len() > 0 {
        law_categories_part_the_findings(findings.drop_last(), finding);
    }
}

proof fn lemma_in_category(
    findings: Seq<FindingView>,
    category: FindingCategory,
    finding: FindingView,
)
    ensures
        in_category(findings, category).contains(finding) <==> findings.contains(finding)
            && finding.kind.category() == category,
    decreases findings.len(),
{
    if findings.len() > 0 {
        let rest = findings.drop_last();
        lemma_in_category(rest, category, finding);
        let before = in_category(rest, category);
        let out = in_category(findings, category);
        assert(findings[findings.len() - 1] == findings.last());
        if before.contains(finding) {
            let k = choose|k: int| 0 <= k < before.len() && before[k] == finding;
            assert(out[k] == finding);
        }
        if rest.contains(finding) {
            let k = choose|k: int| 0 <= k < rest.len() && rest[k] == finding;
            assert(findings[k] == finding);
        }
        if out.len() > before.len() {
            assert(out[before.len() as int] == findings.last());
        }
        if out.contains(finding) && !before.contains(finding) {
            let k = choose|k: int| 0 <= k < out.len() && out[k] == finding;
            if k < before.len() {
                assert(before[k] == finding);
            }
        }
        if findings.contains(finding) && !rest.contains(finding) {
            let k = choose|k: int| 0 <= k < findings.len() && findings[k] == finding;
            if k < rest.len() {
                assert(rest[k] == finding);
            }
        }
    } else {
        assert(!findings.contains(finding));
        assert(!in_category(findings, category).contains(finding));
    }
}

/// What is relaxed is no longer required, and nothing else changes: the
/// requirements that were met stay.
pub proof fn law_relaxing_gives_up_what_is_unmet(
    requirements: FlattenRequirements<'_>,
    unmet: Seq<(Requirement, FindingView)>,
)
    ensures
        ({
            let out = relaxed(requirements, unmet);
            &&& unmet.len() == 0 ==> out == requirements
            &&& unmet.len() > 0 ==> out.losses == LossPolicy::RefuseRequired
            &&& out.exact_animation <==> requirements.exact_animation && !exists|i: int|
                0 <= i < unmet.len() && (#[trigger] unmet[i]).0 == Requirement::ExactAnimation
            &&& (exists|i: int|
                0 <= i < unmet.len() && (#[trigger] unmet[i]).0 == Requirement::AnchoredAssetPaths)
                ==> out.asset_paths == AssetPaths::AnchoredOrReported
            &&& !(exists|i: int|
                0 <= i < unmet.len() && (#[trigger] unmet[i]).0 == Requirement::AnchoredAssetPaths)
                ==> out.asset_paths == requirements.asset_paths
        }),
{
}

} // verus!
