//! What a flatten found, in words.

use crate::fields::{lemma_place_of_unique, named};
use crate::flatten::report::{
    object_text, selections_view, unmet_view, Finding, FindingKind, FindingView, FlattenError,
    FlattenRefusal, KindView, Requirement, Transformation, TransformationView, UnmetRequirement,
};
use crate::prim_index::LayerOffset;
use crate::property::Variability;
use crate::text::{decimal, decimal_text, push_text, text};
use vstd::prelude::*;

verus! {

/// How doubles are written, by their bits.
pub type NumberTexts = Vec<(u64, String)>;

/// The texts of a list of numbers.
pub open spec fn numbers_view(numbers: Seq<(u64, String)>) -> Seq<(u64, Seq<char>)> {
    numbers.map_values(|n: (u64, String)| (n.0, n.1@))
}

/// How a double is written; nothing for one that is not listed.
pub open spec fn number_words(numbers: Seq<(u64, Seq<char>)>, bits: u64) -> Seq<char> {
    match named(numbers, bits) {
        Some(text) => text,
        None => seq![],
    }
}

/// How an offset is written.
pub open spec fn offset_words(numbers: Seq<(u64, Seq<char>)>, offset: LayerOffset) -> Seq<char> {
    " retimed (offset "@ + number_words(numbers, offset.offset) + ", scale "@ + number_words(
        numbers,
        offset.scale,
    ) + ")"@
}

/// How selections are written, each behind a space.
pub open spec fn selection_words(selections: Seq<(Seq<char>, Seq<char>)>) -> Seq<char>
    decreases selections.len(),
{
    if selections.len() == 0 {
        seq![]
    } else {
        selection_words(selections.drop_last()) + " "@ + selections.last().0 + "="@
            + selections.last().1
    }
}

/// A transformation in words.
pub open spec fn transformation_words(
    transformation: TransformationView,
    numbers: Seq<(u64, Seq<char>)>,
) -> Seq<char> {
    match transformation {
        TransformationView::ListOpMadeExplicit { field } => field + " made explicit"@,
        TransformationView::SamplesRetimed { offset } => "time samples"@ + offset_words(
            numbers,
            offset,
        ),
        TransformationView::TimeCodesRetimed { offset } => "timecode values"@ + offset_words(
            numbers,
            offset,
        ),
        TransformationView::VariantSelectionsBaked { selections } => "variant selections baked:"@
            + selection_words(selections),
        TransformationView::InstanceShared { prototype } => "instance of "@ + prototype,
        TransformationView::InstanceExpanded => "instance expanded"@,
        TransformationView::AssetPathAnchored { authored, anchored } => "@"@ + authored
            + "@ anchored as @"@ + anchored + "@"@,
        TransformationView::CustomFromWeakestOpinion { custom } => if custom {
            "custom = true, from the weakest opinion"@
        } else {
            "custom = false, from the weakest opinion"@
        },
        TransformationView::DefinedBySchema { variability } => match variability {
            Variability::Varying => "declared by its schema (Varying, not custom)"@,
            Variability::Uniform => "declared by its schema (Uniform, not custom)"@,
        },
    }
}

/// What was found, in words.
pub open spec fn kind_words(kind: KindView, numbers: Seq<(u64, Seq<char>)>) -> Seq<char> {
    match kind {
        KindView::Transformed(transformation) => "transformed: "@ + transformation_words(
            transformation,
            numbers,
        ),
        KindView::Lost(loss) => "lost: "@ + loss.words(),
        KindView::External(path) => "external: "@ + (seq!['@'] + path + seq!['@']),
    }
}

/// A finding in words: what it concerns, what was found, and where it comes
/// from.
pub open spec fn finding_words(
    finding: FindingView,
    numbers: Seq<(u64, Seq<char>)>,
) -> Seq<char> {
    let said = object_text(finding.path) + ": "@ + kind_words(finding.kind, numbers);
    match finding.source {
        Some((layer, spec)) => said + " (layer "@ + decimal(layer.0 as nat) + ", "@ + spec + ")"@,
        None => said,
    }
}

/// Unmet requirements in words, each behind a semicolon.
pub open spec fn unmet_words(
    unmet: Seq<(Requirement, FindingView)>,
    numbers: Seq<(u64, Seq<char>)>,
) -> Seq<char>
    decreases unmet.len(),
{
    if unmet.len() == 0 {
        seq![]
    } else {
        unmet_words(unmet.drop_last(), numbers) + "; "@ + (unmet.last().0.words() + ": "@
            + finding_words(unmet.last().1, numbers))
    }
}

/// Why a flatten has no result, in words.
pub open spec fn error_words(error: FlattenError, numbers: Seq<(u64, Seq<char>)>) -> Seq<char> {
    match error {
        FlattenError::MissingRootLayer(layer) => "root layer "@ + decimal(layer.0 as nat)
            + " is not in the store"@,
        FlattenError::Refused(refusal) => {
            let unmet = unmet_view(refusal.unmet@);
            "flatten refused: "@ + decimal(unmet.len()) + " unmet requirement"@ + (if unmet.len()
                == 1 {
                seq![]
            } else {
                "s"@
            }) + unmet_words(unmet, numbers)
        },
    }
}

/// How a double is written.
pub fn number_text(numbers: &NumberTexts, bits: u64) -> (out: String)
    ensures
        out@ == number_words(numbers_view(numbers@), bits),
{
    let ghost all = numbers_view(numbers@);
    let mut i: usize = 0;
    while i < numbers.len()
        invariant
            i <= numbers@.len(),
            all == numbers_view(numbers@),
            forall|k: int| 0 <= k < i ==> (#[trigger] all[k]).0 != bits,
        decreases numbers@.len() - i,
    {
        if numbers[i].0 == bits {
            proof {
                lemma_place_of_unique(all, bits, i as int);
            }
            return text(numbers[i].1.as_str());
        }
        i = i + 1;
    }
    proof {
        lemma_place_of_unique(all, bits, i as int);
    }
    let out = String::new();
    assert(out@ =~= seq![]);
    out
}

/// How an offset is written, behind what was retimed.
fn offset_text(what: &str, offset: LayerOffset, numbers: &NumberTexts) -> (out: String)
    ensures
        out@ == what@ + offset_words(numbers_view(numbers@), offset),
{
    let mut out = text(what);
    push_text(&mut out, " retimed (offset ");
    let shift = number_text(numbers, offset.offset);
    push_text(&mut out, shift.as_str());
    push_text(&mut out, ", scale ");
    let scale = number_text(numbers, offset.scale);
    push_text(&mut out, scale.as_str());
    push_text(&mut out, ")");
    assert(out@ =~= what@ + offset_words(numbers_view(numbers@), offset));
    out
}

impl Transformation {
    /// The transformation in words.
    pub fn display(&self, numbers: &NumberTexts) -> (out: String)
        ensures
            out@ == transformation_words(self@, numbers_view(numbers@)),
    {
        match self {
            Transformation::ListOpMadeExplicit { field } => {
                let mut out = text(field.as_str());
                push_text(&mut out, " made explicit");
                out
            },
            Transformation::SamplesRetimed { offset } => offset_text(
                "time samples",
                *offset,
                numbers,
            ),
            Transformation::TimeCodesRetimed { offset } => offset_text(
                "timecode values",
                *offset,
                numbers,
            ),
            Transformation::VariantSelectionsBaked { selections } => {
                let ghost all = selections_view(selections@);
                let mut out = text("variant selections baked:");
                let ghost start = out@;
                let mut i: usize = 0;
                assert(all.take(0) =~= seq![]);
                assert(out@ =~= start + selection_words(all.take(0)));
                while i < selections.len()
                    invariant
                        i <= selections@.len(),
                        all == selections_view(selections@),
                        out@ == start + selection_words(all.take(i as int)),
                    decreases selections@.len() - i,
                {
                    proof {
                        assert(all.take(i + 1).drop_last() =~= all.take(i as int));
                        assert(all.take(i + 1).last() == (
                            selections@[i as int].0@,
                            selections@[i as int].1@,
                        ));
                    }
                    push_text(&mut out, " ");
                    push_text(&mut out, selections[i].0.as_str());
                    push_text(&mut out, "=");
                    push_text(&mut out, selections[i].1.as_str());
                    assert(out@ =~= start + selection_words(all.take(i + 1)));
                    i = i + 1;
                }
                assert(all.take(i as int) =~= all);
                out
            },
            Transformation::InstanceShared { prototype } => {
                let mut out = text("instance of ");
                push_text(&mut out, prototype.as_str());
                out
            },
            Transformation::InstanceExpanded => text("instance expanded"),
            Transformation::AssetPathAnchored { authored, anchored } => {
                let mut out = text("@");
                push_text(&mut out, authored.as_str());
                push_text(&mut out, "@ anchored as @");
                push_text(&mut out, anchored.as_str());
                push_text(&mut out, "@");
                out
            },
            Transformation::CustomFromWeakestOpinion { custom } => if *custom {
                text("custom = true, from the weakest opinion")
            } else {
                text("custom = false, from the weakest opinion")
            },
            Transformation::DefinedBySchema { variability } => match variability {
                Variability::Varying => text("declared by its schema (Varying, not custom)"),
                Variability::Uniform => text("declared by its schema (Uniform, not custom)"),
            },
        }
    }
}

impl FindingKind {
    /// What was found, in words.
    pub fn display(&self, numbers: &NumberTexts) -> (out: String)
        ensures
            out@ == kind_words(self@, numbers_view(numbers@)),
    {
        match self {
            FindingKind::Transformed(transformation) => {
                let mut out = text("transformed: ");
                let words = transformation.display(numbers);
                push_text(&mut out, words.as_str());
                out
            },
            FindingKind::Lost(loss) => {
                let mut out = text("lost: ");
                push_text(&mut out, loss.display());
                out
            },
            FindingKind::External(dependency) => {
                let mut out = text("external: ");
                let words = dependency.display();
                push_text(&mut out, words.as_str());
                out
            },
        }
    }
}

impl Finding {
    /// The finding in words.
    pub fn display(&self, numbers: &NumberTexts) -> (out: String)
        ensures
            out@ == finding_words(self@, numbers_view(numbers@)),
    {
        let mut out = self.path.display();
        push_text(&mut out, ": ");
        let kind = self.kind.display(numbers);
        push_text(&mut out, kind.as_str());
        match &self.source {
            Some(source) => {
                push_text(&mut out, " (layer ");
                let layer = decimal_text(source.layer.0);
                push_text(&mut out, layer.as_str());
                push_text(&mut out, ", ");
                push_text(&mut out, source.spec.as_str());
                push_text(&mut out, ")");
            },
            None => {},
        }
        out
    }
}

impl UnmetRequirement {
    /// The requirement in words, with what breaks it.
    pub fn display(&self, numbers: &NumberTexts) -> (out: String)
        ensures
            out@ == self.requirement.words() + ": "@ + finding_words(
                self.finding@,
                numbers_view(numbers@),
            ),
    {
        let mut out = text(self.requirement.display());
        push_text(&mut out, ": ");
        let finding = self.finding.display(numbers);
        push_text(&mut out, finding.as_str());
        out
    }
}

impl FlattenError {
    /// Why the flatten has no result, in words.
    pub fn display(&self, numbers: &NumberTexts) -> (out: String)
        ensures
            out@ == error_words(*self, numbers_view(numbers@)),
    {
        match self {
            FlattenError::MissingRootLayer(layer) => {
                let mut out = text("root layer ");
                let shown = decimal_text(layer.0);
                push_text(&mut out, shown.as_str());
                push_text(&mut out, " is not in the store");
                out
            },
            FlattenError::Refused(refusal) => refusal.display(numbers),
        }
    }
}

impl FlattenRefusal {
    /// Why the flatten was refused, in words.
    pub fn display(&self, numbers: &NumberTexts) -> (out: String)
        ensures
            out@ == error_words(FlattenError::Refused(*self), numbers_view(numbers@)),
    {
        let ghost all = unmet_view(self.unmet@);
        let ghost shown = numbers_view(numbers@);
        let mut out = text("flatten refused: ");
        let count = decimal_text(self.unmet.len() as u64);
        push_text(&mut out, count.as_str());
        push_text(&mut out, " unmet requirement");
        if self.unmet.len() != 1 {
            push_text(&mut out, "s");
        }
        let ghost start = out@;
        let mut i: usize = 0;
        proof {
            assert(all.take(0) =~= seq![]);
            assert(out@ =~= start + unmet_words(all.take(0), shown));
        }
        while i < self.unmet.len()
            invariant
                i <= self.unmet@.len(),
                all == unmet_view(self.unmet@),
                shown == numbers_view(numbers@),
                out@ == start + unmet_words(all.take(i as int), shown),
            decreases self.unmet@.len() - i,
        {
            proof {
                assert(all.take(i + 1).drop_last() =~= all.take(i as int));
                assert(all.take(i + 1).last() == (
                    self.unmet@[i as int].requirement,
                    self.unmet@[i as int].finding@,
                ));
            }
            push_text(&mut out, "; ");
            let one = self.unmet[i].display(numbers);
            push_text(&mut out, one.as_str());
            assert(out@ =~= start + unmet_words(all.take(i + 1), shown));
            i = i + 1;
        }
        proof {
            assert(all.take(i as int) =~= all);
            assert(out@ =~= error_words(FlattenError::Refused(*self), shown));
        }
        out
    }
}

} // verus!
