//! Errors found while composing.

use crate::path::PathId;
use crate::prim_index::LayerId;
use vstd::prelude::*;

verus! {

/// Why an authored relocation is invalid on its own.
#[derive(Clone, Copy, Debug, PartialEq, Eq, Structural, Hash)]
pub enum InvalidRelocationReason {
    /// The target is the source.
    TargetIsSource,
    /// The target lies beneath the source.
    TargetIsDescendant,
    /// The source lies beneath the target.
    TargetIsAncestor,
    /// The source is a root prim.
    RootPrimSource,
}

/// How a relocation conflicts with another one.
#[derive(Clone, Copy, Debug, PartialEq, Eq, Structural, Hash)]
pub enum RelocationConflict {
    /// Its target is the other's source.
    TargetIsConflictSource,
    /// Its source is the other's target.
    SourceIsConflictTarget,
    /// Its target lies beneath the other's source.
    TargetIsConflictSourceDescendant,
    /// Its source lies beneath the other's source.
    SourceIsConflictSourceDescendant,
}

impl RelocationConflict {
    /// The place of the reason in the order of reports.
    pub open spec fn spec_rank(self) -> u8 {
        match self {
            RelocationConflict::TargetIsConflictSource => 0,
            RelocationConflict::SourceIsConflictTarget => 1,
            RelocationConflict::TargetIsConflictSourceDescendant => 2,
            RelocationConflict::SourceIsConflictSourceDescendant => 3,
        }
    }

    /// The place of the reason in the order of reports.
    pub fn rank(self) -> (rank: u8)
        ensures
            rank == self.spec_rank(),
    {
        match self {
            RelocationConflict::TargetIsConflictSource => 0,
            RelocationConflict::SourceIsConflictTarget => 1,
            RelocationConflict::TargetIsConflictSourceDescendant => 2,
            RelocationConflict::SourceIsConflictSourceDescendant => 3,
        }
    }
}

/// A relocation that is invalid on its own.
#[derive(Clone, Copy, Debug, PartialEq, Eq, Structural, Hash)]
pub struct InvalidAuthoredRelocation {
    /// The layer that authors it.
    pub layer: LayerId,
    /// Its source.
    pub source: PathId,
    /// Its target.
    pub target: Option<PathId>,
    /// What is wrong with it.
    pub reason: InvalidRelocationReason,
}

/// Relocations of different sources to one target.
#[derive(Clone, Debug, PartialEq, Eq, Hash)]
pub struct InvalidSameTargetRelocations {
    /// The target.
    pub target: PathId,
    /// The sources, each with the layer that authors it.
    pub sources: Vec<(LayerId, PathId)>,
}

/// A relocation that conflicts with another one.
#[derive(Clone, Copy, Debug, PartialEq, Eq, Structural, Hash)]
pub struct InvalidConflictingRelocation {
    /// The layer that authors it.
    pub layer: LayerId,
    /// Its source.
    pub source: PathId,
    /// Its target.
    pub target: Option<PathId>,
    /// The layer that authors the other one.
    pub conflict_layer: LayerId,
    /// The other's source.
    pub conflict_source: PathId,
    /// The other's target.
    pub conflict_target: Option<PathId>,
    /// How they conflict.
    pub reason: RelocationConflict,
}

/// An error found while composing.
#[derive(Clone, Debug, PartialEq, Eq, Hash)]
pub enum CompositionError {
    /// A relocation that is invalid on its own.
    InvalidAuthoredRelocation(InvalidAuthoredRelocation),
    /// Relocations of different sources to one target.
    InvalidSameTargetRelocations(InvalidSameTargetRelocations),
    /// A relocation that conflicts with another one.
    InvalidConflictingRelocation(InvalidConflictingRelocation),
}

/// The mathematical value of a [`CompositionError`].
pub enum ErrorView {
    InvalidAuthoredRelocation(InvalidAuthoredRelocation),
    InvalidSameTargetRelocations { target: PathId, sources: Seq<(LayerId, PathId)> },
    InvalidConflictingRelocation(InvalidConflictingRelocation),
}

impl CompositionError {
    pub open spec fn view(&self) -> ErrorView {
        match self {
            CompositionError::InvalidAuthoredRelocation(e) => {
                ErrorView::InvalidAuthoredRelocation(*e)
            },
            CompositionError::InvalidSameTargetRelocations(e) => {
                ErrorView::InvalidSameTargetRelocations { target: e.target, sources: e.sources@ }
            },
            CompositionError::InvalidConflictingRelocation(e) => {
                ErrorView::InvalidConflictingRelocation(*e)
            },
        }
    }
}

/// The views of a list of errors.
pub open spec fn errors_view(errors: Seq<CompositionError>) -> Seq<ErrorView> {
    errors.map_values(|e: CompositionError| e.view())
}

} // verus!
