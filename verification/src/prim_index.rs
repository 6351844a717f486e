//! Arcs, layers and the keys of opinions.

use crate::path::PathId;
use crate::prim_index_graph::NodeId;
use crate::spec_path::SpecPath;
use vstd::prelude::*;

verus! {

/// Names a layer.
#[derive(Clone, Copy, Debug, PartialEq, Eq, Structural, Hash, PartialOrd, Ord)]
pub struct LayerId(pub u64);

/// A time offset and scale, each held as the bits of a 64-bit float.
#[derive(Clone, Copy, Debug, PartialEq, Eq, Structural, Hash)]
pub struct LayerOffset {
    /// The bits of the offset.
    pub offset: u64,
    /// The bits of the scale.
    pub scale: u64,
}

/// The bits of the offset that changes no time: zero.
pub const IDENTITY_OFFSET: u64 = 0x0000_0000_0000_0000;

/// The bits of the scale that changes no time: one.
pub const IDENTITY_SCALE: u64 = 0x3ff0_0000_0000_0000;

impl LayerOffset {
    /// The offset that changes no time.
    pub open spec fn spec_identity() -> LayerOffset {
        LayerOffset { offset: IDENTITY_OFFSET, scale: IDENTITY_SCALE }
    }

    /// The offset that changes no time.
    pub fn identity() -> (offset: LayerOffset)
        ensures
            offset == LayerOffset::spec_identity(),
    {
        LayerOffset { offset: IDENTITY_OFFSET, scale: IDENTITY_SCALE }
    }
}

/// The kind of a composition arc.
#[derive(Clone, Copy, Debug, PartialEq, Eq, Structural, Hash)]
pub enum ArcKind {
    /// The prim's own site.
    Local,
    /// An inherited class.
    Inherits,
    /// A selected variant.
    Variants,
    /// A relocation's source.
    Relocates,
    /// A reference.
    References,
    /// A payload.
    Payloads,
    /// A specialized class.
    Specializes,
}

impl ArcKind {
    /// The place of the kind in strength order, the strongest first.
    pub open spec fn spec_strength_rank(self) -> u8 {
        match self {
            ArcKind::Local => 0,
            ArcKind::Inherits => 1,
            ArcKind::Variants => 2,
            ArcKind::Relocates => 3,
            ArcKind::References => 4,
            ArcKind::Payloads => 5,
            ArcKind::Specializes => 6,
        }
    }

    /// The place of the kind in strength order, the strongest first.
    pub fn strength_rank(self) -> (rank: u8)
        ensures
            rank == self.spec_strength_rank(),
    {
        match self {
            ArcKind::Local => 0,
            ArcKind::Inherits => 1,
            ArcKind::Variants => 2,
            ArcKind::Relocates => 3,
            ArcKind::References => 4,
            ArcKind::Payloads => 5,
            ArcKind::Specializes => 6,
        }
    }
}

/// Where an opinion comes from.
#[derive(Clone, Debug, PartialEq, Eq)]
pub struct OpinionKey {
    /// The node of the prim's graph that reads the opinion.
    pub node: NodeId,
    /// The strength of the layer within the node's layer stack.
    pub layer_strength: u16,
    /// The layer that authors the opinion.
    pub layer_id: LayerId,
    /// The prim path that the opinion is looked up at.
    pub lookup_path: PathId,
    /// The spec that authors the opinion.
    pub spec_path: SpecPath,
}

} // verus!
