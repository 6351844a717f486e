//! What the composition of a stage depends on.

use crate::fields::{lemma_place_of_unique, named};
use crate::path::PathId;
use crate::prim_index::LayerId;
use vstd::prelude::*;

verus! {

/// An `invalidation::InvalidationGraph` between the indices of paths. The trait
/// that bounds its keys cannot be named here, so the graph is held in a field
/// that nothing here reads: it is carried from the composition that records it
/// to whoever asks for it.
#[verifier::external_body]
#[derive(Debug)]
pub struct DependencyGraph {
    pub graph: invalidation::InvalidationGraph<usize>,
}

/// An arc from one prim to another.
#[derive(Clone, Copy, Debug, PartialEq, Eq, Structural, Hash)]
pub struct ArcDependency {
    /// The prim whose composition follows the arc.
    pub source: PathId,
    /// The prim that the arc leads to.
    pub target: PathId,
}

/// What the composition of a stage depends on.
#[derive(Debug)]
pub struct CompositionDeps {
    /// Which prims are to be composed again where others change.
    pub graph: DependencyGraph,
    pub arcs: Vec<ArcDependency>,
    /// The prims that each layer affects.
    pub layer_to_prims: Vec<(LayerId, Vec<PathId>)>,
    /// The layers that affect each prim.
    pub prim_to_layers: Vec<(PathId, Vec<LayerId>)>,
}

/// The mathematical value of a [`CompositionDeps`].
pub struct DepsView {
    pub graph: DependencyGraph,
    pub arcs: Seq<ArcDependency>,
    pub layer_to_prims: Seq<(LayerId, Seq<PathId>)>,
    pub prim_to_layers: Seq<(PathId, Seq<LayerId>)>,
}

impl View for CompositionDeps {
    type V = DepsView;

    open spec fn view(&self) -> DepsView {
        DepsView {
            graph: self.graph,
            arcs: self.arcs@,
            layer_to_prims: lists_view(self.layer_to_prims@),
            prim_to_layers: lists_view(self.prim_to_layers@),
        }
    }
}

/// The keys and lists of a list of lists.
pub open spec fn lists_view<K, T>(lists: Seq<(K, Vec<T>)>) -> Seq<(K, Seq<T>)> {
    lists.map_values(|l: (K, Vec<T>)| (l.0, l.1@))
}

/// The arcs that lead to a prim.
pub open spec fn arcs_to(arcs: Seq<ArcDependency>, prim: PathId) -> Seq<ArcDependency> {
    arcs.filter(|arc: ArcDependency| arc.target == prim)
}

/// The list of a key, empty where there is none.
pub open spec fn listed<K, T>(lists: Seq<(K, Seq<T>)>, key: K) -> Seq<T> {
    match named(lists, key) {
        Some(list) => list,
        None => seq![],
    }
}

impl CompositionDeps {
    /// The arcs that lead to a prim.
    pub fn arcs_targeting(&self, prim: PathId) -> (out: Vec<ArcDependency>)
        ensures
            out@ == arcs_to(self@.arcs, prim),
    {
        let ghost to = |arc: ArcDependency| arc.target == prim;
        let mut out: Vec<ArcDependency> = Vec::new();
        let mut i: usize = 0;
        assert(self.arcs@.take(0).filter(to) =~= seq![]) by {
            reveal(Seq::filter);
        }
        while i < self.arcs.len()
            invariant
                i <= self.arcs@.len(),
                to == (|arc: ArcDependency| arc.target == prim),
                out@ == self.arcs@.take(i as int).filter(to),
            decreases self.arcs@.len() - i,
        {
            let arc = self.arcs[i];
            proof {
                assert(self.arcs@.take(i + 1).drop_last() =~= self.arcs@.take(i as int));
                reveal(Seq::filter);
            }
            if arc.target == prim {
                out.push(arc);
            }
            i = i + 1;
        }
        assert(self.arcs@.take(i as int) =~= self.arcs@);
        out
    }

    /// The prims that a layer affects.
    pub fn prims_affected_by_layer(&self, layer: LayerId) -> (out: Vec<PathId>)
        ensures
            out@ == listed(self@.layer_to_prims, layer),
    {
        let ghost all = self@.layer_to_prims;
        let mut i: usize = 0;
        while i < self.layer_to_prims.len()
            invariant
                i <= self.layer_to_prims@.len(),
                all == lists_view(self.layer_to_prims@),
                forall|k: int| 0 <= k < i ==> (#[trigger] all[k]).0 != layer,
            decreases self.layer_to_prims@.len() - i,
        {
            if self.layer_to_prims[i].0 == layer {
                proof {
                    lemma_place_of_unique(all, layer, i as int);
                }
                let out = self.layer_to_prims[i].1.clone();
                assert(out@ =~= all[i as int].1);
                return out;
            }
            i = i + 1;
        }
        proof {
            lemma_place_of_unique(all, layer, i as int);
        }
        let out: Vec<PathId> = Vec::new();
        assert(out@ =~= seq![]);
        out
    }

    /// The layers that affect a prim.
    pub fn layers_affecting_prim(&self, prim: PathId) -> (out: Vec<LayerId>)
        ensures
            out@ == listed(self@.prim_to_layers, prim),
    {
        let ghost all = self@.prim_to_layers;
        let mut i: usize = 0;
        while i < self.prim_to_layers.len()
            invariant
                i <= self.prim_to_layers@.len(),
                all == lists_view(self.prim_to_layers@),
                forall|k: int| 0 <= k < i ==> (#[trigger] all[k]).0 != prim,
            decreases self.prim_to_layers@.len() - i,
        {
            if self.prim_to_layers[i].0 == prim {
                proof {
                    lemma_place_of_unique(all, prim, i as int);
                }
                let out = self.prim_to_layers[i].1.clone();
                assert(out@ =~= all[i as int].1);
                return out;
            }
            i = i + 1;
        }
        proof {
            lemma_place_of_unique(all, prim, i as int);
        }
        let out: Vec<LayerId> = Vec::new();
        assert(out@ =~= seq![]);
        out
    }
}

} // verus!
