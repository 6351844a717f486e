//! Per-prim composition graphs.
//!
//! Composition builds one [`PrimIndexGraph`] per composed prim: a tree of
//! [`PrimNode`]s, one per arc expansion that contributes to the prim. The
//! root node is the prim's own site in the stage's root layer stack; every
//! other node is a site reached through an arc from its parent node, and
//! records the arc's kind, the layer stack and site it targets, the
//! namespace depth at which it was introduced and its position among the
//! arcs authored beside it.
//!
//! # Strength order
//!
//! A prim's opinions are ranked by a strong-to-weak depth-first walk of its
//! graph ([`PrimIndexGraph::strength_order`]), then by layer strength within
//! each node's layer stack: a node is stronger than every node beneath it,
//! and a node's children are ordered by arc kind (LIVERPS), then deeper
//! namespace depth, then the strength of their origins, then their position
//! among the arcs authored beside them. A class arc authored inside a
//! reference or payload target is also implied beneath the node of each
//! stronger layer stack, with the class node it is implied from as its origin
//! ([`PrimNode::origin`]), so it ranks with that layer stack.
//!
//! Specializes are weaker than every other arc. A specializes arc authored
//! beneath the root leaves an inert placeholder node where it is authored, and
//! a copy of that node, with the arcs of the specialized prim beneath it, is
//! propagated to the root with the placeholder as its origin. Specializes
//! children of the root rank after every other child, and among themselves by
//! where their origins sit.

use crate::path::PathId;
use crate::order::{compare_bools, compare_u64, compare_usize, order_int, Order};
use crate::prim_index::{ArcKind, LayerId, LayerOffset, OpinionKey};
use crate::prim_index_graph::keep::{
    closed_under, count_set, leads_to, lemma_closed_holds, lemma_count_set, lemma_stays_step,
    lemma_wanted_stays, law_pruning_keeps_the_shape, new_id, new_ids, pruned, pruned_upto, renamed,
    selected, staying, stays,
};
use crate::prim_index_graph::model::{
    above, acyclic, ancestry, are_heights, class_depth, class_start, depth_below, first_difference,
    height, hierarchy_depth, in_graph, is_beneath, is_propagated, lemma_ancestry, lemma_height,
    lemma_origin_start, lemma_parting, lemma_sources_lower, lemma_starts_lower, nested, node_at,
    node_shaped, order_implied, order_lengths, order_positions, order_siblings, order_specializes,
    origin_count, origin_start, parting, placeholder, same_site, shaped, source_of, valid, ArcView,
    Graph, NodeView,
};
use crate::prim_index_graph::walk::{
    by_strength, child_groups, children_of, distinct, equal_runs, first_weaker, holds_id,
    is_stronger, law_every_node_has_one_rank, lemma_by_strength, lemma_child_groups,
    lemma_children_of, lemma_first_weaker, placement, ranked, strength_groups, walk, walk_all,
    good_group, lemma_rank_place, lemma_walk, preorder, preorder_all,
};
use crate::sorting::{
    is_order, law_sorting_sorts, lemma_stable_sorted, sort_stable, stable_sorted,
};
use crate::spec_path::{order_spec_paths, SpecPath, SpecPathView};
use vstd::prelude::*;

pub mod keep;
pub mod model;
pub mod strength;
pub mod walk;

verus! {

/// Identifies a node of a [`PrimIndexGraph`].
///
/// Node ids index the graph's nodes and are stable while composition only adds
/// nodes.
#[derive(Clone, Copy, Debug, PartialEq, Eq, Structural, Hash, PartialOrd, Ord)]
pub struct NodeId(pub u32);

impl NodeId {
    /// The root node: the composed prim's own site in the stage's root layer
    /// stack.
    pub fn root() -> (id: NodeId)
        ensures
            id == NodeId(0),
    {
        NodeId(0)
    }

    /// Returns the node's index in [`PrimIndexGraph::nodes`] order.
    #[must_use]
    pub fn index(self) -> (index: usize)
        ensures
            index == self.0,
    {
        self.0 as usize
    }

    fn from_index(index: usize) -> (id: NodeId)
        requires
            index <= u32::MAX,
        ensures
            id.0 == index,
    {
        NodeId(index as u32)
    }
}

/// The arc that introduces a node, and the site it reaches.
///
/// Two expansions that agree on all of this share a node.
#[derive(Clone, Debug, PartialEq, Eq)]
pub struct NodeArc {
    /// The kind of arc from the parent node to this one; [`ArcKind::Local`]
    /// for the root.
    pub arc_kind: ArcKind,
    /// Root layer of the layer stack the site is in.
    pub layer_stack: LayerId,
    /// The site's prim spec path in that layer stack, with the variant
    /// selections of a variant node.
    pub site: SpecPath,
    /// Namespace depth of the prim the arc is authored on.
    pub namespace_depth: u16,
    /// Position of the arc among the arcs of its kind authored beside it.
    pub sibling_index: u16,
    /// `true` for an implied class arc (see [`PrimNode::is_implied`]).
    pub implied: bool,
    /// `true` for a node whose registrations of sites that another node
    /// registers are dropped: one beneath an ancestral arc of a class arc's
    /// target.
    pub skips_duplicates: bool,
}

impl View for NodeArc {
    type V = ArcView;

    open spec fn view(&self) -> ArcView {
        ArcView {
            arc_kind: self.arc_kind,
            layer_stack: self.layer_stack,
            site: self.site@,
            namespace_depth: self.namespace_depth,
            sibling_index: self.sibling_index,
            implied: self.implied,
            skips_duplicates: self.skips_duplicates,
        }
    }
}

impl NodeArc {
    /// Whether two arcs agree on everything.
    pub fn same(&self, other: &NodeArc) -> (same: bool)
        ensures
            same == (self@ == other@),
    {
        self.arc_kind == other.arc_kind && self.layer_stack == other.layer_stack
            && self.namespace_depth == other.namespace_depth && self.sibling_index
            == other.sibling_index && self.implied == other.implied && self.skips_duplicates
            == other.skips_duplicates && self.site.same(&other.site)
    }
}

/// One node of a [`PrimIndexGraph`]: a site that contributes opinions to a
/// composed prim, and the arc that reaches it.
#[derive(Debug)]
pub struct PrimNode {
    parent: Option<NodeId>,
    origin: Option<NodeId>,
    children: Vec<NodeId>,
    arc: NodeArc,
    /// The offset from the layers of the node's layer stack to the stage,
    /// before their sublayer offsets; `None` until composition records it.
    layer_offset: Option<LayerOffset>,
}

impl View for PrimNode {
    type V = NodeView;

    closed spec fn view(&self) -> NodeView {
        NodeView {
            parent: self.parent,
            origin: self.origin,
            children: self.children@,
            arc: self.arc@,
        }
    }
}

impl PrimNode {
    /// The recorded layer offset.
    pub closed spec fn recorded_offset(&self) -> Option<LayerOffset> {
        self.layer_offset
    }

    /// The kind of arc from [`Self::parent`] to this node;
    /// [`ArcKind::Local`] for the root.
    #[must_use]
    pub fn arc_kind(&self) -> (kind: ArcKind)
        ensures
            kind == self@.arc.arc_kind,
    {
        self.arc.arc_kind
    }

    /// The node whose site authors the arc to this node; `None` for the
    /// root.
    #[must_use]
    pub fn parent(&self) -> (parent: Option<NodeId>)
        ensures
            parent == self@.parent,
    {
        self.parent
    }

    /// The node this one was implied from; `None` for a node whose arc is
    /// authored at its parent's site.
    ///
    /// A class arc authored inside a reference or payload target is implied
    /// into each stronger layer stack on the way to the root, as a node
    /// beneath that layer stack's node whose origin is the class node it is
    /// implied from (see [`Self::is_implied`]). A specializes node
    /// propagated to the root has the inert placeholder where its arc is
    /// authored as its origin.
    #[must_use]
    pub fn origin(&self) -> (origin: Option<NodeId>)
        ensures
            origin == self@.origin,
    {
        self.origin
    }

    /// The nodes reached through arcs authored at this node's site, in the
    /// order they were added.
    #[must_use]
    pub fn children(&self) -> (children: &Vec<NodeId>)
        ensures
            children@ == self@.children,
    {
        &self.children
    }

    /// The root layer of the layer stack this node's site is in.
    #[must_use]
    pub fn layer_stack(&self) -> (layer: LayerId)
        ensures
            layer == self@.arc.layer_stack,
    {
        self.arc.layer_stack
    }

    /// The prim spec path this node reads in its layer stack, including the
    /// variant selections of a variant node (`/Model{shape=round}`).
    #[must_use]
    pub fn site(&self) -> (site: &SpecPath)
        ensures
            site@ == self@.arc.site,
    {
        &self.arc.site
    }

    /// Namespace depth of the prim the arc to this node is authored on:
    /// `1` for an arc authored on `/A`, `2` on `/A/B`.
    #[must_use]
    pub fn namespace_depth(&self) -> (depth: u16)
        ensures
            depth == self@.arc.namespace_depth,
    {
        self.arc.namespace_depth
    }

    /// Position of the arc to this node among the arcs of its kind authored
    /// beside it (the Nth reference of a list).
    #[must_use]
    pub fn sibling_index(&self) -> (index: u16)
        ensures
            index == self@.arc.sibling_index,
    {
        self.arc.sibling_index
    }

    /// `true` for an implied class arc: an inherits or specializes arc
    /// authored inside another arc's target, whose class path is mapped into
    /// the namespace (and, for references and payloads, the layer stack)
    /// of the site that arc is authored at. Its [`Self::origin`] is the
    /// class node it is implied from.
    #[must_use]
    pub fn is_implied(&self) -> (implied: bool)
        ensures
            implied == self@.arc.implied,
    {
        self.arc.implied
    }

    /// The offset that maps times in the root layer of this node's layer
    /// stack to stage times.
    pub fn layer_offset(&self) -> (offset: LayerOffset)
        ensures
            offset == (match self.recorded_offset() {
                Some(offset) => offset,
                None => LayerOffset::spec_identity(),
            }),
    {
        match self.layer_offset {
            Some(offset) => offset,
            None => LayerOffset::identity(),
        }
    }
}

/// The model of a list of nodes.
pub open spec fn graph_of(nodes: Seq<PrimNode>) -> Graph {
    nodes.map_values(|node: PrimNode| node@)
}

/// The layer offsets of a list of nodes.
pub open spec fn offsets_of(nodes: Seq<PrimNode>) -> Seq<Option<LayerOffset>> {
    nodes.map_values(|node: PrimNode| node.recorded_offset())
}

/// The first child from `from` on that is reached by `arc`.
pub open spec fn child_by_arc(g: Graph, children: Seq<NodeId>, from: int, arc: ArcView) -> Option<
    NodeId,
>
    decreases children.len() - from,
{
    if from < 0 || from >= children.len() {
        None
    } else if node_at(g, children[from]).arc == arc {
        Some(children[from])
    } else {
        child_by_arc(g, children, from + 1, arc)
    }
}

/// The graph with a new child of `parent` at the end.
pub open spec fn with_child(g: Graph, parent: NodeId, arc: ArcView) -> Graph {
    let node = node_at(g, parent);
    g.update(
        parent.0 as int,
        NodeView { children: node.children.push(NodeId(g.len() as u32)), ..node },
    ).push(NodeView { parent: Some(parent), origin: None, children: seq![], arc })
}

/// The graph with an origin recorded, unless the node has one.
pub open spec fn with_origin(g: Graph, id: NodeId, origin: NodeId) -> Graph {
    let node = node_at(g, id);
    if node.origin is Some {
        g
    } else {
        g.update(id.0 as int, NodeView { origin: Some(origin), ..node })
    }
}

/// Adding a child keeps a tree a tree, and makes no cycle.
pub proof fn law_a_child_keeps_the_shape(g: Graph, parent: NodeId, arc: ArcView)
    requires
        shaped(g),
        in_graph(g, parent),
        g.len() < u32::MAX,
    ensures
        shaped(with_child(g, parent, arc)),
        acyclic(g) ==> acyclic(with_child(g, parent, arc)),
{
    let out = with_child(g, parent, arc);
    let new = NodeId(g.len() as u32);
    let siblings = node_at(g, parent).children;
    assert(node_shaped(g, parent.0 as int));
    assert(out[parent.0 as int].children == siblings.push(new));
    assert forall|i: int| 0 <= i < out.len() implies #[trigger] node_shaped(out, i) by {
        if i < g.len() {
            assert(node_shaped(g, i));
            let node = g[i];
            if node.parent is Some {
                let p = node.parent->0;
                if p == parent {
                    let k = choose|k: int|
                        0 <= k < siblings.len() && siblings[k] == NodeId(i as u32);
                    assert(siblings.push(new)[k] == NodeId(i as u32));
                }
                assert(node_at(out, p).children.contains(NodeId(i as u32)));
            }
            let children = out[i].children;
            assert forall|k: int| 0 <= k < children.len() implies {
                &&& i < (#[trigger] children[k]).0 < out.len()
                &&& node_at(out, children[k]).parent == Some(NodeId(i as u32))
            } by {
                if k < node.children.len() {
                    assert(children[k] == node.children[k]);
                }
            }
            assert forall|a: int, b: int| 0 <= a < b < children.len() implies (
            #[trigger] children[a]).0 < (#[trigger] children[b]).0 by {
                assert(children[a] == node.children[a]);
                if b < node.children.len() {
                    assert(children[b] == node.children[b]);
                }
            }
        } else {
            let more = siblings.push(new);
            assert(more[siblings.len() as int] == new);
            assert(node_at(out, parent).children.contains(NodeId(i as u32)));
        }
    }
    if acyclic(g) {
        let heights = choose|heights: Seq<nat>| are_heights(g, heights);
        let more = heights.push(heights[parent.0 as int] + 1);
        assert forall|i: int| 0 <= i < out.len() implies {
            &&& (#[trigger] out[i]).parent is Some ==> more[(out[i].parent->0).0 as int] < more[i]
            &&& out[i].origin is Some ==> more[(out[i].origin->0).0 as int] < more[i]
        } by {
            if i < g.len() {
                assert(node_shaped(g, i));
                assert(are_heights(g, heights));
                assert(out[i].parent == g[i].parent && out[i].origin == g[i].origin);
            }
        }
        assert(are_heights(out, more));
    }
}

/// Recording an origin keeps a tree a tree.
pub proof fn law_an_origin_keeps_the_shape(g: Graph, id: NodeId, origin: NodeId)
    requires
        shaped(g),
        in_graph(g, id),
        in_graph(g, origin),
    ensures
        shaped(with_origin(g, id, origin)),
{
    let out = with_origin(g, id, origin);
    assert forall|i: int| 0 <= i < out.len() implies #[trigger] node_shaped(out, i) by {
        assert(node_shaped(g, i));
        assert(out[i].children == g[i].children && out[i].parent == g[i].parent);
        if g[i].parent is Some {
            let p = g[i].parent->0;
            assert(node_at(out, p).children == node_at(g, p).children);
        }
        assert forall|k: int| 0 <= k < out[i].children.len() implies {
            &&& i < (#[trigger] out[i].children[k]).0 < out.len()
            &&& node_at(out, out[i].children[k]).parent == Some(NodeId(i as u32))
        } by {
            assert(g[i].children[k] == out[i].children[k]);
        }
    }
}

// ── Keys ────────────────────────────────────────────────────────────────

/// The mathematical value of an [`OpinionKey`].
#[verifier::ext_equal]
pub struct KeyView {
    pub node: NodeId,
    pub layer_strength: u16,
    pub layer_id: LayerId,
    pub lookup_path: PathId,
    pub spec_path: SpecPathView,
}

impl OpinionKey {
    pub open spec fn view(&self) -> KeyView {
        KeyView {
            node: self.node,
            layer_strength: self.layer_strength,
            layer_id: self.layer_id,
            lookup_path: self.lookup_path,
            spec_path: self.spec_path@,
        }
    }
}

/// The order of two opinions, strongest first: by their nodes' ranks, then by
/// layer strength within the layer stack, then by stable ids.
pub open spec fn order_keys(ranks: Seq<u32>, a: KeyView, b: KeyView) -> Order {
    order_int(ranks[a.node.0 as int] as int, ranks[b.node.0 as int] as int).spec_or(
        order_int(a.layer_strength as int, b.layer_strength as int),
    ).spec_or(order_int(a.layer_id.0 as int, b.layer_id.0 as int)).spec_or(
        order_spec_paths(a.spec_path, b.spec_path),
    )
}

/// Whether an opinion is stronger than another.
pub open spec fn stronger_key(ranks: Seq<u32>) -> spec_fn(OpinionKey, OpinionKey) -> bool {
    |a: OpinionKey, b: OpinionKey| order_keys(ranks, a.view(), b.view()) == Order::Less
}

fn compare_u32(a: u32, b: u32) -> (out: Order)
    ensures
        out == order_int(a as int, b as int),
{
    compare_usize(a as usize, b as usize)
}

fn compare_u16(a: u16, b: u16) -> (out: Order)
    ensures
        out == order_int(a as int, b as int),
{
    compare_usize(a as usize, b as usize)
}

fn compare_u8(a: u8, b: u8) -> (out: Order)
    ensures
        out == order_int(a as int, b as int),
{
    compare_usize(a as usize, b as usize)
}

fn compare_keys_by(ranks: &Vec<u32>, a: &OpinionKey, b: &OpinionKey) -> (out: Order)
    requires
        a.node.0 < ranks@.len(),
        b.node.0 < ranks@.len(),
    ensures
        out == order_keys(ranks@, a.view(), b.view()),
{
    compare_u32(ranks[a.node.index()], ranks[b.node.index()]).or(
        compare_u16(a.layer_strength, b.layer_strength),
    ).or(compare_u64(a.layer_id.0, b.layer_id.0)).or(a.spec_path.compare(&b.spec_path))
}

// ── Implied classes ─────────────────────────────────────────────────────

/// Whether a class that `y` is the origin of is implied at or above `x`.
pub open spec fn implies_from(g: Graph, x: NodeId, y: NodeId) -> bool {
    exists|k: int|
        0 <= k < ancestry(g, x).len() && #[trigger] node_at(g, ancestry(g, x)[k]).arc.implied
            && node_at(g, ancestry(g, x)[k]).origin == Some(y)
}

/// Whether each node of a chain is the origin of a class implied at or above
/// the one before it.
pub open spec fn is_implied_chain(g: Graph, chain: Seq<NodeId>) -> bool {
    &&& chain.len() > 0
    &&& forall|k: int| 0 <= k < chain.len() ==> in_graph(g, #[trigger] chain[k])
    &&& forall|k: int|
        0 <= k < chain.len() - 1 ==> implies_from(g, #[trigger] chain[k], chain[k + 1])
}

/// Whether `y` is the origin of a class that `x` is implied from, directly or
/// through other implied classes.
pub open spec fn implied_from(g: Graph, x: NodeId, y: NodeId) -> bool {
    exists|chain: Seq<NodeId>| #[trigger]
        is_implied_chain(g, chain) && chain.len() > 1 && chain[0] == x && chain.last() == y
}

/// Whether `holder` is `a` or an ancestor of it with no variant branch in
/// between, `a` included.
pub open spec fn holds_outside_variants(g: Graph, holder: NodeId, a: NodeId) -> bool {
    let path = ancestry(g, a);
    exists|k: int|
        0 <= k < path.len() && #[trigger] path[k] == holder && forall|j: int|
            k < j < path.len() ==> node_at(g, #[trigger] path[j]).arc.arc_kind != ArcKind::Variants
}

/// Whether `b` lies beneath a class implied from a node whose subtree holds
/// `a`, outside that subtree's variant branches.
pub open spec fn comes_implied_after(g: Graph, a: NodeId, b: NodeId) -> bool {
    exists|o: NodeId| #[trigger] implied_from(g, b, o) && holds_outside_variants(g, o, a)
}

proof fn lemma_implied_step(g: Graph, x: NodeId, y: NodeId, z: NodeId)
    requires
        in_graph(g, x),
        in_graph(g, y),
        in_graph(g, z),
        x == y || implied_from(g, x, y),
        implies_from(g, y, z),
    ensures
        implied_from(g, x, z),
{
    let chain = if x == y {
        seq![x]
    } else {
        choose|chain: Seq<NodeId>| #[trigger]
            is_implied_chain(g, chain) && chain.len() > 1 && chain[0] == x && chain.last() == y
    };
    let longer = chain.push(z);
    assert forall|k: int| 0 <= k < longer.len() implies in_graph(g, #[trigger] longer[k]) by {
        if k < chain.len() {
            assert(longer[k] == chain[k]);
        }
    }
    assert forall|k: int| 0 <= k < longer.len() - 1 implies implies_from(
        g,
        #[trigger] longer[k],
        longer[k + 1],
    ) by {
        assert(longer[k] == chain[k]);
        if k + 1 < chain.len() {
            assert(longer[k + 1] == chain[k + 1]);
            assert(implies_from(g, chain[k], chain[k + 1]));
        }
    }
    assert(is_implied_chain(g, longer));
}

/// A set of origins that is closed under implying holds every node that `x` is
/// implied from.
proof fn lemma_implied_closed(g: Graph, x: NodeId, seen: Seq<NodeId>, chain: Seq<NodeId>, k: int)
    requires
        is_implied_chain(g, chain),
        chain[0] == x,
        0 < k < chain.len(),
        forall|y: NodeId| #[trigger] implies_from(g, x, y) ==> seen.contains(y),
        forall|y: NodeId, z: NodeId|
            seen.contains(y) && #[trigger] implies_from(g, y, z) ==> seen.contains(z),
    ensures
        seen.contains(chain[k]),
    decreases k,
{
    assert(implies_from(g, chain[k - 1], chain[k - 1 + 1]));
    if k > 1 {
        lemma_implied_closed(g, x, seen, chain, k - 1);
    }
}

// ── The graph ───────────────────────────────────────────────────────────

/// The composition graph of one composed prim.
///
/// See the [module docs](self) for how it relates to strength order.
#[derive(Debug)]
pub struct PrimIndexGraph {
    nodes: Vec<PrimNode>,
    /// Each node's position in the strength walk, once ranked: equal for
    /// nodes whose opinions interleave (see [`Self::rank`]). Empty or stale
    /// while composition adds nodes.
    ranks: Vec<u32>,
}

impl View for PrimIndexGraph {
    type V = Graph;

    closed spec fn view(&self) -> Graph {
        graph_of(self.nodes@)
    }
}

impl Default for PrimIndexGraph {
    fn default() -> (graph: Self)
        ensures
            graph@ == Graph::empty(),
            graph.offsets() == Seq::<Option<LayerOffset>>::empty(),
    {
        let nodes: Vec<PrimNode> = Vec::new();
        assert(graph_of(nodes@) =~= Graph::empty());
        assert(offsets_of(nodes@) =~= Seq::<Option<LayerOffset>>::empty());
        assert(are_heights(Graph::empty(), Seq::<nat>::empty()));
        PrimIndexGraph { nodes, ranks: Vec::new() }
    }
}

impl PrimIndexGraph {
    /// A tree, ranked wherever every node has a rank.
    #[verifier::type_invariant]
    spec fn well_formed(&self) -> bool {
        &&& shaped(graph_of(self.nodes@))
        &&& self.ranks@.len() <= self.nodes@.len()
        &&& self.ranks@.len() == self.nodes@.len() ==> {
            &&& valid(graph_of(self.nodes@))
            &&& ranked(graph_of(self.nodes@), self.ranks@)
        }
    }

    /// The recorded layer offsets, by node.
    pub closed spec fn offsets(&self) -> Seq<Option<LayerOffset>> {
        offsets_of(self.nodes@)
    }

    /// The ranks that were computed last.
    pub closed spec fn spec_ranks(&self) -> Seq<u32> {
        self.ranks@
    }

    /// Whether every node has its rank.
    pub open spec fn is_ranked(&self) -> bool {
        self.spec_ranks().len() == self@.len()
    }

    /// A graph holding only a root node reached by `arc`.
    pub fn new(arc: NodeArc) -> (graph: Self)
        ensures
            graph@ == seq![NodeView { parent: None, origin: None, children: seq![], arc: arc@ }],
            graph.offsets() == seq![Some(LayerOffset::spec_identity())],
            !graph.is_ranked(),
            valid(graph@),
    {
        let mut nodes: Vec<PrimNode> = Vec::new();
        let children: Vec<NodeId> = Vec::new();
        nodes.push(
            PrimNode {
                parent: None,
                origin: None,
                children,
                arc,
                layer_offset: Some(LayerOffset::identity()),
            },
        );
        proof {
            let g = graph_of(nodes@);
            assert(g =~= seq![
                NodeView { parent: None, origin: None, children: seq![], arc: arc@ },
            ]);
            assert(offsets_of(nodes@) =~= seq![Some(LayerOffset::spec_identity())]);
            assert(node_shaped(g, 0));
            assert(are_heights(g, seq![0nat]));
        }
        PrimIndexGraph { nodes, ranks: Vec::new() }
    }

    /// Returns the child of `parent` reached by `arc`, adding it if needed.
    pub fn intern_child(&mut self, parent: NodeId, arc: NodeArc) -> (id: NodeId)
        requires
            in_graph(old(self)@, parent),
            old(self)@.len() < u32::MAX,
        ensures
            ({
                let g = old(self)@;
                match child_by_arc(g, node_at(g, parent).children, 0, arc@) {
                    Some(child) => {
                        &&& id == child
                        &&& final(self)@ == g
                        &&& final(self).offsets() == old(self).offsets()
                        &&& final(self).spec_ranks() == old(self).spec_ranks()
                    },
                    None => {
                        &&& id.0 == g.len()
                        &&& final(self)@ == with_child(g, parent, arc@)
                        &&& final(self).offsets() == old(self).offsets().push(None)
                        &&& !final(self).is_ranked()
                    },
                }
            }),
            acyclic(old(self)@) ==> acyclic(final(self)@),
    {
        proof {
            use_type_invariant(&*self);
        }
        let ghost g = self@;
        let ghost kids = node_at(g, parent).children;
        assert(node_shaped(g, parent.0 as int));
        let mut i: usize = 0;
        while i < self.nodes[parent.index()].children.len()
            invariant
                g == self@,
                shaped(g),
                in_graph(g, parent),
                node_shaped(g, parent.0 as int),
                kids == node_at(g, parent).children,
                kids == self.nodes@[parent.0 as int].children@,
                self.nodes@.len() == g.len(),
                i <= kids.len(),
                child_by_arc(g, kids, 0, arc@) == child_by_arc(g, kids, i as int, arc@),
                *self == *old(self),
            decreases kids.len() - i,
        {
            let child = self.nodes[parent.index()].children[i];
            assert(child == kids[i as int]);
            assert(node_at(g, child) == self.nodes@[child.0 as int]@);
            if self.nodes[child.index()].arc.same(&arc) {
                return child;
            }
            i = i + 1;
        }
        let mut held = PrimIndexGraph::default();
        std::mem::swap(self, &mut held);
        let PrimIndexGraph { nodes, ranks } = held;
        let mut nodes = nodes;
        let ghost before = nodes@;
        let id = NodeId::from_index(nodes.len());
        let children: Vec<NodeId> = Vec::new();
        nodes.push(
            PrimNode { parent: Some(parent), origin: None, children, arc, layer_offset: None },
        );
        nodes[parent.index()].children.push(id);
        proof {
            law_a_child_keeps_the_shape(g, parent, arc@);
            assert(graph_of(nodes@) =~= with_child(g, parent, arc@));
            assert(offsets_of(nodes@) =~= offsets_of(before).push(None));
        }
        *self = PrimIndexGraph { nodes, ranks };
        id
    }

    /// Records `origin` as the node `node` is implied from, unless it has
    /// one.
    pub fn set_origin(&mut self, node: NodeId, origin: NodeId)
        requires
            in_graph(old(self)@, node),
            in_graph(old(self)@, origin),
        ensures
            final(self)@ == with_origin(old(self)@, node, origin),
            final(self).offsets() == old(self).offsets(),
            node_at(old(self)@, node).origin is Some ==> final(self).spec_ranks() == old(
                self,
            ).spec_ranks(),
            node_at(old(self)@, node).origin is None ==> !final(self).is_ranked(),
    {
        proof {
            use_type_invariant(&*self);
        }
        let ghost g = self@;
        assert(node_at(g, node) == self.nodes@[node.0 as int]@);
        if self.nodes[node.index()].origin.is_some() {
            return ;
        }
        let mut held = PrimIndexGraph::default();
        std::mem::swap(self, &mut held);
        let PrimIndexGraph { nodes, ranks } = held;
        let mut nodes = nodes;
        let ghost before = nodes@;
        nodes[node.index()].origin = Some(origin);
        proof {
            law_an_origin_keeps_the_shape(g, node, origin);
            assert(graph_of(nodes@) =~= with_origin(g, node, origin));
            assert(offsets_of(nodes@) =~= offsets_of(before));
        }
        *self = PrimIndexGraph { nodes, ranks: Vec::new() };
    }

    /// Records `offset` as the layer offset of `node`, unless it has one:
    /// every expansion that shares a node reaches it through the same arcs.
    pub fn set_layer_offset(&mut self, node: NodeId, offset: LayerOffset)
        requires
            in_graph(old(self)@, node),
        ensures
            final(self)@ == old(self)@,
            final(self).spec_ranks() == old(self).spec_ranks(),
            final(self).offsets() == (if old(self).offsets()[node.0 as int] is Some {
                old(self).offsets()
            } else {
                old(self).offsets().update(node.0 as int, Some(offset))
            }),
    {
        proof {
            use_type_invariant(&*self);
        }
        let ghost g = self@;
        if self.nodes[node.index()].layer_offset.is_some() {
            return ;
        }
        let mut held = PrimIndexGraph::default();
        std::mem::swap(self, &mut held);
        let PrimIndexGraph { nodes, ranks } = held;
        let mut nodes = nodes;
        let ghost before = nodes@;
        nodes[node.index()].layer_offset = Some(offset);
        assert(graph_of(nodes@) =~= g);
        assert(offsets_of(nodes@) =~= offsets_of(before).update(node.0 as int, Some(offset)));
        *self = PrimIndexGraph { nodes, ranks };
    }

    // ── Comparing ───────────────────────────────────────────────────────

    fn at(&self, id: NodeId) -> (node: &PrimNode)
        requires
            in_graph(self@, id),
        ensures
            node@ == node_at(self@, id),
    {
        &self.nodes[id.index()]
    }

    /// The nodes from the root down to `id`.
    fn path_to(&self, id: NodeId) -> (path: Vec<NodeId>)
        requires
            shaped(self@),
            in_graph(self@, id),
        ensures
            path@ == ancestry(self@, id),
    {
        let ghost g = self@;
        let mut upward: Vec<NodeId> = Vec::new();
        upward.push(id);
        let mut cursor = id;
        assert(ancestry(g, id) =~= ancestry(g, id).drop_last() + upward@.reverse()) by {
            lemma_ancestry(g, id);
            assert(upward@.reverse() =~= seq![id]);
        }
        loop
            invariant
                g == self@,
                shaped(g),
                in_graph(g, cursor),
                ancestry(g, id) == ancestry(g, cursor).drop_last() + upward@.reverse(),
                ancestry(g, cursor).last() == cursor,
            ensures
                ancestry(g, id) == upward@.reverse(),
            decreases cursor.0,
        {
            assert(node_shaped(g, cursor.0 as int));
            let parent = match self.at(cursor).parent {
                Some(parent) => parent,
                None => {
                    assert(ancestry(g, cursor).drop_last() =~= seq![]);
                    assert(ancestry(g, id) =~= upward@.reverse());
                    break ;
                },
            };
            let ghost before = upward@;
            upward.push(parent);
            proof {
                lemma_ancestry(g, parent);
                assert(upward@.reverse() =~= seq![parent] + before.reverse());
                assert(ancestry(g, cursor).drop_last() =~= ancestry(g, parent));
                assert(ancestry(g, parent) =~= ancestry(g, parent).drop_last().push(parent));
                assert(ancestry(g, id) =~= ancestry(g, parent).drop_last() + upward@.reverse());
            }
            cursor = parent;
        }
        let mut path: Vec<NodeId> = Vec::new();
        let mut i: usize = upward.len();
        while i > 0
            invariant
                i <= upward@.len(),
                path@.len() + i == upward@.len(),
                forall|k: int| 0 <= k < path@.len() ==> path@[k] == upward@.reverse()[k],
            decreases i,
        {
            i = i - 1;
            path.push(upward[i]);
        }
        assert(path@ =~= upward@.reverse());
        path
    }

    /// `true` when two nodes read the same site of the same layer stack.
    fn same_site(&self, a: NodeId, b: NodeId) -> (same: bool)
        requires
            in_graph(self@, a),
            in_graph(self@, b),
        ensures
            same == same_site(self@, a, b),
    {
        let node_a = self.at(a);
        let node_b = self.at(b);
        node_a.arc.layer_stack == node_b.arc.layer_stack && node_a.arc.site.same(&node_b.arc.site)
    }

    /// `true` for a specializes node propagated to the root: a child of the
    /// root at the same site as its origin, the placeholder where its arc is
    /// authored.
    fn is_propagated_specializes(&self, id: NodeId) -> (propagated: bool)
        requires
            shaped(self@),
            in_graph(self@, id),
        ensures
            propagated == is_propagated(self@, id),
    {
        assert(node_shaped(self@, id.0 as int));
        let node = self.at(id);
        match (node.parent, node.origin) {
            (Some(parent), Some(origin)) => node.arc.arc_kind == ArcKind::Specializes && parent
                == NodeId(0) && self.same_site(id, origin),
            _ => false,
        }
    }

    /// The node at the start of `node`'s chain of origins, the authored arc
    /// it comes from, and the number of origins on the way.
    fn origin_root(&self, id: NodeId) -> (out: (NodeId, usize))
        requires
            valid(self@),
            in_graph(self@, id),
        ensures
            out.0 == origin_start(self@, id),
            out.1 == origin_count(self@, id),
    {
        let ghost g = self@;
        let mut cursor = id;
        let mut count: usize = 0;
        proof {
            lemma_origin_bound(g, id);
        }
        loop
            invariant
                g == self@,
                valid(g),
                in_graph(g, cursor),
                origin_start(g, id) == origin_start(g, cursor),
                origin_count(g, id) == count + origin_count(g, cursor),
                origin_count(g, id) <= g.len() <= u32::MAX,
            ensures
                cursor == origin_start(g, id),
                count == origin_count(g, id),
            decreases height(g, cursor),
        {
            proof {
                lemma_height(g, cursor);
            }
            match self.at(cursor).origin {
                Some(origin) => {
                    count = count + 1;
                    cursor = origin;
                },
                None => {
                    break ;
                },
            }
        }
        (cursor, count)
    }

    fn is_beneath(&self, id: NodeId, ancestor: NodeId) -> (beneath: bool)
        requires
            valid(self@),
            in_graph(self@, id),
        ensures
            beneath == is_beneath(self@, id, ancestor),
    {
        let ghost g = self@;
        let mut cursor = id;
        loop
            invariant
                g == self@,
                valid(g),
                in_graph(g, cursor),
                is_beneath(g, id, ancestor) == is_beneath(g, cursor, ancestor),
            decreases height(g, cursor),
        {
            proof {
                lemma_height(g, cursor);
            }
            if cursor == ancestor {
                return true;
            }
            let next = if self.is_propagated_specializes(cursor) {
                self.at(cursor).origin
            } else {
                self.at(cursor).parent
            };
            match next {
                Some(next) => {
                    cursor = next;
                },
                None => {
                    return false;
                },
            }
        }
    }

    /// `true` when one of two nodes lies beneath the other, reading a
    /// propagated specializes node as beneath its placeholder.
    fn nested_origins(&self, a: NodeId, b: NodeId) -> (out: bool)
        requires
            valid(self@),
            in_graph(self@, a),
            in_graph(self@, b),
        ensures
            out == nested(self@, a, b),
    {
        self.is_beneath(a, b) || self.is_beneath(b, a)
    }

    /// How far a node is below the prim its arc is authored on.
    fn depth_below_introduction(&self, id: NodeId) -> (depth: u16)
        requires
            in_graph(self@, id),
        ensures
            depth == depth_below(self@, id),
    {
        let root = self.at(NodeId(0)).arc.namespace_depth;
        let own = self.at(id).arc.namespace_depth;
        if root >= own {
            root - own
        } else {
            0
        }
    }

    fn hop(&self, id: NodeId) -> (out: NodeId)
        requires
            shaped(self@),
            in_graph(self@, id),
        ensures
            out == placeholder(self@, id),
            in_graph(self@, out),
    {
        assert(node_shaped(self@, id.0 as int));
        if self.is_propagated_specializes(id) {
            match self.at(id).origin {
                Some(origin) => origin,
                None => id,
            }
        } else {
            id
        }
    }

    /// The namespace depth of the node that inherits or specializes the
    /// class hierarchy `node` is a member of: `0` for the root, which no arc
    /// introduces.
    fn class_hierarchy_depth(&self, id: NodeId) -> (out: u16)
        requires
            valid(self@),
            in_graph(self@, id),
        ensures
            out == class_depth(self@, id),
    {
        let ghost g = self@;
        let first = self.hop(id);
        let depth = self.depth_below_introduction(first);
        let mut instance = first;
        while self.at(instance).arc.arc_kind == ArcKind::Inherits || self.at(instance).arc.arc_kind
            == ArcKind::Specializes
            invariant_except_break
                class_start(g, first, depth as int) == class_start(g, instance, depth as int),
            invariant
                g == self@,
                valid(g),
                in_graph(g, instance),
                in_graph(g, first),
                depth == depth_below(g, first),
            ensures
                instance == class_start(g, first, depth as int),
            decreases height(g, instance),
        {
            proof {
                lemma_height(g, instance);
            }
            if self.depth_below_introduction(instance) != depth {
                break ;
            }
            match self.at(instance).parent {
                Some(parent) => {
                    proof {
                        lemma_height(g, parent);
                    }
                    instance = self.hop(parent);
                },
                None => {
                    break ;
                },
            }
        }
        if instance == NodeId(0) {
            0
        } else {
            self.at(instance).arc.namespace_depth
        }
    }

    fn compare_implied(&self, a: NodeId, b: NodeId) -> (out: Order)
        requires
            shaped(self@),
            in_graph(self@, a),
            in_graph(self@, b),
        ensures
            out == order_implied(self@, a, b),
    {
        assert(node_shaped(self@, a.0 as int));
        assert(node_shaped(self@, b.0 as int));
        match (self.at(a).origin, self.at(b).origin) {
            (Some(x), Some(y)) => compare_bools(!self.same_site(b, y), !self.same_site(a, x)),
            _ => Order::Equal,
        }
    }

    fn source(&self, id: NodeId) -> (out: Option<NodeId>)
        requires
            in_graph(self@, id),
        ensures
            out == source_of(self@, id),
    {
        let node = self.at(id);
        match node.origin {
            Some(origin) => Some(origin),
            None => node.parent,
        }
    }

    fn hierarchy(&self, id: NodeId) -> (out: u16)
        requires
            valid(self@),
            in_graph(self@, id),
        ensures
            out == hierarchy_depth(self@, id),
    {
        proof {
            lemma_height(self@, id);
        }
        match self.at(id).origin {
            Some(origin) => self.class_hierarchy_depth(origin),
            None => 0,
        }
    }

    /// The nodes at which the ways from the root to two nodes part, and the
    /// order of the lengths of the ways.
    fn part(&self, a: NodeId, b: NodeId) -> (out: (Option<(NodeId, NodeId)>, Order))
        requires
            shaped(self@),
            in_graph(self@, a),
            in_graph(self@, b),
        ensures
            out.0 == parting(self@, a, b),
            out.1 == order_lengths(self@, a, b),
    {
        let path_a = self.path_to(a);
        let path_b = self.path_to(b);
        let mut k: usize = 0;
        while k < path_a.len() && k < path_b.len() && path_a[k] == path_b[k]
            invariant
                k <= path_a@.len(),
                k <= path_b@.len(),
                first_difference(path_a@, path_b@, 0) == first_difference(
                    path_a@,
                    path_b@,
                    k as int,
                ),
            decreases path_a@.len() - k,
        {
            k = k + 1;
        }
        let lengths = compare_usize(path_a.len(), path_b.len());
        if k < path_a.len() && k < path_b.len() {
            (Some((path_a[k], path_b[k])), lengths)
        } else {
            (None, lengths)
        }
    }

    /// Compares two children of one node with "strongest first" ordering:
    /// by arc kind (LIVERPS), then deeper namespace depth, then the strength
    /// of their origins, then their position among the arcs authored beside
    /// them.
    ///
    /// An authored arc's origin is the parent itself, which is stronger than
    /// every node beneath it, so an arc authored at a site outranks a class
    /// implied there from deeper in the graph; implied classes rank by where
    /// their origins sit. The branches of different variant sets at one site
    /// rank by their sets' declared order, which their sibling index carries.
    pub fn compare_siblings(&self, a: NodeId, b: NodeId) -> (out: Order)
        requires
            valid(self@),
            in_graph(self@, a),
            in_graph(self@, b),
        ensures
            out == order_siblings(self@, a, b),
        decreases height(self@, a) + height(self@, b), 1nat,
    {
        proof {
            lemma_sources_lower(self@, a, b);
        }
        let arc_a = &self.at(a).arc;
        let arc_b = &self.at(b).arc;
        let by_kind = compare_u8(arc_a.arc_kind.strength_rank(), arc_b.arc_kind.strength_rank());
        if by_kind != Order::Equal {
            return by_kind;
        }
        let by_index = compare_u16(arc_a.sibling_index, arc_b.sibling_index);
        if arc_a.arc_kind == ArcKind::Specializes {
            return self.compare_specializes(a, b).or(by_index);
        }
        let by_depth = compare_u16(arc_b.namespace_depth, arc_a.namespace_depth);
        if by_depth != Order::Equal {
            return by_depth;
        }
        let by_origin = match (self.source(a), self.source(b)) {
            (Some(x), Some(y)) => {
                if x == y {
                    Order::Equal
                } else {
                    let (parted, lengths) = self.part(x, y);
                    match parted {
                        Some((p, q)) => self.compare_siblings(p, q),
                        None => lengths,
                    }
                }
            },
            _ => Order::Equal,
        };
        by_origin.or(by_index)
    }

    /// Compares two sibling specializes nodes with "strongest first"
    /// ordering, before their positions among the arcs authored beside
    /// them.
    fn compare_specializes(&self, a: NodeId, b: NodeId) -> (out: Order)
        requires
            valid(self@),
            in_graph(self@, a),
            in_graph(self@, b),
        ensures
            out == order_specializes(self@, a, b),
        decreases height(self@, a) + height(self@, b), 0nat,
    {
        proof {
            lemma_sources_lower(self@, a, b);
            lemma_origin_start(self@, a);
            lemma_origin_start(self@, b);
        }
        let (root_a, count_a) = self.origin_root(a);
        let (root_b, count_b) = self.origin_root(b);
        let depth_a = self.at(a).arc.namespace_depth;
        let depth_b = self.at(b).arc.namespace_depth;
        if depth_a != depth_b && !self.nested_origins(root_a, root_b) {
            return compare_u16(depth_b, depth_a);
        }
        match (self.source(a), self.source(b)) {
            (Some(x), Some(y)) => {
                if x == y {
                    return self.compare_implied(a, b);
                }
                proof {
                    lemma_starts_lower(self@, a, b);
                }
                if root_a != root_b {
                    let (parted, lengths) = self.part(root_a, root_b);
                    return match parted {
                        Some((p, q)) => self.compare_siblings(p, q),
                        None => lengths,
                    };
                }
                let by_hierarchy = compare_u16(self.hierarchy(a), self.hierarchy(b));
                let by_count = compare_usize(count_b, count_a);
                let root_stack = self.at(NodeId(0)).arc.layer_stack;
                let by_site = if self.at(a).arc.layer_stack == root_stack && self.at(
                    b,
                ).arc.layer_stack == root_stack {
                    self.compare_implied(a, b)
                } else {
                    Order::Equal
                };
                let (parted, lengths) = self.part(x, y);
                let by_position = match parted {
                    Some((p, q)) => self.compare_siblings(p, q),
                    None => lengths,
                };
                by_hierarchy.or(by_count).or(by_site).or(by_position)
            },
            _ => Order::Equal,
        }
    }

    /// Compares where two nodes sit in the strong-to-weak depth-first walk of
    /// the graph: a node before the nodes beneath it, and the nodes beneath
    /// two siblings in [`Self::compare_siblings`] order.
    pub fn compare_positions(&self, a: NodeId, b: NodeId) -> (out: Order)
        requires
            valid(self@),
            in_graph(self@, a),
            in_graph(self@, b),
        ensures
            out == order_positions(self@, a, b),
    {
        proof {
            lemma_parting(self@, a, b);
        }
        let (parted, lengths) = self.part(a, b);
        match parted {
            Some((p, q)) => self.compare_siblings(p, q),
            None => lengths,
        }
    }
}

/// A chain of origins visits each node at most once.
proof fn lemma_origin_bound(g: Graph, id: NodeId)
    requires
        valid(g),
        in_graph(g, id),
    ensures
        origin_count(g, id) < g.len(),
{
    let chain = origin_chain(g, id);
    lemma_origin_chain(g, id);
    let ids = chain.map_values(|x: NodeId| x.0 as int);
    assert(ids.no_duplicates()) by {
        assert forall|i: int, j: int|
            0 <= i < ids.len() && 0 <= j < ids.len() && i != j implies ids[i] != ids[j] by {
            if i < j {
                assert(height(g, chain[i]) > height(g, chain[j]));
            } else {
                assert(height(g, chain[j]) > height(g, chain[i]));
            }
            if ids[i] == ids[j] {
                assert(chain[i] == chain[j]);
            }
        }
    }
    ids.unique_seq_to_set();
    let range = vstd::set_lib::set_int_range(0, g.len() as int);
    vstd::set_lib::lemma_int_range(0, g.len() as int);
    assert(ids.to_set().subset_of(range)) by {
        assert forall|v: int| ids.to_set().contains(v) implies range.contains(v) by {
            let k = choose|k: int| 0 <= k < ids.len() && ids[k] == v;
            assert(in_graph(g, chain[k]));
        }
    }
    vstd::set_lib::lemma_len_subset(ids.to_set(), range);
}

/// A node and the origins on the way to the start of its chain.
spec fn origin_chain(g: Graph, id: NodeId) -> Seq<NodeId>
    decreases height(g, id),
    when valid(g) && in_graph(g, id)
    via origin_chain_decreases
{
    match node_at(g, id).origin {
        Some(origin) => seq![id] + origin_chain(g, origin),
        None => seq![id],
    }
}

#[via_fn]
proof fn origin_chain_decreases(g: Graph, id: NodeId) {
    lemma_height(g, id);
}

proof fn lemma_origin_chain(g: Graph, id: NodeId)
    requires
        valid(g),
        in_graph(g, id),
    ensures
        origin_chain(g, id).len() == origin_count(g, id) + 1,
        origin_chain(g, id)[0] == id,
        forall|k: int|
            0 <= k < origin_chain(g, id).len() ==> in_graph(g, #[trigger] origin_chain(g, id)[k]),
        forall|i: int, j: int|
            0 <= i < j < origin_chain(g, id).len() ==> height(g, #[trigger] origin_chain(g, id)[i])
                > height(g, #[trigger] origin_chain(g, id)[j]),
    decreases height(g, id),
{
    lemma_height(g, id);
    let chain = origin_chain(g, id);
    match node_at(g, id).origin {
        Some(origin) => {
            lemma_origin_chain(g, origin);
            let rest = origin_chain(g, origin);
            assert forall|k: int| 0 <= k < chain.len() implies in_graph(g, #[trigger] chain[k]) by {
                if k > 0 {
                    assert(chain[k] == rest[k - 1]);
                }
            }
            assert forall|i: int, j: int| 0 <= i < j < chain.len() implies height(
                g,
                #[trigger] chain[i],
            ) > height(g, #[trigger] chain[j]) by {
                assert(chain[j] == rest[j - 1]);
                if i > 0 {
                    assert(chain[i] == rest[i - 1]);
                } else if j > 1 {
                    assert(height(g, rest[0]) > height(g, rest[j - 1]));
                }
            }
        },
        None => {},
    }
}

// ── Ranking ─────────────────────────────────────────────────────────────

/// The ids of a list of groups.
pub open spec fn groups_of(groups: Seq<Vec<NodeId>>) -> Seq<Seq<NodeId>> {
    groups.map_values(|group: Vec<NodeId>| group@)
}

/// What is left to walk: the last group first.
spec fn stack_walk(g: Graph, stack: Seq<(Seq<NodeId>, nat)>) -> Seq<Seq<NodeId>>
    decreases stack.len(),
{
    if stack.len() == 0 {
        seq![]
    } else {
        walk(g, stack.last().0, stack.last().1) + stack_walk(g, stack.drop_last())
    }
}

/// The groups in reverse, so that the first is walked first.
spec fn stacked(groups: Seq<Seq<NodeId>>, depth: nat) -> Seq<(Seq<NodeId>, nat)> {
    Seq::new(groups.len(), |i: int| (groups[groups.len() - 1 - i], depth))
}

proof fn lemma_stack_walk(
    g: Graph,
    stack: Seq<(Seq<NodeId>, nat)>,
    groups: Seq<Seq<NodeId>>,
    depth: nat,
)
    ensures
        stack_walk(g, stack + stacked(groups, depth)) == walk_all(g, groups, depth) + stack_walk(
            g,
            stack,
        ),
    decreases groups.len(),
{
    let all = stack + stacked(groups, depth);
    if groups.len() == 0 {
        assert(all =~= stack);
        assert(walk_all(g, groups, depth) + stack_walk(g, stack) =~= stack_walk(g, stack));
    } else {
        let rest = groups.drop_first();
        lemma_stack_walk(g, stack, rest, depth);
        assert(all.last() == (groups[0], depth));
        assert(all.drop_last() =~= stack + stacked(rest, depth));
        assert(stack_walk(g, all) =~= walk_all(g, groups, depth) + stack_walk(g, stack));
    }
}

/// The groups whose order a stack of groups is the reverse of, below the groups
/// that were on it before.
proof fn lemma_stacked(
    below: Seq<(Seq<NodeId>, nat)>,
    groups: Seq<Seq<NodeId>>,
    depth: nat,
    all: Seq<(Seq<NodeId>, nat)>,
)
    requires
        all.len() == below.len() + groups.len(),
        forall|i: int| 0 <= i < below.len() ==> all[i] == below[i],
        forall|i: int|
            below.len() <= i < all.len() ==> #[trigger] all[i] == (
                groups[groups.len() - 1 - (i - below.len())],
                depth,
            ),
    ensures
        all == below + stacked(groups, depth),
{
    assert(all =~= below + stacked(groups, depth));
}

impl PrimIndexGraph {
    /// Orders sibling nodes strongest first, inserting each, in the order
    /// they were added, before the first sibling already placed that it is
    /// stronger than.
    ///
    /// [`Self::compare_siblings`] is not a total order for specializes nodes
    /// (a namespace depth decides only between origins that do not lie
    /// beneath one another), so this places siblings in turn rather than
    /// sorting.
    fn strength_ordered(&self, siblings: &Vec<NodeId>) -> (out: Vec<NodeId>)
        requires
            valid(self@),
            forall|i: int| 0 <= i < siblings@.len() ==> in_graph(self@, #[trigger] siblings@[i]),
        ensures
            out@ == by_strength(self@, siblings@),
    {
        let ghost g = self@;
        let mut ordered: Vec<NodeId> = Vec::new();
        let mut i: usize = 0;
        assert(siblings@.take(0) =~= seq![]);
        while i < siblings.len()
            invariant
                g == self@,
                valid(g),
                i <= siblings@.len(),
                forall|k: int| 0 <= k < siblings@.len() ==> in_graph(g, #[trigger] siblings@[k]),
                ordered@ == by_strength(g, siblings@.take(i as int)),
            decreases siblings@.len() - i,
        {
            let sibling = siblings[i];
            proof {
                lemma_by_strength(g, siblings@.take(i as int));
                lemma_first_weaker(g, ordered@, sibling, 0);
                assert forall|k: int| 0 <= k < ordered@.len() implies in_graph(
                    g,
                    #[trigger] ordered@[k],
                ) by {
                    assert(ordered@.contains(ordered@[k]));
                    assert(siblings@.take(i as int).contains(ordered@[k]));
                    let j = choose|j: int|
                        0 <= j < siblings@.take(i as int).len() && siblings@.take(i as int)[j]
                            == ordered@[k];
                    assert(siblings@[j] == ordered@[k]);
                }
                assert(siblings@.take(i + 1).drop_last() =~= siblings@.take(i as int));
            }
            let at = self.place(&ordered, sibling);
            ordered.insert(at, sibling);
            i = i + 1;
        }
        assert(siblings@.take(i as int) =~= siblings@);
        ordered
    }

    fn is_stronger(&self, a: NodeId, b: NodeId) -> (out: bool)
        requires
            valid(self@),
            in_graph(self@, a),
            in_graph(self@, b),
        ensures
            out == is_stronger(self@, a, b),
    {
        self.compare_siblings(a, b) == Order::Less
    }

    fn place(&self, ordered: &Vec<NodeId>, sibling: NodeId) -> (at: usize)
        requires
            valid(self@),
            in_graph(self@, sibling),
            forall|i: int| 0 <= i < ordered@.len() ==> in_graph(self@, #[trigger] ordered@[i]),
        ensures
            at == placement(self@, ordered@, sibling),
    {
        let ghost g = self@;
        if ordered.len() == 0 {
            return 0;
        }
        if self.is_stronger(sibling, ordered[0]) {
            return 0;
        }
        if !self.is_stronger(sibling, ordered[ordered.len() - 1]) {
            return ordered.len();
        }
        let mut at: usize = 0;
        while at < ordered.len()
            invariant_except_break
                first_weaker(g, ordered@, sibling, 0) == first_weaker(
                    g,
                    ordered@,
                    sibling,
                    at as int,
                ),
            invariant
                g == self@,
                valid(g),
                in_graph(g, sibling),
                forall|i: int| 0 <= i < ordered@.len() ==> in_graph(g, #[trigger] ordered@[i]),
                at <= ordered@.len(),
            ensures
                at == first_weaker(g, ordered@, sibling, 0),
            decreases ordered@.len() - at,
        {
            if self.is_stronger(sibling, ordered[at]) {
                break ;
            }
            at = at + 1;
        }
        at
    }

    /// The runs of neighbours that compare equal.
    fn equal_runs(&self, ids: &Vec<NodeId>) -> (runs: Vec<Vec<NodeId>>)
        requires
            valid(self@),
            forall|i: int| 0 <= i < ids@.len() ==> in_graph(self@, #[trigger] ids@[i]),
        ensures
            groups_of(runs@) == equal_runs(self@, ids@),
    {
        let ghost g = self@;
        let mut runs: Vec<Vec<NodeId>> = Vec::new();
        let mut i: usize = 0;
        assert(ids@.take(0) =~= seq![]);
        assert(groups_of(runs@) =~= seq![]);
        while i < ids.len()
            invariant
                g == self@,
                valid(g),
                forall|k: int| 0 <= k < ids@.len() ==> in_graph(g, #[trigger] ids@[k]),
                i <= ids@.len(),
                groups_of(runs@) == equal_runs(g, ids@.take(i as int)),
                i > 0 ==> runs@.len() > 0,
            decreases ids@.len() - i,
        {
            let ghost before = runs@;
            assert(ids@.take(i + 1).drop_last() =~= ids@.take(i as int));
            if i > 0 && self.compare_siblings(ids[i - 1], ids[i]) == Order::Equal {
                let last: usize = runs.len() - 1;
                runs[last].push(ids[i]);
                assert(groups_of(runs@) =~= groups_of(before).drop_last().push(
                    groups_of(before).last().push(ids@[i as int]),
                ));
            } else {
                let mut run: Vec<NodeId> = Vec::new();
                run.push(ids[i]);
                assert(run@ =~= seq![ids@[i as int]]);
                runs.push(run);
                assert(groups_of(runs@) =~= groups_of(before).push(seq![ids@[i as int]]));
            }
            i = i + 1;
        }
        assert(ids@.take(i as int) =~= ids@);
        runs
    }

    /// The children of a group of nodes.
    fn children_of(&self, group: &Vec<NodeId>) -> (out: Vec<NodeId>)
        requires
            forall|i: int| 0 <= i < group@.len() ==> in_graph(self@, #[trigger] group@[i]),
        ensures
            out@ == children_of(self@, group@),
    {
        let mut out: Vec<NodeId> = Vec::new();
        let mut i: usize = 0;
        assert(group@.take(0) =~= seq![]);
        while i < group.len()
            invariant
                forall|k: int| 0 <= k < group@.len() ==> in_graph(self@, #[trigger] group@[k]),
                i <= group@.len(),
                out@ == children_of(self@, group@.take(i as int)),
            decreases group@.len() - i,
        {
            let ghost before = out@;
            let children = self.at(group[i]).children();
            let mut k: usize = 0;
            while k < children.len()
                invariant
                    k <= children@.len(),
                    out@ == before + children@.take(k as int),
                decreases children@.len() - k,
            {
                out.push(children[k]);
                k = k + 1;
                assert(out@ =~= before + children@.take(k as int));
            }
            assert(children@.take(k as int) =~= children@);
            assert(group@.take(i + 1).drop_last() =~= group@.take(i as int));
            i = i + 1;
        }
        assert(group@.take(i as int) =~= group@);
        out
    }

    /// The rank of every node in the strength walk (see [`Self::rank`]).
    fn walk_ranks(&self) -> (ranks: Vec<u32>)
        requires
            valid(self@),
        ensures
            ranked(self@, ranks@),
    {
        let ghost g = self@;
        let ghost all = strength_groups(g);
        proof {
            law_every_node_has_one_rank(g);
        }
        let mut ranks: Vec<u32> = Vec::new();
        while ranks.len() < self.nodes.len()
            invariant
                ranks@.len() <= self.nodes@.len(),
            decreases self.nodes@.len() - ranks@.len(),
        {
            ranks.push(0);
        }
        let mut next: u32 = 0;
        let mut stack: Vec<Vec<NodeId>> = Vec::new();
        let ghost mut pending: Seq<(Seq<NodeId>, nat)> = seq![];
        if self.nodes.len() > 0 {
            let mut group: Vec<NodeId> = Vec::new();
            group.push(NodeId(0));
            stack.push(group);
            proof {
                assert(group@ =~= seq![NodeId(0)]);
                pending = seq![(seq![NodeId(0)], 0nat)];
                let none: Seq<(Seq<NodeId>, nat)> = seq![];
                assert(pending.drop_last() =~= none);
                assert(stack_walk(g, none) =~= seq![]);
                assert(stack_walk(g, pending) =~= all);
                assert(node_shaped(g, 0));
                let root = seq![NodeId(0)];
                assert(in_graph(g, root[0]) && ancestry(g, root[0]).len() == 1);
                assert(good_group(g, root, 0));
            }
        }
        assert(all.skip(0) =~= all);
        while stack.len() > 0
            invariant
                g == self@,
                valid(g),
                all == strength_groups(g),
                distinct(all),
                forall|x: NodeId|
                    #![trigger holds_id(all, x)]
                    #![trigger in_graph(g, x)]
                    holds_id(all, x) <==> in_graph(g, x),
                all.len() <= g.len() <= u32::MAX,
                ranks@.len() == g.len(),
                pending.len() == stack@.len(),
                forall|i: int|
                    0 <= i < pending.len() ==> (#[trigger] pending[i]).0 == stack@[i]@
                        && good_group(g, pending[i].0, pending[i].1),
                next <= all.len(),
                stack_walk(g, pending) == all.skip(next as int),
                forall|k: int, j: int|
                    0 <= k < next && 0 <= j < all[k].len() ==> ranks@[(
                    #[trigger] all[k][j]).0 as int] == k,
            decreases all.len() - next,
        {
            let ghost top = pending.last();
            let ghost below = pending.drop_last();
            assert(pending[pending.len() - 1] == top);
            let group = stack.pop().unwrap();
            proof {
                assert(good_group(g, top.0, top.1));
                lemma_walk(g, top.0, top.1);
                assert(stack_walk(g, pending).len() > 0);
                assert(stack_walk(g, pending)[0] == top.0);
                lemma_child_groups(g, top.0, top.1);
                assert(all.skip(next as int)[0] == top.0);
                assert(all[next as int] == group@);
                assert forall|i: int| 0 <= i < below.len() implies (#[trigger] below[i]).0
                    == stack@[i]@ && good_group(g, below[i].0, below[i].1) by {
                    assert(below[i] == pending[i]);
                }
            }
            let ghost before = ranks@;
            let mut i: usize = 0;
            while i < group.len()
                invariant
                    good_group(g, group@, top.1),
                    i <= group@.len(),
                    ranks@.len() == g.len(),
                    next < all.len(),
                    all[next as int] == group@,
                    distinct(all),
                    forall|x: NodeId|
                        #![trigger holds_id(all, x)]
                        #![trigger in_graph(g, x)]
                        holds_id(all, x) <==> in_graph(g, x),
                    forall|j: int| 0 <= j < i ==> ranks@[(#[trigger] group@[j]).0 as int] == next,
                    forall|k: int, j: int|
                        0 <= k < next && 0 <= j < all[k].len() ==> ranks@[(
                        #[trigger] all[k][j]).0 as int] == k,
                decreases group@.len() - i,
            {
                let id = group[i];
                assert(in_graph(g, group@[i as int]));
                let ghost earlier = ranks@;
                ranks.set(id.index(), next);
                proof {
                    assert forall|k: int, j: int| 0 <= k < next && 0 <= j < all[k].len() implies
                        ranks@[(#[trigger] all[k][j]).0 as int] == k by {
                        assert(all[k].contains(all[k][j]));
                        assert(holds_id(all, all[k][j]));
                        assert(earlier[all[k][j].0 as int] == k);
                        if all[k][j] == id {
                            assert(all[k].contains(id));
                            assert(all[next as int].contains(group@[i as int]));
                            assert(false);
                        }
                    }
                    assert forall|j: int| 0 <= j < i + 1 implies ranks@[(
                    #[trigger] group@[j]).0 as int] == next by {
                        assert(in_graph(g, group@[j]));
                        if j < i {
                            assert(earlier[group@[j].0 as int] == next);
                        }
                    }
                }
                i = i + 1;
            }
            assert forall|k: int, j: int| 0 <= k < next + 1 && 0 <= j < all[k].len() implies ranks@[
            (#[trigger] all[k][j]).0 as int] == k by {
                if k == next {
                    assert(all[k][j] == group@[j]);
                }
            }
            let children = self.children_of(&group);
            proof {
                lemma_children_of(g, group@, top.1);
                assert forall|k: int| 0 <= k < children@.len() implies in_graph(
                    g,
                    #[trigger] children@[k],
                ) by {
                    assert(children@.contains(children@[k]));
                }
                lemma_by_strength(g, children@);
            }
            let ordered = self.strength_ordered(&children);
            proof {
                assert forall|k: int| 0 <= k < ordered@.len() implies in_graph(
                    g,
                    #[trigger] ordered@[k],
                ) by {
                    assert(ordered@.contains(ordered@[k]));
                }
            }
            let mut groups = self.equal_runs(&ordered);
            let ghost runs = groups_of(groups@);
            let ghost depth = top.1 + 1;
            let ghost rest = stack@;
            assert(runs == child_groups(g, group@));
            proof {
                pending = below;
            }
            while groups.len() > 0
                invariant
                    groups@.len() <= runs.len(),
                    forall|k: int| 0 <= k < groups@.len() ==> groups@[k]@ == #[trigger] runs[k],
                    forall|k: int|
                        0 <= k < runs.len() ==> good_group(g, #[trigger] runs[k], depth),
                    pending.len() == stack@.len(),
                    pending.len() == below.len() + (runs.len() - groups@.len()),
                    forall|i: int| 0 <= i < below.len() ==> pending[i] == below[i],
                    forall|i: int|
                        below.len() <= i < pending.len() ==> #[trigger] pending[i] == (
                            runs[runs.len() - 1 - (i - below.len())],
                            depth,
                        ),
                    forall|i: int|
                        0 <= i < pending.len() ==> (#[trigger] pending[i]).0 == stack@[i]@
                            && good_group(g, pending[i].0, pending[i].1),
                decreases groups@.len(),
            {
                let ghost at = groups@.len() - 1;
                assert(groups@[at]@ == runs[at]);
                match groups.pop() {
                    Some(run) => {
                        stack.push(run);
                        proof {
                            pending = pending.push((runs[at], depth));
                        }
                    },
                    None => {},
                }
            }
            proof {
                lemma_stacked(below, runs, depth, pending);
                lemma_stack_walk(g, below, runs, depth);
                let left = all.skip(next as int);
                assert(left =~= (seq![group@] + walk_all(g, runs, depth)) + stack_walk(g, below));
                assert(all.skip(next + 1) =~= left.drop_first());
                assert(all.skip(next + 1) =~= walk_all(g, runs, depth) + stack_walk(g, below));
            }
            next = next + 1;
        }
        assert(pending.len() == 0);
        assert(stack_walk(g, pending).len() == 0);
        assert(next == all.len());
        ranks
    }

    /// Ranks every node by a strong-to-weak depth-first walk of the graph.
    ///
    /// A node ranks above every node beneath it, and each node's children
    /// rank in [`Self::compare_siblings`] order, so the nodes beneath a child
    /// rank before that child's weaker siblings. Siblings that compare equal
    /// share a rank, and their children are walked as one sibling set.
    ///
    /// Composition calls this once the graph is complete, and before
    /// comparing opinions while it still adds nodes.
    pub fn rank(&mut self)
        requires
            valid(old(self)@),
        ensures
            final(self)@ == old(self)@,
            final(self).offsets() == old(self).offsets(),
            final(self).is_ranked(),
            ranked(final(self)@, final(self).spec_ranks()),
    {
        proof {
            use_type_invariant(&*self);
        }
        if self.ranks.len() != self.nodes.len() {
            let ranks = self.walk_ranks();
            self.ranks = ranks;
        }
    }
}

// ── Reading ─────────────────────────────────────────────────────────────

/// Whether `a` comes before `b` in strength order: the stronger rank first,
/// ties in the order nodes were added.
pub open spec fn ranks_before(ranks: Seq<u32>, a: NodeId, b: NodeId) -> bool {
    ranks[a.0 as int] < ranks[b.0 as int] || ranks[a.0 as int] == ranks[b.0 as int] && a.0 < b.0
}

/// Whether a node has a rank.
pub open spec fn has_rank(ranks: Seq<u32>, id: NodeId) -> bool {
    id.0 < ranks.len()
}

/// What is left to visit: the last node first.
spec fn stack_preorder(g: Graph, stack: Seq<NodeId>) -> Seq<NodeId>
    decreases stack.len(),
{
    if stack.len() == 0 {
        seq![]
    } else {
        preorder(g, stack.last()) + stack_preorder(g, stack.drop_last())
    }
}

proof fn lemma_stack_preorder(g: Graph, stack: Seq<NodeId>, ids: Seq<NodeId>, above: NodeId)
    requires
        forall|k: int| 0 <= k < ids.len() ==> above.0 < (#[trigger] ids[k]).0 < g.len(),
    ensures
        stack_preorder(g, stack + ids.reverse()) == preorder_all(g, ids, above) + stack_preorder(
            g,
            stack,
        ),
    decreases ids.len(),
{
    let all = stack + ids.reverse();
    if ids.len() == 0 {
        assert(all =~= stack);
        assert(preorder_all(g, ids, above) + stack_preorder(g, stack) =~= stack_preorder(
            g,
            stack,
        ));
    } else {
        let rest = ids.drop_first();
        assert forall|k: int| 0 <= k < rest.len() implies above.0 < (#[trigger] rest[k]).0
            < g.len() by {
            assert(rest[k] == ids[k + 1]);
        }
        lemma_stack_preorder(g, stack, rest, above);
        assert(all.last() == ids[0]);
        assert(all.drop_last() =~= stack + rest.reverse());
        assert(stack_preorder(g, all) =~= preorder_all(g, ids, above) + stack_preorder(g, stack));
    }
}

impl PrimIndexGraph {
    /// The node behind an id.
    pub closed spec fn spec_node(&self, id: NodeId) -> PrimNode {
        self.nodes@[id.0 as int]
    }

    /// Compares two nodes' opinions with "strongest first" ordering: by
    /// their rank in the strength walk.
    pub fn compare_nodes(&self, a: NodeId, b: NodeId) -> (out: Order)
        requires
            self.is_ranked(),
            in_graph(self@, a),
            in_graph(self@, b),
        ensures
            out == order_int(
                self.spec_ranks()[a.0 as int] as int,
                self.spec_ranks()[b.0 as int] as int,
            ),
            ranked(self@, self.spec_ranks()),
    {
        proof {
            use_type_invariant(self);
        }
        compare_u32(self.ranks[a.index()], self.ranks[b.index()])
    }

    /// Compares two opinions of this prim with "strongest first" ordering:
    /// by their nodes ([`Self::compare_nodes`]), then by layer strength within
    /// the layer stack, then by stable ids.
    pub fn compare_keys(&self, a: &OpinionKey, b: &OpinionKey) -> (out: Order)
        requires
            self.is_ranked(),
            in_graph(self@, a.node),
            in_graph(self@, b.node),
        ensures
            out == order_keys(self.spec_ranks(), a.view(), b.view()),
            ranked(self@, self.spec_ranks()),
    {
        proof {
            use_type_invariant(self);
        }
        compare_keys_by(&self.ranks, a, b)
    }

    /// Sorts `keys` strongest first, as [`Self::compare_keys`] orders them,
    /// whether or not the graph is ranked.
    pub fn sort_keys(&self, keys: &mut Vec<OpinionKey>)
        requires
            valid(self@),
            forall|i: int|
                0 <= i < old(keys)@.len() ==> in_graph(self@, (#[trigger] old(keys)@[i]).node),
        ensures
            forall|ranks: Seq<u32>| #[trigger]
                ranked(self@, ranks) ==> final(keys)@ == stable_sorted(
                    old(keys)@,
                    stronger_key(ranks),
                ),
    {
        proof {
            use_type_invariant(self);
        }
        let ranks = if self.ranks.len() == self.nodes.len() {
            let ranks = self.ranks.clone();
            assert(ranks@ =~= self.ranks@);
            ranks
        } else {
            self.walk_ranks()
        };
        let ghost before = keys@;
        let stronger = |a: &OpinionKey, b: &OpinionKey| -> (first: bool)
            requires
                has_rank(ranks@, a.node),
                has_rank(ranks@, b.node),
            ensures
                first == (order_keys(ranks@, a.view(), b.view()) == Order::Less),
        {
            compare_keys_by(&ranks, a, b) == Order::Less
        };
        sort_stable(keys, stronger, Ghost(stronger_key(ranks@)));
        proof {
            assert forall|other: Seq<u32>| #[trigger] ranked(self@, other) implies keys@
                == stable_sorted(before, stronger_key(other)) by {
                lemma_ranks_unique(self@, ranks@, other);
            }
        }
    }

    /// The root node, the composed prim's own site; `None` only for an empty
    /// graph.
    #[must_use]
    pub fn root(&self) -> (root: Option<NodeId>)
        ensures
            root == (if self@.len() > 0 {
                Some(NodeId(0))
            } else {
                None
            }),
    {
        if self.nodes.len() > 0 {
            Some(NodeId(0))
        } else {
            None
        }
    }

    /// Returns the node `id`, if it is a node of this graph.
    #[must_use]
    pub fn node(&self, id: NodeId) -> (node: Option<&PrimNode>)
        ensures
            node is Some <==> in_graph(self@, id),
            node is Some ==> {
                &&& *node->0 == self.spec_node(id)
                &&& node->0@ == node_at(self@, id)
                &&& node->0.recorded_offset() == self.offsets()[id.0 as int]
            },
    {
        if id.index() < self.nodes.len() {
            Some(&self.nodes[id.index()])
        } else {
            None
        }
    }

    /// Returns the number of nodes.
    #[must_use]
    pub fn len(&self) -> (len: usize)
        ensures
            len == self@.len(),
            self.offsets().len() == len,
            shaped(self@),
            self.is_ranked() ==> valid(self@) && ranked(self@, self.spec_ranks()),
    {
        proof {
            use_type_invariant(self);
        }
        self.nodes.len()
    }

    /// Returns `true` when the graph has no nodes.
    #[must_use]
    pub fn is_empty(&self) -> (empty: bool)
        ensures
            empty == (self@.len() == 0),
    {
        self.nodes.len() == 0
    }

    /// Every node with its id, in the order nodes were added.
    pub fn nodes(&self) -> (list: Vec<(NodeId, &PrimNode)>)
        ensures
            list@.len() == self@.len(),
            forall|i: int|
                0 <= i < list@.len() ==> (#[trigger] list@[i]).0.0 == i && *list@[i].1
                    == self.spec_node(list@[i].0) && list@[i].1@ == self@[i],
    {
        proof {
            use_type_invariant(self);
        }
        let mut list: Vec<(NodeId, &PrimNode)> = Vec::new();
        let mut i: usize = 0;
        while i < self.nodes.len()
            invariant
                i <= self.nodes@.len(),
                self.nodes@.len() == self@.len() <= u32::MAX,
                list@.len() == i,
                forall|k: int|
                    0 <= k < i ==> (#[trigger] list@[k]).0.0 == k && *list@[k].1
                        == self.spec_node(list@[k].0) && list@[k].1@ == self@[k],
            decreases self.nodes@.len() - i,
        {
            list.push((NodeId::from_index(i), &self.nodes[i]));
            i = i + 1;
        }
        list
    }

    /// Returns every node in the order the prim's opinions are ranked:
    /// strongest first, ties in the order nodes were added.
    ///
    /// Opinions of nodes that rank equal interleave by layer strength.
    #[must_use]
    pub fn strength_order(&self) -> (order: Vec<NodeId>)
        requires
            self.is_ranked(),
        ensures
            order@.len() == self@.len(),
            order@.no_duplicates(),
            forall|x: NodeId|
                #![trigger order@.contains(x)]
                #![trigger in_graph(self@, x)]
                order@.contains(x) <==> in_graph(self@, x),
            forall|i: int, j: int|
                0 <= i < j < order@.len() ==> ranks_before(
                    self.spec_ranks(),
                    #[trigger] order@[i],
                    #[trigger] order@[j],
                ),
            ranked(self@, self.spec_ranks()),
    {
        proof {
            use_type_invariant(self);
        }
        let ghost ranks = self.ranks@;
        let mut order: Vec<NodeId> = Vec::new();
        let mut i: usize = 0;
        while i < self.nodes.len()
            invariant
                i <= self.nodes@.len(),
                self.nodes@.len() == self@.len() <= u32::MAX,
                order@.len() == i,
                forall|k: int| 0 <= k < i ==> (#[trigger] order@[k]).0 == k,
            decreases self.nodes@.len() - i,
        {
            order.push(NodeId::from_index(i));
            i = i + 1;
        }
        let ghost added = order@;
        let ghost earlier = |a: NodeId, b: NodeId| ranks_before(ranks, a, b);
        let comes_first = |a: &NodeId, b: &NodeId| -> (first: bool)
            requires
                has_rank(self.ranks@, *a),
                has_rank(self.ranks@, *b),
            ensures
                first == ranks_before(self.ranks@, *a, *b),
        {
            let x: u32 = self.ranks[a.index()];
            let y: u32 = self.ranks[b.index()];
            x < y || x == y && a.0 < b.0
        };
        sort_stable(&mut order, comes_first, Ghost(earlier));
        proof {
            assert(added.no_duplicates());
            lemma_stable_sorted(added, earlier);
            assert(is_order(earlier));
            law_sorting_sorts(added, earlier);
            assert forall|x: NodeId|
                #![trigger order@.contains(x)]
                #![trigger in_graph(self@, x)]
                order@.contains(x) <==> in_graph(self@, x) by {
                if in_graph(self@, x) {
                    assert(added[x.0 as int] == x);
                    assert(added.contains(x));
                }
                if order@.contains(x) {
                    assert(added.contains(x));
                }
            }
            assert forall|a: int, b: int| 0 <= a < b < order@.len() implies ranks_before(
                ranks,
                #[trigger] order@[a],
                #[trigger] order@[b],
            ) by {
                assert(!earlier(order@[b], order@[a]));
                assert(order@[a] != order@[b]);
            }
        }
        order
    }

    /// Returns every node in depth-first preorder from the root, each node's
    /// children strongest first.
    ///
    /// This is [`Self::strength_order`], except that the nodes beneath
    /// siblings that rank equal are visited one sibling after the other
    /// rather than interleaved.
    #[must_use]
    pub fn depth_first(&self) -> (order: Vec<NodeId>)
        requires
            valid(self@),
        ensures
            order@ == (if self@.len() > 0 {
                preorder(self@, NodeId(0))
            } else {
                seq![]
            }),
    {
        let ghost g = self@;
        let ghost all = if g.len() > 0 {
            preorder(g, NodeId(0))
        } else {
            seq![]
        };
        let mut order: Vec<NodeId> = Vec::new();
        let mut stack: Vec<NodeId> = Vec::new();
        if self.nodes.len() > 0 {
            stack.push(NodeId(0));
            proof {
                assert(stack@.drop_last() =~= seq![]);
                assert(stack_preorder(g, Seq::<NodeId>::empty()) =~= seq![]);
                assert(stack_preorder(g, stack@) =~= all);
            }
        }
        assert(order@ + stack_preorder(g, stack@) =~= all);
        while stack.len() > 0
            invariant
                g == self@,
                valid(g),
                forall|i: int| 0 <= i < stack@.len() ==> in_graph(g, #[trigger] stack@[i]),
                order@ + stack_preorder(g, stack@) == all,
            decreases all.len() - order@.len(),
        {
            let ghost before = stack@;
            let ghost visited = order@;
            assert(in_graph(g, stack@[stack@.len() - 1]));
            let id = stack.pop().unwrap();
            assert(stack_preorder(g, before).len() > 0);
            let ghost below = stack@;
            order.push(id);
            assert(node_shaped(g, id.0 as int));
            let ghost kids = node_at(g, id).children;
            assert forall|k: int| 0 <= k < kids.len() implies in_graph(g, #[trigger] kids[k]) by {
                assert(id.0 < kids[k].0 < g.len());
            }
            let mut children = self.strength_ordered(self.at(id).children());
            let ghost ordered = children@;
            proof {
                lemma_by_strength(g, kids);
                assert forall|k: int| 0 <= k < ordered.len() implies id.0 < (
                #[trigger] ordered[k]).0 < g.len() by {
                    assert(ordered.contains(ordered[k]));
                    let j = choose|j: int| 0 <= j < kids.len() && kids[j] == ordered[k];
                    assert(id.0 < kids[j].0 < g.len());
                }
            }
            while children.len() > 0
                invariant
                    children@.len() <= ordered.len(),
                    children@ == ordered.take(children@.len() as int),
                    forall|k: int|
                        0 <= k < ordered.len() ==> id.0 < (#[trigger] ordered[k]).0 < g.len(),
                    forall|i: int| 0 <= i < stack@.len() ==> in_graph(g, #[trigger] stack@[i]),
                    stack@ == below + ordered.skip(children@.len() as int).reverse(),
                decreases children@.len(),
            {
                let ghost n = children@.len() - 1;
                let child = children.pop().unwrap();
                assert(child == ordered[n]);
                stack.push(child);
                assert(children@ =~= ordered.take(n));
                assert(stack@ =~= below + ordered.skip(n).reverse());
            }
            proof {
                assert(ordered.skip(0) =~= ordered);
                lemma_stack_preorder(g, below, ordered, id);
                assert(order@ + stack_preorder(g, stack@) =~= visited + stack_preorder(g, before));
            }
        }
        assert(stack_preorder(g, stack@) =~= seq![]);
        assert(order@ =~= all);
        order
    }

    /// The nodes from beneath the root down to `node`, outermost first:
    /// the arc path of `node`, empty for the root.
    pub fn arc_path(&self, node: NodeId) -> (path: Vec<&PrimNode>)
        requires
            in_graph(self@, node),
        ensures
            path@.len() == ancestry(self@, node).len() - 1,
            forall|i: int|
                0 <= i < path@.len() ==> (#[trigger] path@[i])@ == node_at(
                    self@,
                    ancestry(self@, node)[i + 1],
                ),
    {
        proof {
            use_type_invariant(self);
            lemma_ancestry(self@, node);
        }
        let ids = self.path_to(node);
        let mut path: Vec<&PrimNode> = Vec::new();
        let mut i: usize = 1;
        while i < ids.len()
            invariant
                1 <= i <= ids@.len(),
                ids@ == ancestry(self@, node),
                forall|k: int| 0 <= k < ids@.len() ==> in_graph(self@, #[trigger] ids@[k]),
                path@.len() == i - 1,
                forall|k: int|
                    0 <= k < path@.len() ==> (#[trigger] path@[k])@ == node_at(
                        self@,
                        ids@[k + 1],
                    ),
            decreases ids@.len() - i,
        {
            path.push(self.at(ids[i]));
            i = i + 1;
        }
        path
    }

    /// `true` when `b` lies beneath a class implied from a node whose subtree
    /// holds `a`, outside that subtree's variant branches: `a` is then added
    /// to the prim index before `b`.
    ///
    /// A class node is added with the recursive index of its site, every
    /// arc but the variant branches at once, and its implied class is added
    /// after it: so every node of the origin's subtree outside a variant
    /// branch comes before the implied class and all beneath it. This holds
    /// through a chain of origins, as each implied class comes after its own
    /// origin's subtree.
#[verifier::rlimit(60)]
    pub fn implied_after(&self, a: NodeId, b: NodeId) -> (after: bool)
        requires
            in_graph(self@, a),
            in_graph(self@, b),
        ensures
            after == comes_implied_after(self@, a, b),
    {
        proof {
            use_type_invariant(self);
            lemma_ancestry(self@, a);
        }
        let ghost g = self@;
        let holders = self.holders(a);
        let mut pending: Vec<NodeId> = Vec::new();
        pending.push(b);
        let mut seen: Vec<NodeId> = Vec::new();
        let ghost mut done: Seq<NodeId> = seq![];
        assert(pending@[0] == b);
        assert(searching(g, b, holders@, pending@, seen@, done));
        while pending.len() > 0
            invariant
                g == self@,
                shaped(g),
                in_graph(g, a),
                in_graph(g, b),
                forall|x: NodeId| #[trigger]
                    holders@.contains(x) <==> holds_outside_variants(g, x, a),
                searching(g, b, holders@, pending@, seen@, done),
            decreases g.len() - seen@.len(), pending@.len(),
        {
            let last: usize = pending.len() - 1;
            let node = pending[last];
            let ghost known = seen@;
            let ghost waiting = pending@;
            proof {
                lemma_ids_bound(g, seen@);
                assert(pending@.contains(pending@[last as int]));
            }
            let origins = self.implied_origins(node);
            let mut k: usize = 0;
            while k < origins.len()
                invariant
                    g == self@,
                    shaped(g),
                    in_graph(g, a),
                    in_graph(g, b),
                    in_graph(g, node),
                    node == b || implied_from(g, b, node),
                    last < pending@.len(),
                    pending@[last as int] == node,
                    k <= origins@.len(),
                    forall|x: NodeId| #[trigger] origins@.contains(x) <==> implies_from(g, node, x),
                    forall|x: NodeId| #[trigger]
                        holders@.contains(x) <==> holds_outside_variants(g, x, a),
                    searching(g, b, holders@, pending@, seen@, done),
                    seen@.len() >= known.len(),
                    seen@.len() == known.len() ==> pending@ == waiting,
                    forall|i: int| 0 <= i < k ==> seen@.contains(#[trigger] origins@[i]),
                decreases origins@.len() - k,
            {
                let origin = origins[k];
                proof {
                    assert(origins@.contains(origins@[k as int]));
                    lemma_implies_in_graph(g, node, origin);
                    lemma_implied_step(g, b, node, origin);
                }
                if !contains_id(&seen, origin) {
                    if contains_id(&holders, origin) {
                        assert(holds_outside_variants(g, origin, a));
                        return true;
                    }
                    proof {
                        lemma_search_adds(g, b, holders@, pending@, seen@, done, origin);
                        lemma_push_contains(seen@, origin);
                    }
                    seen.push(origin);
                    pending.push(origin);
                }
                k = k + 1;
            }
            proof {
                lemma_ids_bound(g, seen@);
                assert forall|x: NodeId| implies_from(g, node, x) implies #[trigger] seen@.contains(
                    x,
                ) by {
                    assert(origins@.contains(x));
                    let i = choose|i: int| 0 <= i < origins@.len() && origins@[i] == x;
                    assert(seen@.contains(origins@[i]));
                }
                lemma_search_finishes(g, b, holders@, pending@, seen@, done, last as int);
                done = done.push(node);
            }
            pending.remove(last);
        }
        proof {
            if comes_implied_after(g, a, b) {
                let o = choose|o: NodeId| #[trigger]
                    implied_from(g, b, o) && holds_outside_variants(g, o, a);
                let chain = choose|chain: Seq<NodeId>| #[trigger]
                    is_implied_chain(g, chain) && chain.len() > 1 && chain[0] == b && chain.last()
                        == o;
                assert(done.contains(b));
                assert forall|y: NodeId, z: NodeId|
                    seen@.contains(y) && #[trigger] implies_from(g, y, z) implies seen@.contains(
                    z,
                ) by {
                    assert(done.contains(y));
                }
                lemma_implied_closed(g, b, seen@, chain, chain.len() - 1);
                let i = choose|i: int| 0 <= i < seen@.len() && seen@[i] == o;
                assert(!holders@.contains(seen@[i]));
            }
        }
        false
    }

    /// The origins of the classes implied at or above a node.
    fn implied_origins(&self, id: NodeId) -> (out: Vec<NodeId>)
        requires
            shaped(self@),
            in_graph(self@, id),
        ensures
            forall|x: NodeId| #[trigger] out@.contains(x) <==> implies_from(self@, id, x),
    {
        let ghost g = self@;
        let path = self.path_to(id);
        proof {
            lemma_ancestry(g, id);
        }
        let mut out: Vec<NodeId> = Vec::new();
        let mut k: usize = 0;
        while k < path.len()
            invariant
                g == self@,
                path@ == ancestry(g, id),
                forall|i: int| 0 <= i < path@.len() ==> in_graph(g, #[trigger] path@[i]),
                k <= path@.len(),
                forall|x: NodeId| #[trigger] out@.contains(x) ==> implies_from(g, id, x),
                forall|i: int|
                    0 <= i < k && (#[trigger] node_at(g, path@[i])).arc.implied && node_at(
                        g,
                        path@[i],
                    ).origin is Some ==> out@.contains(node_at(g, path@[i]).origin->0),
            decreases path@.len() - k,
        {
            let entry = self.at(path[k]);
            let ghost before = out@;
            if entry.arc.implied {
                if let Some(origin) = entry.origin {
                    out.push(origin);
                    proof {
                        lemma_push_contains(before, origin);
                        assert(node_at(g, ancestry(g, id)[k as int]).arc.implied);
                        assert(implies_from(g, id, origin));
                        assert forall|x: NodeId| #[trigger] out@.contains(x) implies implies_from(
                            g,
                            id,
                            x,
                        ) by {
                            if x != origin {
                                assert(before.contains(x));
                            }
                        }
                    }
                }
            }
            k = k + 1;
        }
        proof {
            assert forall|x: NodeId| #[trigger] out@.contains(x) <==> implies_from(g, id, x) by {
                if implies_from(g, id, x) {
                    let i = choose|i: int|
                        0 <= i < ancestry(g, id).len() && #[trigger] node_at(
                            g,
                            ancestry(g, id)[i],
                        ).arc.implied && node_at(g, ancestry(g, id)[i]).origin == Some(x);
                    assert(node_at(g, path@[i]).arc.implied);
                }
            }
        }
        out
    }

    /// `a` and its ancestors up to the first variant branch: the nodes whose
    /// recursive index adds `a`.
    fn holders(&self, a: NodeId) -> (out: Vec<NodeId>)
        requires
            shaped(self@),
            in_graph(self@, a),
        ensures
            forall|x: NodeId| #[trigger] out@.contains(x) <==> holds_outside_variants(self@, x, a),
    {
        let ghost g = self@;
        let path = self.path_to(a);
        proof {
            lemma_ancestry(g, a);
        }
        let mut out: Vec<NodeId> = Vec::new();
        let mut i: usize = path.len();
        while i > 0
            invariant_except_break
                forall|j: int|
                    i <= j < path@.len() ==> node_at(g, #[trigger] path@[j]).arc.arc_kind
                        != ArcKind::Variants,
            invariant
                g == self@,
                path@ == ancestry(g, a),
                forall|k: int| 0 <= k < path@.len() ==> in_graph(g, #[trigger] path@[k]),
                i <= path@.len(),
                forall|x: NodeId| #[trigger]
                    out@.contains(x) <==> exists|k: int|
                        i <= k < path@.len() && #[trigger] path@[k] == x,
                forall|j: int|
                    i < j < path@.len() ==> node_at(g, #[trigger] path@[j]).arc.arc_kind
                        != ArcKind::Variants,
            ensures
                i == 0 || node_at(g, path@[i as int]).arc.arc_kind == ArcKind::Variants && i
                    < path@.len(),
            decreases i,
        {
            i = i - 1;
            let id = path[i];
            let ghost before = out@;
            out.push(id);
            proof {
                assert forall|x: NodeId| #[trigger] out@.contains(x) <==> exists|k: int|
                    i <= k < path@.len() && #[trigger] path@[k] == x by {
                    if out@.contains(x) {
                        let j = choose|j: int| 0 <= j < out@.len() && out@[j] == x;
                        if j < before.len() {
                            assert(before[j] == x);
                            assert(before.contains(x));
                        } else {
                            assert(path@[i as int] == x);
                        }
                    }
                    if exists|k: int| i <= k < path@.len() && #[trigger] path@[k] == x {
                        let k = choose|k: int| i <= k < path@.len() && #[trigger] path@[k] == x;
                        if k == i {
                            assert(out@[before.len() as int] == x);
                        } else {
                            assert(before.contains(x));
                            let j = choose|j: int| 0 <= j < before.len() && before[j] == x;
                            assert(out@[j] == x);
                        }
                    }
                }
            }
            if self.at(id).arc.arc_kind == ArcKind::Variants {
                break ;
            }
        }
        proof {
            assert forall|x: NodeId| #[trigger] out@.contains(x) <==> holds_outside_variants(
                g,
                x,
                a,
            ) by {
                if holds_outside_variants(g, x, a) {
                    let k = choose|k: int|
                        0 <= k < path@.len() && #[trigger] path@[k] == x && forall|j: int|
                            k < j < path@.len() ==> node_at(g, #[trigger] path@[j]).arc.arc_kind
                                != ArcKind::Variants;
                    if k < i {
                        assert(node_at(g, path@[i as int]).arc.arc_kind != ArcKind::Variants);
                    }
                    assert(path@[k] == x);
                }
            }
        }
        out
    }
}

/// A list holds what it held and what is pushed.
proof fn lemma_push_contains(s: Seq<NodeId>, x: NodeId)
    ensures
        forall|y: NodeId|
            #![trigger s.push(x).contains(y)]
            #![trigger s.contains(y)]
            s.push(x).contains(y) <==> s.contains(y) || y == x,
{
    let more = s.push(x);
    assert forall|y: NodeId|
        #![trigger more.contains(y)]
        #![trigger s.contains(y)]
        more.contains(y) <==> s.contains(y) || y == x by {
        if s.contains(y) {
            let i = choose|i: int| 0 <= i < s.len() && s[i] == y;
            assert(more[i] == y);
        }
        if y == x {
            assert(more[s.len() as int] == y);
        }
        if more.contains(y) {
            let i = choose|i: int| 0 <= i < more.len() && more[i] == y;
            if i < s.len() {
                assert(s[i] == y);
            }
        }
    }
}

/// The state of a search for implied origins: `seen` holds origins that `b` is
/// implied from, none of them a holder; what is seen, and `b`, is either still
/// pending or done; and all that a done node is implied from is seen.
spec fn searching(
    g: Graph,
    b: NodeId,
    holders: Seq<NodeId>,
    pending: Seq<NodeId>,
    seen: Seq<NodeId>,
    done: Seq<NodeId>,
) -> bool {
    &&& seen.no_duplicates()
    &&& forall|i: int|
        0 <= i < seen.len() ==> in_graph(g, #[trigger] seen[i]) && implied_from(g, b, seen[i])
            && !holders.contains(seen[i])
    &&& forall|x: NodeId| #[trigger]
        pending.contains(x) ==> in_graph(g, x) && (x == b || implied_from(g, b, x))
    &&& pending.contains(b) || done.contains(b)
    &&& forall|x: NodeId| #[trigger]
        seen.contains(x) ==> pending.contains(x) || done.contains(x)
    &&& forall|x: NodeId, y: NodeId|
        done.contains(x) && #[trigger] implies_from(g, x, y) ==> seen.contains(y)
}

proof fn lemma_search_adds(
    g: Graph,
    b: NodeId,
    holders: Seq<NodeId>,
    pending: Seq<NodeId>,
    seen: Seq<NodeId>,
    done: Seq<NodeId>,
    origin: NodeId,
)
    requires
        searching(g, b, holders, pending, seen, done),
        in_graph(g, origin),
        implied_from(g, b, origin),
        !seen.contains(origin),
        !holders.contains(origin),
    ensures
        searching(g, b, holders, pending.push(origin), seen.push(origin), done),
{
    lemma_push_contains(pending, origin);
    lemma_push_contains(seen, origin);
    let more = seen.push(origin);
    assert forall|i: int| 0 <= i < more.len() implies in_graph(g, #[trigger] more[i])
        && implied_from(g, b, more[i]) && !holders.contains(more[i]) by {
        if i < seen.len() {
            assert(more[i] == seen[i]);
        }
    }
    assert(more.no_duplicates()) by {
        assert forall|i: int, j: int|
            0 <= i < more.len() && 0 <= j < more.len() && i != j implies more[i] != more[j] by {
            if i < seen.len() {
                assert(seen.contains(seen[i]));
            }
            if j < seen.len() {
                assert(seen.contains(seen[j]));
            }
        }
    }
}

proof fn lemma_search_finishes(
    g: Graph,
    b: NodeId,
    holders: Seq<NodeId>,
    pending: Seq<NodeId>,
    seen: Seq<NodeId>,
    done: Seq<NodeId>,
    at: int,
)
    requires
        searching(g, b, holders, pending, seen, done),
        0 <= at < pending.len(),
        forall|x: NodeId| implies_from(g, pending[at], x) ==> #[trigger] seen.contains(x),
    ensures
        searching(g, b, holders, pending.remove(at), seen, done.push(pending[at])),
{
    let node = pending[at];
    let left = pending.remove(at);
    lemma_push_contains(done, node);
    assert forall|x: NodeId| #[trigger] pending.contains(x) implies left.contains(x) || x == node by {
        let i = choose|i: int| 0 <= i < pending.len() && pending[i] == x;
        if i < at {
            assert(left[i] == x);
        } else if i > at {
            assert(left[i - 1] == x);
        }
    }
    assert forall|x: NodeId| #[trigger] left.contains(x) implies pending.contains(x) by {
        let i = choose|i: int| 0 <= i < left.len() && left[i] == x;
        if i < at {
            assert(pending[i] == x);
        } else {
            assert(pending[i + 1] == x);
        }
    }
    assert(pending.contains(b) ==> left.contains(b) || b == node);
    assert forall|x: NodeId, y: NodeId|
        done.push(node).contains(x) && #[trigger] implies_from(g, x, y) implies seen.contains(
        y,
    ) by {
        if x == node {
            assert(seen.contains(y));
        }
    }
}

/// What a node is implied from is a node.
proof fn lemma_implies_in_graph(g: Graph, x: NodeId, y: NodeId)
    requires
        shaped(g),
        in_graph(g, x),
        implies_from(g, x, y),
    ensures
        in_graph(g, y),
{
    lemma_ancestry(g, x);
    let k = choose|k: int|
        0 <= k < ancestry(g, x).len() && #[trigger] node_at(g, ancestry(g, x)[k]).arc.implied
            && node_at(g, ancestry(g, x)[k]).origin == Some(y);
    assert(in_graph(g, ancestry(g, x)[k]));
    assert(node_shaped(g, ancestry(g, x)[k].0 as int));
}

fn contains_id(ids: &Vec<NodeId>, id: NodeId) -> (found: bool)
    ensures
        found == ids@.contains(id),
{
    let mut i: usize = 0;
    while i < ids.len()
        invariant
            i <= ids@.len(),
            forall|j: int| 0 <= j < i ==> ids@[j] != id,
        decreases ids@.len() - i,
    {
        if ids[i] == id {
            return true;
        }
        i = i + 1;
    }
    false
}

/// Different ids of a graph are no more than its nodes.
proof fn lemma_ids_bound(g: Graph, ids: Seq<NodeId>)
    requires
        ids.no_duplicates(),
        forall|i: int| 0 <= i < ids.len() ==> in_graph(g, #[trigger] ids[i]),
    ensures
        ids.len() <= g.len(),
{
    let raw = ids.map_values(|x: NodeId| x.0 as int);
    assert(raw.no_duplicates()) by {
        assert forall|i: int, j: int|
            0 <= i < raw.len() && 0 <= j < raw.len() && i != j implies raw[i] != raw[j] by {
            assert(ids[i] != ids[j]);
        }
    }
    raw.unique_seq_to_set();
    let range = vstd::set_lib::set_int_range(0, g.len() as int);
    vstd::set_lib::lemma_int_range(0, g.len() as int);
    assert(raw.to_set().subset_of(range)) by {
        assert forall|v: int| raw.to_set().contains(v) implies range.contains(v) by {
            let k = choose|k: int| 0 <= k < raw.len() && raw[k] == v;
            assert(in_graph(g, ids[k]));
        }
    }
    vstd::set_lib::lemma_len_subset(raw.to_set(), range);
}

/// A graph has one list of ranks.
pub proof fn lemma_ranks_unique(g: Graph, a: Seq<u32>, b: Seq<u32>)
    requires
        valid(g),
        ranked(g, a),
        ranked(g, b),
    ensures
        a == b,
{
    assert forall|i: int| 0 <= i < a.len() implies a[i] == b[i] by {
        let k = lemma_rank_place(g, a, NodeId(i as u32));
        let l = lemma_rank_place(g, b, NodeId(i as u32));
        law_every_node_has_one_rank(g);
    }
    assert(a =~= b);
}

// ── Pruning ─────────────────────────────────────────────────────────────

/// The state of marking what stays: what is flagged or pending stays, and the
/// wanted nodes, and all that a flagged node leads to, are flagged or pending.
spec fn marking(g: Graph, wanted: Seq<bool>, flags: Seq<bool>, pending: Seq<NodeId>) -> bool {
    &&& flags.len() == g.len()
    &&& forall|x: NodeId| #[trigger] pending.contains(x) ==> in_graph(g, x) && stays(g, wanted, x)
    &&& forall|i: int|
        0 <= i < g.len() && #[trigger] flags[i] ==> stays(g, wanted, NodeId(i as u32))
    &&& forall|i: int|
        0 <= i < g.len() && wanted[i] ==> #[trigger] flags[i] || pending.contains(NodeId(i as u32))
    &&& forall|x: NodeId, y: NodeId|
        in_graph(g, x) && flags[x.0 as int] && #[trigger] leads_to(g, x, y) ==> flags[y.0 as int]
            || pending.contains(y)
}

/// Taking up a pending node keeps the state.
proof fn lemma_marks(
    g: Graph,
    wanted: Seq<bool>,
    flags: Seq<bool>,
    pending: Seq<NodeId>,
    more: Seq<NodeId>,
)
    requires
        shaped(g),
        wanted.len() == g.len(),
        marking(g, wanted, flags, pending),
        pending.len() > 0,
        forall|y: NodeId|
            #![trigger more.contains(y)]
            more.contains(y) <==> pending.drop_last().contains(y) || leads_to(
                g,
                pending.last(),
                y,
            ),
    ensures
        marking(g, wanted, flags.update(pending.last().0 as int, true), more),
{
    let node = pending.last();
    let rest = pending.drop_last();
    assert(pending[pending.len() - 1] == node);
    assert(pending.contains(node));
    assert(node_shaped(g, node.0 as int));
    let marked = flags.update(node.0 as int, true);
    assert forall|x: NodeId| pending.contains(x) implies #[trigger] rest.contains(x) || x == node by {
        let i = choose|i: int| 0 <= i < pending.len() && pending[i] == x;
        if i < rest.len() {
            assert(rest[i] == x);
        }
    }
    assert forall|x: NodeId| #[trigger] more.contains(x) implies in_graph(g, x) && stays(
        g,
        wanted,
        x,
    ) by {
        if rest.contains(x) {
            let i = choose|i: int| 0 <= i < rest.len() && rest[i] == x;
            assert(pending[i] == x);
            assert(pending.contains(x));
        } else {
            lemma_stays_step(g, wanted, node, x);
        }
    }
    assert forall|i: int| 0 <= i < g.len() && #[trigger] marked[i] implies stays(
        g,
        wanted,
        NodeId(i as u32),
    ) by {
        if i != node.0 {
            assert(flags[i]);
        }
    }
    assert forall|i: int| 0 <= i < g.len() && wanted[i] implies #[trigger] marked[i]
        || more.contains(NodeId(i as u32)) by {
        if i != node.0 && !flags[i] {
            assert(pending.contains(NodeId(i as u32)));
            assert(rest.contains(NodeId(i as u32)));
        }
    }
    assert forall|x: NodeId, y: NodeId|
        in_graph(g, x) && marked[x.0 as int] && #[trigger] leads_to(g, x, y) implies marked[y.0 as int]
        || more.contains(y) by {
        assert(node_shaped(g, x.0 as int));
        if x == node {
            assert(more.contains(y));
        } else if !flags[y.0 as int] {
            assert(pending.contains(y));
            if y != node {
                assert(rest.contains(y));
            }
        }
    }
}

/// Passing over a pending node that is flagged already keeps the state.
proof fn lemma_passes(g: Graph, wanted: Seq<bool>, flags: Seq<bool>, pending: Seq<NodeId>)
    requires
        shaped(g),
        marking(g, wanted, flags, pending),
        pending.len() > 0,
        flags[pending.last().0 as int],
    ensures
        marking(g, wanted, flags, pending.drop_last()),
{
    let node = pending.last();
    let rest = pending.drop_last();
    assert forall|x: NodeId| pending.contains(x) implies #[trigger] rest.contains(x) || x == node by {
        let i = choose|i: int| 0 <= i < pending.len() && pending[i] == x;
        if i < rest.len() {
            assert(rest[i] == x);
        }
    }
    assert forall|x: NodeId| #[trigger] rest.contains(x) implies pending.contains(x) by {
        let i = choose|i: int| 0 <= i < rest.len() && rest[i] == x;
        assert(pending[i] == x);
    }
    assert forall|i: int| 0 <= i < g.len() && wanted[i] implies #[trigger] flags[i]
        || rest.contains(NodeId(i as u32)) by {
        if !flags[i] {
            assert(pending.contains(NodeId(i as u32)));
            assert(rest.contains(NodeId(i as u32)) || NodeId(i as u32) == node);
        }
    }
    assert forall|x: NodeId, y: NodeId|
        in_graph(g, x) && flags[x.0 as int] && #[trigger] leads_to(g, x, y) implies flags[y.0 as int]
        || rest.contains(y) by {
        if !flags[y.0 as int] {
            assert(pending.contains(y));
            assert(rest.contains(y) || y == node);
        }
    }
}

proof fn lemma_count_update(flags: Seq<bool>, at: int, i: int)
    requires
        0 <= at < flags.len(),
        !flags[at],
        0 <= i <= flags.len(),
    ensures
        count_set(flags.update(at, true), i) == count_set(flags, i) + (if at < i {
            1int
        } else {
            0
        }),
    decreases i,
{
    if i > 0 {
        lemma_count_update(flags, at, i - 1);
    }
}

/// Once nothing is pending, exactly what stays is flagged.
proof fn lemma_marked(g: Graph, wanted: Seq<bool>, flags: Seq<bool>)
    requires
        shaped(g),
        wanted.len() == g.len(),
        marking(g, wanted, flags, seq![]),
    ensures
        flags == staying(g, wanted),
{
    assert forall|i: int| 0 <= i < g.len() && wanted[i] implies #[trigger] flags[i] by {
        let none: Seq<NodeId> = seq![];
        assert(flags[i] || none.contains(NodeId(i as u32)));
    }
    assert forall|x: NodeId, y: NodeId|
        in_graph(g, x) && in_graph(g, y) && flags[x.0 as int] && #[trigger] leads_to(
            g,
            x,
            y,
        ) implies flags[y.0 as int] by {
        let none: Seq<NodeId> = seq![];
        assert(flags[y.0 as int] || none.contains(y));
    }
    assert(closed_under(g, wanted, flags));
    assert forall|i: int| 0 <= i < g.len() implies flags[i] == stays(
        g,
        wanted,
        NodeId(i as u32),
    ) by {
        if stays(g, wanted, NodeId(i as u32)) {
            lemma_closed_holds(g, wanted, flags, NodeId(i as u32));
        }
    }
    assert(flags =~= staying(g, wanted));
}

impl PrimIndexGraph {
    /// Removes every node `keep` rejects, returning the new id of each old
    /// node, `None` for a removed one. A node is kept whenever one of its
    /// descendants is, so the graph stays a tree, and so is the origin of a
    /// kept node, so it still ranks by that origin. The graph is ranked
    /// again once it is complete (see [`Self::rank`]): the order siblings
    /// are placed in depends on the siblings present.
    pub fn retain_nodes<F: Fn(NodeId, &PrimNode) -> bool>(&mut self, keep: F) -> (remap: Vec<
        Option<NodeId>,
    >)
        requires
            forall|id: NodeId, node: &PrimNode| call_requires(keep, (id, node)),
        ensures
            exists|wanted: Seq<bool>|
                {
                    &&& wanted.len() == old(self)@.len()
                    &&& forall|i: int|
                        0 <= i < wanted.len() ==> #[trigger] call_ensures(
                            keep,
                            (NodeId(i as u32), &old(self).spec_node(NodeId(i as u32))),
                            wanted[i],
                        )
                    &&& #[trigger] pruned_to(
                        *old(self),
                        staying(old(self)@, wanted),
                        *final(self),
                        remap@,
                    )
                },
            acyclic(old(self)@) ==> acyclic(final(self)@),
    {
        proof {
            use_type_invariant(&*self);
        }
        let mut wanted: Vec<bool> = Vec::new();
        let mut i: usize = 0;
        while i < self.nodes.len()
            invariant
                *self == *old(self),
                self@.len() == self.nodes@.len(),
                shaped(self@),
                i <= self.nodes@.len(),
                wanted@.len() == i,
                forall|id: NodeId, node: &PrimNode| call_requires(keep, (id, node)),
                forall|k: int|
                    0 <= k < i ==> #[trigger] call_ensures(
                        keep,
                        (NodeId(k as u32), &self.spec_node(NodeId(k as u32))),
                        wanted@[k],
                    ),
            decreases self.nodes@.len() - i,
        {
            let id = NodeId::from_index(i);
            let want = keep(id, &self.nodes[i]);
            wanted.push(want);
            i = i + 1;
        }
        self.retain_wanted(&wanted)
    }

    /// Removes every node that is not wanted and that no wanted node leads to.
    pub fn retain_wanted(&mut self, wanted: &Vec<bool>) -> (remap: Vec<Option<NodeId>>)
        requires
            wanted@.len() == old(self)@.len(),
        ensures
            pruned_to(*old(self), staying(old(self)@, wanted@), *final(self), remap@),
            acyclic(old(self)@) ==> acyclic(final(self)@),
    {
        proof {
            use_type_invariant(&*self);
        }
        let ghost g = self@;
        let flags = self.mark(wanted);
        let mut held = PrimIndexGraph::default();
        std::mem::swap(self, &mut held);
        let PrimIndexGraph { nodes, ranks } = held;
        let ghost before = nodes@;
        let mut remap: Vec<Option<NodeId>> = Vec::new();
        let mut next: usize = 0;
        let mut i: usize = 0;
        while i < flags.len()
            invariant
                flags@.len() == g.len() <= u32::MAX,
                i <= flags@.len(),
                next == count_set(flags@, i as int),
                next <= i,
                remap@.len() == i,
                forall|k: int|
                    0 <= k < i ==> #[trigger] remap@[k] == new_id(flags@, NodeId(k as u32)),
            decreases flags@.len() - i,
        {
            if flags[i] {
                remap.push(Some(NodeId::from_index(next)));
                next = next + 1;
            } else {
                remap.push(None);
            }
            i = i + 1;
        }
        let mut out: Vec<PrimNode> = Vec::new();
        let ghost offsets = offsets_of(before);
        assert(graph_of(out@) =~= pruned_upto(g, flags@, 0));
        assert(offsets_of(out@) =~= selected(offsets, flags@, 0));
        let mut at: usize = 0;
        for node in it: nodes
            invariant
                it.seq() == before,
                g == graph_of(before),
                offsets == offsets_of(before),
                shaped(g),
                flags@.len() == g.len() <= u32::MAX,
                at == it.index(),
                remap@.len() == g.len(),
                forall|k: int|
                    0 <= k < g.len() ==> #[trigger] remap@[k] == new_id(flags@, NodeId(k as u32)),
                graph_of(out@) == pruned_upto(g, flags@, at as int),
                offsets_of(out@) == selected(offsets, flags@, at as int),
        {
            let ghost so_far = out@;
            assert(node == before[at as int]);
            assert(node_shaped(g, at as int));
            if flags[at] {
                let PrimNode { parent, origin, children, arc, layer_offset } = node;
                let ghost known = children@;
                assert(g[at as int].children == known);
                let renamed_node = PrimNode {
                    parent: Self::remapped(&remap, parent),
                    origin: Self::remapped(&remap, origin),
                    children: Self::remapped_all(&remap, &children, Ghost(flags@)),
                    arc,
                    layer_offset,
                };
                assert(renamed_node@ =~= renamed(flags@, g[at as int]));
                out.push(renamed_node);
                assert(graph_of(out@) =~= graph_of(so_far).push(renamed_node@));
                assert(offsets_of(out@) =~= offsets_of(so_far).push(offsets[at as int]));
            }
            at = at + 1;
        }
        proof {
            assert(at == g.len());
            law_pruning_keeps_the_shape(g, wanted@, flags@);
            if out@.len() == 0 {
                assert(graph_of(out@) =~= Graph::empty());
                assert(are_heights(Graph::empty(), Seq::<nat>::empty()));
            }
            assert(remap@ =~= Seq::new(g.len(), |i: int| new_id(flags@, NodeId(i as u32))));
        }
        *self = PrimIndexGraph { nodes: out, ranks: Vec::new() };
        remap
    }

    fn remapped(remap: &Vec<Option<NodeId>>, id: Option<NodeId>) -> (out: Option<NodeId>)
        requires
            id is Some ==> (id->0).0 < remap@.len(),
        ensures
            out == (match id {
                Some(id) => remap@[id.0 as int],
                None => None,
            }),
    {
        match id {
            Some(id) => remap[id.index()],
            None => None,
        }
    }

    fn remapped_all(
        remap: &Vec<Option<NodeId>>,
        ids: &Vec<NodeId>,
        Ghost(flags): Ghost<Seq<bool>>,
    ) -> (out: Vec<NodeId>)
        requires
            forall|k: int| 0 <= k < ids@.len() ==> (#[trigger] ids@[k]).0 < remap@.len(),
            remap@.len() <= u32::MAX,
            forall|k: int|
                0 <= k < remap@.len() ==> #[trigger] remap@[k] == new_id(flags, NodeId(k as u32)),
        ensures
            out@ == new_ids(flags, ids@),
    {
        let mut out: Vec<NodeId> = Vec::new();
        let mut i: usize = 0;
        assert(ids@.take(0) =~= seq![]);
        while i < ids.len()
            invariant
                i <= ids@.len(),
                forall|k: int| 0 <= k < ids@.len() ==> (#[trigger] ids@[k]).0 < remap@.len(),
                remap@.len() <= u32::MAX,
                forall|k: int|
                    0 <= k < remap@.len() ==> #[trigger] remap@[k] == new_id(
                        flags,
                        NodeId(k as u32),
                    ),
                out@ == new_ids(flags, ids@.take(i as int)),
            decreases ids@.len() - i,
        {
            assert(ids@.take(i + 1).drop_last() =~= ids@.take(i as int));
            assert(ids@[i as int].0 < remap@.len());
            if let Some(id) = remap[ids[i].index()] {
                out.push(id);
            }
            i = i + 1;
        }
        assert(ids@.take(i as int) =~= ids@);
        out
    }

    /// Flags the nodes that stay.
    fn mark(&self, wanted: &Vec<bool>) -> (flags: Vec<bool>)
        requires
            shaped(self@),
            wanted@.len() == self@.len(),
        ensures
            flags@ == staying(self@, wanted@),
    {
        let ghost g = self@;
        let mut flags: Vec<bool> = Vec::new();
        let mut pending: Vec<NodeId> = Vec::new();
        let mut i: usize = 0;
        while i < wanted.len()
            invariant
                g == self@,
                wanted@.len() == g.len() <= u32::MAX,
                i <= wanted@.len(),
                flags@.len() == i,
                forall|k: int| 0 <= k < i ==> !#[trigger] flags@[k],
                forall|x: NodeId| #[trigger]
                    pending@.contains(x) <==> x.0 < i && wanted@[x.0 as int],
            decreases wanted@.len() - i,
        {
            flags.push(false);
            let ghost before = pending@;
            if wanted[i] {
                pending.push(NodeId::from_index(i));
                proof {
                    lemma_push_contains(before, NodeId(i as u32));
                }
            }
            i = i + 1;
            assert forall|x: NodeId| #[trigger] pending@.contains(x) <==> x.0 < i
                && wanted@[x.0 as int] by {
                assert(before.contains(x) <==> x.0 < i - 1 && wanted@[x.0 as int]);
            }
        }
        proof {
            assert forall|x: NodeId| #[trigger] pending@.contains(x) implies in_graph(g, x)
                && stays(g, wanted@, x) by {
                lemma_wanted_stays(g, wanted@, x);
            }
            assert forall|k: int| 0 <= k < g.len() && wanted@[k] implies #[trigger] flags@[k]
                || pending@.contains(NodeId(k as u32)) by {
                assert(pending@.contains(NodeId(k as u32)));
            }
            assert(marking(g, wanted@, flags@, pending@));
        }
        while pending.len() > 0
            invariant
                g == self@,
                shaped(g),
                wanted@.len() == g.len(),
                marking(g, wanted@, flags@, pending@),
            decreases g.len() - count_set(flags@, g.len() as int), pending@.len(),
        {
            let ghost before = pending@;
            let ghost marks = flags@;
            proof {
                assert(pending@[pending@.len() - 1] == pending@.last());
                assert(pending@.contains(pending@.last()));
                lemma_count_set(flags@, 0, g.len() as int);
            }
            let id = pending.pop().unwrap();
            assert(pending@ =~= before.drop_last());
            if flags[id.index()] {
                proof {
                    lemma_passes(g, wanted@, flags@, before);
                }
            } else {
                flags.set(id.index(), true);
                let node = self.at(id);
                let ghost rest = pending@;
                if let Some(parent) = node.parent {
                    pending.push(parent);
                    proof {
                        lemma_push_contains(rest, parent);
                    }
                }
                let ghost with_parent = pending@;
                if let Some(origin) = node.origin {
                    pending.push(origin);
                    proof {
                        lemma_push_contains(with_parent, origin);
                    }
                }
                proof {
                    assert forall|y: NodeId|
                        #![trigger pending@.contains(y)]
                        pending@.contains(y) <==> before.drop_last().contains(y) || leads_to(
                            g,
                            before.last(),
                            y,
                        ) by {
                        assert(with_parent.contains(y) <==> rest.contains(y) || node_at(
                            g,
                            id,
                        ).parent == Some(y));
                    }
                    lemma_marks(g, wanted@, marks, before, pending@);
                    lemma_count_update(marks, id.0 as int, g.len() as int);
                    lemma_count_set(flags@, 0, g.len() as int);
                }
            }
        }
        proof {
            assert(pending@ =~= seq![]);
            lemma_marked(g, wanted@, flags@);
        }
        flags
    }
}

/// Whether pruning a graph to the flagged nodes gave `after`, and `remap` says
/// where each node went.
pub open spec fn pruned_to(
    before: PrimIndexGraph,
    flags: Seq<bool>,
    after: PrimIndexGraph,
    remap: Seq<Option<NodeId>>,
) -> bool {
    &&& after@ == pruned(before@, flags)
    &&& after.offsets() == selected(before.offsets(), flags, before@.len() as int)
    &&& after@.len() > 0 ==> !after.is_ranked()
    &&& remap == Seq::new(before@.len(), |i: int| new_id(flags, NodeId(i as u32)))
}

/// Opinions are ordered by the ranks of their nodes; those of one node, or of
/// nodes of one rank, by how strong their layers are among those of the layer
/// stack, and then by their layers.
pub proof fn law_opinions_order_by_node_and_layer(ranks: Seq<u32>, a: KeyView, b: KeyView)
    ensures
        ranks[a.node.0 as int] < ranks[b.node.0 as int] ==> order_keys(ranks, a, b) == Order::Less,
        ranks[a.node.0 as int] > ranks[b.node.0 as int] ==> order_keys(ranks, a, b)
            == Order::Greater,
        ranks[a.node.0 as int] == ranks[b.node.0 as int] && a.layer_strength < b.layer_strength
            ==> order_keys(ranks, a, b) == Order::Less,
        ranks[a.node.0 as int] == ranks[b.node.0 as int] && a.layer_strength > b.layer_strength
            ==> order_keys(ranks, a, b) == Order::Greater,
        ranks[a.node.0 as int] == ranks[b.node.0 as int] && a.layer_strength == b.layer_strength
            && a.layer_id.0 < b.layer_id.0 ==> order_keys(ranks, a, b) == Order::Less,
        ranks[a.node.0 as int] == ranks[b.node.0 as int] && a.layer_strength == b.layer_strength
            && a.layer_id.0 > b.layer_id.0 ==> order_keys(ranks, a, b) == Order::Greater,
{
}

} // verus!
