//! The mathematical model of a composition graph and of its strength order.

use crate::order::{order_bool, order_int, Order};
use crate::prim_index::{ArcKind, LayerId};
use crate::prim_index_graph::NodeId;
use crate::spec_path::SpecPathView;
use vstd::prelude::*;

verus! {

/// The arc that introduces a node, and the site it reaches.
#[verifier::ext_equal]
pub struct ArcView {
    pub arc_kind: ArcKind,
    pub layer_stack: LayerId,
    pub site: SpecPathView,
    pub namespace_depth: u16,
    pub sibling_index: u16,
    pub implied: bool,
    pub skips_duplicates: bool,
}

/// One node.
#[verifier::ext_equal]
pub struct NodeView {
    pub parent: Option<NodeId>,
    pub origin: Option<NodeId>,
    pub children: Seq<NodeId>,
    pub arc: ArcView,
}

/// A graph: its nodes, in the order they were added.
pub type Graph = Seq<NodeView>;

/// Whether `id` is a node of the graph.
pub open spec fn in_graph(g: Graph, id: NodeId) -> bool {
    id.0 < g.len()
}

/// The node behind an id.
pub open spec fn node_at(g: Graph, id: NodeId) -> NodeView {
    g[id.0 as int]
}

/// Whether the ids of a list go up.
pub open spec fn ids_ascend(ids: Seq<NodeId>) -> bool {
    forall|i: int, j: int| 0 <= i < j < ids.len() ==> (#[trigger] ids[i]).0 < (#[trigger] ids[j]).0
}

/// Whether the node at `i` is linked with its parent, its children and its
/// origin.
pub open spec fn node_shaped(g: Graph, i: int) -> bool {
    let node = g[i];
    &&& node.parent is None <==> i == 0
    &&& node.parent is Some ==> {
        &&& (node.parent->0).0 < i
        &&& node_at(g, node.parent->0).children.contains(NodeId(i as u32))
    }
    &&& forall|k: int|
        0 <= k < node.children.len() ==> {
            &&& i < (#[trigger] node.children[k]).0 < g.len()
            &&& node_at(g, node.children[k]).parent == Some(NodeId(i as u32))
        }
    &&& ids_ascend(node.children)
    &&& node.origin is Some ==> (node.origin->0).0 < g.len()
}

/// Whether the nodes form a tree under the first one: parents before their
/// children, each child listed once by its parent in the order of the ids, and
/// origins among the nodes.
pub open spec fn shaped(g: Graph) -> bool {
    &&& g.len() <= u32::MAX
    &&& forall|i: int| 0 <= i < g.len() ==> #[trigger] node_shaped(g, i)
}

/// Whether the heights put each node above its parent and its origin.
pub open spec fn are_heights(g: Graph, heights: Seq<nat>) -> bool {
    &&& heights.len() == g.len()
    &&& forall|i: int|
        0 <= i < g.len() ==> {
            &&& (#[trigger] g[i]).parent is Some ==> heights[(g[i].parent->0).0 as int] < heights[i]
            &&& g[i].origin is Some ==> heights[(g[i].origin->0).0 as int] < heights[i]
        }
}

/// Whether no node leads back to itself through parents and origins.
pub open spec fn acyclic(g: Graph) -> bool {
    exists|heights: Seq<nat>| are_heights(g, heights)
}

/// Whether strength order is defined: a tree without cycles of origins.
pub open spec fn valid(g: Graph) -> bool {
    shaped(g) && acyclic(g)
}

/// Whether each origin was added before the node that has it.
pub open spec fn origins_precede(g: Graph) -> bool {
    forall|i: int|
        0 <= i < g.len() ==> ((#[trigger] g[i]).origin is Some ==> (g[i].origin->0).0 < i)
}

/// Where each origin was added before the node that has it, there is no cycle.
pub proof fn law_earlier_origins_are_acyclic(g: Graph)
    requires
        shaped(g),
        origins_precede(g),
    ensures
        acyclic(g),
{
    let heights = Seq::new(g.len(), |i: int| i as nat);
    assert forall|i: int| 0 <= i < g.len() implies {
        &&& (#[trigger] g[i]).parent is Some ==> heights[(g[i].parent->0).0 as int] < heights[i]
        &&& g[i].origin is Some ==> heights[(g[i].origin->0).0 as int] < heights[i]
    } by {
        assert(node_shaped(g, i));
    }
    assert(are_heights(g, heights));
}

/// The height of a node in some choice of heights.
pub open spec fn height(g: Graph, id: NodeId) -> nat {
    (choose|heights: Seq<nat>| are_heights(g, heights))[id.0 as int]
}

pub proof fn lemma_height(g: Graph, id: NodeId)
    requires
        valid(g),
        in_graph(g, id),
    ensures
        node_at(g, id).parent is Some ==> {
            &&& in_graph(g, node_at(g, id).parent->0)
            &&& height(g, node_at(g, id).parent->0) < height(g, id)
        },
        node_at(g, id).origin is Some ==> {
            &&& in_graph(g, node_at(g, id).origin->0)
            &&& height(g, node_at(g, id).origin->0) < height(g, id)
        },
        node_at(g, id).parent is None <==> id == NodeId(0),
{
    let heights = choose|heights: Seq<nat>| are_heights(g, heights);
    assert(are_heights(g, heights));
    assert(node_shaped(g, id.0 as int));
    assert(g[id.0 as int] == node_at(g, id));
}

// ── Ancestry ────────────────────────────────────────────────────────────

/// The nodes from the root down to `id`.
pub open spec fn ancestry(g: Graph, id: NodeId) -> Seq<NodeId>
    decreases id.0,
{
    match node_at(g, id).parent {
        Some(parent) => if parent.0 < id.0 {
            ancestry(g, parent).push(id)
        } else {
            seq![id]
        },
        None => seq![id],
    }
}

pub proof fn lemma_ancestry(g: Graph, id: NodeId)
    requires
        shaped(g),
        in_graph(g, id),
    ensures
        0 < ancestry(g, id).len() <= id.0 + 1,
        ancestry(g, id).last() == id,
        ancestry(g, id)[0] == NodeId(0),
        forall|k: int|
            0 <= k < ancestry(g, id).len() ==> in_graph(g, #[trigger] ancestry(g, id)[k]),
        forall|k: int|
            0 < k < ancestry(g, id).len() ==> node_at(g, #[trigger] ancestry(g, id)[k]).parent
                == Some(ancestry(g, id)[k - 1]),
        valid(g) ==> forall|k: int|
            0 <= k < ancestry(g, id).len() - 1 ==> height(g, #[trigger] ancestry(g, id)[k])
                < height(g, id),
    decreases id.0,
{
    assert(node_shaped(g, id.0 as int));
    match node_at(g, id).parent {
        Some(parent) => {
            lemma_ancestry(g, parent);
            if valid(g) {
                lemma_height(g, id);
            }
            let upper = ancestry(g, parent);
            let path = ancestry(g, id);
            assert forall|k: int| 0 < k < path.len() implies node_at(g, #[trigger] path[k]).parent
                == Some(path[k - 1]) by {
                if k < upper.len() {
                    assert(path[k] == upper[k]);
                }
            }
            assert forall|k: int| 0 <= k < path.len() implies in_graph(g, #[trigger] path[k]) by {
                if k < upper.len() {
                    assert(path[k] == upper[k]);
                }
            }
            if valid(g) {
                assert forall|k: int| 0 <= k < path.len() - 1 implies height(g, #[trigger] path[k])
                    < height(g, id) by {
                    assert(path[k] == upper[k]);
                    if k == upper.len() - 1 {
                        assert(path[k] == parent);
                    }
                }
            }
        },
        None => {
            assert(id == NodeId(0));
        },
    }
}

/// The ancestry of an ancestor is a prefix.
pub proof fn lemma_ancestry_prefix(g: Graph, id: NodeId, k: int)
    requires
        shaped(g),
        in_graph(g, id),
        0 <= k < ancestry(g, id).len(),
    ensures
        ancestry(g, ancestry(g, id)[k]) == ancestry(g, id).take(k + 1),
    decreases id.0,
{
    lemma_ancestry(g, id);
    assert(node_shaped(g, id.0 as int));
    let path = ancestry(g, id);
    if k == path.len() - 1 {
        assert(path.take(k + 1) =~= path);
    } else {
        let parent = node_at(g, id).parent->0;
        lemma_ancestry_prefix(g, parent, k);
        assert(path.take(k + 1) =~= ancestry(g, parent).take(k + 1));
    }
}

/// The first index from `from` on at which two paths differ or one ends.
pub open spec fn first_difference(a: Seq<NodeId>, b: Seq<NodeId>, from: int) -> int
    decreases a.len() - from,
{
    if 0 <= from < a.len() && from < b.len() && a[from] == b[from] {
        first_difference(a, b, from + 1)
    } else {
        from
    }
}

pub proof fn lemma_first_difference(a: Seq<NodeId>, b: Seq<NodeId>, from: int)
    requires
        0 <= from <= a.len(),
        from <= b.len(),
    ensures
        from <= first_difference(a, b, from) <= a.len(),
        first_difference(a, b, from) <= b.len(),
        forall|i: int| from <= i < first_difference(a, b, from) ==> a[i] == b[i],
        first_difference(a, b, from) < a.len() && first_difference(a, b, from) < b.len()
            ==> a[first_difference(a, b, from)] != b[first_difference(a, b, from)],
    decreases a.len() - from,
{
    if from < a.len() && from < b.len() && a[from] == b[from] {
        lemma_first_difference(a, b, from + 1);
    }
}

/// The nodes at which the ways from the root to `a` and to `b` part; none where
/// one of them lies on the way to the other.
pub open spec fn parting(g: Graph, a: NodeId, b: NodeId) -> Option<(NodeId, NodeId)> {
    let path_a = ancestry(g, a);
    let path_b = ancestry(g, b);
    let k = first_difference(path_a, path_b, 0);
    if k < path_a.len() && k < path_b.len() {
        Some((path_a[k], path_b[k]))
    } else {
        None
    }
}

pub proof fn lemma_parting(g: Graph, a: NodeId, b: NodeId)
    requires
        valid(g),
        in_graph(g, a),
        in_graph(g, b),
    ensures
        parting(g, a, b) is Some ==> {
            let (x, y) = parting(g, a, b)->0;
            &&& in_graph(g, x)
            &&& in_graph(g, y)
            &&& x != y
            &&& height(g, x) <= height(g, a)
            &&& height(g, y) <= height(g, b)
            &&& x != a ==> height(g, x) < height(g, a)
            &&& y != b ==> height(g, y) < height(g, b)
            &&& node_at(g, x).parent == node_at(g, y).parent
        },
{
    let path_a = ancestry(g, a);
    let path_b = ancestry(g, b);
    let k = first_difference(path_a, path_b, 0);
    lemma_ancestry(g, a);
    lemma_ancestry(g, b);
    lemma_first_difference(path_a, path_b, 0);
    if k < path_a.len() && k < path_b.len() {
        let x = path_a[k];
        let y = path_b[k];
        if k < path_a.len() - 1 {
            assert(height(g, path_a[k]) < height(g, a));
        }
        if k < path_b.len() - 1 {
            assert(height(g, path_b[k]) < height(g, b));
        }
        assert(k > 0);
        assert(node_at(g, path_a[k]).parent == Some(path_a[k - 1]));
        assert(node_at(g, path_b[k]).parent == Some(path_b[k - 1]));
    }
}

// ── Origins ─────────────────────────────────────────────────────────────

/// Whether two nodes read the same site of the same layer stack.
pub open spec fn same_site(g: Graph, a: NodeId, b: NodeId) -> bool {
    &&& node_at(g, a).arc.layer_stack == node_at(g, b).arc.layer_stack
    &&& node_at(g, a).arc.site == node_at(g, b).arc.site
}

/// Whether a node is a specializes node propagated to the root: a child of the
/// root at the same site as its origin.
pub open spec fn is_propagated(g: Graph, id: NodeId) -> bool {
    let node = node_at(g, id);
    &&& node.arc.arc_kind == ArcKind::Specializes
    &&& node.parent == Some(NodeId(0))
    &&& node.origin is Some
    &&& same_site(g, id, node.origin->0)
}

/// The node at the start of a chain of origins.
pub open spec fn origin_start(g: Graph, id: NodeId) -> NodeId
    decreases height(g, id),
    when valid(g) && in_graph(g, id)
    via origin_start_decreases
{
    match node_at(g, id).origin {
        Some(origin) => origin_start(g, origin),
        None => id,
    }
}

#[via_fn]
proof fn origin_start_decreases(g: Graph, id: NodeId) {
    lemma_height(g, id);
}

/// The number of origins on the way to the start of a chain.
pub open spec fn origin_count(g: Graph, id: NodeId) -> nat
    decreases height(g, id),
    when valid(g) && in_graph(g, id)
    via origin_count_decreases
{
    match node_at(g, id).origin {
        Some(origin) => origin_count(g, origin) + 1,
        None => 0,
    }
}

#[via_fn]
proof fn origin_count_decreases(g: Graph, id: NodeId) {
    lemma_height(g, id);
}

pub proof fn lemma_origin_start(g: Graph, id: NodeId)
    requires
        valid(g),
        in_graph(g, id),
    ensures
        in_graph(g, origin_start(g, id)),
        height(g, origin_start(g, id)) <= height(g, id),
        node_at(g, id).origin is Some ==> height(g, origin_start(g, id)) < height(g, id),
        node_at(g, id).origin is None ==> origin_start(g, id) == id,
        node_at(g, origin_start(g, id)).origin is None,
    decreases height(g, id),
{
    lemma_height(g, id);
    if node_at(g, id).origin is Some {
        lemma_origin_start(g, node_at(g, id).origin->0);
    }
}

/// The node above: the parent, or the placeholder of a propagated specializes
/// node.
pub open spec fn above(g: Graph, id: NodeId) -> Option<NodeId> {
    if is_propagated(g, id) {
        node_at(g, id).origin
    } else {
        node_at(g, id).parent
    }
}

/// Whether `id` is `ancestor` or lies beneath it, reading a propagated
/// specializes node as beneath its placeholder.
pub open spec fn is_beneath(g: Graph, id: NodeId, ancestor: NodeId) -> bool
    decreases height(g, id),
    when valid(g) && in_graph(g, id)
    via is_beneath_decreases
{
    id == ancestor || match above(g, id) {
        Some(next) => is_beneath(g, next, ancestor),
        None => false,
    }
}

#[via_fn]
proof fn is_beneath_decreases(g: Graph, id: NodeId, ancestor: NodeId) {
    lemma_height(g, id);
}

/// Whether one of two nodes lies beneath the other.
pub open spec fn nested(g: Graph, a: NodeId, b: NodeId) -> bool {
    is_beneath(g, a, b) || is_beneath(g, b, a)
}

/// How far a node is below the prim its arc is authored on.
pub open spec fn depth_below(g: Graph, id: NodeId) -> int {
    let root = g[0].arc.namespace_depth as int;
    let depth = node_at(g, id).arc.namespace_depth as int;
    if root >= depth {
        root - depth
    } else {
        0
    }
}

/// A propagated specializes node's placeholder, any other node itself.
pub open spec fn placeholder(g: Graph, id: NodeId) -> NodeId {
    if is_propagated(g, id) {
        node_at(g, id).origin->0
    } else {
        id
    }
}

/// Whether a node is reached through a class arc.
pub open spec fn is_class(g: Graph, id: NodeId) -> bool {
    node_at(g, id).arc.arc_kind == ArcKind::Inherits || node_at(g, id).arc.arc_kind
        == ArcKind::Specializes
}

/// The node that inherits or specializes the class hierarchy of `id`, going up
/// while the depth below the introduction stays the same.
pub open spec fn class_start(g: Graph, id: NodeId, depth: int) -> NodeId
    decreases height(g, id),
    when valid(g) && in_graph(g, id)
    via class_start_decreases
{
    if is_class(g, id) && depth_below(g, id) == depth && node_at(g, id).parent is Some {
        class_start(g, placeholder(g, node_at(g, id).parent->0), depth)
    } else {
        id
    }
}

#[via_fn]
proof fn class_start_decreases(g: Graph, id: NodeId, depth: int) {
    lemma_height(g, id);
    if node_at(g, id).parent is Some {
        lemma_height(g, node_at(g, id).parent->0);
    }
}

/// The namespace depth of the node that starts the class hierarchy of `id`,
/// zero for the root.
pub open spec fn class_depth(g: Graph, id: NodeId) -> int {
    let first = placeholder(g, id);
    let start = class_start(g, first, depth_below(g, first));
    if start == NodeId(0) {
        0
    } else {
        node_at(g, start).arc.namespace_depth as int
    }
}

// ── Strength order ──────────────────────────────────────────────────────

/// Whether a node stands for another site than its origin.
pub open spec fn moved_site(g: Graph, id: NodeId, origin: NodeId) -> bool {
    !same_site(g, id, origin)
}

/// The order of two nodes with origins: one at another site than its origin
/// first.
pub open spec fn order_implied(g: Graph, a: NodeId, b: NodeId) -> Order {
    match (node_at(g, a).origin, node_at(g, b).origin) {
        (Some(x), Some(y)) => order_bool(moved_site(g, b, y), moved_site(g, a, x)),
        _ => Order::Equal,
    }
}

/// The node that a node's arc comes from: its origin, or else its parent.
pub open spec fn source_of(g: Graph, id: NodeId) -> Option<NodeId> {
    match node_at(g, id).origin {
        Some(origin) => Some(origin),
        None => node_at(g, id).parent,
    }
}

/// The depth of the class hierarchy that a node with an origin belongs to.
pub open spec fn hierarchy_depth(g: Graph, id: NodeId) -> int {
    match node_at(g, id).origin {
        Some(origin) => class_depth(g, origin),
        None => 0,
    }
}

/// The order of two nodes on one way from the root: the shorter way first.
pub open spec fn order_lengths(g: Graph, a: NodeId, b: NodeId) -> Order {
    order_int(ancestry(g, a).len() as int, ancestry(g, b).len() as int)
}

/// The order of two children of one node, strongest first: by arc kind, then
/// the deeper namespace depth, then the strength of their origins, then their
/// position among the arcs authored beside them.
pub open spec fn order_siblings(g: Graph, a: NodeId, b: NodeId) -> Order
    decreases height(g, a) + height(g, b), 1nat,
    when valid(g) && in_graph(g, a) && in_graph(g, b)
    via order_siblings_decreases
{
    let arc_a = node_at(g, a).arc;
    let arc_b = node_at(g, b).arc;
    let by_kind = order_int(
        arc_a.arc_kind.spec_strength_rank() as int,
        arc_b.arc_kind.spec_strength_rank() as int,
    );
    let by_index = order_int(arc_a.sibling_index as int, arc_b.sibling_index as int);
    if by_kind != Order::Equal {
        by_kind
    } else if arc_a.arc_kind == ArcKind::Specializes {
        order_specializes(g, a, b).spec_or(by_index)
    } else {
        let by_depth = order_int(arc_b.namespace_depth as int, arc_a.namespace_depth as int);
        let by_origin = match (source_of(g, a), source_of(g, b)) {
            (Some(x), Some(y)) => if x == y {
                Order::Equal
            } else {
                match parting(g, x, y) {
                    Some((p, q)) => order_siblings(g, p, q),
                    None => order_lengths(g, x, y),
                }
            },
            _ => Order::Equal,
        };
        by_depth.spec_or(by_origin).spec_or(by_index)
    }
}

/// The order of two sibling specializes nodes, before their positions among the
/// arcs authored beside them.
///
/// A deeper namespace depth comes first, unless one starting origin lies beneath
/// the other; then the nodes rank by where those origins sit. Nodes that come
/// from the same authored arc rank the node implied into the root layer stack
/// before the node propagated there, a class hierarchy started at a shallower
/// prim first, and a node implied further from that arc first, then by where
/// their origins sit.
pub open spec fn order_specializes(g: Graph, a: NodeId, b: NodeId) -> Order
    decreases height(g, a) + height(g, b), 0nat,
    when valid(g) && in_graph(g, a) && in_graph(g, b)
    via order_specializes_decreases
{
    let root_a = origin_start(g, a);
    let root_b = origin_start(g, b);
    let depth_a = node_at(g, a).arc.namespace_depth;
    let depth_b = node_at(g, b).arc.namespace_depth;
    if !nested(g, root_a, root_b) && depth_a != depth_b {
        order_int(depth_b as int, depth_a as int)
    } else {
        match (source_of(g, a), source_of(g, b)) {
            (Some(x), Some(y)) => if x == y {
                order_implied(g, a, b)
            } else if root_a != root_b {
                match parting(g, root_a, root_b) {
                    Some((p, q)) => order_siblings(g, p, q),
                    None => order_lengths(g, root_a, root_b),
                }
            } else {
                let by_hierarchy = order_int(hierarchy_depth(g, a), hierarchy_depth(g, b));
                let by_count = order_int(
                    origin_count(g, b) as int,
                    origin_count(g, a) as int,
                );
                let root_stack = g[0].arc.layer_stack;
                let by_site = if node_at(g, a).arc.layer_stack == root_stack && node_at(
                    g,
                    b,
                ).arc.layer_stack == root_stack {
                    order_implied(g, a, b)
                } else {
                    Order::Equal
                };
                let by_position = match parting(g, x, y) {
                    Some((p, q)) => order_siblings(g, p, q),
                    None => order_lengths(g, x, y),
                };
                by_hierarchy.spec_or(by_count).spec_or(by_site).spec_or(by_position)
            },
            _ => Order::Equal,
        }
    }
}

/// Where two nodes come from is lower than they are.
pub proof fn lemma_sources_lower(g: Graph, a: NodeId, b: NodeId)
    requires
        valid(g),
        in_graph(g, a),
        in_graph(g, b),
    ensures
        match (source_of(g, a), source_of(g, b)) {
            (Some(x), Some(y)) => {
                &&& in_graph(g, x)
                &&& in_graph(g, y)
                &&& height(g, x) < height(g, a)
                &&& height(g, y) < height(g, b)
                &&& parting(g, x, y) matches Some((p, q)) ==> {
                    &&& in_graph(g, p)
                    &&& in_graph(g, q)
                    &&& height(g, p) + height(g, q) < height(g, a) + height(g, b)
                }
            },
            _ => true,
        },
{
    lemma_height(g, a);
    lemma_height(g, b);
    match (source_of(g, a), source_of(g, b)) {
        (Some(x), Some(y)) => {
            lemma_parting(g, x, y);
        },
        _ => {},
    }
}

/// The nodes at which the ways to two different starting origins part are lower
/// than the nodes with those origins, unless the nodes are siblings.
pub proof fn lemma_starts_lower(g: Graph, a: NodeId, b: NodeId)
    requires
        valid(g),
        in_graph(g, a),
        in_graph(g, b),
        source_of(g, a) is Some,
        source_of(g, b) is Some,
        source_of(g, a) != source_of(g, b),
    ensures
        in_graph(g, origin_start(g, a)),
        in_graph(g, origin_start(g, b)),
        parting(g, origin_start(g, a), origin_start(g, b)) matches Some((p, q)) ==> {
            &&& in_graph(g, p)
            &&& in_graph(g, q)
            &&& height(g, p) + height(g, q) < height(g, a) + height(g, b)
        },
{
    let root_a = origin_start(g, a);
    let root_b = origin_start(g, b);
    lemma_origin_start(g, a);
    lemma_origin_start(g, b);
    lemma_parting(g, root_a, root_b);
    if parting(g, root_a, root_b) is Some {
        let (p, q) = parting(g, root_a, root_b)->0;
        if node_at(g, a).origin is None && node_at(g, b).origin is None {
            assert(!(p == a && q == b));
        }
    }
}

#[via_fn]
proof fn order_siblings_decreases(g: Graph, a: NodeId, b: NodeId) {
    lemma_sources_lower(g, a, b);
}

#[via_fn]
proof fn order_specializes_decreases(g: Graph, a: NodeId, b: NodeId) {
    lemma_sources_lower(g, a, b);
    if source_of(g, a) is Some && source_of(g, b) is Some && source_of(g, a) != source_of(g, b) {
        lemma_starts_lower(g, a, b);
    }
}

/// Where two nodes sit in the strong-to-weak depth-first walk: a node before the
/// nodes beneath it, and the nodes beneath two siblings in the siblings' order.
pub open spec fn order_positions(g: Graph, a: NodeId, b: NodeId) -> Order {
    match parting(g, a, b) {
        Some((p, q)) => order_siblings(g, p, q),
        None => order_lengths(g, a, b),
    }
}

} // verus!
