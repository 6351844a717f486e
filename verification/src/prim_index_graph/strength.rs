//! What decides which of two siblings is stronger.

use crate::order::Order;
use crate::prim_index::ArcKind;
use crate::prim_index_graph::model::{
    above, ancestry, first_difference, height, hierarchy_depth, in_graph, is_beneath,
    lemma_ancestry, lemma_ancestry_prefix, lemma_first_difference, lemma_height, lemma_origin_start,
    lemma_parting, lemma_sources_lower, lemma_starts_lower, node_at, node_shaped, order_lengths,
    order_positions, order_siblings, order_specializes, origin_count, origin_start, parting,
    source_of, valid, Graph,
};
use crate::prim_index_graph::walk::{
    by_strength, child_groups, children_of, equal_runs, first_weaker, good_group, good_groups,
    holds_id, is_stronger, lemma_by_strength, lemma_child_groups, lemma_children_of,
    lemma_equal_runs, lemma_first_weaker, lemma_rank_place, lemma_rest_good, lemma_walk,
    lemma_walk_all, placement, ranked, under, walk, walk_all,
};
use crate::prim_index_graph::NodeId;
use vstd::prelude::*;

verus! {

// ── Pairs of siblings ───────────────────────────────────────────────────

/// Siblings of different arc kinds rank as their kinds do: local, inherits,
/// variants, relocates, references, payloads, specializes, whatever else their
/// arcs hold.
pub proof fn law_siblings_rank_by_arc_kind(g: Graph, a: NodeId, b: NodeId, i: int, j: int)
    requires
        valid(g),
        in_graph(g, a),
        in_graph(g, b),
        0 <= i < j < 7,
        node_at(g, a).arc.arc_kind == seq![
            ArcKind::Local,
            ArcKind::Inherits,
            ArcKind::Variants,
            ArcKind::Relocates,
            ArcKind::References,
            ArcKind::Payloads,
            ArcKind::Specializes,
        ][i],
        node_at(g, b).arc.arc_kind == seq![
            ArcKind::Local,
            ArcKind::Inherits,
            ArcKind::Variants,
            ArcKind::Relocates,
            ArcKind::References,
            ArcKind::Payloads,
            ArcKind::Specializes,
        ][j],
    ensures
        order_siblings(g, a, b) == Order::Less,
        order_siblings(g, b, a) == Order::Greater,
{
}

/// Of two siblings of one kind other than specializes, the one authored on the
/// deeper prim is stronger.
pub proof fn law_deeper_arcs_are_stronger(g: Graph, a: NodeId, b: NodeId)
    requires
        valid(g),
        in_graph(g, a),
        in_graph(g, b),
        node_at(g, a).arc.arc_kind == node_at(g, b).arc.arc_kind,
        node_at(g, a).arc.arc_kind != ArcKind::Specializes,
        node_at(g, a).arc.namespace_depth > node_at(g, b).arc.namespace_depth,
    ensures
        order_siblings(g, a, b) == Order::Less,
        order_siblings(g, b, a) == Order::Greater,
{
}

proof fn lemma_beneath_height(g: Graph, id: NodeId, ancestor: NodeId)
    requires
        valid(g),
        in_graph(g, id),
        is_beneath(g, id, ancestor),
    ensures
        height(g, ancestor) <= height(g, id),
        id != ancestor ==> height(g, ancestor) < height(g, id),
    decreases height(g, id),
{
    lemma_height(g, id);
    if id != ancestor {
        let next = above(g, id)->0;
        lemma_beneath_height(g, next, ancestor);
    }
}

/// Of two arcs of one kind authored on the same prim, in the same list, the
/// one listed first is stronger.
pub proof fn law_listed_arcs_keep_their_order(g: Graph, a: NodeId, b: NodeId)
    requires
        valid(g),
        in_graph(g, a),
        in_graph(g, b),
        node_at(g, a).arc.arc_kind == node_at(g, b).arc.arc_kind,
        node_at(g, a).arc.namespace_depth == node_at(g, b).arc.namespace_depth,
        node_at(g, a).parent == node_at(g, b).parent,
        node_at(g, a).origin is None,
        node_at(g, b).origin is None,
        node_at(g, a).arc.sibling_index < node_at(g, b).arc.sibling_index,
    ensures
        order_siblings(g, a, b) == Order::Less,
        order_siblings(g, b, a) == Order::Greater,
{
    lemma_height(g, a);
    lemma_height(g, b);
    if node_at(g, a).arc.arc_kind == ArcKind::Specializes {
        assert(order_specializes(g, a, b) == Order::Equal);
        assert(order_specializes(g, b, a) == Order::Equal);
    }
}

/// An arc authored on a node is stronger than one of its kind and depth that is
/// implied there from beneath the node.
pub proof fn law_authored_arcs_outrank_those_implied_from_beneath(
    g: Graph,
    a: NodeId,
    b: NodeId,
    parent: NodeId,
    origin: NodeId,
)
    requires
        valid(g),
        in_graph(g, a),
        in_graph(g, b),
        node_at(g, a).arc.arc_kind == node_at(g, b).arc.arc_kind,
        node_at(g, a).arc.arc_kind != ArcKind::Specializes,
        node_at(g, a).arc.namespace_depth == node_at(g, b).arc.namespace_depth,
        node_at(g, a).parent == Some(parent),
        node_at(g, a).origin is None,
        node_at(g, b).origin == Some(origin),
        origin != parent,
        in_graph(g, origin),
        ancestry(g, origin).contains(parent),
    ensures
        order_siblings(g, a, b) == Order::Less,
        order_siblings(g, b, a) == Order::Greater,
{
    lemma_height(g, a);
    lemma_height(g, b);
    law_a_node_comes_before_those_beneath_it(g, parent, origin);
    lemma_sources_lower(g, a, b);
    lemma_sources_lower(g, b, a);
}

/// Of two siblings of one kind and depth, other than specializes, whose arcs
/// come from different nodes, the one that comes from the stronger node is
/// stronger.
pub proof fn law_stronger_sources_decide(g: Graph, a: NodeId, b: NodeId)
    requires
        valid(g),
        in_graph(g, a),
        in_graph(g, b),
        node_at(g, a).arc.arc_kind == node_at(g, b).arc.arc_kind,
        node_at(g, a).arc.arc_kind != ArcKind::Specializes,
        node_at(g, a).arc.namespace_depth == node_at(g, b).arc.namespace_depth,
        source_of(g, a) is Some,
        source_of(g, b) is Some,
        source_of(g, a) != source_of(g, b),
        order_positions(g, source_of(g, a)->0, source_of(g, b)->0) == Order::Less,
    ensures
        order_siblings(g, a, b) == Order::Less,
        order_siblings(g, b, a) == Order::Greater,
{
    lemma_sources_lower(g, a, b);
    lemma_sources_lower(g, b, a);
    law_positions_reverse(g, source_of(g, a)->0, source_of(g, b)->0);
}

/// Of two siblings that specialize, with starting origins of which neither lies
/// beneath the other, the one authored on the deeper prim is stronger.
pub proof fn law_deeper_specializes_arcs_are_stronger(g: Graph, a: NodeId, b: NodeId)
    requires
        valid(g),
        in_graph(g, a),
        in_graph(g, b),
        node_at(g, a).arc.arc_kind == ArcKind::Specializes,
        node_at(g, b).arc.arc_kind == ArcKind::Specializes,
        !is_beneath(g, origin_start(g, a), origin_start(g, b)),
        !is_beneath(g, origin_start(g, b), origin_start(g, a)),
        node_at(g, a).arc.namespace_depth > node_at(g, b).arc.namespace_depth,
    ensures
        order_siblings(g, a, b) == Order::Less,
        order_siblings(g, b, a) == Order::Greater,
{
    assert(order_specializes(g, a, b) == Order::Less);
    assert(order_specializes(g, b, a) == Order::Greater);
}

/// Of two siblings that specialize, with different starting origins of which
/// one lies beneath the other, the one whose starting origin comes first is
/// stronger, whatever the depths.
pub proof fn law_nested_specializes_arcs_rank_by_their_starts(g: Graph, a: NodeId, b: NodeId)
    requires
        valid(g),
        in_graph(g, a),
        in_graph(g, b),
        node_at(g, a).arc.arc_kind == ArcKind::Specializes,
        node_at(g, b).arc.arc_kind == ArcKind::Specializes,
        source_of(g, a) is Some,
        source_of(g, b) is Some,
        source_of(g, a) != source_of(g, b),
        origin_start(g, a) != origin_start(g, b),
        is_beneath(g, origin_start(g, a), origin_start(g, b)) || is_beneath(
            g,
            origin_start(g, b),
            origin_start(g, a),
        ),
        order_positions(g, origin_start(g, a), origin_start(g, b)) == Order::Less,
    ensures
        order_siblings(g, a, b) == Order::Less,
        order_siblings(g, b, a) == Order::Greater,
{
    lemma_starts_lower(g, a, b);
    lemma_starts_lower(g, b, a);
    law_positions_reverse(g, origin_start(g, a), origin_start(g, b));
    assert(order_specializes(g, a, b) == Order::Less);
    assert(order_specializes(g, b, a) == Order::Greater);
}

/// Of two siblings that come from one authored specializes arc through
/// different nodes, the one whose class hierarchy starts at the shallower prim
/// is stronger; where that is alike, the one implied further from the arc.
pub proof fn law_further_implied_specializes_arcs_are_stronger(g: Graph, a: NodeId, b: NodeId)
    requires
        valid(g),
        in_graph(g, a),
        in_graph(g, b),
        node_at(g, a).arc.arc_kind == ArcKind::Specializes,
        node_at(g, b).arc.arc_kind == ArcKind::Specializes,
        source_of(g, a) is Some,
        source_of(g, b) is Some,
        source_of(g, a) != source_of(g, b),
        origin_start(g, a) == origin_start(g, b),
        hierarchy_depth(g, a) < hierarchy_depth(g, b) || (hierarchy_depth(g, a)
            == hierarchy_depth(g, b) && origin_count(g, a) > origin_count(g, b)),
    ensures
        order_siblings(g, a, b) == Order::Less,
        order_siblings(g, b, a) == Order::Greater,
{
    lemma_origin_start(g, a);
    assert(is_beneath(g, origin_start(g, a), origin_start(g, b)));
    assert(order_specializes(g, a, b) == Order::Less);
    assert(order_specializes(g, b, a) == Order::Greater);
}

/// Of two siblings that specialize and come from one node, the one implied to
/// another site is stronger than the one propagated to the site of its origin.
pub proof fn law_implied_specializes_arcs_outrank_propagated_ones(
    g: Graph,
    a: NodeId,
    b: NodeId,
    origin: NodeId,
)
    requires
        valid(g),
        in_graph(g, a),
        in_graph(g, b),
        node_at(g, a).arc.arc_kind == ArcKind::Specializes,
        node_at(g, b).arc.arc_kind == ArcKind::Specializes,
        node_at(g, a).origin == Some(origin),
        node_at(g, b).origin == Some(origin),
        node_at(g, a).arc.layer_stack != node_at(g, origin).arc.layer_stack || node_at(
            g,
            a,
        ).arc.site != node_at(g, origin).arc.site,
        node_at(g, b).arc.layer_stack == node_at(g, origin).arc.layer_stack,
        node_at(g, b).arc.site == node_at(g, origin).arc.site,
    ensures
        order_siblings(g, a, b) == Order::Less,
        order_siblings(g, b, a) == Order::Greater,
{
    lemma_height(g, a);
    lemma_origin_start(g, origin);
    assert(origin_start(g, a) == origin_start(g, b));
    assert(is_beneath(g, origin_start(g, a), origin_start(g, b)));
    assert(order_specializes(g, a, b) == Order::Less);
    assert(order_specializes(g, b, a) == Order::Greater);
}

proof fn lemma_parting_reverse(g: Graph, a: NodeId, b: NodeId)
    requires
        valid(g),
        in_graph(g, a),
        in_graph(g, b),
    ensures
        parting(g, b, a) == (match parting(g, a, b) {
            Some((p, q)) => Some((q, p)),
            None => None,
        }),
{
    let path_a = ancestry(g, a);
    let path_b = ancestry(g, b);
    lemma_first_difference(path_a, path_b, 0);
    lemma_first_difference(path_b, path_a, 0);
    let k = first_difference(path_a, path_b, 0);
    let l = first_difference(path_b, path_a, 0);
    if k < l {
        assert(path_b[k] == path_a[k]);
    }
    if l < k {
        assert(path_a[l] == path_b[l]);
    }
}

/// Comparing two siblings the other way round gives the opposite answer.
pub proof fn law_sibling_order_reverses(g: Graph, a: NodeId, b: NodeId)
    requires
        valid(g),
        in_graph(g, a),
        in_graph(g, b),
    ensures
        order_siblings(g, b, a) == order_siblings(g, a, b).spec_reverse(),
    decreases height(g, a) + height(g, b), 1nat,
{
    let arc = node_at(g, a).arc;
    if arc.arc_kind == node_at(g, b).arc.arc_kind {
        if arc.arc_kind == ArcKind::Specializes {
            lemma_specializes_reverse(g, a, b);
        } else {
            lemma_sources_reverse(g, a, b);
            lemma_sources_lower(g, a, b);
            lemma_sources_lower(g, b, a);
        }
    }
}

proof fn lemma_sources_reverse(g: Graph, a: NodeId, b: NodeId)
    requires
        valid(g),
        in_graph(g, a),
        in_graph(g, b),
    ensures
        source_of(g, a) is Some && source_of(g, b) is Some ==> {
            let x = source_of(g, a)->0;
            let y = source_of(g, b)->0;
            &&& parting(g, y, x) == (match parting(g, x, y) {
                Some((p, q)) => Some((q, p)),
                None => None,
            })
            &&& match parting(g, x, y) {
                Some((p, q)) => order_siblings(g, q, p) == order_siblings(g, p, q).spec_reverse(),
                None => order_lengths(g, y, x) == order_lengths(g, x, y).spec_reverse(),
            }
        },
    decreases height(g, a) + height(g, b), 0nat,
{
    if source_of(g, a) is Some && source_of(g, b) is Some {
        let x = source_of(g, a)->0;
        let y = source_of(g, b)->0;
        lemma_sources_lower(g, a, b);
        lemma_parting_reverse(g, x, y);
        if parting(g, x, y) is Some {
            let (p, q) = parting(g, x, y)->0;
            law_sibling_order_reverses(g, p, q);
        }
    }
}

proof fn lemma_specializes_reverse(g: Graph, a: NodeId, b: NodeId)
    requires
        valid(g),
        in_graph(g, a),
        in_graph(g, b),
    ensures
        order_specializes(g, b, a) == order_specializes(g, a, b).spec_reverse(),
    decreases height(g, a) + height(g, b), 0nat,
{
    let root_a = origin_start(g, a);
    let root_b = origin_start(g, b);
    if source_of(g, a) is Some && source_of(g, b) is Some && source_of(g, a) != source_of(g, b) {
        let x = source_of(g, a)->0;
        let y = source_of(g, b)->0;
        lemma_sources_lower(g, a, b);
        lemma_starts_lower(g, a, b);
        lemma_parting_reverse(g, x, y);
        lemma_parting_reverse(g, root_a, root_b);
        if parting(g, x, y) is Some {
            let (p, q) = parting(g, x, y)->0;
            law_sibling_order_reverses(g, p, q);
        }
        if parting(g, root_a, root_b) is Some {
            let (p, q) = parting(g, root_a, root_b)->0;
            law_sibling_order_reverses(g, p, q);
        }
    }
}

/// Where two nodes sit, asked the other way round, is the opposite.
pub proof fn law_positions_reverse(g: Graph, a: NodeId, b: NodeId)
    requires
        valid(g),
        in_graph(g, a),
        in_graph(g, b),
    ensures
        order_positions(g, b, a) == order_positions(g, a, b).spec_reverse(),
{
    lemma_parting(g, a, b);
    lemma_parting_reverse(g, a, b);
    if parting(g, a, b) is Some {
        let (p, q) = parting(g, a, b)->0;
        law_sibling_order_reverses(g, p, q);
    }
}

/// A node comes before every node beneath it.
pub proof fn law_a_node_comes_before_those_beneath_it(g: Graph, a: NodeId, b: NodeId)
    requires
        valid(g),
        in_graph(g, a),
        in_graph(g, b),
        a != b,
        ancestry(g, b).contains(a),
    ensures
        order_positions(g, a, b) == Order::Less,
        order_positions(g, b, a) == Order::Greater,
{
    let path = ancestry(g, b);
    lemma_ancestry(g, a);
    lemma_ancestry(g, b);
    let k = choose|k: int| 0 <= k < path.len() && path[k] == a;
    lemma_ancestry_prefix(g, b, k);
    assert(ancestry(g, a) == path.take(k + 1));
    lemma_first_difference(ancestry(g, a), path, 0);
    assert(k + 1 < path.len());
    let d = first_difference(ancestry(g, a), path, 0);
    if d < k + 1 {
        assert(path.take(k + 1)[d] == path[d]);
    }
    law_positions_reverse(g, a, b);
}

/// The nodes beneath two siblings come in the siblings' order.
pub proof fn law_positions_follow_the_siblings_above(
    g: Graph,
    a: NodeId,
    b: NodeId,
    x: NodeId,
    y: NodeId,
)
    requires
        valid(g),
        in_graph(g, a),
        in_graph(g, b),
        in_graph(g, x),
        in_graph(g, y),
        a != b,
        node_at(g, a).parent is Some,
        node_at(g, a).parent == node_at(g, b).parent,
        ancestry(g, x).contains(a),
        ancestry(g, y).contains(b),
    ensures
        order_positions(g, x, y) == order_siblings(g, a, b),
{
    let path_x = ancestry(g, x);
    let path_y = ancestry(g, y);
    lemma_ancestry(g, a);
    lemma_ancestry(g, b);
    let k = choose|k: int| 0 <= k < path_x.len() && path_x[k] == a;
    let l = choose|l: int| 0 <= l < path_y.len() && path_y[l] == b;
    lemma_ancestry_prefix(g, x, k);
    lemma_ancestry_prefix(g, y, l);
    assert(node_shaped(g, a.0 as int));
    assert(node_shaped(g, b.0 as int));
    let parent = node_at(g, a).parent->0;
    assert(ancestry(g, a) == ancestry(g, parent).push(a));
    assert(ancestry(g, b) == ancestry(g, parent).push(b));
    assert(path_x.take(k + 1).len() == path_y.take(l + 1).len());
    assert(k == l);
    lemma_first_difference(path_x, path_y, 0);
    let d = first_difference(path_x, path_y, 0);
    assert forall|i: int| 0 <= i < k implies path_x[i] == path_y[i] by {
        assert(path_x.take(k + 1)[i] == path_x[i]);
        assert(path_y.take(k + 1)[i] == path_y[i]);
        assert(ancestry(g, a)[i] == ancestry(g, b)[i]);
    }
    if d > k {
        assert(path_x[k] == path_y[k]);
    }
}

// ── Ranks ───────────────────────────────────────────────────────────────

/// What of a sibling is compared first: its kind and then, but for specializes
/// arcs, its depth.
spec fn first_key(g: Graph, x: NodeId) -> int {
    let arc = node_at(g, x).arc;
    arc.arc_kind.spec_strength_rank() * 0x1_0000 + if arc.arc_kind == ArcKind::Specializes {
        0
    } else {
        0xffff - arc.namespace_depth
    }
}

proof fn lemma_first_key(g: Graph, a: NodeId, b: NodeId)
    requires
        valid(g),
        in_graph(g, a),
        in_graph(g, b),
    ensures
        first_key(g, a) < first_key(g, b) ==> order_siblings(g, a, b) == Order::Less,
        first_key(g, a) > first_key(g, b) ==> order_siblings(g, a, b) == Order::Greater,
{
}

spec fn all_in(g: Graph, s: Seq<NodeId>) -> bool {
    forall|i: int| 0 <= i < s.len() ==> in_graph(g, #[trigger] s[i])
}

spec fn keys_ascend(g: Graph, s: Seq<NodeId>) -> bool {
    forall|i: int, j: int|
        0 <= i <= j < s.len() ==> first_key(g, #[trigger] s[i]) <= first_key(g, #[trigger] s[j])
}

proof fn lemma_before_first_weaker(g: Graph, ordered: Seq<NodeId>, x: NodeId, from: int)
    requires
        0 <= from <= ordered.len(),
    ensures
        forall|i: int|
            from <= i < first_weaker(g, ordered, x, from) ==> !is_stronger(
                g,
                x,
                #[trigger] ordered[i],
            ),
        first_weaker(g, ordered, x, from) < ordered.len() ==> is_stronger(
            g,
            x,
            ordered[first_weaker(g, ordered, x, from)],
        ),
        (exists|i: int| from <= i < ordered.len() && is_stronger(g, x, #[trigger] ordered[i]))
            ==> first_weaker(g, ordered, x, from) < ordered.len(),
    decreases ordered.len() - from,
{
    if from < ordered.len() && !is_stronger(g, x, ordered[from]) {
        lemma_before_first_weaker(g, ordered, x, from + 1);
    }
}

proof fn lemma_placed_by_key(g: Graph, siblings: Seq<NodeId>)
    requires
        valid(g),
        all_in(g, siblings),
    ensures
        all_in(g, by_strength(g, siblings)),
        keys_ascend(g, by_strength(g, siblings)),
    decreases siblings.len(),
{
    if siblings.len() > 0 {
        let rest = siblings.drop_last();
        let x = siblings.last();
        let ordered = by_strength(g, rest);
        assert(all_in(g, rest)) by {
            assert forall|i: int| 0 <= i < rest.len() implies in_graph(g, #[trigger] rest[i]) by {
                assert(rest[i] == siblings[i]);
            }
        }
        assert(in_graph(g, siblings[siblings.len() - 1]));
        lemma_placed_by_key(g, rest);
        let at = placement(g, ordered, x);
        lemma_first_weaker(g, ordered, x, 0);
        lemma_before_first_weaker(g, ordered, x, 0);
        assert forall|i: int| 0 <= i < at implies first_key(g, #[trigger] ordered[i]) <= first_key(
            g,
            x,
        ) by {
            lemma_first_key(g, x, ordered[i]);
            lemma_first_key(g, x, ordered.last());
            if ordered.len() > 0 && !is_stronger(g, x, ordered[0]) && !is_stronger(
                g,
                x,
                ordered.last(),
            ) {
                assert(first_key(g, ordered[i]) <= first_key(g, ordered[ordered.len() - 1]));
            }
        }
        if 0 <= at < ordered.len() {
            lemma_first_key(g, x, ordered[at]);
            assert(is_stronger(g, x, ordered[at])) by {
                if at == 0 && is_stronger(g, x, ordered[0]) {
                } else {
                    assert(is_stronger(g, x, ordered[ordered.len() - 1]));
                }
            }
        }
        let out = by_strength(g, siblings);
        assert forall|i: int, j: int| 0 <= i <= j < out.len() implies first_key(
            g,
            #[trigger] out[i],
        ) <= first_key(g, #[trigger] out[j]) by {
            if j < at {
                assert(out[i] == ordered[i] && out[j] == ordered[j]);
            } else if j == at {
                if i < at {
                    assert(out[i] == ordered[i]);
                }
            } else {
                assert(out[j] == ordered[j - 1]);
                if i < at {
                    assert(out[i] == ordered[i]);
                } else if i == at {
                    assert(first_key(g, ordered[at]) <= first_key(g, ordered[j - 1]));
                } else {
                    assert(out[i] == ordered[i - 1]);
                }
            }
        }
        assert forall|i: int| 0 <= i < out.len() implies in_graph(g, #[trigger] out[i]) by {
            if i < at {
                assert(out[i] == ordered[i]);
            } else if i > at {
                assert(out[i] == ordered[i - 1]);
            }
        }
    }
}

/// Whether the nodes of each group agree in what is compared first.
spec fn one_key(g: Graph, group: Seq<NodeId>) -> bool {
    forall|x: NodeId, y: NodeId| #[trigger]
        group.contains(x) && #[trigger] group.contains(y) ==> first_key(g, x) == first_key(g, y)
}

spec fn groups_by_key(g: Graph, groups: Seq<Seq<NodeId>>) -> bool {
    &&& forall|k: int| 0 <= k < groups.len() ==> one_key(g, #[trigger] groups[k])
    &&& forall|k: int, l: int, x: NodeId, y: NodeId|
        0 <= k < l < groups.len() && #[trigger] groups[k].contains(x)
            && #[trigger] groups[l].contains(y) ==> first_key(g, x) <= first_key(g, y)
}

proof fn lemma_runs_by_key(g: Graph, s: Seq<NodeId>)
    requires
        valid(g),
        all_in(g, s),
        s.no_duplicates(),
        keys_ascend(g, s),
    ensures
        groups_by_key(g, equal_runs(g, s)),
    decreases s.len(),
{
    if s.len() > 0 {
        let rest = s.drop_last();
        let before = equal_runs(g, rest);
        let runs = equal_runs(g, s);
        let last = s.last();
        assert forall|i: int, j: int| 0 <= i <= j < rest.len() implies first_key(
            g,
            #[trigger] rest[i],
        ) <= first_key(g, #[trigger] rest[j]) by {
            assert(rest[i] == s[i] && rest[j] == s[j]);
        }
        assert forall|i: int| 0 <= i < rest.len() implies in_graph(g, #[trigger] rest[i]) by {
            assert(rest[i] == s[i]);
        }
        assert forall|i: int, j: int|
            0 <= i < rest.len() && 0 <= j < rest.len() && i != j implies rest[i] != rest[j] by {
            assert(rest[i] == s[i] && rest[j] == s[j]);
        }
        lemma_runs_by_key(g, rest);
        lemma_equal_runs(g, rest);
        lemma_equal_runs(g, s);
        assert(s[s.len() - 1] == last);
        assert forall|k: int, x: NodeId|
            0 <= k < before.len() && #[trigger] before[k].contains(x) implies first_key(g, x)
            <= first_key(g, last) by {
            assert(holds_id(before, x));
            assert(rest.contains(x));
            let i = choose|i: int| 0 <= i < rest.len() && rest[i] == x;
            assert(first_key(g, s[i]) <= first_key(g, s[s.len() - 1]));
        }
        if s.len() > 1 && order_siblings(g, s[s.len() - 2], last) == Order::Equal {
            let n = before.len() - 1;
            let previous = rest.last();
            lemma_first_key(g, s[s.len() - 2], last);
            assert(rest[rest.len() - 1] == previous);
            assert(before.last().len() > 0);
            assert(before[n][before[n].len() - 1] == previous);
            assert(before[n].contains(previous));
            assert forall|x: NodeId| #[trigger] runs[n].contains(x) implies before[n].contains(x)
                || x == last by {
                let i = choose|i: int| 0 <= i < runs[n].len() && runs[n][i] == x;
                if i < before[n].len() {
                    assert(before[n][i] == x);
                }
            }
            assert forall|x: NodeId| #[trigger] runs[n].contains(x) implies first_key(g, x)
                == first_key(g, previous) by {
            }
            assert forall|k: int| 0 <= k < runs.len() implies one_key(g, #[trigger] runs[k]) by {
                if k < n {
                    assert(runs[k] == before[k]);
                }
            }
            assert forall|k: int, l: int, x: NodeId, y: NodeId|
                0 <= k < l < runs.len() && #[trigger] runs[k].contains(x)
                    && #[trigger] runs[l].contains(y) implies first_key(g, x) <= first_key(g, y) by {
                assert(runs[k] == before[k]);
                if l < n {
                    assert(runs[l] == before[l]);
                } else {
                    assert(before[n].contains(previous));
                    assert(before[k].contains(x));
                }
            }
        } else {
            let n = before.len();
            assert forall|x: NodeId| #[trigger] runs[n as int].contains(x) implies x == last by {
                let i = choose|i: int| 0 <= i < runs[n as int].len() && runs[n as int][i] == x;
            }
            assert forall|k: int| 0 <= k < runs.len() implies one_key(g, #[trigger] runs[k]) by {
                if k < n {
                    assert(runs[k] == before[k]);
                }
            }
            assert forall|k: int, l: int, x: NodeId, y: NodeId|
                0 <= k < l < runs.len() && #[trigger] runs[k].contains(x)
                    && #[trigger] runs[l].contains(y) implies first_key(g, x) <= first_key(g, y) by {
                assert(runs[k] == before[k]);
                assert(before[k].contains(x));
                if l < n {
                    assert(runs[l] == before[l]);
                }
            }
        }
    }
}

proof fn lemma_child_groups_by_key(g: Graph, group: Seq<NodeId>, depth: nat)
    requires
        valid(g),
        good_group(g, group, depth),
    ensures
        groups_by_key(g, child_groups(g, group)),
{
    let kids = children_of(g, group);
    lemma_children_of(g, group, depth);
    assert forall|i: int| 0 <= i < kids.len() implies in_graph(g, #[trigger] kids[i]) by {
        assert(kids.contains(kids[i]));
    }
    lemma_by_strength(g, kids);
    lemma_placed_by_key(g, kids);
    lemma_runs_by_key(g, by_strength(g, kids));
}

proof fn lemma_keys_walk(
    g: Graph,
    group: Seq<NodeId>,
    depth: nat,
    a: NodeId,
    b: NodeId,
    ka: int,
    kb: int,
)
    requires
        valid(g),
        good_group(g, group, depth),
        one_key(g, group),
        in_graph(g, a),
        in_graph(g, b),
        node_at(g, a).parent is Some,
        node_at(g, a).parent == node_at(g, b).parent,
        first_key(g, a) < first_key(g, b),
        0 <= ka < walk(g, group, depth).len(),
        0 <= kb < walk(g, group, depth).len(),
        walk(g, group, depth)[ka].contains(a),
        walk(g, group, depth)[kb].contains(b),
    ensures
        ka < kb,
    decreases g.len() - depth, 0nat,
{
    let all = walk(g, group, depth);
    let groups = child_groups(g, group);
    let below = walk_all(g, groups, depth + 1);
    lemma_walk(g, group, depth);
    lemma_child_groups(g, group, depth);
    lemma_child_groups_by_key(g, group, depth);
    lemma_walk_all(g, groups, depth + 1);
    assert(all =~= seq![group] + below);
    assert(node_shaped(g, a.0 as int));
    assert(node_shaped(g, b.0 as int));
    if kb == 0 {
        if ka > 0 {
            let i = choose|i: int| 0 <= i < group.len() && group[i] == b;
            assert(ancestry(g, group[i]).len() == depth + 1);
            assert(below[ka - 1].contains(a));
            assert(holds_id(below, a));
            let k = choose|k: int|
                0 <= k < groups.len() && under(g, a, #[trigger] groups[k], depth + 1);
            assert(false);
        } else {
            assert(group.contains(a) && group.contains(b));
        }
    } else if ka > 0 {
        assert(below[ka - 1].contains(a));
        assert(below[kb - 1].contains(b));
        lemma_keys_walk_all(g, groups, depth + 1, a, b, ka - 1, kb - 1);
    }
}

proof fn lemma_keys_walk_all(
    g: Graph,
    groups: Seq<Seq<NodeId>>,
    depth: nat,
    a: NodeId,
    b: NodeId,
    ka: int,
    kb: int,
)
    requires
        valid(g),
        good_groups(g, groups, depth),
        groups_by_key(g, groups),
        in_graph(g, a),
        in_graph(g, b),
        node_at(g, a).parent is Some,
        node_at(g, a).parent == node_at(g, b).parent,
        first_key(g, a) < first_key(g, b),
        0 <= ka < walk_all(g, groups, depth).len(),
        0 <= kb < walk_all(g, groups, depth).len(),
        walk_all(g, groups, depth)[ka].contains(a),
        walk_all(g, groups, depth)[kb].contains(b),
    ensures
        ka < kb,
    decreases g.len() - depth, groups.len() + 1,
{
    let all = walk_all(g, groups, depth);
    let rest = groups.drop_first();
    lemma_rest_good(g, groups, depth);
    let first = walk(g, groups[0], depth);
    let others = walk_all(g, rest, depth);
    lemma_walk(g, groups[0], depth);
    lemma_walk_all(g, rest, depth);
    assert(all =~= first + others);
    let n = first.len();
    assert(node_shaped(g, a.0 as int));
    assert(node_shaped(g, b.0 as int));
    if kb < n {
        assert(first[kb].contains(b));
        assert(holds_id(first, b));
        assert(under(g, b, groups[0], depth));
        if ka < n {
            assert(first[ka].contains(a));
            assert(one_key(g, groups[0]));
            lemma_keys_walk(g, groups[0], depth, a, b, ka, kb);
        } else {
            assert(others[ka - n].contains(a));
            assert(holds_id(others, a));
            let i = choose|i: int| 0 <= i < rest.len() && under(g, a, #[trigger] rest[i], depth);
            let parent = node_at(g, a).parent->0;
            assert(ancestry(g, a) == ancestry(g, parent).push(a));
            assert(ancestry(g, b) == ancestry(g, parent).push(b));
            let top = ancestry(g, a)[depth as int];
            let other = ancestry(g, b)[depth as int];
            assert(groups[i + 1].contains(top));
            assert(groups[0].contains(other));
            assert(false);
        }
    } else if ka >= n {
        assert(others[ka - n].contains(a));
        assert(others[kb - n].contains(b));
        assert(groups_by_key(g, rest)) by {
            assert forall|k: int| 0 <= k < rest.len() implies one_key(g, #[trigger] rest[k]) by {
                assert(rest[k] == groups[k + 1]);
            }
            assert forall|k: int, l: int, x: NodeId, y: NodeId|
                0 <= k < l < rest.len() && #[trigger] rest[k].contains(x)
                    && #[trigger] rest[l].contains(y) implies first_key(g, x) <= first_key(g, y) by {
                assert(groups[k + 1].contains(x) && groups[l + 1].contains(y));
            }
        }
        lemma_keys_walk_all(g, rest, depth, a, b, ka - n, kb - n);
    }
}

proof fn lemma_rank_by_key(g: Graph, ranks: Seq<u32>, a: NodeId, b: NodeId)
    requires
        valid(g),
        ranked(g, ranks),
        in_graph(g, a),
        in_graph(g, b),
        node_at(g, a).parent is Some,
        node_at(g, a).parent == node_at(g, b).parent,
        first_key(g, a) < first_key(g, b),
    ensures
        ranks[a.0 as int] < ranks[b.0 as int],
{
    let ka = lemma_rank_place(g, ranks, a);
    let kb = lemma_rank_place(g, ranks, b);
    let root = seq![NodeId(0)];
    assert(node_shaped(g, 0));
    assert(in_graph(g, root[0]) && ancestry(g, root[0]).len() == 1);
    lemma_keys_walk(g, root, 0, a, b, ka, kb);
}

/// The children of a node are ranked by their arc kinds: local, inherits,
/// variants, relocates, references, payloads, specializes.
pub proof fn law_ranks_follow_arc_kinds(
    g: Graph,
    ranks: Seq<u32>,
    a: NodeId,
    b: NodeId,
    i: int,
    j: int,
)
    requires
        valid(g),
        ranked(g, ranks),
        in_graph(g, a),
        in_graph(g, b),
        node_at(g, a).parent is Some,
        node_at(g, a).parent == node_at(g, b).parent,
        0 <= i < j < 7,
        node_at(g, a).arc.arc_kind == seq![
            ArcKind::Local,
            ArcKind::Inherits,
            ArcKind::Variants,
            ArcKind::Relocates,
            ArcKind::References,
            ArcKind::Payloads,
            ArcKind::Specializes,
        ][i],
        node_at(g, b).arc.arc_kind == seq![
            ArcKind::Local,
            ArcKind::Inherits,
            ArcKind::Variants,
            ArcKind::Relocates,
            ArcKind::References,
            ArcKind::Payloads,
            ArcKind::Specializes,
        ][j],
    ensures
        ranks[a.0 as int] < ranks[b.0 as int],
{
    lemma_rank_by_key(g, ranks, a, b);
}

/// The children of a node that share a kind other than specializes are ranked
/// by the depths their arcs are authored at, the deepest first.
pub proof fn law_ranks_follow_depths(g: Graph, ranks: Seq<u32>, a: NodeId, b: NodeId)
    requires
        valid(g),
        ranked(g, ranks),
        in_graph(g, a),
        in_graph(g, b),
        node_at(g, a).parent is Some,
        node_at(g, a).parent == node_at(g, b).parent,
        node_at(g, a).arc.arc_kind == node_at(g, b).arc.arc_kind,
        node_at(g, a).arc.arc_kind != ArcKind::Specializes,
        node_at(g, a).arc.namespace_depth > node_at(g, b).arc.namespace_depth,
    ensures
        ranks[a.0 as int] < ranks[b.0 as int],
{
    lemma_rank_by_key(g, ranks, a, b);
}

} // verus!
