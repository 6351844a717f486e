//! Which nodes stay when a graph is pruned, and what it becomes.

use crate::prim_index_graph::model::{
    acyclic, are_heights, ids_ascend, in_graph, node_at, node_shaped, shaped, Graph, NodeView,
};
use crate::prim_index_graph::NodeId;
use vstd::prelude::*;

verus! {

/// Whether a node leads to another: its parent or its origin.
pub open spec fn leads_to(g: Graph, x: NodeId, y: NodeId) -> bool {
    node_at(g, x).parent == Some(y) || node_at(g, x).origin == Some(y)
}

/// Whether each node of a chain leads to the next.
pub open spec fn is_chain(g: Graph, chain: Seq<NodeId>) -> bool {
    &&& chain.len() > 0
    &&& forall|k: int| 0 <= k < chain.len() ==> in_graph(g, #[trigger] chain[k])
    &&& forall|k: int|
        0 <= k < chain.len() - 1 ==> leads_to(g, #[trigger] chain[k], chain[k + 1])
}

/// Whether a node stays: it is wanted, or a wanted node leads to it through
/// parents and origins.
pub open spec fn stays(g: Graph, wanted: Seq<bool>, id: NodeId) -> bool {
    exists|chain: Seq<NodeId>| #[trigger]
        is_chain(g, chain) && chain.last() == id && wanted[chain[0].0 as int]
}

/// Which nodes stay.
pub open spec fn staying(g: Graph, wanted: Seq<bool>) -> Seq<bool> {
    Seq::new(g.len(), |i: int| stays(g, wanted, NodeId(i as u32)))
}

/// The flagged ones of the first `i` items.
pub open spec fn selected<T>(items: Seq<T>, flags: Seq<bool>, i: int) -> Seq<T>
    decreases i,
{
    if i <= 0 {
        seq![]
    } else if flags[i - 1] {
        selected(items, flags, i - 1).push(items[i - 1])
    } else {
        selected(items, flags, i - 1)
    }
}

/// What a staying node leads to stays.
pub proof fn lemma_stays_step(g: Graph, wanted: Seq<bool>, x: NodeId, y: NodeId)
    requires
        in_graph(g, y),
        stays(g, wanted, x),
        leads_to(g, x, y),
    ensures
        stays(g, wanted, y),
{
    let chain = choose|chain: Seq<NodeId>| #[trigger]
        is_chain(g, chain) && chain.last() == x && wanted[chain[0].0 as int];
    let longer = chain.push(y);
    assert forall|k: int| 0 <= k < longer.len() implies in_graph(g, #[trigger] longer[k]) by {
        if k < chain.len() {
            assert(longer[k] == chain[k]);
        }
    }
    assert forall|k: int| 0 <= k < longer.len() - 1 implies leads_to(
        g,
        #[trigger] longer[k],
        longer[k + 1],
    ) by {
        assert(longer[k] == chain[k]);
        if k + 1 < chain.len() {
            assert(longer[k + 1] == chain[k + 1]);
            assert(leads_to(g, chain[k], chain[k + 1]));
        }
    }
    assert(is_chain(g, longer));
}

/// A wanted node stays.
pub proof fn lemma_wanted_stays(g: Graph, wanted: Seq<bool>, id: NodeId)
    requires
        in_graph(g, id),
        wanted[id.0 as int],
    ensures
        stays(g, wanted, id),
{
    assert(is_chain(g, seq![id]));
}

/// Whether the flagged nodes are closed under leading and hold the wanted ones.
pub open spec fn closed_under(g: Graph, wanted: Seq<bool>, flags: Seq<bool>) -> bool {
    &&& forall|i: int| 0 <= i < g.len() && wanted[i] ==> #[trigger] flags[i]
    &&& forall|x: NodeId, y: NodeId|
        in_graph(g, x) && in_graph(g, y) && flags[x.0 as int] && #[trigger] leads_to(g, x, y)
            ==> flags[y.0 as int]
}

/// A closed set of flags holds all that stays.
pub proof fn lemma_closed_holds(g: Graph, wanted: Seq<bool>, flags: Seq<bool>, id: NodeId)
    requires
        closed_under(g, wanted, flags),
        stays(g, wanted, id),
    ensures
        flags[id.0 as int],
{
    let chain = choose|chain: Seq<NodeId>| #[trigger]
        is_chain(g, chain) && chain.last() == id && wanted[chain[0].0 as int];
    lemma_closed_chain(g, wanted, flags, chain, chain.len() - 1);
}

proof fn lemma_closed_chain(
    g: Graph,
    wanted: Seq<bool>,
    flags: Seq<bool>,
    chain: Seq<NodeId>,
    k: int,
)
    requires
        closed_under(g, wanted, flags),
        is_chain(g, chain),
        wanted[chain[0].0 as int],
        0 <= k < chain.len(),
    ensures
        flags[chain[k].0 as int],
    decreases k,
{
    assert(in_graph(g, chain[k]));
    if k == 0 {
        assert(flags[chain[0].0 as int]);
    } else {
        lemma_closed_chain(g, wanted, flags, chain, k - 1);
        assert(in_graph(g, chain[k - 1]));
        assert(leads_to(g, chain[k - 1], chain[k - 1 + 1]));
    }
}

// ── The pruned graph ────────────────────────────────────────────────────

/// How many of the first `i` flags are set.
pub open spec fn count_set(flags: Seq<bool>, i: int) -> nat
    decreases i,
{
    if i <= 0 {
        0
    } else if flags[i - 1] {
        count_set(flags, i - 1) + 1
    } else {
        count_set(flags, i - 1)
    }
}

/// The new id of a node, none where it is removed.
pub open spec fn new_id(flags: Seq<bool>, id: NodeId) -> Option<NodeId> {
    if flags[id.0 as int] {
        Some(NodeId(count_set(flags, id.0 as int) as u32))
    } else {
        None
    }
}

/// The new id of an optional node.
pub open spec fn new_optional(flags: Seq<bool>, id: Option<NodeId>) -> Option<NodeId> {
    match id {
        Some(id) => new_id(flags, id),
        None => None,
    }
}

/// The new ids of the nodes that stay.
pub open spec fn new_ids(flags: Seq<bool>, ids: Seq<NodeId>) -> Seq<NodeId>
    decreases ids.len(),
{
    if ids.len() == 0 {
        seq![]
    } else {
        match new_id(flags, ids.last()) {
            Some(id) => new_ids(flags, ids.drop_last()).push(id),
            None => new_ids(flags, ids.drop_last()),
        }
    }
}

/// A node with its links renamed.
pub open spec fn renamed(flags: Seq<bool>, node: NodeView) -> NodeView {
    NodeView {
        parent: new_optional(flags, node.parent),
        origin: new_optional(flags, node.origin),
        children: new_ids(flags, node.children),
        arc: node.arc,
    }
}

/// The flagged ones of the first `i` nodes, renamed.
pub open spec fn pruned_upto(g: Graph, flags: Seq<bool>, i: int) -> Graph
    decreases i,
{
    if i <= 0 {
        seq![]
    } else if flags[i - 1] {
        pruned_upto(g, flags, i - 1).push(renamed(flags, g[i - 1]))
    } else {
        pruned_upto(g, flags, i - 1)
    }
}

/// The flagged nodes of a graph, renamed.
pub open spec fn pruned(g: Graph, flags: Seq<bool>) -> Graph {
    pruned_upto(g, flags, g.len() as int)
}

pub proof fn lemma_count_set(flags: Seq<bool>, i: int, j: int)
    requires
        0 <= i <= j <= flags.len(),
    ensures
        count_set(flags, i) <= count_set(flags, j) <= j,
        count_set(flags, j) - count_set(flags, i) <= j - i,
        i < j && flags[i] ==> count_set(flags, i) < count_set(flags, j),
    decreases j,
{
    if i < j {
        lemma_count_set(flags, i, j - 1);
    } else if i > 0 {
        lemma_count_set(flags, i - 1, i - 1);
    }
}

pub proof fn lemma_pruned_upto(g: Graph, flags: Seq<bool>, i: int)
    requires
        0 <= i <= g.len(),
        flags.len() == g.len(),
    ensures
        pruned_upto(g, flags, i).len() == count_set(flags, i),
        forall|k: int|
            0 <= k < i && flags[k] ==> pruned_upto(g, flags, i)[count_set(
                flags,
                k,
            ) as int] == renamed(flags, #[trigger] g[k]),
    decreases i,
{
    if i > 0 {
        lemma_pruned_upto(g, flags, i - 1);
        assert forall|k: int| 0 <= k < i && flags[k] implies pruned_upto(
            g,
            flags,
            i,
        )[count_set(flags, k) as int] == renamed(flags, #[trigger] g[k]) by {
            if k < i - 1 {
                lemma_count_set(flags, k, i - 1);
            }
        }
    }
}

/// Each new place has an old one.
pub proof fn lemma_old_place(g: Graph, flags: Seq<bool>, i: int, at: int) -> (k: int)
    requires
        0 <= i <= g.len(),
        flags.len() == g.len(),
        0 <= at < count_set(flags, i),
    ensures
        0 <= k < i,
        flags[k],
        count_set(flags, k) == at,
    decreases i,
{
    if flags[i - 1] && count_set(flags, i - 1) == at {
        i - 1
    } else {
        lemma_old_place(g, flags, i - 1, at)
    }
}

pub proof fn lemma_new_ids(flags: Seq<bool>, ids: Seq<NodeId>)
    requires
        forall|k: int| 0 <= k < ids.len() ==> (#[trigger] ids[k]).0 < flags.len(),
        ids_ascend(ids),
        flags.len() <= u32::MAX,
    ensures
        forall|k: int|
            #![trigger new_ids(flags, ids)[k]]
            0 <= k < new_ids(flags, ids).len() ==> exists|j: int|
                0 <= j < ids.len() && flags[(#[trigger] ids[j]).0 as int] && new_ids(flags, ids)[k]
                    == NodeId(count_set(flags, ids[j].0 as int) as u32),
        forall|j: int|
            0 <= j < ids.len() && flags[(#[trigger] ids[j]).0 as int] ==> new_ids(
                flags,
                ids,
            ).contains(NodeId(count_set(flags, ids[j].0 as int) as u32)),
        ids_ascend(new_ids(flags, ids)),
    decreases ids.len(),
{
    let out = new_ids(flags, ids);
    if ids.len() > 0 {
        let rest = ids.drop_last();
        let last = ids.last();
        assert forall|k: int| 0 <= k < rest.len() implies (#[trigger] rest[k]).0 < flags.len() by {
            assert(rest[k] == ids[k]);
        }
        assert(ids_ascend(rest)) by {
            assert forall|i: int, j: int| 0 <= i < j < rest.len() implies (#[trigger] rest[i]).0 < (
            #[trigger] rest[j]).0 by {
                assert(rest[i] == ids[i] && rest[j] == ids[j]);
            }
        }
        lemma_new_ids(flags, rest);
        let before = new_ids(flags, rest);
        assert(ids[ids.len() - 1].0 < flags.len());
        assert forall|k: int|
            #![trigger out[k]]
            0 <= k < out.len() implies exists|j: int|
            0 <= j < ids.len() && flags[(#[trigger] ids[j]).0 as int] && out[k] == NodeId(
                count_set(flags, ids[j].0 as int) as u32,
            ) by {
            if k < before.len() {
                let j = choose|j: int|
                    0 <= j < rest.len() && flags[(#[trigger] rest[j]).0 as int] && before[k]
                        == NodeId(count_set(flags, rest[j].0 as int) as u32);
                assert(ids[j] == rest[j]);
            } else {
                let j = ids.len() - 1;
                assert(ids[j] == last);
            }
        }
        assert forall|j: int|
            0 <= j < ids.len() && flags[(#[trigger] ids[j]).0 as int] implies out.contains(
            NodeId(count_set(flags, ids[j].0 as int) as u32),
        ) by {
            if j < rest.len() {
                assert(rest[j] == ids[j]);
                let x = NodeId(count_set(flags, ids[j].0 as int) as u32);
                let k = choose|k: int| 0 <= k < before.len() && before[k] == x;
                assert(out[k] == x);
            } else {
                assert(out[out.len() - 1] == NodeId(count_set(flags, ids[j].0 as int) as u32));
            }
        }
        assert forall|i: int, j: int| 0 <= i < j < out.len() implies (#[trigger] out[i]).0 < (
        #[trigger] out[j]).0 by {
            if j < before.len() {
                assert(out[i] == before[i] && out[j] == before[j]);
            } else {
                let m = choose|m: int|
                    0 <= m < rest.len() && flags[(#[trigger] rest[m]).0 as int] && before[i]
                        == NodeId(count_set(flags, rest[m].0 as int) as u32);
                assert(ids[m] == rest[m]);
                assert(ids[m].0 < ids[ids.len() - 1].0);
                lemma_count_set(flags, ids[m].0 as int, last.0 as int);
                lemma_count_set(flags, last.0 as int, flags.len() as int);
            }
        }
    }
}

/// Whether the parent and the origin of each flagged node are flagged.
spec fn keeps_links(g: Graph, flags: Seq<bool>) -> bool {
    forall|k: int|
        0 <= k < g.len() && #[trigger] flags[k] ==> {
            &&& (g[k].parent is Some ==> flags[(g[k].parent->0).0 as int])
            &&& (g[k].origin is Some ==> flags[(g[k].origin->0).0 as int])
        }
}

proof fn lemma_keeps_links(g: Graph, wanted: Seq<bool>, flags: Seq<bool>)
    requires
        shaped(g),
        wanted.len() == g.len(),
        flags.len() == g.len(),
        forall|i: int|
            0 <= i < g.len() ==> #[trigger] flags[i] == stays(g, wanted, NodeId(i as u32)),
    ensures
        keeps_links(g, flags),
{
    assert forall|k: int| 0 <= k < g.len() && #[trigger] flags[k] implies {
        &&& (g[k].parent is Some ==> flags[(g[k].parent->0).0 as int])
        &&& (g[k].origin is Some ==> flags[(g[k].origin->0).0 as int])
    } by {
        assert(node_shaped(g, k));
        let id = NodeId(k as u32);
        assert(stays(g, wanted, id));
        if g[k].parent is Some {
            let p = g[k].parent->0;
            lemma_stays_step(g, wanted, id, p);
            assert(NodeId(p.0 as int as u32) == p);
        }
        if g[k].origin is Some {
            let o = g[k].origin->0;
            lemma_stays_step(g, wanted, id, o);
            assert(NodeId(o.0 as int as u32) == o);
        }
    }
}

/// The renamed children of a flagged node are linked with it.
proof fn lemma_children_pruned(g: Graph, flags: Seq<bool>, k: int)
    requires
        shaped(g),
        flags.len() == g.len(),
        0 <= k < g.len(),
        flags[k],
    ensures
        ({
            let out = pruned(g, flags);
            let i = count_set(flags, k) as int;
            let children = new_ids(flags, g[k].children);
            &&& ids_ascend(children)
            &&& forall|c: int|
                0 <= c < children.len() ==> {
                    &&& i < (#[trigger] children[c]).0 < out.len()
                    &&& node_at(out, children[c]).parent == Some(NodeId(i as u32))
                }
            &&& forall|j: int|
                0 <= j < g[k].children.len() && flags[(#[trigger] g[k].children[j]).0 as int]
                    ==> children.contains(
                    NodeId(count_set(flags, g[k].children[j].0 as int) as u32),
                )
        }),
{
    let out = pruned(g, flags);
    let n = g.len() as int;
    let i = count_set(flags, k) as int;
    let olds = g[k].children;
    let children = new_ids(flags, olds);
    lemma_pruned_upto(g, flags, n);
    assert(node_shaped(g, k));
    assert forall|m: int| 0 <= m < olds.len() implies (#[trigger] olds[m]).0 < flags.len() by {}
    lemma_new_ids(flags, olds);
    assert forall|c: int| 0 <= c < children.len() implies {
        &&& i < (#[trigger] children[c]).0 < out.len()
        &&& node_at(out, children[c]).parent == Some(NodeId(i as u32))
    } by {
        let j = choose|j: int|
            0 <= j < olds.len() && flags[(#[trigger] olds[j]).0 as int] && children[c] == NodeId(
                count_set(flags, olds[j].0 as int) as u32,
            );
        let old_child = olds[j].0 as int;
        assert(k < olds[j].0 < g.len());
        lemma_count_set(flags, k, old_child);
        lemma_count_set(flags, old_child, n);
        assert(out[count_set(flags, old_child) as int] == renamed(flags, g[old_child]));
        assert(node_at(g, olds[j]).parent == Some(NodeId(k as u32)));
    }
}

proof fn lemma_node_pruned(g: Graph, flags: Seq<bool>, k: int)
    requires
        shaped(g),
        flags.len() == g.len(),
        keeps_links(g, flags),
        flags[0],
        0 <= k < g.len(),
        flags[k],
    ensures
        node_shaped(pruned(g, flags), count_set(flags, k) as int),
{
    let out = pruned(g, flags);
    let n = g.len() as int;
    let i = count_set(flags, k) as int;
    lemma_pruned_upto(g, flags, n);
    lemma_count_set(flags, k, n);
    lemma_count_set(flags, 0, k);
    lemma_children_pruned(g, flags, k);
    let node = g[k];
    assert(out[i] == renamed(flags, node));
    assert(node_shaped(g, k));
    if node.parent is Some {
        let p = (node.parent->0).0 as int;
        assert(flags[p]);
        lemma_count_set(flags, p, k);
        lemma_count_set(flags, p, n);
        assert(out[count_set(flags, p) as int] == renamed(flags, g[p]));
        lemma_children_pruned(g, flags, p);
        let siblings = g[p].children;
        let j = choose|j: int| 0 <= j < siblings.len() && siblings[j] == NodeId(k as u32);
        assert(flags[siblings[j].0 as int]);
        assert(out[i].parent == Some(NodeId(count_set(flags, p) as u32)));
        assert(node_at(out, out[i].parent->0).children.contains(NodeId(i as u32)));
    }
    if node.origin is Some {
        let o = (node.origin->0).0 as int;
        assert(flags[o]);
        lemma_count_set(flags, o, n);
    }
}

proof fn lemma_acyclic_pruned(g: Graph, flags: Seq<bool>)
    requires
        shaped(g),
        acyclic(g),
        flags.len() == g.len(),
        keeps_links(g, flags),
    ensures
        acyclic(pruned(g, flags)),
{
    let out = pruned(g, flags);
    let n = g.len() as int;
    lemma_pruned_upto(g, flags, n);
    let heights = choose|heights: Seq<nat>| are_heights(g, heights);
    let olds = Seq::new(out.len(), |i: int| choose|k: int| old_place(flags, n, i, k));
    let lower = Seq::new(out.len(), |i: int| heights[olds[i]]);
    assert forall|i: int| 0 <= i < out.len() implies {
        &&& (#[trigger] out[i]).parent is Some ==> lower[(out[i].parent->0).0 as int] < lower[i]
        &&& out[i].origin is Some ==> lower[(out[i].origin->0).0 as int] < lower[i]
    } by {
        lemma_olds(g, flags, i);
        let k = olds[i];
        assert(flags[k]);
        assert(node_shaped(g, k));
        assert(out[i] == renamed(flags, g[k]));
        assert(are_heights(g, heights));
        if g[k].parent is Some {
            let p = (g[k].parent->0).0 as int;
            assert(flags[p]);
            lemma_count_set(flags, p, n);
            lemma_olds(g, flags, count_set(flags, p) as int);
            lemma_same_place(flags, olds[count_set(flags, p) as int], p);
        }
        if g[k].origin is Some {
            let o = (g[k].origin->0).0 as int;
            assert(flags[o]);
            lemma_count_set(flags, o, n);
            lemma_olds(g, flags, count_set(flags, o) as int);
            lemma_same_place(flags, olds[count_set(flags, o) as int], o);
        }
    }
    assert(are_heights(out, lower));
}

/// A pruned graph is still a tree: what stays keeps its parents and origins.
pub proof fn law_pruning_keeps_the_shape(g: Graph, wanted: Seq<bool>, flags: Seq<bool>)
    requires
        shaped(g),
        wanted.len() == g.len(),
        flags.len() == g.len(),
        forall|i: int|
            0 <= i < g.len() ==> #[trigger] flags[i] == stays(g, wanted, NodeId(i as u32)),
    ensures
        shaped(pruned(g, flags)),
        acyclic(g) ==> acyclic(pruned(g, flags)),
{
    let out = pruned(g, flags);
    let n = g.len() as int;
    lemma_keeps_links(g, wanted, flags);
    lemma_pruned_upto(g, flags, n);
    lemma_count_set(flags, 0, n);
    if out.len() > 0 {
        let k = lemma_old_place(g, flags, n, 0);
        lemma_root_flagged(g, flags, k);
    }
    assert forall|i: int| 0 <= i < out.len() implies #[trigger] node_shaped(out, i) by {
        let k = lemma_old_place(g, flags, n, i);
        lemma_node_pruned(g, flags, k);
    }
    if acyclic(g) {
        lemma_acyclic_pruned(g, flags);
    }
}

/// Whether the node now at `i` was at `k`.
spec fn old_place(flags: Seq<bool>, n: int, i: int, k: int) -> bool {
    0 <= k < n && flags[k] && count_set(flags, k) == i
}

proof fn lemma_olds(g: Graph, flags: Seq<bool>, i: int)
    requires
        flags.len() == g.len(),
        0 <= i < count_set(flags, g.len() as int),
    ensures
        old_place(
            flags,
            g.len() as int,
            i,
            choose|k: int| old_place(flags, g.len() as int, i, k),
        ),
{
    let k = lemma_old_place(g, flags, g.len() as int, i);
    assert(old_place(flags, g.len() as int, i, k));
}

proof fn lemma_same_place(flags: Seq<bool>, a: int, b: int)
    requires
        0 <= a < flags.len(),
        0 <= b < flags.len(),
        flags[a],
        flags[b],
        count_set(flags, a) == count_set(flags, b),
    ensures
        a == b,
{
    if a < b {
        lemma_count_set(flags, a, b);
    } else if b < a {
        lemma_count_set(flags, b, a);
    }
}

/// Where any node is flagged, the root is.
proof fn lemma_root_flagged(g: Graph, flags: Seq<bool>, k: int)
    requires
        shaped(g),
        flags.len() == g.len(),
        0 <= k < g.len(),
        flags[k],
        forall|i: int|
            0 <= i < g.len() && #[trigger] flags[i] ==> (g[i].parent is Some
                ==> flags[(g[i].parent->0).0 as int]),
    ensures
        flags[0],
    decreases k,
{
    assert(node_shaped(g, k));
    if k > 0 {
        lemma_root_flagged(g, flags, (g[k].parent->0).0 as int);
    }
}

proof fn lemma_pruned_len(g: Graph, flags: Seq<bool>, n: int)
    requires
        0 <= n <= g.len(),
        flags.len() == g.len(),
    ensures
        pruned_upto(g, flags, n).len() == count_set(flags, n),
    decreases n,
{
    if n > 0 {
        lemma_pruned_len(g, flags, n - 1);
    }
}

proof fn lemma_pruned_node(g: Graph, flags: Seq<bool>, n: int, i: int)
    requires
        0 <= i < n <= g.len(),
        flags.len() == g.len(),
        flags[i],
    ensures
        count_set(flags, i) < pruned_upto(g, flags, n).len(),
        pruned_upto(g, flags, n)[count_set(flags, i) as int] == renamed(flags, g[i]),
    decreases n,
{
    lemma_pruned_len(g, flags, n - 1);
    if i < n - 1 {
        lemma_pruned_node(g, flags, n - 1, i);
    }
}

proof fn lemma_counts_grow(flags: Seq<bool>, i: int, j: int)
    requires
        0 <= i < j <= flags.len(),
    ensures
        count_set(flags, i) <= count_set(flags, j),
        flags[i] ==> count_set(flags, i) < count_set(flags, j),
    decreases j - i,
{
    if i < j - 1 {
        lemma_counts_grow(flags, i, j - 1);
    }
}

/// Pruning keeps every node that is to stay, with its arc, in the order the
/// nodes had; its parent and its origin are the nodes that these became.
pub proof fn law_pruning_keeps_the_nodes(g: Graph, flags: Seq<bool>, i: int, j: int)
    requires
        flags.len() == g.len() <= u32::MAX,
        0 <= i < j < g.len(),
        flags[i],
        flags[j],
    ensures
        ({
            let out = pruned(g, flags);
            &&& new_id(flags, NodeId(i as u32)) matches Some(a) && (new_id(
                flags,
                NodeId(j as u32),
            ) matches Some(b) && a.0 < b.0 < out.len() && out[a.0 as int].arc == g[i].arc
                && out[b.0 as int].arc == g[j].arc && (g[j].parent == Some(NodeId(i as u32))
                ==> out[b.0 as int].parent == Some(a)) && (g[j].origin == Some(NodeId(i as u32))
                ==> out[b.0 as int].origin == Some(a)) && (g[i].origin == Some(NodeId(j as u32))
                ==> out[a.0 as int].origin == Some(b)))
            &&& g[j].parent is None ==> out[count_set(flags, j) as int].parent is None
            &&& g[j].origin is None ==> out[count_set(flags, j) as int].origin is None
        }),
{
    lemma_pruned_node(g, flags, g.len() as int, i);
    lemma_pruned_node(g, flags, g.len() as int, j);
    lemma_pruned_len(g, flags, g.len() as int);
    lemma_counts_grow(flags, i, j);
    lemma_counts_grow(flags, j, g.len() as int);
    lemma_count_bound(flags, g.len() as int);
}

proof fn lemma_count_bound(flags: Seq<bool>, n: int)
    requires
        0 <= n <= flags.len(),
    ensures
        count_set(flags, n) <= n,
    decreases n,
{
    if n > 0 {
        lemma_count_bound(flags, n - 1);
    }
}

/// What is wanted stays, with its parent and its origin, and theirs; and nothing
/// stays that no wanted node leads to.
pub proof fn law_what_is_wanted_stays(g: Graph, wanted: Seq<bool>, id: NodeId, next: NodeId)
    requires
        wanted.len() == g.len(),
        in_graph(g, id),
        in_graph(g, next),
    ensures
        wanted[id.0 as int] ==> stays(g, wanted, id),
        stays(g, wanted, id) && (node_at(g, id).parent == Some(next) || node_at(g, id).origin
            == Some(next)) ==> stays(g, wanted, next),
        (forall|k: int| 0 <= k < wanted.len() ==> !(#[trigger] wanted[k])) ==> !stays(
            g,
            wanted,
            id,
        ),
{
    if wanted[id.0 as int] {
        let chain = seq![id];
        assert(is_chain(g, chain) && chain.last() == id);
    }
    if stays(g, wanted, id) {
        let chain = choose|chain: Seq<NodeId>| #[trigger]
            is_chain(g, chain) && chain.last() == id && wanted[chain[0].0 as int];
        assert(in_graph(g, chain[0]));
        if leads_to(g, id, next) {
            let more = chain.push(next);
            assert forall|k: int| 0 <= k < more.len() implies in_graph(g, #[trigger] more[k]) by {
                if k < chain.len() {
                    assert(more[k] == chain[k]);
                }
            }
            assert forall|k: int| 0 <= k < more.len() - 1 implies leads_to(
                g,
                #[trigger] more[k],
                more[k + 1],
            ) by {
                assert(more[k] == chain[k]);
                if k < chain.len() - 1 {
                    assert(more[k + 1] == chain[k + 1]);
                }
            }
            assert(more[0] == chain[0]);
            assert(is_chain(g, more) && more.last() == next);
        }
    }
}

} // verus!
