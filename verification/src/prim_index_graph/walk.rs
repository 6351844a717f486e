//! The strong-to-weak walk of a composition graph.

use crate::order::Order;
use crate::prim_index_graph::model::{
    ancestry, in_graph, lemma_ancestry, lemma_ancestry_prefix, node_at, node_shaped, order_siblings,
    shaped, valid, Graph,
};
use crate::prim_index_graph::NodeId;
use vstd::prelude::*;

verus! {

/// Whether `a` is stronger than its sibling `b`.
pub open spec fn is_stronger(g: Graph, a: NodeId, b: NodeId) -> bool {
    order_siblings(g, a, b) == Order::Less
}

/// The first place from `from` on whose node `x` is stronger than.
pub open spec fn first_weaker(g: Graph, ordered: Seq<NodeId>, x: NodeId, from: int) -> int
    decreases ordered.len() - from,
{
    if from < 0 || from >= ordered.len() {
        ordered.len() as int
    } else if is_stronger(g, x, ordered[from]) {
        from
    } else {
        first_weaker(g, ordered, x, from + 1)
    }
}

/// Where `x` is put among the siblings placed before it: in front if it is
/// stronger than the first, behind if it is not stronger than the last, and
/// otherwise before the first one that it is stronger than.
pub open spec fn placement(g: Graph, ordered: Seq<NodeId>, x: NodeId) -> int {
    if ordered.len() == 0 {
        0
    } else if is_stronger(g, x, ordered[0]) {
        0
    } else if !is_stronger(g, x, ordered.last()) {
        ordered.len() as int
    } else {
        first_weaker(g, ordered, x, 0)
    }
}

/// The siblings strongest first, each placed in turn.
pub open spec fn by_strength(g: Graph, siblings: Seq<NodeId>) -> Seq<NodeId>
    decreases siblings.len(),
{
    if siblings.len() == 0 {
        seq![]
    } else {
        let ordered = by_strength(g, siblings.drop_last());
        ordered.insert(placement(g, ordered, siblings.last()), siblings.last())
    }
}

/// The runs of neighbours that compare equal.
pub open spec fn equal_runs(g: Graph, s: Seq<NodeId>) -> Seq<Seq<NodeId>>
    decreases s.len(),
{
    if s.len() == 0 {
        seq![]
    } else {
        let runs = equal_runs(g, s.drop_last());
        if s.len() > 1 && order_siblings(g, s[s.len() - 2], s.last()) == Order::Equal {
            runs.drop_last().push(runs.last().push(s.last()))
        } else {
            runs.push(seq![s.last()])
        }
    }
}

/// The children of a group of nodes, in order.
pub open spec fn children_of(g: Graph, group: Seq<NodeId>) -> Seq<NodeId>
    decreases group.len(),
{
    if group.len() == 0 {
        seq![]
    } else {
        children_of(g, group.drop_last()) + node_at(g, group.last()).children
    }
}

/// The groups of equally strong children of a group, strongest first.
pub open spec fn child_groups(g: Graph, group: Seq<NodeId>) -> Seq<Seq<NodeId>> {
    equal_runs(g, by_strength(g, children_of(g, group)))
}

/// The groups of equally strong nodes at and beneath a group at `depth`,
/// strongest first: the group itself, then everything beneath its strongest
/// children, and so on.
pub open spec fn walk(g: Graph, group: Seq<NodeId>, depth: nat) -> Seq<Seq<NodeId>>
    decreases g.len() - depth, 0nat,
{
    if depth >= g.len() {
        seq![]
    } else {
        seq![group] + walk_all(g, child_groups(g, group), depth + 1)
    }
}

/// The walks of several groups at `depth`, one after the other.
pub open spec fn walk_all(g: Graph, groups: Seq<Seq<NodeId>>, depth: nat) -> Seq<Seq<NodeId>>
    decreases g.len() - depth, groups.len() + 1,
{
    if groups.len() == 0 {
        seq![]
    } else {
        walk(g, groups[0], depth) + walk_all(g, groups.drop_first(), depth)
    }
}

/// The groups of equally strong nodes of a graph, strongest first.
pub open spec fn strength_groups(g: Graph) -> Seq<Seq<NodeId>> {
    if g.len() == 0 {
        seq![]
    } else {
        walk(g, seq![NodeId(0)], 0)
    }
}

/// Whether each node's rank is the place of its group.
pub open spec fn ranked(g: Graph, ranks: Seq<u32>) -> bool {
    &&& ranks.len() == g.len()
    &&& forall|k: int, j: int|
        0 <= k < strength_groups(g).len() && 0 <= j < strength_groups(g)[k].len() ==> ranks[(
        #[trigger] strength_groups(g)[k][j]).0 as int] == k
}

// ── Members ─────────────────────────────────────────────────────────────

pub proof fn lemma_first_weaker(g: Graph, ordered: Seq<NodeId>, x: NodeId, from: int)
    requires
        0 <= from <= ordered.len(),
    ensures
        from <= first_weaker(g, ordered, x, from) <= ordered.len(),
    decreases ordered.len() - from,
{
    if from < ordered.len() && !is_stronger(g, x, ordered[from]) {
        lemma_first_weaker(g, ordered, x, from + 1);
    }
}

/// Placing siblings keeps them all, once each.
pub proof fn lemma_by_strength(g: Graph, siblings: Seq<NodeId>)
    ensures
        by_strength(g, siblings).len() == siblings.len(),
        forall|x: NodeId|
            #![trigger by_strength(g, siblings).contains(x)]
            #![trigger siblings.contains(x)]
            by_strength(g, siblings).contains(x) <==> siblings.contains(x),
        siblings.no_duplicates() ==> by_strength(g, siblings).no_duplicates(),
    decreases siblings.len(),
{
    let out = by_strength(g, siblings);
    if siblings.len() > 0 {
        let rest = siblings.drop_last();
        let last = siblings.last();
        let ordered = by_strength(g, rest);
        lemma_by_strength(g, rest);
        let at = placement(g, ordered, last);
        lemma_first_weaker(g, ordered, last, 0);
        assert(0 <= at <= ordered.len());
        assert(siblings =~= rest.push(last));
        assert forall|x: NodeId| out.contains(x) <==> siblings.contains(x) by {
            if siblings.contains(x) {
                let i = choose|i: int| 0 <= i < siblings.len() && siblings[i] == x;
                if i < rest.len() {
                    assert(rest[i] == x);
                    assert(ordered.contains(x));
                    let j = choose|j: int| 0 <= j < ordered.len() && ordered[j] == x;
                    if j < at {
                        assert(out[j] == x);
                    } else {
                        assert(out[j + 1] == x);
                    }
                } else {
                    assert(out[at] == x);
                }
            }
            if out.contains(x) {
                let j = choose|j: int| 0 <= j < out.len() && out[j] == x;
                if j == at {
                    assert(siblings[siblings.len() - 1] == x);
                } else {
                    let k = if j < at {
                        j
                    } else {
                        j - 1
                    };
                    assert(ordered[k] == x);
                    assert(rest.contains(x));
                    let i = choose|i: int| 0 <= i < rest.len() && rest[i] == x;
                    assert(siblings[i] == x);
                }
            }
        }
        if siblings.no_duplicates() {
            assert(rest.no_duplicates());
            assert(!rest.contains(last)) by {
                if rest.contains(last) {
                    let i = choose|i: int| 0 <= i < rest.len() && rest[i] == last;
                    assert(siblings[i] == siblings[siblings.len() - 1]);
                }
            }
            assert(!ordered.contains(last));
            assert forall|i: int, j: int|
                0 <= i < out.len() && 0 <= j < out.len() && i != j implies out[i] != out[j] by {
                let a = if i < at {
                    i
                } else {
                    i - 1
                };
                let b = if j < at {
                    j
                } else {
                    j - 1
                };
                if i == at {
                    assert(out[j] == ordered[b]);
                } else if j == at {
                    assert(out[i] == ordered[a]);
                } else {
                    assert(out[i] == ordered[a] && out[j] == ordered[b]);
                }
            }
        }
    } else {
        assert(out =~= siblings);
    }
}

/// Whether the ids of a list of groups are all different and no group is empty.
pub open spec fn distinct(groups: Seq<Seq<NodeId>>) -> bool {
    &&& forall|k: int|
        0 <= k < groups.len() ==> (#[trigger] groups[k]).len() > 0 && groups[k].no_duplicates()
    &&& forall|k: int, l: int, x: NodeId|
        0 <= k < groups.len() && 0 <= l < groups.len() && #[trigger] groups[k].contains(x)
            && #[trigger] groups[l].contains(x) ==> k == l
}

/// Whether an id stands in one of the groups.
pub open spec fn holds_id(groups: Seq<Seq<NodeId>>, x: NodeId) -> bool {
    exists|k: int| 0 <= k < groups.len() && #[trigger] groups[k].contains(x)
}

/// The runs of a list without duplicates hold each of its ids once.
pub proof fn lemma_equal_runs(g: Graph, s: Seq<NodeId>)
    requires
        s.no_duplicates(),
    ensures
        distinct(equal_runs(g, s)),
        forall|x: NodeId|
            #![trigger holds_id(equal_runs(g, s), x)]
            #![trigger s.contains(x)]
            holds_id(equal_runs(g, s), x) <==> s.contains(x),
        s.len() > 0 ==> equal_runs(g, s).len() > 0 && equal_runs(g, s).last().last() == s.last(),
    decreases s.len(),
{
    let runs = equal_runs(g, s);
    if s.len() > 0 {
        let rest = s.drop_last();
        let last = s.last();
        lemma_equal_runs(g, rest);
        let before = equal_runs(g, rest);
        assert(s =~= rest.push(last));
        assert(!rest.contains(last)) by {
            if rest.contains(last) {
                let i = choose|i: int| 0 <= i < rest.len() && rest[i] == last;
                assert(s[i] == s[s.len() - 1]);
            }
        }
        assert(!holds_id(before, last));
        let joins = s.len() > 1 && order_siblings(g, s[s.len() - 2], last) == Order::Equal;
        let end = before.len() - 1;
        assert forall|k: int, x: NodeId|
            0 <= k < runs.len() implies (#[trigger] runs[k].contains(x) <==> (if joins {
            before[k].contains(x) || k == end && x == last
        } else {
            if k < before.len() {
                before[k].contains(x)
            } else {
                x == last
            }
        })) by {
            if joins && k == end {
                let old_run = before[end];
                assert(runs[k] == old_run.push(last));
                if old_run.contains(x) {
                    let i = choose|i: int| 0 <= i < old_run.len() && old_run[i] == x;
                    assert(runs[k][i] == x);
                }
                if x == last {
                    assert(runs[k][old_run.len() as int] == x);
                }
                if runs[k].contains(x) {
                    let i = choose|i: int| 0 <= i < runs[k].len() && runs[k][i] == x;
                    if i < old_run.len() {
                        assert(old_run[i] == x);
                    }
                }
            } else if !joins && k == before.len() {
                assert(runs[k] == seq![last]);
                if x == last {
                    assert(runs[k][0] == x);
                }
            } else {
                assert(runs[k] == before[k]);
            }
        }
        assert forall|k: int| 0 <= k < runs.len() implies (#[trigger] runs[k]).len() > 0
            && runs[k].no_duplicates() by {
            if joins && k == end {
                let old_run = before[end];
                assert(!old_run.contains(last)) by {
                    if old_run.contains(last) {
                        assert(holds_id(before, last));
                    }
                }
                assert forall|i: int, j: int|
                    0 <= i < runs[k].len() && 0 <= j < runs[k].len() && i != j implies runs[k][i]
                    != runs[k][j] by {
                    if i < old_run.len() && j < old_run.len() {
                        assert(old_run.no_duplicates());
                    } else if i < old_run.len() {
                        assert(old_run.contains(old_run[i]));
                    } else if j < old_run.len() {
                        assert(old_run.contains(old_run[j]));
                    }
                }
            } else if k < before.len() {
                assert(runs[k] == before[k]);
            }
        }
        assert forall|k: int, l: int, x: NodeId|
            0 <= k < runs.len() && 0 <= l < runs.len() && #[trigger] runs[k].contains(x)
                && #[trigger] runs[l].contains(x) implies k == l by {
            if x == last {
                if k < before.len() && before[k].contains(x) {
                    assert(holds_id(before, last));
                }
                if l < before.len() && before[l].contains(x) {
                    assert(holds_id(before, last));
                }
            }
        }
        assert forall|x: NodeId| holds_id(runs, x) <==> s.contains(x) by {
            if holds_id(runs, x) {
                let k = choose|k: int| 0 <= k < runs.len() && #[trigger] runs[k].contains(x);
                if x == last {
                    assert(s[s.len() - 1] == x);
                } else {
                    assert(before[k].contains(x));
                    assert(holds_id(before, x));
                    let i = choose|i: int| 0 <= i < rest.len() && rest[i] == x;
                    assert(s[i] == x);
                }
            }
            if s.contains(x) {
                if x == last {
                    let k = runs.len() - 1;
                    assert(runs[k].contains(x));
                } else {
                    let i = choose|i: int| 0 <= i < s.len() && s[i] == x;
                    assert(rest[i] == x);
                    assert(holds_id(before, x));
                    let k = choose|k: int|
                        0 <= k < before.len() && #[trigger] before[k].contains(x);
                    assert(runs[k].contains(x));
                }
            }
        }
    }
}

/// Whether a group can be walked at `depth`: some nodes at that depth, once
/// each.
pub open spec fn good_group(g: Graph, group: Seq<NodeId>, depth: nat) -> bool {
    &&& group.len() > 0
    &&& group.no_duplicates()
    &&& forall|i: int|
        0 <= i < group.len() ==> in_graph(g, #[trigger] group[i]) && ancestry(g, group[i]).len()
            == depth + 1
}

/// Whether several groups can be walked at `depth`.
pub open spec fn good_groups(g: Graph, groups: Seq<Seq<NodeId>>, depth: nat) -> bool {
    &&& distinct(groups)
    &&& forall|k: int| 0 <= k < groups.len() ==> good_group(g, #[trigger] groups[k], depth)
}

/// The children of a group: the nodes one deeper whose parent is in it.
pub proof fn lemma_children_of(g: Graph, group: Seq<NodeId>, depth: nat)
    requires
        valid(g),
        group.no_duplicates(),
        forall|i: int|
            0 <= i < group.len() ==> in_graph(g, #[trigger] group[i]) && ancestry(
                g,
                group[i],
            ).len() == depth + 1,
    ensures
        children_of(g, group).no_duplicates(),
        forall|x: NodeId|
            children_of(g, group).contains(x) <==> in_graph(g, x) && node_at(g, x).parent is Some
                && group.contains(node_at(g, x).parent->0),
        forall|x: NodeId| #[trigger]
            children_of(g, group).contains(x) ==> ancestry(g, x).len() == depth + 2,
    decreases group.len(),
{
    let kids = children_of(g, group);
    if group.len() > 0 {
        let rest = group.drop_last();
        let last = group.last();
        lemma_children_of(g, rest, depth);
        let upper = children_of(g, rest);
        let own = node_at(g, last).children;
        assert(in_graph(g, group[group.len() - 1]));
        assert(node_shaped(g, last.0 as int));
        assert(group =~= rest.push(last));
        assert(!rest.contains(last)) by {
            if rest.contains(last) {
                let i = choose|i: int| 0 <= i < rest.len() && rest[i] == last;
                assert(group[i] == group[group.len() - 1]);
            }
        }
        assert forall|x: NodeId| own.contains(x) <==> in_graph(g, x) && node_at(g, x).parent
            == Some(last) by {
            if own.contains(x) {
                let i = choose|i: int| 0 <= i < own.len() && own[i] == x;
                assert(last.0 < own[i].0 < g.len());
            }
            if in_graph(g, x) && node_at(g, x).parent == Some(last) {
                assert(node_shaped(g, x.0 as int));
                assert(NodeId(x.0 as int as u32) == x);
            }
        }
        assert forall|x: NodeId| kids.contains(x) <==> upper.contains(x) || own.contains(x) by {
            if upper.contains(x) {
                let i = choose|i: int| 0 <= i < upper.len() && upper[i] == x;
                assert(kids[i] == x);
            }
            if own.contains(x) {
                let i = choose|i: int| 0 <= i < own.len() && own[i] == x;
                assert(kids[upper.len() + i] == x);
            }
            if kids.contains(x) {
                let i = choose|i: int| 0 <= i < kids.len() && kids[i] == x;
                if i < upper.len() {
                    assert(upper[i] == x);
                } else {
                    assert(own[i - upper.len()] == x);
                }
            }
        }
        assert forall|x: NodeId| kids.contains(x) <==> in_graph(g, x) && node_at(
            g,
            x,
        ).parent is Some && group.contains(node_at(g, x).parent->0) by {
            if in_graph(g, x) && node_at(g, x).parent is Some {
                let p = node_at(g, x).parent->0;
                if group.contains(p) {
                    let i = choose|i: int| 0 <= i < group.len() && group[i] == p;
                    if i < rest.len() {
                        assert(rest[i] == p);
                    }
                }
                if rest.contains(p) {
                    let i = choose|i: int| 0 <= i < rest.len() && rest[i] == p;
                    assert(group[i] == p);
                }
                if p == last {
                    assert(group[group.len() - 1] == p);
                }
            }
        }
        assert forall|i: int, j: int|
            0 <= i < kids.len() && 0 <= j < kids.len() && i != j implies kids[i] != kids[j] by {
            if i < upper.len() && j < upper.len() {
                assert(kids[i] == upper[i] && kids[j] == upper[j]);
            } else if i >= upper.len() && j >= upper.len() {
                let a = i - upper.len();
                let b = j - upper.len();
                assert(kids[i] == own[a] && kids[j] == own[b]);
                if a < b {
                    assert(own[a].0 < own[b].0);
                } else {
                    assert(own[b].0 < own[a].0);
                }
            } else if i < upper.len() {
                assert(upper.contains(kids[i]));
                assert(own.contains(kids[j])) by {
                    assert(own[j - upper.len()] == kids[j]);
                }
            } else {
                assert(upper.contains(kids[j]));
                assert(own.contains(kids[i])) by {
                    assert(own[i - upper.len()] == kids[i]);
                }
            }
        }
        assert forall|x: NodeId| #[trigger] kids.contains(x) implies ancestry(g, x).len() == depth
            + 2 by {
            assert(node_shaped(g, x.0 as int));
            let p = node_at(g, x).parent->0;
            let i = choose|i: int| 0 <= i < group.len() && group[i] == p;
            assert(ancestry(g, group[i]).len() == depth + 1);
        }
    }
}

/// The child groups of a group can be walked one deeper.
pub proof fn lemma_child_groups(g: Graph, group: Seq<NodeId>, depth: nat)
    requires
        valid(g),
        good_group(g, group, depth),
    ensures
        good_groups(g, child_groups(g, group), depth + 1),
        forall|x: NodeId|
            holds_id(child_groups(g, group), x) <==> in_graph(g, x) && node_at(
                g,
                x,
            ).parent is Some && group.contains(node_at(g, x).parent->0),
{
    let kids = children_of(g, group);
    lemma_children_of(g, group, depth);
    lemma_by_strength(g, kids);
    let ordered = by_strength(g, kids);
    lemma_equal_runs(g, ordered);
    let groups = child_groups(g, group);
    assert forall|k: int| 0 <= k < groups.len() implies good_group(
        g,
        #[trigger] groups[k],
        depth + 1,
    ) by {
        assert forall|i: int| 0 <= i < groups[k].len() implies in_graph(g, #[trigger] groups[k][i])
            && ancestry(g, groups[k][i]).len() == depth + 2 by {
            assert(groups[k].contains(groups[k][i]));
            assert(holds_id(groups, groups[k][i]));
            assert(kids.contains(groups[k][i]));
        }
    }
}

/// Whether a node lies at or beneath one of the nodes of a group at `depth`.
pub open spec fn under(g: Graph, x: NodeId, group: Seq<NodeId>, depth: nat) -> bool {
    &&& in_graph(g, x)
    &&& ancestry(g, x).len() > depth
    &&& group.contains(ancestry(g, x)[depth as int])
}

/// A walk visits every node at or beneath its group once, the group first.
pub proof fn lemma_walk(g: Graph, group: Seq<NodeId>, depth: nat)
    requires
        valid(g),
        good_group(g, group, depth),
    ensures
        distinct(walk(g, group, depth)),
        forall|x: NodeId|
            #![trigger holds_id(walk(g, group, depth), x)]
            #![trigger under(g, x, group, depth)]
            holds_id(walk(g, group, depth), x) <==> under(g, x, group, depth),
        walk(g, group, depth).len() > 0,
        walk(g, group, depth)[0] == group,
        depth < g.len(),
    decreases g.len() - depth, 0nat,
{
    assert(in_graph(g, group[0]));
    lemma_ancestry(g, group[0]);
    let groups = child_groups(g, group);
    lemma_child_groups(g, group, depth);
    lemma_walk_all(g, groups, depth + 1);
    let below = walk_all(g, groups, depth + 1);
    let all = walk(g, group, depth);
    assert(all =~= seq![group] + below);
    assert forall|x: NodeId| holds_id(below, x) <==> under(g, x, group, depth) && ancestry(
        g,
        x,
    ).len() > depth + 1 by {
        if in_graph(g, x) && ancestry(g, x).len() > depth + 1 {
            let path = ancestry(g, x);
            lemma_ancestry(g, x);
            assert(node_at(g, path[(depth + 1) as int]).parent == Some(path[depth as int]));
            assert(in_graph(g, path[(depth + 1) as int]));
            if holds_id(below, x) {
                let k = choose|k: int|
                    0 <= k < groups.len() && under(g, x, #[trigger] groups[k], depth + 1);
                assert(groups[k].contains(path[(depth + 1) as int]));
                assert(holds_id(groups, path[(depth + 1) as int]));
            }
            if under(g, x, group, depth) {
                assert(holds_id(groups, path[(depth + 1) as int]));
                let k = choose|k: int|
                    0 <= k < groups.len() && #[trigger] groups[k].contains(path[(depth + 1) as int]);
                assert(under(g, x, groups[k], depth + 1));
            }
        } else if holds_id(below, x) {
            let k = choose|k: int|
                    0 <= k < groups.len() && under(g, x, #[trigger] groups[k], depth + 1);
        }
    }
    assert forall|x: NodeId| group.contains(x) <==> under(g, x, group, depth) && ancestry(
        g,
        x,
    ).len() == depth + 1 by {
        if group.contains(x) {
            let i = choose|i: int| 0 <= i < group.len() && group[i] == x;
            assert(in_graph(g, group[i]));
            lemma_ancestry(g, x);
        }
        if under(g, x, group, depth) && ancestry(g, x).len() == depth + 1 {
            lemma_ancestry(g, x);
        }
    }
    assert forall|x: NodeId| holds_id(all, x) <==> under(g, x, group, depth) by {
        if holds_id(all, x) {
            let k = choose|k: int| 0 <= k < all.len() && #[trigger] all[k].contains(x);
            if k > 0 {
                assert(below[k - 1].contains(x));
            }
        }
        if group.contains(x) {
            assert(all[0].contains(x));
        }
        if holds_id(below, x) {
            let k = choose|k: int| 0 <= k < below.len() && #[trigger] below[k].contains(x);
            assert(all[k + 1].contains(x));
        }
    }
    assert forall|k: int| 0 <= k < all.len() implies (#[trigger] all[k]).len() > 0
        && all[k].no_duplicates() by {
        if k > 0 {
            assert(all[k] == below[k - 1]);
        }
    }
    assert forall|k: int, l: int, x: NodeId|
        0 <= k < all.len() && 0 <= l < all.len() && #[trigger] all[k].contains(x)
            && #[trigger] all[l].contains(x) implies k == l by {
        if k > 0 {
            assert(below[k - 1].contains(x));
        }
        if l > 0 {
            assert(below[l - 1].contains(x));
        }
        if k == 0 && l > 0 {
            assert(holds_id(below, x));
        }
        if l == 0 && k > 0 {
            assert(holds_id(below, x));
        }
    }
}

/// The walks of several groups visit every node at or beneath them once.
pub proof fn lemma_walk_all(g: Graph, groups: Seq<Seq<NodeId>>, depth: nat)
    requires
        valid(g),
        good_groups(g, groups, depth),
    ensures
        distinct(walk_all(g, groups, depth)),
        forall|x: NodeId|
            holds_id(walk_all(g, groups, depth), x) <==> exists|k: int|
                0 <= k < groups.len() && under(g, x, #[trigger] groups[k], depth),
    decreases g.len() - depth, groups.len() + 1,
{
    let all = walk_all(g, groups, depth);
    if groups.len() > 0 {
        let rest = groups.drop_first();
        assert forall|k: int| 0 <= k < rest.len() implies good_group(g, #[trigger] rest[k], depth)
            && rest[k].len() > 0 && rest[k].no_duplicates() by {
            assert(rest[k] == groups[k + 1]);
        }
        assert forall|k: int, l: int, x: NodeId|
            0 <= k < rest.len() && 0 <= l < rest.len() && #[trigger] rest[k].contains(x)
                && #[trigger] rest[l].contains(x) implies k == l by {
            assert(groups[k + 1].contains(x) && groups[l + 1].contains(x));
        }
        assert(good_group(g, groups[0], depth));
        lemma_walk(g, groups[0], depth);
        lemma_walk_all(g, rest, depth);
        let first = walk(g, groups[0], depth);
        let others = walk_all(g, rest, depth);
        assert(all =~= first + others);
        assert forall|x: NodeId| holds_id(all, x) <==> holds_id(first, x) || holds_id(
            others,
            x,
        ) by {
            if holds_id(all, x) {
                let k = choose|k: int| 0 <= k < all.len() && #[trigger] all[k].contains(x);
                if k < first.len() {
                    assert(first[k].contains(x));
                } else {
                    assert(others[k - first.len()].contains(x));
                }
            }
            if holds_id(first, x) {
                let k = choose|k: int| 0 <= k < first.len() && #[trigger] first[k].contains(x);
                assert(all[k].contains(x));
            }
            if holds_id(others, x) {
                let k = choose|k: int| 0 <= k < others.len() && #[trigger] others[k].contains(x);
                assert(all[first.len() + k].contains(x));
            }
        }
        assert forall|x: NodeId| holds_id(all, x) <==> exists|k: int|
            0 <= k < groups.len() && under(g, x, #[trigger] groups[k], depth) by {
            if holds_id(first, x) {
                assert(under(g, x, groups[0], depth));
            }
            if holds_id(others, x) {
                let k = choose|k: int|
                    0 <= k < rest.len() && under(g, x, #[trigger] rest[k], depth);
                assert(under(g, x, groups[k + 1], depth));
            }
            if exists|k: int| 0 <= k < groups.len() && under(g, x, #[trigger] groups[k], depth) {
                let k = choose|k: int|
                    0 <= k < groups.len() && under(g, x, #[trigger] groups[k], depth);
                if k > 0 {
                    assert(under(g, x, rest[k - 1], depth));
                }
            }
        }
        assert forall|k: int| 0 <= k < all.len() implies (#[trigger] all[k]).len() > 0
            && all[k].no_duplicates() by {
            if k < first.len() {
                assert(all[k] == first[k]);
            } else {
                assert(all[k] == others[k - first.len()]);
            }
        }
        assert forall|k: int, l: int, x: NodeId|
            0 <= k < all.len() && 0 <= l < all.len() && #[trigger] all[k].contains(x)
                && #[trigger] all[l].contains(x) implies k == l by {
            let n = first.len();
            if k < n {
                assert(first[k].contains(x));
                assert(holds_id(first, x));
            } else {
                assert(others[k - n].contains(x));
                assert(holds_id(others, x));
            }
            if l < n {
                assert(first[l].contains(x));
                assert(holds_id(first, x));
            } else {
                assert(others[l - n].contains(x));
                assert(holds_id(others, x));
            }
            if (k < n) != (l < n) {
                let i = choose|i: int|
                    0 <= i < rest.len() && under(g, x, #[trigger] rest[i], depth);
                let top = ancestry(g, x)[depth as int];
                assert(holds_id(first, x));
                assert(under(g, x, groups[0], depth));
                assert(groups[0].contains(top));
                assert(groups[i + 1].contains(top));
                assert(false);
            }
        }
    } else {
        assert(all =~= seq![]);
    }
}

/// Every node stands in exactly one of the groups of the strength walk.
pub proof fn law_every_node_has_one_rank(g: Graph)
    requires
        valid(g),
    ensures
        distinct(strength_groups(g)),
        forall|x: NodeId|
            #![trigger holds_id(strength_groups(g), x)]
            #![trigger in_graph(g, x)]
            holds_id(strength_groups(g), x) <==> in_graph(g, x),
        strength_groups(g).len() <= g.len(),
        g.len() > 0 ==> strength_groups(g).len() > 0 && strength_groups(g)[0] == seq![NodeId(0)],
{
    let groups = strength_groups(g);
    if g.len() > 0 {
        let root = seq![NodeId(0)];
        assert(node_shaped(g, 0));
        assert(in_graph(g, root[0]) && ancestry(g, root[0]).len() == 1);
        lemma_walk(g, root, 0);
        assert forall|x: NodeId|
            #![trigger holds_id(groups, x)]
            #![trigger in_graph(g, x)]
            holds_id(groups, x) <==> in_graph(g, x) by {
            if holds_id(groups, x) {
                assert(under(g, x, root, 0));
            }
            if in_graph(g, x) {
                lemma_ancestry(g, x);
                assert(root[0] == ancestry(g, x)[0]);
                assert(under(g, x, root, 0));
            }
        }
        let firsts = Seq::new(groups.len(), |k: int| groups[k][0].0 as int);
        assert forall|k: int, l: int|
            0 <= k < firsts.len() && 0 <= l < firsts.len() && k != l implies firsts[k]
            != firsts[l] by {
            assert(groups[k].len() > 0 && groups[l].len() > 0);
            assert(groups[k].contains(groups[k][0]));
            assert(groups[l].contains(groups[l][0]));
            if firsts[k] == firsts[l] {
                assert(groups[k][0] == groups[l][0]);
            }
        }
        assert(firsts.no_duplicates());
        firsts.unique_seq_to_set();
        let range = vstd::set_lib::set_int_range(0, g.len() as int);
        vstd::set_lib::lemma_int_range(0, g.len() as int);
        assert(firsts.to_set().subset_of(range)) by {
            assert forall|v: int| firsts.to_set().contains(v) implies range.contains(v) by {
                let k = choose|k: int| 0 <= k < firsts.len() && firsts[k] == v;
                assert(groups[k].len() > 0);
                assert(groups[k].contains(groups[k][0]));
                assert(holds_id(groups, groups[k][0]));
            }
        }
        vstd::set_lib::lemma_len_subset(firsts.to_set(), range);
    } else {
        assert forall|x: NodeId| holds_id(groups, x) <==> in_graph(g, x) by {}
    }
}

/// In a walk, a node comes after its parent.
proof fn lemma_parent_first(g: Graph, group: Seq<NodeId>, depth: nat, x: NodeId, k: int, l: int)
    requires
        valid(g),
        good_group(g, group, depth),
        in_graph(g, x),
        node_at(g, x).parent is Some,
        0 <= k < walk(g, group, depth).len(),
        0 <= l < walk(g, group, depth).len(),
        walk(g, group, depth)[k].contains(x),
        walk(g, group, depth)[l].contains(node_at(g, x).parent->0),
    ensures
        l < k,
    decreases g.len() - depth, 0nat,
{
    let all = walk(g, group, depth);
    let groups = child_groups(g, group);
    let below = walk_all(g, groups, depth + 1);
    lemma_walk(g, group, depth);
    lemma_child_groups(g, group, depth);
    lemma_walk_all(g, groups, depth + 1);
    assert(node_shaped(g, x.0 as int));
    let parent = node_at(g, x).parent->0;
    assert(all =~= seq![group] + below);
    if l > 0 {
        assert(below[l - 1].contains(parent));
        if k == 0 {
            let i = choose|i: int| 0 <= i < group.len() && group[i] == x;
            assert(ancestry(g, group[i]).len() == depth + 1);
            assert(holds_id(below, parent));
            assert(ancestry(g, x).len() == ancestry(g, parent).len() + 1);
        } else {
            assert(below[k - 1].contains(x));
            lemma_parent_first_all(g, groups, depth + 1, x, k - 1, l - 1);
        }
    } else if k == 0 {
        let i = choose|i: int| 0 <= i < group.len() && group[i] == x;
        let j = choose|j: int| 0 <= j < group.len() && group[j] == parent;
        assert(ancestry(g, group[i]).len() == depth + 1);
        assert(ancestry(g, group[j]).len() == depth + 1);
    }
}

proof fn lemma_parent_first_all(
    g: Graph,
    groups: Seq<Seq<NodeId>>,
    depth: nat,
    x: NodeId,
    k: int,
    l: int,
)
    requires
        valid(g),
        good_groups(g, groups, depth),
        in_graph(g, x),
        node_at(g, x).parent is Some,
        0 <= k < walk_all(g, groups, depth).len(),
        0 <= l < walk_all(g, groups, depth).len(),
        walk_all(g, groups, depth)[k].contains(x),
        walk_all(g, groups, depth)[l].contains(node_at(g, x).parent->0),
    ensures
        l < k,
    decreases g.len() - depth, groups.len() + 1,
{
    let all = walk_all(g, groups, depth);
    let rest = groups.drop_first();
    let parent = node_at(g, x).parent->0;
    lemma_rest_good(g, groups, depth);
    let first = walk(g, groups[0], depth);
    let others = walk_all(g, rest, depth);
    lemma_walk(g, groups[0], depth);
    lemma_walk_all(g, rest, depth);
    assert(all =~= first + others);
    assert(node_shaped(g, x.0 as int));
    if l < first.len() {
        assert(first[l].contains(parent));
        if k < first.len() {
            assert(first[k].contains(x));
            lemma_parent_first(g, groups[0], depth, x, k, l);
        }
    } else {
        assert(others[l - first.len()].contains(parent));
        assert(holds_id(others, parent));
        if k < first.len() {
            assert(first[k].contains(x));
            assert(holds_id(first, x));
            assert(under(g, x, groups[0], depth));
            let i = choose|i: int|
                0 <= i < rest.len() && under(g, parent, #[trigger] rest[i], depth);
            assert(ancestry(g, x)[depth as int] == ancestry(g, parent)[depth as int]);
            let top = ancestry(g, x)[depth as int];
            assert(groups[0].contains(top));
            assert(groups[i + 1].contains(top));
            assert(false);
        } else {
            assert(others[k - first.len()].contains(x));
            lemma_parent_first_all(g, rest, depth, x, k - first.len(), l - first.len());
        }
    }
}

pub proof fn lemma_rest_good(g: Graph, groups: Seq<Seq<NodeId>>, depth: nat)
    requires
        good_groups(g, groups, depth),
        groups.len() > 0,
    ensures
        good_group(g, groups[0], depth),
        good_groups(g, groups.drop_first(), depth),
{
    let rest = groups.drop_first();
    assert forall|k: int| 0 <= k < rest.len() implies good_group(g, #[trigger] rest[k], depth)
        && rest[k].len() > 0 && rest[k].no_duplicates() by {
        assert(rest[k] == groups[k + 1]);
    }
    assert forall|k: int, l: int, x: NodeId|
        0 <= k < rest.len() && 0 <= l < rest.len() && #[trigger] rest[k].contains(x)
            && #[trigger] rest[l].contains(x) implies k == l by {
        assert(groups[k + 1].contains(x) && groups[l + 1].contains(x));
    }
}

/// The place of a node's group in the strength walk.
pub proof fn lemma_rank_place(g: Graph, ranks: Seq<u32>, x: NodeId) -> (k: int)
    requires
        valid(g),
        ranked(g, ranks),
        in_graph(g, x),
    ensures
        0 <= k < strength_groups(g).len(),
        strength_groups(g)[k].contains(x),
        ranks[x.0 as int] == k,
{
    law_every_node_has_one_rank(g);
    let groups = strength_groups(g);
    assert(holds_id(groups, x));
    let k = choose|k: int| 0 <= k < groups.len() && #[trigger] groups[k].contains(x);
    let j = choose|j: int| 0 <= j < groups[k].len() && groups[k][j] == x;
    assert(ranks[groups[k][j].0 as int] == k);
    k
}

/// A node is stronger than every node beneath it.
pub proof fn law_a_node_outranks_its_children(g: Graph, ranks: Seq<u32>, x: NodeId)
    requires
        valid(g),
        ranked(g, ranks),
        in_graph(g, x),
        node_at(g, x).parent is Some,
    ensures
        ranks[(node_at(g, x).parent->0).0 as int] < ranks[x.0 as int],
{
    assert(node_shaped(g, x.0 as int));
    let parent = node_at(g, x).parent->0;
    let k = lemma_rank_place(g, ranks, x);
    let l = lemma_rank_place(g, ranks, parent);
    let root = seq![NodeId(0)];
    assert(node_shaped(g, 0));
    assert(in_graph(g, root[0]) && ancestry(g, root[0]).len() == 1);
    lemma_parent_first(g, root, 0, x, k, l);
}

/// Where one sibling outranks another, it does so with everything beneath it.
pub proof fn law_a_subtree_ranks_before_weaker_siblings(
    g: Graph,
    ranks: Seq<u32>,
    a: NodeId,
    b: NodeId,
    x: NodeId,
)
    requires
        valid(g),
        ranked(g, ranks),
        in_graph(g, a),
        in_graph(g, b),
        in_graph(g, x),
        ancestry(g, a).len() == ancestry(g, b).len(),
        ranks[a.0 as int] < ranks[b.0 as int],
        ancestry(g, x).contains(a),
    ensures
        ranks[x.0 as int] < ranks[b.0 as int],
{
    let ka = lemma_rank_place(g, ranks, a);
    let kb = lemma_rank_place(g, ranks, b);
    let kx = lemma_rank_place(g, ranks, x);
    let root = seq![NodeId(0)];
    assert(node_shaped(g, 0));
    assert(in_graph(g, root[0]) && ancestry(g, root[0]).len() == 1);
    lemma_ancestry(g, a);
    lemma_ancestry(g, b);
    let i = choose|i: int| 0 <= i < ancestry(g, x).len() && ancestry(g, x)[i] == a;
    lemma_ancestry_prefix(g, x, i);
    lemma_subtree(g, root, 0, a, b, x, ka, kb, kx);
}

proof fn lemma_subtree(
    g: Graph,
    group: Seq<NodeId>,
    depth: nat,
    a: NodeId,
    b: NodeId,
    x: NodeId,
    ka: int,
    kb: int,
    kx: int,
)
    requires
        valid(g),
        good_group(g, group, depth),
        in_graph(g, a),
        in_graph(g, b),
        in_graph(g, x),
        ancestry(g, a).len() == ancestry(g, b).len(),
        ancestry(g, a).is_prefix_of(ancestry(g, x)),
        0 <= ka < kb < walk(g, group, depth).len(),
        0 <= kx < walk(g, group, depth).len(),
        walk(g, group, depth)[ka].contains(a),
        walk(g, group, depth)[kb].contains(b),
        walk(g, group, depth)[kx].contains(x),
    ensures
        kx < kb,
    decreases g.len() - depth, 0nat,
{
    let all = walk(g, group, depth);
    let groups = child_groups(g, group);
    let below = walk_all(g, groups, depth + 1);
    lemma_walk(g, group, depth);
    lemma_child_groups(g, group, depth);
    lemma_walk_all(g, groups, depth + 1);
    assert(all =~= seq![group] + below);
    if ka == 0 {
        let i = choose|i: int| 0 <= i < group.len() && group[i] == a;
        assert(ancestry(g, group[i]).len() == depth + 1);
        assert(below[kb - 1].contains(b));
        assert(holds_id(below, b));
        let k = choose|k: int|
            0 <= k < groups.len() && under(g, b, #[trigger] groups[k], depth + 1);
        assert(false);
    } else if kx > 0 {
        assert(below[ka - 1].contains(a));
        assert(below[kb - 1].contains(b));
        assert(below[kx - 1].contains(x));
        lemma_subtree_all(g, groups, depth + 1, a, b, x, ka - 1, kb - 1, kx - 1);
    }
}

proof fn lemma_subtree_all(
    g: Graph,
    groups: Seq<Seq<NodeId>>,
    depth: nat,
    a: NodeId,
    b: NodeId,
    x: NodeId,
    ka: int,
    kb: int,
    kx: int,
)
    requires
        valid(g),
        good_groups(g, groups, depth),
        in_graph(g, a),
        in_graph(g, b),
        in_graph(g, x),
        ancestry(g, a).len() == ancestry(g, b).len(),
        ancestry(g, a).is_prefix_of(ancestry(g, x)),
        0 <= ka < kb < walk_all(g, groups, depth).len(),
        0 <= kx < walk_all(g, groups, depth).len(),
        walk_all(g, groups, depth)[ka].contains(a),
        walk_all(g, groups, depth)[kb].contains(b),
        walk_all(g, groups, depth)[kx].contains(x),
    ensures
        kx < kb,
    decreases g.len() - depth, groups.len() + 1,
{
    let all = walk_all(g, groups, depth);
    let rest = groups.drop_first();
    lemma_rest_good(g, groups, depth);
    let first = walk(g, groups[0], depth);
    let others = walk_all(g, rest, depth);
    lemma_walk(g, groups[0], depth);
    lemma_walk_all(g, rest, depth);
    assert(all =~= first + others);
    let n = first.len();
    if ka < n {
        assert(first[ka].contains(a));
        assert(holds_id(first, a));
        assert(under(g, a, groups[0], depth));
        let top = ancestry(g, a)[depth as int];
        assert(ancestry(g, x)[depth as int] == top);
        if kx >= n {
            assert(others[kx - n].contains(x));
            assert(holds_id(others, x));
            let i = choose|i: int| 0 <= i < rest.len() && under(g, x, #[trigger] rest[i], depth);
            assert(groups[0].contains(top));
            assert(groups[i + 1].contains(top));
            assert(false);
        }
        assert(first[kx].contains(x));
        if kb < n {
            assert(first[kb].contains(b));
            lemma_subtree(g, groups[0], depth, a, b, x, ka, kb, kx);
        }
    } else {
        assert(others[ka - n].contains(a));
        assert(others[kb - n].contains(b));
        if kx >= n {
            assert(others[kx - n].contains(x));
            lemma_subtree_all(g, rest, depth, a, b, x, ka - n, kb - n, kx - n);
        }
    }
}

// ── Preorder ────────────────────────────────────────────────────────────

/// The nodes at and beneath `id` in depth-first preorder, each node's children
/// strongest first.
pub open spec fn preorder(g: Graph, id: NodeId) -> Seq<NodeId>
    decreases g.len() - id.0, 0nat,
{
    if id.0 >= g.len() {
        seq![]
    } else {
        seq![id] + preorder_all(g, by_strength(g, node_at(g, id).children), id)
    }
}

/// The preorders of several nodes, all of them added after `above`.
pub open spec fn preorder_all(g: Graph, ids: Seq<NodeId>, above: NodeId) -> Seq<NodeId>
    decreases g.len() - above.0 - 1, ids.len() + 1,
{
    if ids.len() == 0 || !(above.0 < ids[0].0 < g.len()) {
        seq![]
    } else {
        preorder(g, ids[0]) + preorder_all(g, ids.drop_first(), above)
    }
}

/// Whether `x` is `id` or lies beneath it.
pub open spec fn at_or_beneath(g: Graph, x: NodeId, id: NodeId) -> bool {
    in_graph(g, x) && ancestry(g, x).contains(id)
}

/// A node lies beneath another where it is the other or its parent does.
proof fn lemma_beneath(g: Graph, x: NodeId, id: NodeId)
    requires
        shaped(g),
        in_graph(g, x),
        in_graph(g, id),
    ensures
        at_or_beneath(g, x, id) <==> x == id || node_at(g, x).parent is Some && at_or_beneath(
            g,
            node_at(g, x).parent->0,
            id,
        ),
        at_or_beneath(g, x, id) ==> id.0 <= x.0,
    decreases x.0,
{
    lemma_ancestry(g, x);
    assert(node_shaped(g, x.0 as int));
    let path = ancestry(g, x);
    if x == id {
        assert(path[path.len() - 1] == id);
    }
    if node_at(g, x).parent is Some {
        let parent = node_at(g, x).parent->0;
        lemma_beneath(g, parent, id);
        let upper = ancestry(g, parent);
        if upper.contains(id) {
            let i = choose|i: int| 0 <= i < upper.len() && upper[i] == id;
            assert(path[i] == id);
        }
        if path.contains(id) && x != id {
            let i = choose|i: int| 0 <= i < path.len() && path[i] == id;
            assert(upper[i] == id);
        }
    }
}

/// Whether a node other than `id` lies beneath it exactly where it lies at or
/// beneath one of its children.
proof fn lemma_beneath_child(g: Graph, x: NodeId, id: NodeId)
    requires
        shaped(g),
        in_graph(g, x),
        in_graph(g, id),
    ensures
        at_or_beneath(g, x, id) && x != id <==> exists|k: int|
            0 <= k < node_at(g, id).children.len() && at_or_beneath(
                g,
                x,
                #[trigger] node_at(g, id).children[k],
            ),
        forall|k: int, l: int|
            0 <= k < node_at(g, id).children.len() && 0 <= l < node_at(g, id).children.len()
                && at_or_beneath(g, x, #[trigger] node_at(g, id).children[k]) && at_or_beneath(
                g,
                x,
                #[trigger] node_at(g, id).children[l],
            ) ==> k == l,
    decreases x.0,
{
    let kids = node_at(g, id).children;
    lemma_ancestry(g, x);
    assert(node_shaped(g, x.0 as int));
    assert(node_shaped(g, id.0 as int));
    lemma_beneath(g, x, id);
    assert forall|k: int| 0 <= k < kids.len() implies (at_or_beneath(g, x, #[trigger] kids[k])
        <==> x == kids[k] || node_at(g, x).parent is Some && at_or_beneath(
        g,
        node_at(g, x).parent->0,
        kids[k],
    )) by {
        assert(id.0 < kids[k].0 < g.len());
        lemma_beneath(g, x, kids[k]);
    }
    if node_at(g, x).parent is Some {
        let parent = node_at(g, x).parent->0;
        lemma_beneath_child(g, parent, id);
        if at_or_beneath(g, x, id) && x != id {
            if parent == id {
                let k = choose|k: int| 0 <= k < kids.len() && kids[k] == NodeId(x.0 as int as u32);
                assert(at_or_beneath(g, x, kids[k]));
            } else {
                let k = choose|k: int|
                    0 <= k < kids.len() && at_or_beneath(g, parent, #[trigger] kids[k]);
                assert(at_or_beneath(g, x, kids[k]));
            }
        }
    }
    if exists|k: int| 0 <= k < kids.len() && at_or_beneath(g, x, #[trigger] kids[k]) {
        let k = choose|k: int| 0 <= k < kids.len() && at_or_beneath(g, x, #[trigger] kids[k]);
        assert(id.0 < kids[k].0 < g.len());
        lemma_beneath(g, x, kids[k]);
        if x == kids[k] {
            lemma_beneath(g, id, id);
        } else {
            let parent = node_at(g, x).parent->0;
            assert(at_or_beneath(g, parent, kids[k]));
        }
    }
    assert forall|k: int, l: int|
        0 <= k < kids.len() && 0 <= l < kids.len() && at_or_beneath(g, x, #[trigger] kids[k])
            && at_or_beneath(g, x, #[trigger] kids[l]) implies k == l by {
        assert(id.0 < kids[k].0 < g.len() && id.0 < kids[l].0 < g.len());
        if x == kids[k] && x != kids[l] {
            lemma_beneath(g, id, kids[l]);
            assert(false);
        } else if x == kids[l] && x != kids[k] {
            lemma_beneath(g, id, kids[k]);
            assert(false);
        } else if x == kids[k] {
            if k < l {
                assert(kids[k].0 < kids[l].0);
            } else if l < k {
                assert(kids[l].0 < kids[k].0);
            }
        } else {
            let parent = node_at(g, x).parent->0;
            assert(at_or_beneath(g, parent, kids[k]) && at_or_beneath(g, parent, kids[l]));
        }
    }
}

/// A preorder visits every node at or beneath its start once.
proof fn lemma_preorder(g: Graph, id: NodeId)
    requires
        valid(g),
        in_graph(g, id),
    ensures
        preorder(g, id).no_duplicates(),
        forall|x: NodeId|
            #![trigger preorder(g, id).contains(x)]
            #![trigger at_or_beneath(g, x, id)]
            preorder(g, id).contains(x) <==> at_or_beneath(g, x, id),
    decreases g.len() - id.0, 0nat,
{
    let kids = node_at(g, id).children;
    let ordered = by_strength(g, kids);
    assert(node_shaped(g, id.0 as int));
    assert(kids.no_duplicates()) by {
        assert forall|i: int, j: int|
            0 <= i < kids.len() && 0 <= j < kids.len() && i != j implies kids[i] != kids[j] by {
            if i < j {
                assert(kids[i].0 < kids[j].0);
            } else {
                assert(kids[j].0 < kids[i].0);
            }
        }
    }
    lemma_by_strength(g, kids);
    assert forall|k: int| 0 <= k < ordered.len() implies kids.contains(#[trigger] ordered[k]) by {
        assert(ordered.contains(ordered[k]));
    }
    lemma_preorder_all(g, ordered, id);
    let below = preorder_all(g, ordered, id);
    let all = preorder(g, id);
    assert(all =~= seq![id] + below);
    assert forall|x: NodeId| below.contains(x) <==> at_or_beneath(g, x, id) && x != id by {
        if in_graph(g, x) {
            lemma_beneath_child(g, x, id);
        }
        if below.contains(x) {
            let k = choose|k: int|
                0 <= k < ordered.len() && at_or_beneath(g, x, #[trigger] ordered[k]);
            assert(kids.contains(ordered[k]));
            let j = choose|j: int| 0 <= j < kids.len() && kids[j] == ordered[k];
            assert(at_or_beneath(g, x, kids[j]));
        }
        if at_or_beneath(g, x, id) && x != id {
            let j = choose|j: int| 0 <= j < kids.len() && at_or_beneath(g, x, #[trigger] kids[j]);
            assert(kids.contains(kids[j]));
            assert(ordered.contains(kids[j]));
            let k = choose|k: int| 0 <= k < ordered.len() && ordered[k] == kids[j];
            assert(at_or_beneath(g, x, ordered[k]));
        }
    }
    lemma_beneath(g, id, id);
    assert forall|x: NodeId|
        #![trigger all.contains(x)]
        #![trigger at_or_beneath(g, x, id)]
        all.contains(x) <==> at_or_beneath(g, x, id) by {
        if all.contains(x) {
            let k = choose|k: int| 0 <= k < all.len() && all[k] == x;
            if k > 0 {
                assert(below[k - 1] == x);
                assert(below.contains(x));
            }
        }
        if x == id {
            assert(all[0] == x);
        }
        if below.contains(x) {
            let k = choose|k: int| 0 <= k < below.len() && below[k] == x;
            assert(all[k + 1] == x);
        }
    }
    assert forall|i: int, j: int|
        0 <= i < all.len() && 0 <= j < all.len() && i != j implies all[i] != all[j] by {
        if i > 0 {
            assert(below.contains(below[i - 1]));
        }
        if j > 0 {
            assert(below.contains(below[j - 1]));
        }
    }
}

proof fn lemma_preorder_all(g: Graph, ids: Seq<NodeId>, above: NodeId)
    requires
        valid(g),
        in_graph(g, above),
        ids.no_duplicates(),
        forall|k: int|
            0 <= k < ids.len() ==> node_at(g, above).children.contains(#[trigger] ids[k]),
    ensures
        preorder_all(g, ids, above).no_duplicates(),
        forall|x: NodeId|
            #![trigger preorder_all(g, ids, above).contains(x)]
            preorder_all(g, ids, above).contains(x) <==> exists|k: int|
                0 <= k < ids.len() && at_or_beneath(g, x, #[trigger] ids[k]),
    decreases g.len() - above.0 - 1, ids.len() + 1,
{
    let all = preorder_all(g, ids, above);
    let kids = node_at(g, above).children;
    assert(node_shaped(g, above.0 as int));
    if ids.len() > 0 {
        let rest = ids.drop_first();
        assert(kids.contains(ids[0]));
        let at = choose|at: int| 0 <= at < kids.len() && kids[at] == ids[0];
        assert(above.0 < kids[at].0 < g.len());
        assert forall|k: int| 0 <= k < rest.len() implies kids.contains(#[trigger] rest[k]) by {
            assert(rest[k] == ids[k + 1]);
        }
        assert(rest.no_duplicates()) by {
            assert forall|i: int, j: int|
                0 <= i < rest.len() && 0 <= j < rest.len() && i != j implies rest[i]
                != rest[j] by {
                assert(ids[i + 1] != ids[j + 1]);
            }
        }
        lemma_preorder(g, ids[0]);
        lemma_preorder_all(g, rest, above);
        let first = preorder(g, ids[0]);
        let others = preorder_all(g, rest, above);
        assert(all =~= first + others);
        assert forall|x: NodeId|
            #![trigger all.contains(x)]
            all.contains(x) <==> exists|k: int|
                0 <= k < ids.len() && at_or_beneath(g, x, #[trigger] ids[k]) by {
            if all.contains(x) {
                let i = choose|i: int| 0 <= i < all.len() && all[i] == x;
                if i < first.len() {
                    assert(first[i] == x);
                    assert(first.contains(x));
                    assert(at_or_beneath(g, x, ids[0]));
                } else {
                    assert(others[i - first.len()] == x);
                    assert(others.contains(x));
                    let k = choose|k: int|
                        0 <= k < rest.len() && at_or_beneath(g, x, #[trigger] rest[k]);
                    assert(at_or_beneath(g, x, ids[k + 1]));
                }
            }
            if exists|k: int| 0 <= k < ids.len() && at_or_beneath(g, x, #[trigger] ids[k]) {
                let k = choose|k: int| 0 <= k < ids.len() && at_or_beneath(g, x, #[trigger] ids[k]);
                if k == 0 {
                    assert(first.contains(x));
                    let i = choose|i: int| 0 <= i < first.len() && first[i] == x;
                    assert(all[i] == x);
                } else {
                    assert(at_or_beneath(g, x, rest[k - 1]));
                    assert(others.contains(x));
                    let i = choose|i: int| 0 <= i < others.len() && others[i] == x;
                    assert(all[first.len() + i] == x);
                }
            }
        }
        assert forall|i: int, j: int|
            0 <= i < all.len() && 0 <= j < all.len() && i != j implies all[i] != all[j] by {
            let n = first.len();
            if i < n && j < n {
                assert(all[i] == first[i] && all[j] == first[j]);
            } else if i >= n && j >= n {
                assert(all[i] == others[i - n] && all[j] == others[j - n]);
            } else {
                let (p, q) = if i < n {
                    (i, j)
                } else {
                    (j, i)
                };
                if all[p] == all[q] {
                    let x = all[p];
                    assert(first[p] == x && others[q - n] == x);
                    assert(first.contains(x) && others.contains(x));
                    assert(at_or_beneath(g, x, ids[0]));
                    let k = choose|k: int|
                        0 <= k < rest.len() && at_or_beneath(g, x, #[trigger] rest[k]);
                    assert(kids.contains(rest[k]));
                    let b = choose|b: int| 0 <= b < kids.len() && kids[b] == rest[k];
                    assert(at_or_beneath(g, x, kids[at]) && at_or_beneath(g, x, kids[b]));
                    lemma_beneath_child(g, x, above);
                    assert(ids[k + 1] == ids[0]);
                    assert(false);
                }
            }
        }
    }
}

/// The preorder from the root visits every node once.
pub proof fn law_preorder_visits_every_node(g: Graph)
    requires
        valid(g),
        g.len() > 0,
    ensures
        preorder(g, NodeId(0)).no_duplicates(),
        forall|x: NodeId|
            #![trigger in_graph(g, x)]
            preorder(g, NodeId(0)).contains(x) <==> in_graph(g, x),
{
    lemma_preorder(g, NodeId(0));
    assert forall|x: NodeId|
        #![trigger in_graph(g, x)]
        preorder(g, NodeId(0)).contains(x) <==> in_graph(g, x) by {
        if in_graph(g, x) {
            lemma_ancestry(g, x);
            assert(ancestry(g, x)[0] == NodeId(0));
            assert(at_or_beneath(g, x, NodeId(0)));
        }
        if preorder(g, NodeId(0)).contains(x) {
            assert(at_or_beneath(g, x, NodeId(0)));
        }
    }
}

// ── Walks without ties ──────────────────────────────────────────────────

/// Whether every group holds one node: no two siblings are equally strong.
pub open spec fn no_ties(groups: Seq<Seq<NodeId>>) -> bool {
    forall|k: int| 0 <= k < groups.len() ==> (#[trigger] groups[k]).len() == 1
}

/// The first node of each group.
pub open spec fn firsts(groups: Seq<Seq<NodeId>>) -> Seq<NodeId> {
    groups.map_values(|group: Seq<NodeId>| group[0])
}

/// Runs of one are the ids themselves.
proof fn lemma_single_runs(g: Graph, s: Seq<NodeId>)
    requires
        s.no_duplicates(),
        no_ties(equal_runs(g, s)),
    ensures
        equal_runs(g, s).len() == s.len(),
        forall|i: int| 0 <= i < s.len() ==> #[trigger] equal_runs(g, s)[i] == seq![s[i]],
    decreases s.len(),
{
    if s.len() > 0 {
        let rest = s.drop_last();
        let runs = equal_runs(g, s);
        let before = equal_runs(g, rest);
        lemma_equal_runs(g, rest);
        if s.len() > 1 && order_siblings(g, s[s.len() - 2], s.last()) == Order::Equal {
            let end = before.len() - 1;
            assert(before[end].len() > 0);
            assert(runs[end] == before[end].push(s.last()));
            assert(runs[end].len() == 1);
        }
        assert forall|k: int| 0 <= k < before.len() implies (#[trigger] before[k]).len() == 1 by {
            assert(runs[k] == before[k]);
        }
        lemma_single_runs(g, rest);
        assert forall|i: int| 0 <= i < s.len() implies #[trigger] runs[i] == seq![s[i]] by {
            if i < rest.len() {
                assert(runs[i] == before[i]);
            }
        }
    }
}

/// Groups whose walks have no ties have none.
proof fn lemma_walked_groups(g: Graph, groups: Seq<Seq<NodeId>>, depth: nat)
    requires
        valid(g),
        good_groups(g, groups, depth),
        no_ties(walk_all(g, groups, depth)),
    ensures
        no_ties(groups),
    decreases groups.len(),
{
    if groups.len() > 0 {
        lemma_rest_good(g, groups, depth);
        let first = walk(g, groups[0], depth);
        let rest = groups.drop_first();
        let others = walk_all(g, rest, depth);
        let all = walk_all(g, groups, depth);
        assert(in_graph(g, groups[0][0]));
        lemma_ancestry(g, groups[0][0]);
        assert(first[0] == groups[0]);
        assert(all[0] == groups[0]);
        assert forall|k: int| 0 <= k < others.len() implies (#[trigger] others[k]).len() == 1 by {
            assert(all[first.len() + k] == others[k]);
        }
        lemma_walked_groups(g, rest, depth);
        assert forall|k: int| 0 <= k < groups.len() implies (#[trigger] groups[k]).len() == 1 by {
            if k > 0 {
                assert(rest[k - 1] == groups[k]);
            }
        }
    }
}

/// The walk of one node, where it has no ties, is the node's preorder.
proof fn lemma_walk_preorder(g: Graph, id: NodeId, depth: nat)
    requires
        valid(g),
        in_graph(g, id),
        ancestry(g, id).len() == depth + 1,
        no_ties(walk(g, seq![id], depth)),
    ensures
        firsts(walk(g, seq![id], depth)) == preorder(g, id),
    decreases g.len() - depth, 0nat,
{
    let group = seq![id];
    lemma_ancestry(g, id);
    assert(good_group(g, group, depth));
    lemma_child_groups(g, group, depth);
    lemma_children_of(g, group, depth);
    let kids = node_at(g, id).children;
    assert(children_of(g, group) =~= kids) by {
        reveal_with_fuel(children_of, 2);
        assert(group.drop_last() =~= seq![]);
    }
    lemma_by_strength(g, kids);
    let ordered = by_strength(g, kids);
    let groups = child_groups(g, group);
    let below = walk_all(g, groups, depth + 1);
    let all = walk(g, group, depth);
    assert(all =~= seq![group] + below);
    assert forall|k: int| 0 <= k < below.len() implies (#[trigger] below[k]).len() == 1 by {
        assert(all[k + 1] == below[k]);
    }
    lemma_walked_groups(g, groups, depth + 1);
    lemma_single_runs(g, ordered);
    assert(node_shaped(g, id.0 as int));
    assert forall|i: int| 0 <= i < ordered.len() implies id.0 < (#[trigger] ordered[i]).0
        < g.len() by {
        assert(ordered.contains(ordered[i]));
        assert(kids.contains(ordered[i]));
    }
    lemma_walks_preorder(g, ordered, groups, id, depth + 1);
    assert(firsts(all) =~= seq![id] + firsts(below));
}

proof fn lemma_walks_preorder(
    g: Graph,
    ids: Seq<NodeId>,
    groups: Seq<Seq<NodeId>>,
    above: NodeId,
    depth: nat,
)
    requires
        valid(g),
        good_groups(g, groups, depth),
        no_ties(walk_all(g, groups, depth)),
        groups.len() == ids.len(),
        forall|i: int| 0 <= i < ids.len() ==> #[trigger] groups[i] == seq![ids[i]],
        forall|i: int| 0 <= i < ids.len() ==> above.0 < (#[trigger] ids[i]).0 < g.len(),
    ensures
        firsts(walk_all(g, groups, depth)) == preorder_all(g, ids, above),
    decreases g.len() - depth, groups.len() + 1,
{
    let all = walk_all(g, groups, depth);
    if groups.len() == 0 {
        assert(firsts(all) =~= preorder_all(g, ids, above));
    } else {
        lemma_rest_good(g, groups, depth);
        let first = walk(g, groups[0], depth);
        let rest = groups.drop_first();
        let others = walk_all(g, rest, depth);
        assert(groups[0] == seq![ids[0]]);
        assert(groups[0][0] == ids[0]);
        assert(all =~= first + others);
        assert forall|k: int| 0 <= k < first.len() implies (#[trigger] first[k]).len() == 1 by {
            assert(all[k] == first[k]);
        }
        assert forall|k: int| 0 <= k < others.len() implies (#[trigger] others[k]).len() == 1 by {
            assert(all[first.len() + k] == others[k]);
        }
        assert forall|i: int| 0 <= i < rest.len() implies #[trigger] rest[i]
            == seq![ids.drop_first()[i]] by {
            assert(rest[i] == groups[i + 1]);
        }
        assert forall|i: int| 0 <= i < rest.len() implies above.0 < (
        #[trigger] ids.drop_first()[i]).0 < g.len() by {
            assert(ids.drop_first()[i] == ids[i + 1]);
        }
        assert(above.0 < ids[0].0 < g.len());
        lemma_walk_preorder(g, ids[0], depth);
        lemma_walks_preorder(g, ids.drop_first(), rest, above, depth);
        assert(firsts(all) =~= firsts(first) + firsts(others));
    }
}

/// Where no two siblings are equally strong, the strength walk visits the nodes
/// in depth-first preorder.
pub proof fn law_without_ties_strength_is_preorder(g: Graph)
    requires
        valid(g),
        g.len() > 0,
        no_ties(strength_groups(g)),
    ensures
        firsts(strength_groups(g)) == preorder(g, NodeId(0)),
{
    assert(node_shaped(g, 0));
    assert(in_graph(g, NodeId(0)) && ancestry(g, NodeId(0)).len() == 1);
    lemma_walk_preorder(g, NodeId(0), 0);
}

} // verus!
