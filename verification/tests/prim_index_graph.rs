use layerstack::interner::TokenInterner;
use layerstack::order::Order;
use layerstack::path::{Path, PathId, PathInterner};
use layerstack::prim_index::{ArcKind, LayerId, LayerOffset, OpinionKey};
use layerstack::prim_index_graph::{NodeArc, NodeId, PrimIndexGraph};
use layerstack::spec_path::SpecPath;

fn spec_path(text: &str) -> SpecPath {
    let mut tokens = TokenInterner::default();
    let mut paths = PathInterner::default();
    let path = paths.intern(Path::parse_absolute(text, &mut tokens).expect("path"));
    SpecPath::from_prim_path(path, &paths)
}

fn arc(arc_kind: ArcKind, namespace_depth: u16, sibling_index: u16) -> NodeArc {
    NodeArc {
        arc_kind,
        layer_stack: LayerId(1),
        site: spec_path("/A"),
        namespace_depth,
        sibling_index,
        implied: false,
        skips_duplicates: false,
    }
}

fn graph(arcs: Vec<(u32, NodeArc)>) -> PrimIndexGraph {
    let mut graph = PrimIndexGraph::new(arc(ArcKind::Local, 1, 0));
    for (parent, arc) in arcs {
        graph.intern_child(NodeId(parent), arc);
    }
    graph.rank();
    graph
}

fn assert_order(graph: &PrimIndexGraph, order: &[u32]) {
    for pair in order.windows(2) {
        let (a, b) = (NodeId(pair[0]), NodeId(pair[1]));
        assert_eq!(graph.compare_nodes(a, b), Order::Less, "{a:?} < {b:?}");
        assert_eq!(graph.compare_nodes(b, a), Order::Greater, "{b:?} > {a:?}");
    }
}

#[test]
fn siblings_follow_liverps_then_depth_then_list_order() {
    let graph = graph(vec![
        (0, arc(ArcKind::Payloads, 1, 0)),
        (0, arc(ArcKind::References, 1, 1)),
        (0, arc(ArcKind::References, 1, 0)),
        (0, arc(ArcKind::References, 2, 3)),
        (0, arc(ArcKind::Variants, 1, 0)),
        (0, arc(ArcKind::Inherits, 1, 0)),
    ]);
    assert_order(&graph, &[0, 6, 5, 4, 3, 2, 1]);
}

#[test]
fn a_node_ranks_its_descendants_before_its_weaker_siblings() {
    let graph = graph(vec![
        (0, arc(ArcKind::References, 1, 0)),
        (0, arc(ArcKind::References, 1, 1)),
        (1, arc(ArcKind::Payloads, 1, 0)),
        (3, arc(ArcKind::References, 1, 0)),
        (1, arc(ArcKind::Inherits, 1, 0)),
    ]);
    assert_order(&graph, &[0, 1, 5, 3, 4, 2]);
}

#[test]
fn equal_siblings_share_a_rank_and_their_children() {
    let other_set = NodeArc {
        layer_stack: LayerId(2),
        ..arc(ArcKind::Variants, 1, 0)
    };
    let graph = graph(vec![
        (0, arc(ArcKind::Variants, 1, 0)),
        (0, other_set),
        (2, arc(ArcKind::References, 1, 0)),
        (1, arc(ArcKind::Inherits, 1, 0)),
    ]);
    assert_eq!(graph.compare_nodes(NodeId(1), NodeId(2)), Order::Equal);
    assert_order(&graph, &[0, 1, 4, 3]);
    assert_order(&graph, &[2, 4]);
}

#[test]
fn implied_classes_rank_after_authored_ones_and_by_their_origins() {
    let implied = |stack: u64| NodeArc {
        implied: true,
        layer_stack: LayerId(stack),
        ..arc(ArcKind::Inherits, 1, 0)
    };
    let mut graph = graph(vec![
        (0, arc(ArcKind::References, 1, 0)),
        (0, arc(ArcKind::References, 1, 1)),
        (1, arc(ArcKind::Inherits, 1, 0)),
        (2, arc(ArcKind::Inherits, 1, 0)),
        (0, implied(1)),
        (0, implied(2)),
        (
            0,
            NodeArc {
                layer_stack: LayerId(3),
                ..arc(ArcKind::Inherits, 1, 0)
            },
        ),
    ]);
    graph.set_origin(NodeId(5), NodeId(4));
    graph.set_origin(NodeId(6), NodeId(3));
    graph.rank();
    assert_eq!(
        graph.node(NodeId(5)).and_then(|node| node.origin()),
        Some(NodeId(4))
    );
    assert_order(&graph, &[0, 7, 6, 5, 1, 3, 2, 4]);
}

#[test]
fn implied_classes_come_after_their_origins_subtrees() {
    let in_stack = |layer_stack, arc_kind| NodeArc {
        layer_stack: LayerId(layer_stack),
        ..arc(arc_kind, 1, 0)
    };
    let mut graph = graph(vec![
        (0, in_stack(1, ArcKind::Inherits)),
        (1, in_stack(2, ArcKind::Inherits)),
        (2, in_stack(3, ArcKind::Inherits)),
        (3, in_stack(4, ArcKind::References)),
        (
            0,
            NodeArc {
                implied: true,
                ..in_stack(5, ArcKind::Inherits)
            },
        ),
        (5, in_stack(6, ArcKind::Inherits)),
        (6, in_stack(4, ArcKind::References)),
        (2, in_stack(7, ArcKind::Variants)),
        (8, in_stack(8, ArcKind::References)),
    ]);
    graph.set_origin(NodeId(5), NodeId(2));
    let after = |a, b| graph.implied_after(NodeId(a), NodeId(b));
    assert!(after(4, 7));
    assert!(after(2, 5));
    assert!(after(3, 6));
    assert!(!after(7, 4));
    assert!(!after(5, 2));
    assert!(!after(9, 7));
    assert!(!after(1, 7));
}

#[test]
fn retained_nodes_keep_their_origins() {
    let mut graph = graph(vec![
        (0, arc(ArcKind::References, 1, 0)),
        (1, arc(ArcKind::Inherits, 1, 0)),
        (
            0,
            NodeArc {
                implied: true,
                ..arc(ArcKind::Inherits, 1, 0)
            },
        ),
    ]);
    graph.set_origin(NodeId(3), NodeId(2));
    let remap = graph.retain_nodes(|id, _| id == NodeId(0) || id == NodeId(3));
    assert_eq!(
        remap,
        [
            Some(NodeId(0)),
            Some(NodeId(1)),
            Some(NodeId(2)),
            Some(NodeId(3))
        ]
    );
    assert_eq!(
        graph.node(NodeId(3)).and_then(|node| node.origin()),
        Some(NodeId(2))
    );
}

#[test]
fn retained_nodes_keep_their_ancestors() {
    let mut graph = graph(vec![
        (0, arc(ArcKind::References, 1, 0)),
        (0, arc(ArcKind::Inherits, 1, 0)),
        (1, arc(ArcKind::Payloads, 1, 0)),
        (2, arc(ArcKind::References, 1, 0)),
    ]);
    let remap = graph.retain_nodes(|id, _| id == NodeId(0) || id == NodeId(3));
    assert_eq!(
        remap,
        [
            Some(NodeId(0)),
            Some(NodeId(1)),
            None,
            Some(NodeId(2)),
            None
        ]
    );
    assert_eq!(graph.len(), 3);
    let payload = graph.node(NodeId(2)).expect("payload");
    assert_eq!(payload.parent(), Some(NodeId(1)));
    assert_eq!(
        *graph.node(NodeId(1)).expect("reference").children(),
        [NodeId(2)]
    );
    graph.rank();
    assert_order(&graph, &[0, 1, 2]);
}

fn key(node: NodeId, layer_strength: u16, layer_id: u64, spec_path: SpecPath) -> OpinionKey {
    OpinionKey {
        node,
        layer_strength,
        layer_id: LayerId(layer_id),
        lookup_path: PathId { index: 0 },
        spec_path,
    }
}

fn ranked_keys() -> (PrimIndexGraph, Vec<OpinionKey>) {
    let mut tokens = TokenInterner::default();
    let mut paths = PathInterner::default();
    let mut path = |text: &str| {
        let path = paths.intern(Path::parse_absolute(text, &mut tokens).expect("path"));
        SpecPath::from_prim_path(path, &paths)
    };
    let (a, b) = (path("/A"), path("/B"));
    let graph = graph(vec![(0, arc(ArcKind::Variants, 1, 0))]);
    let variant = NodeId(1);
    let order = vec![
        key(NodeId::root(), 0, 1, a.clone()),
        key(NodeId::root(), 0, 1, b),
        key(NodeId::root(), 0, 2, a.clone()),
        key(NodeId::root(), 1, 0, a.clone()),
        key(variant, 0, 0, a),
    ];
    (graph, order)
}

#[test]
fn opinions_rank_by_node_then_layer_then_stable_ids() {
    let (graph, order) = ranked_keys();
    for pair in order.windows(2) {
        assert_eq!(graph.compare_keys(&pair[0], &pair[1]), Order::Less);
        assert_eq!(graph.compare_keys(&pair[1], &pair[0]), Order::Greater);
    }
}

#[test]
fn keys_sort_strongest_first() {
    let (graph, order) = ranked_keys();
    let mut keys = vec![
        order[3].clone(),
        order[4].clone(),
        order[0].clone(),
        order[2].clone(),
        order[1].clone(),
    ];
    graph.sort_keys(&mut keys);
    assert_eq!(keys, order);
}

#[test]
fn traversals_visit_every_node_strongest_first() {
    let graph = graph(vec![
        (0, arc(ArcKind::Specializes, 1, 0)),
        (0, arc(ArcKind::Variants, 3, 0)),
        (0, arc(ArcKind::References, 1, 0)),
    ]);
    let kinds = |order: Vec<NodeId>| -> Vec<ArcKind> {
        order
            .into_iter()
            .map(|id| graph.node(id).expect("node").arc_kind())
            .collect()
    };
    let expected = [
        ArcKind::Local,
        ArcKind::Variants,
        ArcKind::References,
        ArcKind::Specializes,
    ];
    assert_eq!(kinds(graph.strength_order()), expected);
    assert_eq!(kinds(graph.depth_first()), expected);
}

fn in_stack(layer_stack: u64, arc: NodeArc) -> NodeArc {
    NodeArc {
        layer_stack: LayerId(layer_stack),
        ..arc
    }
}

#[test]
fn propagated_specializes_are_weaker_than_payloads() {
    let mut graph = graph(vec![
        (0, in_stack(2, arc(ArcKind::References, 1, 0))),
        (0, in_stack(3, arc(ArcKind::Payloads, 1, 0))),
        (1, in_stack(2, arc(ArcKind::Specializes, 1, 0))),
        (0, in_stack(2, arc(ArcKind::Specializes, 1, 0))),
    ]);
    graph.set_origin(NodeId(4), NodeId(3));
    graph.rank();
    assert_order(&graph, &[0, 1, 3, 2, 4]);
}

#[test]
fn propagated_specializes_follow_their_placeholders() {
    let mut graph = graph(vec![
        (0, in_stack(1, arc(ArcKind::Specializes, 1, 0))),
        (0, in_stack(1, arc(ArcKind::Specializes, 1, 1))),
        (1, in_stack(4, arc(ArcKind::Specializes, 1, 0))),
        (0, in_stack(4, arc(ArcKind::Specializes, 1, 0))),
    ]);
    graph.set_origin(NodeId(4), NodeId(3));
    graph.rank();
    assert_order(&graph, &[0, 1, 4, 2]);
}

#[test]
fn implied_specializes_outrank_the_node_propagated_beside_them() {
    let implied = NodeArc {
        implied: true,
        ..arc(ArcKind::Specializes, 1, 0)
    };
    let mut graph = graph(vec![
        (0, in_stack(2, arc(ArcKind::References, 1, 0))),
        (1, in_stack(2, arc(ArcKind::Specializes, 1, 0))),
        (0, in_stack(2, arc(ArcKind::Specializes, 1, 0))),
        (0, implied),
    ]);
    graph.set_origin(NodeId(3), NodeId(2));
    graph.set_origin(NodeId(4), NodeId(2));
    graph.rank();
    assert_order(&graph, &[0, 1, 4, 3]);
}

#[test]
fn interning_an_arc_twice_gives_one_node() {
    let mut graph = PrimIndexGraph::new(arc(ArcKind::Local, 1, 0));
    let first = graph.intern_child(NodeId::root(), arc(ArcKind::References, 1, 0));
    let again = graph.intern_child(NodeId::root(), arc(ArcKind::References, 1, 0));
    let other = graph.intern_child(NodeId::root(), arc(ArcKind::References, 1, 1));
    assert_eq!(first, again);
    assert_ne!(first, other);
    assert_eq!(graph.len(), 3);
    assert_eq!(graph.nodes().len(), 3);
    assert!(!graph.is_empty());
    assert_eq!(graph.root(), Some(NodeId::root()));
    assert!(PrimIndexGraph::default().is_empty());
    assert_eq!(PrimIndexGraph::default().root(), None);
}

#[test]
fn nodes_answer_with_their_arcs() {
    let mut graph = graph(vec![(0, in_stack(7, arc(ArcKind::Payloads, 2, 5)))]);
    let offset = LayerOffset {
        offset: 10.0f64.to_bits(),
        scale: 2.0f64.to_bits(),
    };
    graph.set_layer_offset(NodeId(1), offset);
    let node = graph.node(NodeId(1)).expect("node");
    assert_eq!(node.arc_kind(), ArcKind::Payloads);
    assert_eq!(node.layer_stack(), LayerId(7));
    assert_eq!(node.namespace_depth(), 2);
    assert_eq!(node.sibling_index(), 5);
    assert!(!node.is_implied());
    assert_eq!(node.layer_offset(), offset);
    assert_eq!(*node.site(), spec_path("/A"));
    assert_eq!(graph.arc_path(NodeId(1)).len(), 1);
    assert!(graph.arc_path(NodeId::root()).is_empty());
    assert!(graph.node(NodeId(2)).is_none());
}
