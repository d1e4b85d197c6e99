use gloom_rs::scene::{SceneGraph, Visit, NO_GEOMETRY};

#[test]
fn nodes_get_consecutive_ids() {
    let mut g = SceneGraph::new();
    assert_eq!(g.len(), 0);
    assert_eq!(g.add_node(), 0);
    assert_eq!(g.add_vao_node(7, 36), 1);
    assert_eq!(g.len(), 2);
    assert_eq!(g.node(0).index_count, NO_GEOMETRY);
    assert_eq!(g.node(1).vao_id, 7);
    assert_eq!(g.node(1).index_count, 36);
    assert!(!g.is_drawable(0));
    assert!(g.is_drawable(1));
}

#[test]
fn zero_indices_still_drawable() {
    let mut g = SceneGraph::new();
    let n = g.add_vao_node(3, 0);
    assert!(g.is_drawable(n));
}

#[test]
fn children_keep_order_and_repeats() {
    let mut g = SceneGraph::new();
    let a = g.add_node();
    let b = g.add_node();
    let c = g.add_node();
    g.add_child(a, c);
    g.add_child(a, b);
    g.add_child(a, c);
    assert_eq!(g.node(a).children, vec![c, b, c]);
    g.set_helicopter(b, true);
    assert!(g.node(b).is_helicopter);
    assert!(!g.node(a).is_helicopter);
}

#[test]
fn draw_order_is_depth_first() {
    let mut g = SceneGraph::new();
    let root = g.add_node();
    let a = g.add_vao_node(1, 3);
    let b = g.add_vao_node(2, 3);
    let c = g.add_vao_node(3, 3);
    g.add_child(root, a);
    g.add_child(a, b);
    g.add_child(root, c);
    let order = g.draw_order(root).unwrap();
    assert_eq!(
        order,
        vec![
            Visit { node: root, parent: None },
            Visit { node: a, parent: Some(0) },
            Visit { node: b, parent: Some(1) },
            Visit { node: c, parent: Some(0) },
        ]
    );
}

#[test]
fn shared_child_is_visited_once_per_path() {
    let mut g = SceneGraph::new();
    let root = g.add_node();
    let shared = g.add_node();
    let leaf = g.add_vao_node(9, 6);
    g.add_child(shared, leaf);
    g.add_child(root, shared);
    g.add_child(root, shared);
    let order = g.draw_order(root).unwrap();
    assert_eq!(
        order,
        vec![
            Visit { node: root, parent: None },
            Visit { node: shared, parent: Some(0) },
            Visit { node: leaf, parent: Some(1) },
            Visit { node: shared, parent: Some(0) },
            Visit { node: leaf, parent: Some(3) },
        ]
    );
}

#[test]
fn child_added_before_its_parent_is_fine() {
    let mut g = SceneGraph::new();
    let leaf = g.add_vao_node(1, 3);
    let root = g.add_node();
    g.add_child(root, leaf);
    let order = g.draw_order(root).unwrap();
    assert_eq!(order, vec![Visit { node: root, parent: None }, Visit { node: leaf, parent: Some(0) }]);
}

#[test]
fn cycle_has_no_draw_order() {
    let mut g = SceneGraph::new();
    let a = g.add_node();
    let b = g.add_node();
    g.add_child(a, b);
    g.add_child(b, a);
    assert_eq!(g.draw_order(a), None);
    let mut h = SceneGraph::new();
    let s = h.add_node();
    h.add_child(s, s);
    assert_eq!(h.draw_order(s), None);
}

#[test]
fn unknown_root_has_no_draw_order() {
    let mut g = SceneGraph::new();
    g.add_node();
    assert_eq!(g.draw_order(5), None);
    let empty = SceneGraph::new();
    assert_eq!(empty.draw_order(0), None);
}

#[test]
fn single_node_order() {
    let mut g = SceneGraph::new();
    let n = g.add_vao_node(4, 12);
    assert_eq!(g.draw_order(n), Some(vec![Visit { node: n, parent: None }]));
}
