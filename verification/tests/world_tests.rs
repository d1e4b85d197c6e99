use gloom_rs::scene::{Visit, NO_GEOMETRY};
use gloom_rs::world::{build_world, Geometry, HelicopterModel, HelicopterNodes};

fn model() -> HelicopterModel {
    HelicopterModel {
        body: Geometry { vao_id: 11, index_count: 300 },
        door: Geometry { vao_id: 12, index_count: 30 },
        main_rotor: Geometry { vao_id: 13, index_count: 60 },
        tail_rotor: Geometry { vao_id: 14, index_count: 24 },
    }
}

#[test]
fn world_with_five_helicopters() {
    let terrain = Geometry { vao_id: 10, index_count: 9000 };
    let (g, ids) = build_world(terrain, model(), 5);
    assert_eq!(g.len(), 28);
    assert_eq!(ids.root, 0);
    assert_eq!(ids.terrain, 1);
    assert_eq!(ids.camera, 27);
    assert_eq!(ids.helicopters.len(), 5);
    assert_eq!(
        ids.helicopters[2],
        HelicopterNodes { animation: 12, body: 13, door: 14, main_rotor: 15, tail_rotor: 16 }
    );
    assert_eq!(g.node(0).children, vec![1]);
    assert_eq!(g.node(1).vao_id, 10);
    assert_eq!(g.node(1).index_count, 9000);
    assert_eq!(g.node(1).children, vec![2, 2, 7, 7, 12, 12, 17, 17, 22, 22, 27]);
    for h in &ids.helicopters {
        assert_eq!(g.node(h.animation).children, vec![h.body]);
        assert_eq!(g.node(h.animation).index_count, NO_GEOMETRY);
        assert!(!g.node(h.animation).is_helicopter);
        assert_eq!(g.node(h.body).children, vec![h.door, h.main_rotor, h.tail_rotor]);
        assert!(g.node(h.body).is_helicopter);
        assert_eq!(g.node(h.door).vao_id, 12);
        assert_eq!(g.node(h.main_rotor).index_count, 60);
        assert_eq!(g.node(h.tail_rotor).vao_id, 14);
        assert!(g.node(h.tail_rotor).children.is_empty());
    }
    assert_eq!(g.node(ids.camera).index_count, NO_GEOMETRY);
    assert!(g.node(ids.camera).children.is_empty());
}

#[test]
fn world_draw_order_draws_each_helicopter_twice() {
    let terrain = Geometry { vao_id: 10, index_count: 9000 };
    let (g, ids) = build_world(terrain, model(), 5);
    let order = g.draw_order(ids.root).unwrap();
    // root, terrain, 5 helicopters of 5 nodes each placed twice, camera
    assert_eq!(order.len(), 53);
    assert_eq!(order[0], Visit { node: 0, parent: None });
    assert_eq!(order[1], Visit { node: 1, parent: Some(0) });
    assert_eq!(order[2], Visit { node: 2, parent: Some(1) });
    assert_eq!(order[3], Visit { node: 3, parent: Some(2) });
    assert_eq!(order[4], Visit { node: 4, parent: Some(3) });
    assert_eq!(order[7], Visit { node: 2, parent: Some(1) });
    assert_eq!(order[52], Visit { node: 27, parent: Some(1) });
    for (i, v) in order.iter().enumerate().skip(1) {
        let p = v.parent.unwrap();
        assert!(p < i);
        assert!(g.node(order[p].node).children.contains(&v.node));
    }
    for (i, v) in order.iter().enumerate() {
        let under: Vec<usize> = order.iter().filter(|w| w.parent == Some(i)).map(|w| w.node).collect();
        assert_eq!(under, g.node(v.node).children);
    }
    let drawn = order.iter().filter(|v| g.is_drawable(v.node)).count();
    // terrain and 4 parts per helicopter, twice each
    assert_eq!(drawn, 41);
}

#[test]
fn world_without_helicopters() {
    let terrain = Geometry { vao_id: 1, index_count: 3 };
    let (g, ids) = build_world(terrain, model(), 0);
    assert_eq!(g.len(), 3);
    assert_eq!(ids.camera, 2);
    assert!(ids.helicopters.is_empty());
    assert_eq!(g.node(1).children, vec![2]);
    let order = g.draw_order(ids.root).unwrap();
    assert_eq!(
        order,
        vec![
            Visit { node: 0, parent: None },
            Visit { node: 1, parent: Some(0) },
            Visit { node: 2, parent: Some(1) },
        ]
    );
}
