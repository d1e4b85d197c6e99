use vstd::prelude::*;

use crate::scene::{
    children_come_later, empty_node, lemma_ordered_scene_is_drawable, spec_draw_order, NodeData,
    SceneGraph, NO_GEOMETRY,
};

verus! {

/// Geometry uploaded to the graphics card: a vertex array and how many
/// indices of it to draw.
#[derive(Clone, Copy, Debug, PartialEq, Eq, Structural)]
pub struct Geometry {
    pub vao_id: u32,
    pub index_count: i32,
}

/// The geometry of the helicopter model, one piece per moving part.
#[derive(Clone, Copy, Debug, PartialEq, Eq, Structural)]
pub struct HelicopterModel {
    pub body: Geometry,
    pub door: Geometry,
    pub main_rotor: Geometry,
    pub tail_rotor: Geometry,
}

/// Ids of the nodes that make up one helicopter.
#[derive(Clone, Copy, Debug, PartialEq, Eq, Structural)]
pub struct HelicopterNodes {
    /// Node without geometry that the animation moves; the body hangs under it.
    pub animation: usize,
    pub body: usize,
    pub door: usize,
    pub main_rotor: usize,
    pub tail_rotor: usize,
}

/// Ids of the nodes of the world scene.
pub struct WorldNodes {
    pub root: usize,
    pub terrain: usize,
    pub camera: usize,
    pub helicopters: Vec<HelicopterNodes>,
}

/// Ids of helicopter `k`: its five nodes follow the root and the terrain,
/// five per helicopter, in the order animation, body, door, main rotor,
/// tail rotor.
pub open spec fn helicopter_nodes(k: int) -> HelicopterNodes {
    HelicopterNodes {
        animation: (2 + 5 * k) as usize,
        body: (3 + 5 * k) as usize,
        door: (4 + 5 * k) as usize,
        main_rotor: (5 + 5 * k) as usize,
        tail_rotor: (6 + 5 * k) as usize,
    }
}

/// The terrain's children after `k` helicopters were placed on it: each
/// helicopter's animation node is added twice, so each helicopter is drawn
/// twice.
pub open spec fn terrain_children(k: nat) -> Seq<usize>
    decreases k,
{
    if k == 0 {
        Seq::empty()
    } else {
        let a = helicopter_nodes(k - 1).animation;
        terrain_children((k - 1) as nat).push(a).push(a)
    }
}

/// A node lit as part of a helicopter.
pub open spec fn helicopter_part(geometry: Geometry, children: Seq<usize>) -> NodeData {
    NodeData {
        vao_id: geometry.vao_id,
        index_count: geometry.index_count,
        is_helicopter: true,
        children,
    }
}

/// Graph `g` holds the helicopter with ids `h`: the animation node carries
/// the body, the body carries the door, the main rotor and the tail rotor.
pub open spec fn holds_helicopter(g: Seq<NodeData>, h: HelicopterNodes, model: HelicopterModel) -> bool {
    &&& g[h.animation as int] == NodeData {
        vao_id: 0,
        index_count: NO_GEOMETRY,
        is_helicopter: false,
        children: seq![h.body],
    }
    &&& g[h.body as int] == helicopter_part(model.body, seq![h.door, h.main_rotor, h.tail_rotor])
    &&& g[h.door as int] == helicopter_part(model.door, Seq::empty())
    &&& g[h.main_rotor as int] == helicopter_part(model.main_rotor, Seq::empty())
    &&& g[h.tail_rotor as int] == helicopter_part(model.tail_rotor, Seq::empty())
}

proof fn lemma_terrain_children_bounds(k: nat)
    requires
        2 + 5 * k <= usize::MAX,
    ensures
        terrain_children(k).len() == 2 * k,
        forall|j: int| 0 <= j < terrain_children(k).len() ==>
            2 <= #[trigger] terrain_children(k)[j] < 2 + 5 * k,
    decreases k,
{
    if k > 0 {
        lemma_terrain_children_bounds((k - 1) as nat);
        let prev = terrain_children((k - 1) as nat);
        assert forall|j: int| 0 <= j < terrain_children(k).len() implies
            2 <= #[trigger] terrain_children(k)[j] < 2 + 5 * k by {
            let a = helicopter_nodes(k - 1).animation;
            assert(terrain_children(k) == prev.push(a).push(a));
            assert(a == 2 + 5 * (k - 1));
            if j < prev.len() {
                assert(terrain_children(k)[j] == prev[j]);
            } else {
                assert(terrain_children(k)[j] == a);
            }
        }
    }
}

/// Builds the world scene: a root carrying the terrain; on the terrain
/// `helicopters` helicopters (each placed twice) and then the camera.
///
/// The returned graph can always be drawn from the root.
pub fn build_world(terrain: Geometry, model: HelicopterModel, helicopters: usize) -> (r: (SceneGraph, WorldNodes))
    requires
        3 + 5 * helicopters <= usize::MAX,
    ensures
        ({
            let (g, ids) = r;
            &&& g@.len() == 3 + 5 * helicopters
            &&& ids.root == 0
            &&& ids.terrain == 1
            &&& ids.camera == 2 + 5 * helicopters
            &&& ids.helicopters@.len() == helicopters
            &&& forall|k: int| 0 <= k < helicopters ==> #[trigger] ids.helicopters@[k] == helicopter_nodes(k)
            &&& g@[0] == NodeData { vao_id: 0, index_count: NO_GEOMETRY, is_helicopter: false, children: seq![1usize] }
            &&& g@[1] == NodeData {
                vao_id: terrain.vao_id,
                index_count: terrain.index_count,
                is_helicopter: false,
                children: terrain_children(helicopters as nat).push(ids.camera),
            }
            &&& forall|k: int| 0 <= k < helicopters ==> holds_helicopter(g@, #[trigger] helicopter_nodes(k), model)
            &&& forall|k: int| 0 <= k < helicopters ==> {
                let h = #[trigger] ids.helicopters@[k];
                &&& g@[h.animation as int].index_count == NO_GEOMETRY
                &&& g@[h.animation as int].children == seq![h.body]
                &&& g@[h.body as int].vao_id == model.body.vao_id
                &&& g@[h.body as int].index_count == model.body.index_count
                &&& g@[h.body as int].is_helicopter
                &&& g@[h.body as int].children == seq![h.door, h.main_rotor, h.tail_rotor]
                &&& g@[h.door as int].vao_id == model.door.vao_id
                &&& g@[h.door as int].index_count == model.door.index_count
                &&& g@[h.door as int].is_helicopter
                &&& g@[h.main_rotor as int].vao_id == model.main_rotor.vao_id
                &&& g@[h.main_rotor as int].index_count == model.main_rotor.index_count
                &&& g@[h.main_rotor as int].is_helicopter
                &&& g@[h.tail_rotor as int].vao_id == model.tail_rotor.vao_id
                &&& g@[h.tail_rotor as int].index_count == model.tail_rotor.index_count
                &&& g@[h.tail_rotor as int].is_helicopter
            }
            &&& g@[ids.camera as int] == empty_node()
            &&& spec_draw_order(g@, ids.root) is Some
        }),
{
    let mut g = SceneGraph::new();
    let root = g.add_node();
    let terrain_id = g.add_vao_node(terrain.vao_id, terrain.index_count);
    let mut parts: Vec<HelicopterNodes> = Vec::new();
    let mut k: usize = 0;
    while k < helicopters
        invariant
            k <= helicopters,
            3 + 5 * helicopters <= usize::MAX,
            root == 0,
            terrain_id == 1,
            g@.len() == 2 + 5 * k,
            parts@.len() == k,
            forall|j: int| 0 <= j < k ==> #[trigger] parts@[j] == helicopter_nodes(j),
            g@[0] == empty_node(),
            g@[1] == (NodeData {
                vao_id: terrain.vao_id,
                index_count: terrain.index_count,
                is_helicopter: false,
                children: terrain_children(k as nat),
            }),
            forall|j: int| 0 <= j < k ==> holds_helicopter(g@, #[trigger] helicopter_nodes(j), model),
        decreases helicopters - k,
    {
        let ghost before = g@;
        let animation = g.add_node();
        let body = g.add_vao_node(model.body.vao_id, model.body.index_count);
        let door = g.add_vao_node(model.door.vao_id, model.door.index_count);
        let main_rotor = g.add_vao_node(model.main_rotor.vao_id, model.main_rotor.index_count);
        let tail_rotor = g.add_vao_node(model.tail_rotor.vao_id, model.tail_rotor.index_count);
        g.set_helicopter(body, true);
        g.set_helicopter(door, true);
        g.set_helicopter(main_rotor, true);
        g.set_helicopter(tail_rotor, true);
        g.add_child(body, door);
        g.add_child(body, main_rotor);
        g.add_child(body, tail_rotor);
        g.add_child(animation, body);
        g.add_child(terrain_id, animation);
        g.add_child(terrain_id, animation);
        let h = HelicopterNodes { animation, body, door, main_rotor, tail_rotor };
        parts.push(h);
        proof {
            assert(h == helicopter_nodes(k as int));
            assert(forall|i: int| 0 <= i < before.len() && i != 1 ==> g@[i] == before[i]);
            assert(g@[animation as int].children =~= seq![body]);
            assert(g@[body as int].children =~= seq![door, main_rotor, tail_rotor]);
            assert(g@[door as int].children =~= Seq::<usize>::empty());
            assert(g@[1].children =~= terrain_children((k + 1) as nat));
            assert forall|j: int| 0 <= j < k + 1 implies holds_helicopter(g@, #[trigger] helicopter_nodes(j), model) by {
                if j < k {
                    assert(holds_helicopter(before, helicopter_nodes(j), model));
                }
            }
        }
        k = k + 1;
    }
    g.add_child(root, terrain_id);
    let camera = g.add_node();
    g.add_child(terrain_id, camera);
    proof {
        let gv = g@;
        assert(gv[0].children =~= seq![1usize]);
        lemma_terrain_children_bounds(helicopters as nat);
        assert forall|n: int, j: int| 0 <= n < gv.len() && 0 <= j < gv[n].children.len() implies
            n < #[trigger] gv[n].children[j] < gv.len() by {
            if n == 1 {
                if j < terrain_children(helicopters as nat).len() {
                    assert(gv[1].children[j] == terrain_children(helicopters as nat)[j]);
                }
            } else if 2 <= n < 2 + 5 * helicopters {
                let q = (n - 2) / 5;
                assert(0 <= q < helicopters && (n == 2 + 5 * q || n == 3 + 5 * q || n == 4 + 5 * q
                    || n == 5 + 5 * q || n == 6 + 5 * q)) by (nonlinear_arith)
                    requires 2 <= n < 2 + 5 * helicopters, q == (n - 2) / 5;
                assert(holds_helicopter(gv, helicopter_nodes(q), model));
            }
        }
        assert(children_come_later(gv));
        assert forall|k: int| 0 <= k < helicopters implies {
            let h = #[trigger] parts@[k];
            &&& gv[h.animation as int].index_count == NO_GEOMETRY
            &&& gv[h.animation as int].children == seq![h.body]
            &&& gv[h.body as int].vao_id == model.body.vao_id
            &&& gv[h.body as int].index_count == model.body.index_count
            &&& gv[h.body as int].is_helicopter
            &&& gv[h.body as int].children == seq![h.door, h.main_rotor, h.tail_rotor]
            &&& gv[h.door as int].vao_id == model.door.vao_id
            &&& gv[h.door as int].index_count == model.door.index_count
            &&& gv[h.door as int].is_helicopter
            &&& gv[h.main_rotor as int].vao_id == model.main_rotor.vao_id
            &&& gv[h.main_rotor as int].index_count == model.main_rotor.index_count
            &&& gv[h.main_rotor as int].is_helicopter
            &&& gv[h.tail_rotor as int].vao_id == model.tail_rotor.vao_id
            &&& gv[h.tail_rotor as int].index_count == model.tail_rotor.index_count
            &&& gv[h.tail_rotor as int].is_helicopter
        } by {
            assert(parts@[k] == helicopter_nodes(k));
            assert(holds_helicopter(gv, helicopter_nodes(k), model));
        }
        lemma_ordered_scene_is_drawable(gv, 0);
    }
    (g, WorldNodes { root, terrain: terrain_id, camera, helicopters: parts })
}

} // verus!
