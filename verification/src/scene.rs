use vstd::prelude::*;

verus! {

/// The index count that marks a node with nothing of its own to draw
/// (a node that only groups and places its children).
pub const NO_GEOMETRY: i32 = -1;

/// One node of the scene graph: the vertex array it draws, if any, and the
/// nodes placed relative to it.
///
/// Where a node sits (its position, rotation, scale and the point it turns
/// about) is kept by whoever draws the scene, one entry per node id.
#[derive(Debug)]
pub struct SceneNode {
    /// Vertex array object that holds the node's geometry.
    pub vao_id: u32,
    /// Number of indices to draw, or `NO_GEOMETRY`.
    pub index_count: i32,
    /// Whether the shaders light this node as part of a helicopter.
    pub is_helicopter: bool,
    /// Ids of the children, in the order in which they were added; a node
    /// added twice is a child twice.
    pub children: Vec<usize>,
}

/// What a scene node holds, as plain values.
pub struct NodeData {
    pub vao_id: u32,
    pub index_count: i32,
    pub is_helicopter: bool,
    pub children: Seq<usize>,
}

impl View for SceneNode {
    type V = NodeData;

    open spec fn view(&self) -> NodeData {
        NodeData {
            vao_id: self.vao_id,
            index_count: self.index_count,
            is_helicopter: self.is_helicopter,
            children: self.children@,
        }
    }
}

/// A node with nothing to draw and no children.
pub open spec fn empty_node() -> NodeData {
    NodeData { vao_id: 0, index_count: NO_GEOMETRY, is_helicopter: false, children: Seq::empty() }
}

/// A node that draws `index_count` indices of vertex array `vao_id`.
pub open spec fn vao_node(vao_id: u32, index_count: i32) -> NodeData {
    NodeData { vao_id, index_count, is_helicopter: false, children: Seq::empty() }
}

/// Whether a node has geometry of its own to draw.
pub open spec fn spec_is_drawable(node: NodeData) -> bool {
    node.index_count != NO_GEOMETRY
}

/// One step of drawing the scene: node `node` is drawn with its own placement
/// applied on top of the placement computed at visit `parent` (an index
/// into the same list), or on top of the placement the walk started from
/// when `parent` is `None`.
#[derive(Clone, Copy, Debug, PartialEq, Eq, Structural)]
pub struct Visit {
    pub node: usize,
    pub parent: Option<usize>,
}

/// The visits made when drawing node `n` and, after it, each of its
/// children's subtrees in order (depth first, parents before children).
///
/// `parent` is the visit whose placement `n` is drawn under, `base` the
/// index that the visit of `n` gets in the whole list, and `fuel` how many
/// levels the walk may still descend. `None` when the walk would descend
/// more than `fuel` levels or reaches an id that names no node.
pub open spec fn draw_walk(g: Seq<NodeData>, n: usize, parent: Option<usize>, base: nat, fuel: nat) -> Option<Seq<Visit>>
    decreases fuel, 0nat, 0nat,
{
    if fuel == 0 || n >= g.len() {
        None
    } else {
        match draw_walk_list(g, g[n as int].children, base as usize, base + 1, (fuel - 1) as nat) {
            Some(rest) => Some(seq![Visit { node: n, parent }] + rest),
            None => None,
        }
    }
}

/// The visits made when drawing the subtrees of `children` one after the
/// other, each under visit `parent`, the first visit getting index `base`.
pub open spec fn draw_walk_list(g: Seq<NodeData>, children: Seq<usize>, parent: usize, base: nat, fuel: nat) -> Option<Seq<Visit>>
    decreases fuel, 1nat, children.len(),
{
    if children.len() == 0 {
        Some(Seq::empty())
    } else {
        match draw_walk(g, children[0], Some(parent), base, fuel) {
            Some(first) => match draw_walk_list(g, children.drop_first(), parent, base + first.len(), fuel) {
                Some(others) => Some(first + others),
                None => None,
            },
            None => None,
        }
    }
}

/// The visits made when drawing the scene from node `root`.
///
/// `None` when `root` names no node, or when the walk nests more deeply
/// than there are nodes: it then passes a node twice on one path, so it
/// would never end.
pub open spec fn spec_draw_order(g: Seq<NodeData>, root: usize) -> Option<Seq<Visit>> {
    draw_walk(g, root, None, 0, g.len())
}

proof fn lemma_walk_parents(g: Seq<NodeData>, n: usize, parent: Option<usize>, base: nat, fuel: nat)
    requires
        draw_walk(g, n, parent, base, fuel) is Some,
    ensures
        ({
            let vs = draw_walk(g, n, parent, base, fuel).unwrap();
            &&& vs.len() >= 1
            &&& vs[0] == Visit { node: n, parent }
            &&& forall|i: int| 0 <= i < vs.len() ==> (#[trigger] vs[i]).node < g.len()
            &&& base + vs.len() <= usize::MAX + 1 ==> forall|i: int|
                0 < i < vs.len() ==> ((#[trigger] vs[i]).parent matches Some(p) && base <= p < base + i
                    && g[vs[p - base].node as int].children.contains(vs[i].node))
        }),
    decreases fuel, 0nat, 0nat,
{
    let cs = g[n as int].children;
    let rest = draw_walk_list(g, cs, base as usize, base + 1, (fuel - 1) as nat).unwrap();
    lemma_list_parents(g, cs, base as usize, base + 1, (fuel - 1) as nat);
    let vs = draw_walk(g, n, parent, base, fuel).unwrap();
    assert(vs == seq![Visit { node: n, parent }] + rest);
    assert forall|i: int| 0 <= i < vs.len() implies (#[trigger] vs[i]).node < g.len() by {
        if i > 0 {
            assert(vs[i] == rest[i - 1]);
        }
    }
    if base + vs.len() <= usize::MAX + 1 {
        assert forall|i: int| 0 < i < vs.len() implies (#[trigger] vs[i]).parent matches Some(p) && base <= p < base + i
            && g[vs[p - base].node as int].children.contains(vs[i].node) by {
            assert(vs[i] == rest[i - 1]);
            let p = rest[i - 1].parent.unwrap();
            if p == base as usize {
                assert(vs[p - base] == vs[0]);
            } else {
                assert(vs[p - base] == rest[p - (base + 1)]);
            }
        }
    }
}

proof fn lemma_list_parents(g: Seq<NodeData>, children: Seq<usize>, parent: usize, base: nat, fuel: nat)
    requires
        draw_walk_list(g, children, parent, base, fuel) is Some,
    ensures
        ({
            let vs = draw_walk_list(g, children, parent, base, fuel).unwrap();
            &&& forall|i: int| 0 <= i < vs.len() ==> (#[trigger] vs[i]).node < g.len()
            &&& base + vs.len() <= usize::MAX + 1 ==> forall|i: int|
                0 <= i < vs.len() ==> ((#[trigger] vs[i]).parent matches Some(p) && (
                    (p == parent && children.contains(vs[i].node))
                    || (base <= p < base + i && g[vs[p - base].node as int].children.contains(vs[i].node))))
        }),
    decreases fuel, 1nat, children.len(),
{
    if children.len() > 0 {
        let first = draw_walk(g, children[0], Some(parent), base, fuel).unwrap();
        let others = draw_walk_list(g, children.drop_first(), parent, base + first.len(), fuel).unwrap();
        lemma_walk_parents(g, children[0], Some(parent), base, fuel);
        lemma_list_parents(g, children.drop_first(), parent, base + first.len(), fuel);
        let vs = draw_walk_list(g, children, parent, base, fuel).unwrap();
        assert(vs == first + others);
        assert forall|i: int| 0 <= i < vs.len() implies (#[trigger] vs[i]).node < g.len() by {
            if i < first.len() {
                assert(vs[i] == first[i]);
            } else {
                assert(vs[i] == others[i - first.len()]);
            }
        }
        if base + vs.len() <= usize::MAX + 1 {
            assert forall|i: int| 0 <= i < vs.len() implies (#[trigger] vs[i]).parent matches Some(p) && (
                (p == parent && children.contains(vs[i].node))
                || (base <= p < base + i && g[vs[p - base].node as int].children.contains(vs[i].node))) by {
                if i < first.len() {
                    assert(vs[i] == first[i]);
                    if i == 0 {
                        assert(children[0] == vs[i].node);
                    } else {
                        let p = first[i].parent.unwrap();
                        assert(vs[p - base] == first[p - base]);
                    }
                } else {
                    let k = i - first.len();
                    assert(vs[i] == others[k]);
                    let p = others[k].parent.unwrap();
                    if p == parent && children.drop_first().contains(vs[i].node) {
                        let j = choose|j: int| 0 <= j < children.drop_first().len() && children.drop_first()[j] == vs[i].node;
                        assert(children[j + 1] == vs[i].node);
                    } else {
                        assert(vs[p - base] == others[p - (base + first.len())]);
                    }
                }
            }
        }
    }
}

/// In the draw order the first visit is the root, drawn under the starting
/// placement; every later visit is drawn under an earlier visit whose node
/// has the visited node among its children; and every visit names a node
/// of the graph.
pub proof fn lemma_draw_order_parents(g: Seq<NodeData>, root: usize)
    requires
        spec_draw_order(g, root) is Some,
        spec_draw_order(g, root).unwrap().len() <= usize::MAX,
    ensures
        ({
            let vs = spec_draw_order(g, root).unwrap();
            &&& vs.len() >= 1
            &&& vs[0] == Visit { node: root, parent: None }
            &&& forall|i: int| 0 <= i < vs.len() ==> (#[trigger] vs[i]).node < g.len()
            &&& forall|i: int|
                0 < i < vs.len() ==> ((#[trigger] vs[i]).parent matches Some(p) && p < i
                    && g[vs[p as int].node as int].children.contains(vs[i].node))
        }),
{
    lemma_walk_parents(g, root, None, 0, g.len());
}

/// The nodes of the visits in `vs` that are drawn under visit `p`, in order.
pub open spec fn nodes_under(vs: Seq<Visit>, p: usize) -> Seq<usize>
    decreases vs.len(),
{
    if vs.len() == 0 {
        Seq::empty()
    } else {
        let rest = nodes_under(vs.drop_first(), p);
        if vs[0].parent == Some(p) {
            seq![vs[0].node] + rest
        } else {
            rest
        }
    }
}

proof fn lemma_nodes_under_add(a: Seq<Visit>, b: Seq<Visit>, p: usize)
    ensures
        nodes_under(a + b, p) == nodes_under(a, p) + nodes_under(b, p),
    decreases a.len(),
{
    if a.len() == 0 {
        assert(a + b =~= b);
        assert(nodes_under(a, p) + nodes_under(b, p) =~= nodes_under(b, p));
    } else {
        assert((a + b).drop_first() =~= a.drop_first() + b);
        assert((a + b)[0] == a[0]);
        lemma_nodes_under_add(a.drop_first(), b, p);
        if a[0].parent == Some(p) {
            assert(seq![a[0].node] + (nodes_under(a.drop_first(), p) + nodes_under(b, p))
                =~= (seq![a[0].node] + nodes_under(a.drop_first(), p)) + nodes_under(b, p));
        }
    }
}

proof fn lemma_nodes_under_single(v: Visit, p: usize)
    ensures
        nodes_under(seq![v], p) == (if v.parent == Some(p) { seq![v.node] } else { Seq::<usize>::empty() }),
{
    let single = seq![v];
    assert(single.len() == 1 && single[0] == v);
    assert(single.drop_first().len() == 0);
    assert(nodes_under(single.drop_first(), p) =~= Seq::<usize>::empty());
    assert(seq![v.node] + Seq::<usize>::empty() =~= seq![v.node]);
}

proof fn lemma_walk_children(g: Seq<NodeData>, n: usize, parent: Option<usize>, base: nat, fuel: nat)
    requires
        draw_walk(g, n, parent, base, fuel) is Some,
        parent matches Some(q) ==> q < base,
        base + draw_walk(g, n, parent, base, fuel).unwrap().len() <= usize::MAX + 1,
    ensures
        ({
            let vs = draw_walk(g, n, parent, base, fuel).unwrap();
            &&& forall|p: usize| (p < base || p >= base + vs.len()) ==> #[trigger] nodes_under(vs, p)
                == (if parent == Some(p) { seq![n] } else { Seq::<usize>::empty() })
            &&& forall|j: int| 0 <= j < vs.len() ==> nodes_under(vs, (base + j) as usize)
                == g[(#[trigger] vs[j]).node as int].children
        }),
    decreases fuel, 0nat, 0nat,
{
    let cs = g[n as int].children;
    let rest = draw_walk_list(g, cs, base as usize, base + 1, (fuel - 1) as nat).unwrap();
    let vs = draw_walk(g, n, parent, base, fuel).unwrap();
    let v0 = Visit { node: n, parent };
    assert(vs == seq![v0] + rest);
    lemma_list_children(g, cs, base as usize, base + 1, (fuel - 1) as nat);
    assert forall|p: usize| (p < base || p >= base + vs.len()) implies #[trigger] nodes_under(vs, p)
        == (if parent == Some(p) { seq![n] } else { Seq::<usize>::empty() }) by {
        lemma_nodes_under_add(seq![v0], rest, p);
        lemma_nodes_under_single(v0, p);
        assert(p != base as usize);
        assert(nodes_under(rest, p) == Seq::<usize>::empty());
        if parent == Some(p) {
            assert(seq![n] + Seq::<usize>::empty() =~= seq![n]);
        } else {
            assert(Seq::<usize>::empty() + Seq::<usize>::empty() =~= Seq::<usize>::empty());
        }
    }
    assert forall|j: int| 0 <= j < vs.len() implies nodes_under(vs, (base + j) as usize)
        == g[(#[trigger] vs[j]).node as int].children by {
        let p = (base + j) as usize;
        lemma_nodes_under_add(seq![v0], rest, p);
        lemma_nodes_under_single(v0, p);
        assert(parent != Some(p));
        assert(Seq::<usize>::empty() + nodes_under(rest, p) =~= nodes_under(rest, p));
        if j == 0 {
            assert(p == base as usize);
            assert(nodes_under(rest, p) == cs);
        } else {
            assert(vs[j] == rest[j - 1]);
            assert(p == ((base + 1) + (j - 1)) as usize);
            assert(nodes_under(rest, ((base + 1) + (j - 1)) as usize) == g[rest[j - 1].node as int].children);
        }
    }
}

proof fn lemma_list_children(g: Seq<NodeData>, children: Seq<usize>, parent: usize, base: nat, fuel: nat)
    requires
        draw_walk_list(g, children, parent, base, fuel) is Some,
        parent < base,
        base + draw_walk_list(g, children, parent, base, fuel).unwrap().len() <= usize::MAX + 1,
    ensures
        ({
            let vs = draw_walk_list(g, children, parent, base, fuel).unwrap();
            &&& forall|p: usize| (p < base || p >= base + vs.len()) ==> #[trigger] nodes_under(vs, p)
                == (if p == parent { children } else { Seq::<usize>::empty() })
            &&& forall|j: int| 0 <= j < vs.len() ==> nodes_under(vs, (base + j) as usize)
                == g[(#[trigger] vs[j]).node as int].children
        }),
    decreases fuel, 1nat, children.len(),
{
    let vs = draw_walk_list(g, children, parent, base, fuel).unwrap();
    if children.len() == 0 {
        assert(vs == Seq::<Visit>::empty());
        assert forall|p: usize| (p < base || p >= base + vs.len()) implies #[trigger] nodes_under(vs, p)
            == (if p == parent { children } else { Seq::<usize>::empty() }) by {
            assert(children =~= Seq::<usize>::empty());
        }
    } else {
        let first = draw_walk(g, children[0], Some(parent), base, fuel).unwrap();
        let others = draw_walk_list(g, children.drop_first(), parent, base + first.len(), fuel).unwrap();
        assert(vs == first + others);
        lemma_walk_children(g, children[0], Some(parent), base, fuel);
        lemma_list_children(g, children.drop_first(), parent, base + first.len(), fuel);
        assert forall|p: usize| (p < base || p >= base + vs.len()) implies #[trigger] nodes_under(vs, p)
            == (if p == parent { children } else { Seq::<usize>::empty() }) by {
            lemma_nodes_under_add(first, others, p);
            assert(nodes_under(first, p) == (if Some(parent) == Some(p) { seq![children[0]] } else { Seq::<usize>::empty() }));
            assert(nodes_under(others, p) == (if p == parent { children.drop_first() } else { Seq::<usize>::empty() }));
            if p == parent {
                assert(seq![children[0]] + children.drop_first() =~= children);
            } else {
                assert(Seq::<usize>::empty() + Seq::<usize>::empty() =~= Seq::<usize>::empty());
            }
        }
        assert forall|j: int| 0 <= j < vs.len() implies nodes_under(vs, (base + j) as usize)
            == g[(#[trigger] vs[j]).node as int].children by {
            let p = (base + j) as usize;
            lemma_nodes_under_add(first, others, p);
            assert(p != parent);
            if j < first.len() {
                assert(vs[j] == first[j]);
                assert(nodes_under(others, p) == Seq::<usize>::empty());
                assert(nodes_under(first, p) == g[first[j].node as int].children);
                assert(nodes_under(first, p) + Seq::<usize>::empty() =~= nodes_under(first, p));
            } else {
                let k = j - first.len();
                assert(vs[j] == others[k]);
                assert(nodes_under(first, p) == Seq::<usize>::empty());
                assert(p == ((base + first.len()) + k) as usize);
                assert(nodes_under(others, ((base + first.len()) + k) as usize) == g[others[k].node as int].children);
                assert(Seq::<usize>::empty() + nodes_under(others, p) =~= nodes_under(others, p));
            }
        }
    }
}

/// Under each visit of the draw order, drawing visits exactly the children
/// of its node, in the order in which they were added (a child added twice
/// is visited twice); no visit is drawn under a visit that is not in the
/// order.
pub proof fn lemma_draw_order_children(g: Seq<NodeData>, root: usize)
    requires
        spec_draw_order(g, root) is Some,
        spec_draw_order(g, root).unwrap().len() <= usize::MAX,
    ensures
        ({
            let vs = spec_draw_order(g, root).unwrap();
            &&& forall|i: int| 0 <= i < vs.len() ==> nodes_under(vs, i as usize)
                == g[(#[trigger] vs[i]).node as int].children
            &&& forall|p: usize| p >= vs.len() ==> #[trigger] nodes_under(vs, p) == Seq::<usize>::empty()
        }),
{
    lemma_walk_children(g, root, None, 0, g.len());
    let vs = spec_draw_order(g, root).unwrap();
    assert forall|i: int| 0 <= i < vs.len() implies nodes_under(vs, i as usize)
        == g[(#[trigger] vs[i]).node as int].children by {
        assert((0 + i) as usize == i as usize);
    }
}

/// Every child id names a node of the graph.
pub open spec fn children_in_range(g: Seq<NodeData>) -> bool {
    forall|n: int, j: int|
        0 <= n < g.len() && 0 <= j < g[n].children.len() ==> #[trigger] g[n].children[j] < g.len()
}

/// `path` goes from node to node of `g`, each next node a child of the one
/// before it.
pub open spec fn is_path(g: Seq<NodeData>, path: Seq<usize>) -> bool {
    &&& path.len() >= 1
    &&& forall|i: int| 0 <= i < path.len() ==> #[trigger] path[i] < g.len()
    &&& forall|i: int| 0 < i < path.len() ==> g[path[i - 1] as int].children.contains(#[trigger] path[i])
}

/// No path that starts at `root` passes a node twice.
pub open spec fn acyclic_from(g: Seq<NodeData>, root: usize) -> bool {
    forall|path: Seq<usize>| #[trigger] is_path(g, path) && path[0] == root ==> path.no_duplicates()
}

proof fn lemma_distinct_ids_bounded(s: Seq<usize>, n: nat)
    requires
        s.no_duplicates(),
        forall|i: int| 0 <= i < s.len() ==> #[trigger] s[i] < n,
    ensures
        s.len() <= n,
    decreases n,
{
    if n == 0 {
        if s.len() > 0 {
            assert(s[0] < n);
        }
    } else if exists|k: int| 0 <= k < s.len() && s[k] == n - 1 {
        let k = choose|k: int| 0 <= k < s.len() && s[k] == n - 1;
        let t = s.remove(k);
        assert forall|i: int| 0 <= i < t.len() implies #[trigger] t[i] < (n - 1) as nat by {
            let si = if i < k { i } else { i + 1 };
            assert(t[i] == s[si]);
            assert(s[si] < n);
            assert(si != k);
        }
        assert forall|a: int, b: int| 0 <= a < t.len() && 0 <= b < t.len() && a != b implies t[a] != t[b] by {
            let sa = if a < k { a } else { a + 1 };
            let sb = if b < k { b } else { b + 1 };
            assert(t[a] == s[sa]);
            assert(t[b] == s[sb]);
        }
        lemma_distinct_ids_bounded(t, (n - 1) as nat);
    } else {
        assert forall|i: int| 0 <= i < s.len() implies #[trigger] s[i] < (n - 1) as nat by {
            assert(s[i] < n);
            assert(s[i] != n - 1);
        }
        lemma_distinct_ids_bounded(s, (n - 1) as nat);
    }
}

proof fn lemma_walk_acyclic(g: Seq<NodeData>, root: usize, path: Seq<usize>, parent: Option<usize>, base: nat, fuel: nat)
    requires
        children_in_range(g),
        acyclic_from(g, root),
        is_path(g, path),
        path[0] == root,
        g.len() < fuel + path.len(),
    ensures
        draw_walk(g, path.last(), parent, base, fuel) is Some,
    decreases fuel, 0nat, 0nat,
{
    let n = path.last();
    assert(path.no_duplicates());
    lemma_distinct_ids_bounded(path, g.len());
    assert(path[path.len() - 1] < g.len());
    let cs = g[n as int].children;
    lemma_list_acyclic(g, root, path, cs, base as usize, base + 1, (fuel - 1) as nat);
}

proof fn lemma_list_acyclic(
    g: Seq<NodeData>,
    root: usize,
    path: Seq<usize>,
    children: Seq<usize>,
    parent: usize,
    base: nat,
    fuel: nat,
)
    requires
        children_in_range(g),
        acyclic_from(g, root),
        is_path(g, path),
        path[0] == root,
        g.len() < fuel + 1 + path.len(),
        forall|j: int| 0 <= j < children.len() ==> g[path.last() as int].children.contains(#[trigger] children[j]),
    ensures
        draw_walk_list(g, children, parent, base, fuel) is Some,
    decreases fuel, 1nat, children.len(),
{
    if children.len() > 0 {
        let c = children[0];
        let longer = path.push(c);
        assert(g[path.last() as int].children.contains(c));
        let m = path.last();
        assert(path[path.len() - 1] < g.len());
        let k = choose|k: int| 0 <= k < g[m as int].children.len() && g[m as int].children[k] == c;
        assert(g[m as int].children[k] < g.len());
        assert forall|i: int| 0 <= i < longer.len() implies #[trigger] longer[i] < g.len() by {
            if i < path.len() {
                assert(longer[i] == path[i]);
            }
        }
        assert forall|i: int| 0 < i < longer.len() implies g[longer[i - 1] as int].children.contains(#[trigger] longer[i]) by {
            if i < path.len() {
                assert(longer[i] == path[i]);
                assert(longer[i - 1] == path[i - 1]);
            } else {
                assert(longer[i - 1] == m);
            }
        }
        assert(longer.last() == c);
        lemma_walk_acyclic(g, root, longer, Some(parent), base, fuel);
        let first = draw_walk(g, c, Some(parent), base, fuel).unwrap();
        assert forall|j: int| 0 <= j < children.drop_first().len() implies
            g[path.last() as int].children.contains(#[trigger] children.drop_first()[j]) by {
            assert(children.drop_first()[j] == children[j + 1]);
        }
        lemma_list_acyclic(g, root, path, children.drop_first(), parent, base + first.len(), fuel);
    }
}

/// Drawing a graph whose child ids name nodes ends, and gives an order,
/// from every root from which no path passes a node twice, whatever the
/// ids of the nodes are.
pub proof fn lemma_acyclic_scene_is_drawable(g: Seq<NodeData>, root: usize)
    requires
        children_in_range(g),
        root < g.len(),
        acyclic_from(g, root),
    ensures
        spec_draw_order(g, root) is Some,
{
    let path = seq![root];
    assert(path[0] == root);
    assert(is_path(g, path));
    assert(path.last() == root);
    lemma_walk_acyclic(g, root, path, None, 0, g.len());
}

/// Every child id is greater than its parent's id (and names a node): the
/// case when each node is placed under a node made before it.
pub open spec fn children_come_later(g: Seq<NodeData>) -> bool {
    forall|n: int, j: int|
        0 <= n < g.len() && 0 <= j < g[n].children.len() ==> n < #[trigger] g[n].children[j] < g.len()
}

proof fn lemma_walk_ends(g: Seq<NodeData>, n: usize, parent: Option<usize>, base: nat, fuel: nat)
    requires
        children_come_later(g),
        n < g.len(),
        g.len() - n <= fuel,
    ensures
        draw_walk(g, n, parent, base, fuel) is Some,
    decreases fuel, 0nat, 0nat,
{
    let cs = g[n as int].children;
    assert forall|j: int| 0 <= j < cs.len() implies #[trigger] cs[j] < g.len() && g.len() - cs[j] <= fuel - 1 by {
        assert(n < g[n as int].children[j]);
    }
    lemma_list_ends(g, cs, base as usize, base + 1, (fuel - 1) as nat);
}

proof fn lemma_list_ends(g: Seq<NodeData>, children: Seq<usize>, parent: usize, base: nat, fuel: nat)
    requires
        children_come_later(g),
        forall|j: int| 0 <= j < children.len() ==> #[trigger] children[j] < g.len() && g.len() - children[j] <= fuel,
    ensures
        draw_walk_list(g, children, parent, base, fuel) is Some,
    decreases fuel, 1nat, children.len(),
{
    if children.len() > 0 {
        assert(children[0] < g.len());
        lemma_walk_ends(g, children[0], Some(parent), base, fuel);
        let first = draw_walk(g, children[0], Some(parent), base, fuel).unwrap();
        assert forall|j: int| 0 <= j < children.drop_first().len() implies #[trigger] children.drop_first()[j] < g.len()
            && g.len() - children.drop_first()[j] <= fuel by {
            assert(children.drop_first()[j] == children[j + 1]);
        }
        lemma_list_ends(g, children.drop_first(), parent, base + first.len(), fuel);
    }
}

/// A scene whose children all come after their parents has no cycle, and
/// drawing it from any of its nodes ends.
pub proof fn lemma_ordered_scene_is_drawable(g: Seq<NodeData>, root: usize)
    requires
        children_come_later(g),
        root < g.len(),
    ensures
        spec_draw_order(g, root) is Some,
{
    lemma_walk_ends(g, root, None, 0, g.len());
}

/// A scene graph: nodes addressed by the ids that adding them returned.
pub struct SceneGraph {
    nodes: Vec<SceneNode>,
}

impl View for SceneGraph {
    type V = Seq<NodeData>;

    closed spec fn view(&self) -> Seq<NodeData> {
        self.nodes@.map_values(|n: SceneNode| n@)
    }
}

impl SceneGraph {
    #[verifier::type_invariant]
    closed spec fn wf(self) -> bool {
        children_in_range(self@)
    }

    /// A graph without nodes.
    pub fn new() -> (g: Self)
        ensures
            g@ == Seq::<NodeData>::empty(),
    {
        let g = SceneGraph { nodes: Vec::new() };
        assert(g@ =~= Seq::<NodeData>::empty());
        g
    }

    /// Number of nodes.
    pub fn len(&self) -> (n: usize)
        ensures
            n == self@.len(),
    {
        self.nodes.len()
    }

    /// The node with id `id`.
    pub fn node(&self, id: usize) -> (node: &SceneNode)
        requires
            id < self@.len(),
        ensures
            node@ == self@[id as int],
    {
        &self.nodes[id]
    }

    /// Whether node `id` has geometry of its own to draw.
    pub fn is_drawable(&self, id: usize) -> (b: bool)
        requires
            id < self@.len(),
        ensures
            b == spec_is_drawable(self@[id as int]),
            b == (self@[id as int].index_count != -1),
    {
        self.nodes[id].index_count != NO_GEOMETRY
    }

    fn push_node(&mut self, node: SceneNode) -> (id: usize)
        requires
            node.children@.len() == 0,
        ensures
            final(self)@ == old(self)@.push(node@),
            id == old(self)@.len(),
    {
        proof {
            use_type_invariant(&*self);
        }
        let id = self.nodes.len();
        let mut nodes: Vec<SceneNode> = Vec::new();
        std::mem::swap(&mut nodes, &mut self.nodes);
        let ghost before = nodes@.map_values(|n: SceneNode| n@);
        nodes.push(node);
        proof {
            let after = nodes@.map_values(|n: SceneNode| n@);
            assert(after =~= before.push(node@));
            assert forall|n: int, j: int| 0 <= n < after.len() && 0 <= j < after[n].children.len() implies
                #[trigger] after[n].children[j] < after.len() by {
                assert(n < before.len());
                assert(after[n] == before[n]);
                assert(before[n].children[j] < before.len());
            }
        }
        self.nodes = nodes;
        proof {
            assert(final(self)@ =~= old(self)@.push(node@));
        }
        id
    }

    /// Adds a node with nothing to draw; returns its id.
    pub fn add_node(&mut self) -> (id: usize)
        ensures
            final(self)@ == old(self)@.push(empty_node()),
            id == old(self)@.len(),
            final(self)@.len() == old(self)@.len() + 1,
            final(self)@[id as int].index_count == -1,
            !final(self)@[id as int].is_helicopter,
            final(self)@[id as int].children.len() == 0,
            forall|i: int| 0 <= i < old(self)@.len() ==> final(self)@[i] == old(self)@[i],
    {
        let node = SceneNode {
            vao_id: 0,
            index_count: NO_GEOMETRY,
            is_helicopter: false,
            children: Vec::new(),
        };
        proof {
            assert(node@.children =~= Seq::<usize>::empty());
        }
        self.push_node(node)
    }

    /// Adds a node that draws `index_count` indices of vertex array
    /// `vao_id`; returns its id.
    pub fn add_vao_node(&mut self, vao_id: u32, index_count: i32) -> (id: usize)
        ensures
            final(self)@ == old(self)@.push(vao_node(vao_id, index_count)),
            id == old(self)@.len(),
            final(self)@.len() == old(self)@.len() + 1,
            final(self)@[id as int].vao_id == vao_id,
            final(self)@[id as int].index_count == index_count,
            !final(self)@[id as int].is_helicopter,
            final(self)@[id as int].children.len() == 0,
            forall|i: int| 0 <= i < old(self)@.len() ==> final(self)@[i] == old(self)@[i],
    {
        let node = SceneNode { vao_id, index_count, is_helicopter: false, children: Vec::new() };
        proof {
            assert(node@.children =~= Seq::<usize>::empty());
        }
        self.push_node(node)
    }

    /// Places node `child` under node `parent`, after its other children.
    pub fn add_child(&mut self, parent: usize, child: usize)
        requires
            parent < old(self)@.len(),
            child < old(self)@.len(),
        ensures
            final(self)@ == old(self)@.update(
                parent as int,
                NodeData { children: old(self)@[parent as int].children.push(child), ..old(self)@[parent as int] },
            ),
    {
        proof {
            use_type_invariant(&*self);
        }
        let mut nodes: Vec<SceneNode> = Vec::new();
        std::mem::swap(&mut nodes, &mut self.nodes);
        let ghost before = nodes@.map_values(|n: SceneNode| n@);
        nodes[parent].children.push(child);
        proof {
            let after = nodes@.map_values(|n: SceneNode| n@);
            assert(after =~= before.update(
                parent as int,
                NodeData { children: before[parent as int].children.push(child), ..before[parent as int] },
            ));
            assert forall|n: int, j: int| 0 <= n < after.len() && 0 <= j < after[n].children.len() implies
                #[trigger] after[n].children[j] < after.len() by {
                if n == parent {
                    if j < before[n].children.len() {
                        assert(after[n].children[j] == before[n].children[j]);
                    }
                } else {
                    assert(after[n] == before[n]);
                }
            }
        }
        self.nodes = nodes;
        proof {
            assert(final(self)@ =~= old(self)@.update(
                parent as int,
                NodeData { children: old(self)@[parent as int].children.push(child), ..old(self)@[parent as int] },
            ));
        }
    }

    /// Marks whether node `id` is lit as part of a helicopter.
    pub fn set_helicopter(&mut self, id: usize, is_helicopter: bool)
        requires
            id < old(self)@.len(),
        ensures
            final(self)@ == old(self)@.update(
                id as int,
                NodeData { is_helicopter, ..old(self)@[id as int] },
            ),
    {
        proof {
            use_type_invariant(&*self);
        }
        let mut nodes: Vec<SceneNode> = Vec::new();
        std::mem::swap(&mut nodes, &mut self.nodes);
        let ghost before = nodes@.map_values(|n: SceneNode| n@);
        nodes[id].is_helicopter = is_helicopter;
        proof {
            let after = nodes@.map_values(|n: SceneNode| n@);
            assert(after =~= before.update(id as int, NodeData { is_helicopter, ..before[id as int] }));
            assert forall|n: int, j: int| 0 <= n < after.len() && 0 <= j < after[n].children.len() implies
                #[trigger] after[n].children[j] < after.len() by {
                if n != id {
                    assert(after[n] == before[n]);
                }
            }
        }
        self.nodes = nodes;
        proof {
            assert(final(self)@ =~= old(self)@.update(
                id as int,
                NodeData { is_helicopter, ..old(self)@[id as int] },
            ));
        }
    }
    fn walk_into(&self, n: usize, parent: Option<usize>, fuel: usize, out: &mut Vec<Visit>) -> (ok: bool)
        ensures
            ok == draw_walk(self@, n, parent, old(out)@.len() as nat, fuel as nat) is Some,
            ok ==> final(out)@ == old(out)@ + draw_walk(self@, n, parent, old(out)@.len() as nat, fuel as nat).unwrap(),
        decreases fuel, 0nat, 0nat,
    {
        if fuel == 0 || n >= self.nodes.len() {
            return false;
        }
        let me = out.len();
        out.push(Visit { node: n, parent });
        proof {
            assert(self@[n as int].children == self.nodes@[n as int].children@);
        }
        let ok = self.walk_children_into(n, 0, me, fuel - 1, out);
        proof {
            let g = self@;
            let children = self.nodes@[n as int].children@;
            assert(children.skip(0) =~= children);
            assert(g[n as int].children == children);
            if ok {
                let rest = draw_walk_list(g, children, me, (me + 1) as nat, (fuel - 1) as nat).unwrap();
                assert(out@ =~= old(out)@ + (seq![Visit { node: n, parent }] + rest));
            }
        }
        ok
    }

    fn walk_children_into(&self, n: usize, i: usize, parent: usize, fuel: usize, out: &mut Vec<Visit>) -> (ok: bool)
        requires
            n < self@.len(),
            i <= self@[n as int].children.len(),
        ensures
            ok == draw_walk_list(self@, self@[n as int].children.skip(i as int), parent, old(out)@.len() as nat, fuel as nat) is Some,
            ok ==> final(out)@ == old(out)@ + draw_walk_list(self@, self@[n as int].children.skip(i as int), parent, old(out)@.len() as nat, fuel as nat).unwrap(),
        decreases fuel, 1nat, self@[n as int].children.len() - i,
    {
        let ghost g = self@;
        let ghost cs = g[n as int].children;
        proof {
            assert(cs == self.nodes@[n as int].children@);
        }
        if i >= self.nodes[n].children.len() {
            proof {
                assert(cs.skip(i as int) =~= Seq::<usize>::empty());
                assert(out@ =~= old(out)@ + Seq::<Visit>::empty());
            }
            return true;
        }
        let c = self.nodes[n].children[i];
        proof {
            assert(cs.skip(i as int)[0] == c);
            assert(cs.skip(i as int).drop_first() =~= cs.skip(i + 1));
        }
        let ghost before = out@;
        if !self.walk_into(c, Some(parent), fuel, out) {
            return false;
        }
        let ghost mid = out@;
        let ok = self.walk_children_into(n, i + 1, parent, fuel, out);
        proof {
            if ok {
                let first = draw_walk(g, c, Some(parent), before.len() as nat, fuel as nat).unwrap();
                let others = draw_walk_list(g, cs.skip(i + 1), parent, mid.len() as nat, fuel as nat).unwrap();
                assert(mid.len() == before.len() + first.len());
                assert(out@ =~= before + (first + others));
            }
        }
        ok
    }

    /// The visits that drawing the scene from `root` makes, in order.
    ///
    /// `None` when `root` names no node, or when the nodes below `root` nest
    /// more deeply than there are nodes: some path then passes a node twice,
    /// and drawing along it would never end.
    pub fn draw_order(&self, root: usize) -> (order: Option<Vec<Visit>>)
        ensures
            match order {
                Some(v) => spec_draw_order(self@, root) == Some(v@),
                None => spec_draw_order(self@, root) is None,
            },
            root < self@.len() && acyclic_from(self@, root) ==> order is Some,
    {
        proof {
            use_type_invariant(self);
            if root < self@.len() && acyclic_from(self@, root) {
                lemma_acyclic_scene_is_drawable(self@, root);
            }
        }
        let mut out: Vec<Visit> = Vec::new();
        let fuel = self.nodes.len();
        let ok = self.walk_into(root, None, fuel, &mut out);
        if ok {
            proof {
                assert(out@ =~= Seq::<Visit>::empty() + draw_walk(self@, root, None, 0, fuel as nat).unwrap());
            }
            Some(out)
        } else {
            None
        }
    }
}

} // verus!
