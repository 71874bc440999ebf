//! The scene graph: named nodes, what each node holds, its children, the
//! root nodes, and the order in which world transforms are propagated.
//! Geometry, lights' colors, cameras' projections and the transforms
//! themselves are kept by the caller, indexed as here.
use vstd::prelude::*;
use crate::tiles::strictly_increasing;

verus! {

/// What a scene node holds.
#[derive(Clone, Copy, PartialEq, Eq, Debug, Structural)]
pub enum NodeType {
    Empty,
    Mesh { mesh_index: usize },
    Light { light_index: usize },
    Camera { camera_index: usize },
}

/// A node: its name, what it holds, and the indices of its children.
pub struct SceneNode {
    pub name: String,
    pub node_type: NodeType,
    pub children: Vec<usize>,
}

/// The scene: nodes, root nodes, and how many meshes, lights, cameras and
/// materials the scene holds.
pub struct Scene {
    pub nodes: Vec<SceneNode>,
    pub root_indices: Vec<usize>,
    pub mesh_count: usize,
    pub light_count: usize,
    pub camera_count: usize,
    pub material_count: usize,
}

/// Whether some node lists node `i` among its children.
pub open spec fn is_child(nodes: Seq<SceneNode>, i: int) -> bool {
    exists|p: int, k: int|
        0 <= p < nodes.len() && 0 <= k < nodes[p].children@.len() && #[trigger] nodes[p].children@[k] == i
}

/// `roots` lists, in increasing order, exactly the nodes no node lists as
/// a child.
pub open spec fn are_roots(roots: Seq<usize>, nodes: Seq<SceneNode>) -> bool {
    &&& strictly_increasing(roots)
    &&& forall|k: int|
        0 <= k < roots.len() ==> #[trigger] roots[k] < nodes.len() && !is_child(nodes, roots[k] as int)
    &&& forall|i: int| 0 <= i < nodes.len() && !is_child(nodes, i) ==> #[trigger] roots.contains(i as usize)
}

/// The nodes that are no node's child, in increasing order.
pub fn root_indices_of(nodes: &Vec<SceneNode>) -> (res: Vec<usize>)
    ensures
        are_roots(res@, nodes@),
{
    let n = nodes.len();
    let mut marked: Vec<bool> = Vec::new();
    let mut i: usize = 0;
    while i < n
        invariant
            i <= n,
            marked.len() == i,
            forall|j: int| 0 <= j < i ==> !(#[trigger] marked@[j]),
        decreases n - i,
    {
        marked.push(false);
        i = i + 1;
    }
    let mut p: usize = 0;
    while p < n
        invariant
            n == nodes.len(),
            p <= n,
            marked.len() == n,
            forall|j: int|
                0 <= j < n ==> (#[trigger] marked@[j] <==> exists|q: int, k: int|
                    0 <= q < p && 0 <= k < nodes@[q].children@.len() && #[trigger] nodes@[q].children@[k]
                        == j),
        decreases n - p,
    {
        let children = &nodes[p].children;
        let m = children.len();
        let mut k: usize = 0;
        while k < m
            invariant
                n == nodes.len(),
                p < n,
                children == &nodes@[p as int].children,
                m == children.len(),
                k <= m,
                marked.len() == n,
                forall|j: int|
                    0 <= j < n ==> (#[trigger] marked@[j] <==> (exists|q: int, kk: int|
                        0 <= q < p && 0 <= kk < nodes@[q].children@.len() && #[trigger] nodes@[q].children@[kk]
                            == j) || (exists|kk: int| 0 <= kk < k && #[trigger] children@[kk] == j)),
            decreases m - k,
        {
            let c = children[k];
            if c < n {
                marked.set(c, true);
            }
            k = k + 1;
        }
        assert forall|j: int| 0 <= j < n implies (#[trigger] marked@[j] <==> exists|q: int, kk: int|
            0 <= q < p + 1 && 0 <= kk < nodes@[q].children@.len() && #[trigger] nodes@[q].children@[kk] == j) by {
            if marked@[j] {
                if !(exists|q: int, kk: int|
                    0 <= q < p && 0 <= kk < nodes@[q].children@.len() && #[trigger] nodes@[q].children@[kk] == j) {
                    let kk = choose|kk: int| 0 <= kk < k && #[trigger] children@[kk] == j;
                    assert(nodes@[p as int].children@[kk] == j);
                }
            } else {
                if exists|q: int, kk: int|
                    0 <= q < p + 1 && 0 <= kk < nodes@[q].children@.len() && #[trigger] nodes@[q].children@[kk] == j {
                    let (q, kk) = choose|q: int, kk: int|
                        0 <= q < p + 1 && 0 <= kk < nodes@[q].children@.len() && #[trigger] nodes@[q].children@[kk]
                            == j;
                    if q == p {
                        assert(children@[kk] == j);
                    }
                }
            }
        }
        p = p + 1;
    }
    let mut roots: Vec<usize> = Vec::new();
    let mut i: usize = 0;
    while i < n
        invariant
            n == nodes.len(),
            i <= n,
            marked.len() == n,
            forall|j: int| 0 <= j < n ==> (#[trigger] marked@[j] <==> is_child(nodes@, j)),
            strictly_increasing(roots@),
            forall|k: int| 0 <= k < roots.len() ==> #[trigger] roots@[k] < i && !is_child(nodes@, roots@[k] as int),
            forall|j: int| 0 <= j < i && !is_child(nodes@, j) ==> #[trigger] roots@.contains(j as usize),
        decreases n - i,
    {
        let ghost before = roots@;
        if !marked[i] {
            roots.push(i);
            assert(roots@[roots.len() - 1] == i);
        }
        assert forall|j: int| 0 <= j < i + 1 && !is_child(nodes@, j) implies #[trigger] roots@.contains(
            j as usize,
        ) by {
            if j < i {
                assert(before.contains(j as usize));
                let w = choose|w: int| 0 <= w < before.len() && before[w] == j as usize;
                assert(roots@[w] == j as usize);
            } else {
                assert(!marked@[j]);
                assert(roots@[roots.len() - 1] == j as usize);
            }
        }
        i = i + 1;
    }
    roots
}

/// A visit of the transform update: the node, and the node whose world
/// transform it is composed with (`None` for a root).
pub type TransformStep = (usize, Option<usize>);

/// The visits made from node `idx` reached from `parent`: the node itself,
/// then, child by child in order, the visits from each child. `fuel` bounds
/// the depth.
pub open spec fn visit(nodes: Seq<SceneNode>, idx: int, parent: Option<usize>, fuel: nat) -> Seq<TransformStep>
    decreases fuel, 0nat,
{
    if fuel == 0 {
        Seq::empty()
    } else {
        seq![(idx as usize, parent)] + visit_children(nodes, nodes[idx].children@, idx, (fuel - 1) as nat)
    }
}

/// The visits from each node of `list`, in order, as children of `parent`.
pub open spec fn visit_children(nodes: Seq<SceneNode>, list: Seq<usize>, parent: int, fuel: nat) -> Seq<
    TransformStep,
>
    decreases fuel, list.len() + 1,
{
    if list.len() == 0 {
        Seq::empty()
    } else {
        visit_children(nodes, list.drop_last(), parent, fuel) + visit(
            nodes,
            list.last() as int,
            Some(parent as usize),
            fuel,
        )
    }
}

/// The visits from each root of `roots`, in order.
pub open spec fn visit_roots(nodes: Seq<SceneNode>, roots: Seq<usize>, fuel: nat) -> Seq<TransformStep>
    decreases roots.len(),
{
    if roots.len() == 0 {
        Seq::empty()
    } else {
        visit_roots(nodes, roots.drop_last(), fuel) + visit(nodes, roots.last() as int, None, fuel)
    }
}

/// `rank` witnesses that, from the nodes ranked below the node count, the
/// child links stay in range and form no cycle: the children of a ranked
/// node are nodes ranked strictly below it.
pub open spec fn ranked_by(nodes: Seq<SceneNode>, rank: Seq<nat>) -> bool {
    &&& rank.len() == nodes.len()
    &&& forall|i: int, k: int|
        0 <= i < nodes.len() && #[trigger] rank[i] < nodes.len() && 0 <= k < nodes[i].children@.len() ==> {
            let c = #[trigger] nodes[i].children@[k];
            &&& c < nodes.len()
            &&& rank[c as int] < rank[i]
        }
}

/// What can be reached from the nodes of `roots` through child links is a
/// finite hierarchy: every index names a node and no node is its own
/// ancestor.
pub open spec fn is_hierarchy_from(nodes: Seq<SceneNode>, roots: Seq<usize>) -> bool {
    exists|rank: Seq<nat>|
        {
            &&& ranked_by(nodes, rank)
            &&& forall|k: int|
                0 <= k < roots.len() ==> #[trigger] roots[k] < nodes.len() && rank[roots[k] as int]
                    < nodes.len()
        }
}

/// Node `idx` names a node, and everything it reaches through child links
/// names a node and lies fewer than `fuel` links below it.
pub open spec fn reach_ok(nodes: Seq<SceneNode>, idx: int, fuel: nat) -> bool
    decreases fuel,
{
    &&& fuel > 0
    &&& 0 <= idx < nodes.len()
    &&& forall|k: int|
        0 <= k < nodes[idx].children@.len() ==> reach_ok(
            nodes,
            #[trigger] nodes[idx].children@[k] as int,
            (fuel - 1) as nat,
        )
}

proof fn lemma_ranked_reaches(nodes: Seq<SceneNode>, rank: Seq<nat>, idx: int, fuel: nat)
    requires
        ranked_by(nodes, rank),
        0 <= idx < nodes.len(),
        rank[idx] < nodes.len(),
        rank[idx] < fuel,
    ensures
        reach_ok(nodes, idx, fuel),
    decreases fuel,
{
    assert forall|k: int| 0 <= k < nodes[idx].children@.len() implies reach_ok(
        nodes,
        #[trigger] nodes[idx].children@[k] as int,
        (fuel - 1) as nat,
    ) by {
        let c = nodes[idx].children@[k];
        lemma_ranked_reaches(nodes, rank, c as int, (fuel - 1) as nat);
    }
}

/// The least fuel from `f` up to the node count that lets `idx` reach only
/// nodes, or one more than the node count when there is none.
spec fn least_fuel(nodes: Seq<SceneNode>, idx: int, f: nat) -> nat
    decreases nodes.len() + 1 - f,
{
    if f > nodes.len() {
        (nodes.len() + 1) as nat
    } else if reach_ok(nodes, idx, f) {
        f
    } else {
        least_fuel(nodes, idx, f + 1)
    }
}

proof fn lemma_least_fuel(nodes: Seq<SceneNode>, idx: int, f: nat, g: nat)
    requires
        f <= g <= nodes.len(),
        reach_ok(nodes, idx, g),
    ensures
        f <= least_fuel(nodes, idx, f) <= g,
        reach_ok(nodes, idx, least_fuel(nodes, idx, f)),
    decreases g - f,
{
    if !reach_ok(nodes, idx, f) {
        lemma_least_fuel(nodes, idx, f + 1, g);
    }
}

proof fn lemma_least_fuel_bounds(nodes: Seq<SceneNode>, idx: int, f: nat)
    ensures
        least_fuel(nodes, idx, f) <= nodes.len() ==> reach_ok(nodes, idx, least_fuel(nodes, idx, f)),
        f <= nodes.len() + 1 ==> f <= least_fuel(nodes, idx, f),
        least_fuel(nodes, idx, f) <= nodes.len() + 1 || f > nodes.len() + 1,
    decreases nodes.len() + 1 - f,
{
    if f <= nodes.len() && !reach_ok(nodes, idx, f) {
        lemma_least_fuel_bounds(nodes, idx, f + 1);
    }
}

/// What the roots reach is a finite hierarchy exactly when every root
/// reaches only nodes, each fewer links below it than there are nodes.
proof fn lemma_hierarchy_iff_reachable(nodes: Seq<SceneNode>, roots: Seq<usize>)
    ensures
        is_hierarchy_from(nodes, roots) <==> forall|j: int|
            0 <= j < roots.len() ==> #[trigger] reach_ok(nodes, roots[j] as int, nodes.len() as nat),
{
    if is_hierarchy_from(nodes, roots) {
        let rank = choose|rank: Seq<nat>|
            {
                &&& ranked_by(nodes, rank)
                &&& forall|k: int|
                    0 <= k < roots.len() ==> #[trigger] roots[k] < nodes.len() && rank[roots[k] as int]
                        < nodes.len()
            };
        assert forall|j: int| 0 <= j < roots.len() implies #[trigger] reach_ok(
            nodes,
            roots[j] as int,
            nodes.len() as nat,
        ) by {
            lemma_ranked_reaches(nodes, rank, roots[j] as int, nodes.len() as nat);
        }
    }
    if forall|j: int| 0 <= j < roots.len() ==> #[trigger] reach_ok(nodes, roots[j] as int, nodes.len() as nat) {
        let n = nodes.len();
        let rank = Seq::new(n, |i: int| (least_fuel(nodes, i, 1) - 1) as nat);
        assert forall|i: int, k: int|
            0 <= i < nodes.len() && #[trigger] rank[i] < nodes.len() && 0 <= k < nodes[i].children@.len() implies {
            let c = #[trigger] nodes[i].children@[k];
            &&& c < nodes.len()
            &&& rank[c as int] < rank[i]
        } by {
            lemma_least_fuel_bounds(nodes, i, 1);
            let g = least_fuel(nodes, i, 1);
            assert(g <= n);
            assert(reach_ok(nodes, i, g));
            let c = nodes[i].children@[k];
            assert(reach_ok(nodes, c as int, (g - 1) as nat));
            lemma_least_fuel(nodes, c as int, 1, (g - 1) as nat);
        }
        assert forall|j: int| 0 <= j < roots.len() implies #[trigger] roots[j] < nodes.len() && rank[roots[j] as int]
            < nodes.len() by {
            assert(reach_ok(nodes, roots[j] as int, n as nat));
            lemma_least_fuel(nodes, roots[j] as int, 1, n as nat);
        }
        assert(ranked_by(nodes, rank));
    }
}

impl Scene {
    /// A scene over `nodes`, its roots being the nodes that are no node's
    /// child, with no lights or cameras yet.
    pub fn from_nodes(nodes: Vec<SceneNode>, mesh_count: usize, material_count: usize) -> (res: Scene)
        ensures
            res.nodes@ == nodes@,
            are_roots(res.root_indices@, nodes@),
            res.mesh_count == mesh_count,
            res.material_count == material_count,
            res.light_count == 0,
            res.camera_count == 0,
    {
        let roots = root_indices_of(&nodes);
        Scene { nodes, root_indices: roots, mesh_count, light_count: 0, camera_count: 0, material_count }
    }

    /// Index of the first node named `name`, if any.
    pub fn find_node_by_name(&self, name: &str) -> (res: Option<usize>)
        ensures
            match res {
                Some(i) => i < self.nodes.len() && self.nodes@[i as int].name@ == name@ && forall|j: int|
                    0 <= j < i ==> (#[trigger] self.nodes@[j]).name@ != name@,
                None => forall|j: int| 0 <= j < self.nodes.len() ==> (#[trigger] self.nodes@[j]).name@ != name@,
            },
    {
        let target = name.to_owned();
        let n = self.nodes.len();
        let mut i: usize = 0;
        while i < n
            invariant
                n == self.nodes.len(),
                i <= n,
                target@ == name@,
                forall|j: int| 0 <= j < i ==> (#[trigger] self.nodes@[j]).name@ != name@,
            decreases n - i,
        {
            if self.nodes[i].name == target {
                return Some(i);
            }
            i = i + 1;
        }
        None
    }

    /// Makes node `node_index` hold a new camera and returns the camera's
    /// index; fails when there is no such node.
    pub fn setup_camera(&mut self, node_index: usize) -> (res: Result<usize, String>)
        requires
            old(self).camera_count < usize::MAX,
        ensures
            node_index >= old(self).nodes.len() ==> {
                &&& res matches Err(e) && e@ == "Node index out of bounds"@
                &&& final(self).nodes@ == old(self).nodes@
                &&& final(self).camera_count == old(self).camera_count
            },
            node_index < old(self).nodes.len() ==> {
                &&& res == Ok::<usize, String>(old(self).camera_count)
                &&& final(self).camera_count == old(self).camera_count + 1
                &&& final(self).nodes.len() == old(self).nodes.len()
                &&& forall|j: int|
                    0 <= j < old(self).nodes.len() && j != node_index ==> #[trigger] final(self).nodes@[j]
                        == old(self).nodes@[j]
                &&& final(self).nodes@[node_index as int].name == old(self).nodes@[node_index as int].name
                &&& final(self).nodes@[node_index as int].children == old(
                    self,
                ).nodes@[node_index as int].children
                &&& final(self).nodes@[node_index as int].node_type == NodeType::Camera {
                    camera_index: old(self).camera_count,
                }
            },
            final(self).root_indices == old(self).root_indices,
            final(self).mesh_count == old(self).mesh_count,
            final(self).light_count == old(self).light_count,
            final(self).material_count == old(self).material_count,
    {
        if node_index >= self.nodes.len() {
            return Err("Node index out of bounds".to_owned());
        }
        let cam_index = self.camera_count;
        self.camera_count = self.camera_count + 1;
        self.nodes[node_index].node_type = NodeType::Camera { camera_index: cam_index };
        Ok(cam_index)
    }

    /// Registers a new light and returns its index.
    pub fn create_light(&mut self) -> (res: usize)
        requires
            old(self).light_count < usize::MAX,
        ensures
            res == old(self).light_count,
            final(self).light_count == old(self).light_count + 1,
            final(self).nodes@ == old(self).nodes@,
            final(self).root_indices == old(self).root_indices,
            final(self).mesh_count == old(self).mesh_count,
            final(self).camera_count == old(self).camera_count,
            final(self).material_count == old(self).material_count,
    {
        let light_index = self.light_count;
        self.light_count = self.light_count + 1;
        light_index
    }

    /// Makes node `node_index` hold light `light_index`; fails when there is
    /// no such node, or else no such light.
    pub fn bind_light_to_node(&mut self, node_index: usize, light_index: usize) -> (res: Result<(), String>)
        ensures
            node_index >= old(self).nodes.len() ==> (res matches Err(e) && e@ == "Node index out of bounds"@),
            node_index < old(self).nodes.len() && light_index >= old(self).light_count ==> (res matches Err(e)
                && e@ == "Light index out of bounds"@),
            res is Err ==> final(self).nodes@ == old(self).nodes@,
            node_index < old(self).nodes.len() && light_index < old(self).light_count ==> {
                &&& res is Ok
                &&& final(self).nodes.len() == old(self).nodes.len()
                &&& forall|j: int|
                    0 <= j < old(self).nodes.len() && j != node_index ==> #[trigger] final(self).nodes@[j]
                        == old(self).nodes@[j]
                &&& final(self).nodes@[node_index as int].name == old(self).nodes@[node_index as int].name
                &&& final(self).nodes@[node_index as int].children == old(
                    self,
                ).nodes@[node_index as int].children
                &&& final(self).nodes@[node_index as int].node_type == NodeType::Light { light_index }
            },
            final(self).root_indices == old(self).root_indices,
            final(self).mesh_count == old(self).mesh_count,
            final(self).light_count == old(self).light_count,
            final(self).camera_count == old(self).camera_count,
            final(self).material_count == old(self).material_count,
    {
        if node_index >= self.nodes.len() {
            return Err("Node index out of bounds".to_owned());
        }
        if light_index >= self.light_count {
            return Err("Light index out of bounds".to_owned());
        }
        self.nodes[node_index].node_type = NodeType::Light { light_index };
        Ok(())
    }

    /// The order in which world transforms are updated: from each root in
    /// turn, depth first, each node before its children. Each step names the
    /// node and the node whose world transform its local transform is
    /// composed with (`None` for a root, which composes with the identity).
    /// `None` exactly when what the roots reach is no finite hierarchy: a
    /// root or a reached child index names no node, or a node is its own
    /// ancestor.
    pub fn transform_order(&self) -> (res: Option<Vec<TransformStep>>)
        ensures
            res is Some <==> is_hierarchy_from(self.nodes@, self.root_indices@),
            res matches Some(v) ==> v@ == visit_roots(self.nodes@, self.root_indices@, self.nodes.len() as nat),
    {
        let n = self.nodes.len();
        let mut out: Vec<TransformStep> = Vec::new();
        let m = self.root_indices.len();
        let mut k: usize = 0;
        while k < m
            invariant
                n == self.nodes.len(),
                m == self.root_indices.len(),
                k <= m,
                forall|j: int|
                    0 <= j < k ==> #[trigger] reach_ok(self.nodes@, self.root_indices@[j] as int, n as nat),
                out@ == visit_roots(self.nodes@, self.root_indices@.take(k as int), n as nat),
            decreases m - k,
        {
            let root = self.root_indices[k];
            if root >= n {
                assert(!reach_ok(self.nodes@, self.root_indices@[k as int] as int, self.nodes@.len() as nat));
                proof {
                    lemma_hierarchy_iff_reachable(self.nodes@, self.root_indices@);
                }
                return None;
            }
            if !self.visit_into(root, None, &mut out, n) {
                assert(!reach_ok(self.nodes@, self.root_indices@[k as int] as int, self.nodes@.len() as nat));
                proof {
                    lemma_hierarchy_iff_reachable(self.nodes@, self.root_indices@);
                }
                return None;
            }
            assert(self.root_indices@.take(k + 1).drop_last() =~= self.root_indices@.take(k as int));
            k = k + 1;
        }
        assert(self.root_indices@.take(m as int) =~= self.root_indices@);
        proof {
            lemma_hierarchy_iff_reachable(self.nodes@, self.root_indices@);
        }
        Some(out)
    }

    /// Appends the visits from node `idx` reached from `parent`, at most
    /// `fuel` deep; false when a reached child index names no node or the
    /// depth runs out.
    fn visit_into(&self, idx: usize, parent: Option<usize>, out: &mut Vec<TransformStep>, fuel: usize) -> (res:
        bool)
        requires
            idx < self.nodes.len(),
        ensures
            res == reach_ok(self.nodes@, idx as int, fuel as nat),
            res ==> final(out)@ == old(out)@ + visit(self.nodes@, idx as int, parent, fuel as nat),
        decreases fuel,
    {
        if fuel == 0 {
            return false;
        }
        let ghost start = out@;
        out.push((idx, parent));
        let n = self.nodes.len();
        let children = &self.nodes[idx].children;
        let m = children.len();
        let mut k: usize = 0;
        while k < m
            invariant
                idx < self.nodes.len(),
                n == self.nodes.len(),
                fuel >= 1,
                children == &self.nodes@[idx as int].children,
                m == children.len(),
                k <= m,
                forall|j: int|
                    0 <= j < k ==> reach_ok(
                        self.nodes@,
                        #[trigger] self.nodes@[idx as int].children@[j] as int,
                        (fuel - 1) as nat,
                    ),
                out@ == start + seq![(idx, parent)] + visit_children(
                    self.nodes@,
                    children@.take(k as int),
                    idx as int,
                    (fuel - 1) as nat,
                ),
            decreases m - k,
        {
            let c = children[k];
            assert(self.nodes@[idx as int].children@[k as int] == c);
            if c >= n {
                assert(!reach_ok(self.nodes@, c as int, (fuel - 1) as nat));
                return false;
            }
            if !self.visit_into(c, Some(idx), out, fuel - 1) {
                return false;
            }
            assert(children@.take(k + 1).drop_last() =~= children@.take(k as int));
            k = k + 1;
        }
        assert(children@.take(m as int) =~= children@);
        true
    }
}

/// Every step composing with node `p` comes after a step of `p` itself,
/// except when `p` is `outer`, a node whose step precedes the sequence.
pub open spec fn parents_first(steps: Seq<TransformStep>, outer: Option<usize>) -> bool {
    forall|k: int|
        0 <= k < steps.len() && (#[trigger] steps[k]).1 is Some ==> outer == steps[k].1 || exists|j: int|
            0 <= j < k && Some((#[trigger] steps[j]).0) == steps[k].1
}

proof fn lemma_parents_first_concat(a: Seq<TransformStep>, b: Seq<TransformStep>, outer: Option<usize>)
    requires
        parents_first(a, outer),
        parents_first(b, outer),
    ensures
        parents_first(a + b, outer),
{
    let s = a + b;
    assert forall|k: int|
        0 <= k < s.len() && (#[trigger] s[k]).1 is Some implies outer == s[k].1 || exists|j: int|
            0 <= j < k && Some((#[trigger] s[j]).0) == s[k].1 by {
        if k < a.len() {
            assert(s[k] == a[k]);
            if outer != s[k].1 {
                let j = choose|j: int| 0 <= j < k && Some((#[trigger] a[j]).0) == a[k].1;
                assert(s[j] == a[j]);
            }
        } else {
            assert(s[k] == b[k - a.len()]);
            if outer != s[k].1 {
                let j = choose|j: int| 0 <= j < k - a.len() && Some((#[trigger] b[j]).0) == b[k - a.len()].1;
                assert(s[j + a.len()] == b[j]);
            }
        }
    }
}

proof fn lemma_visit_parents_first(nodes: Seq<SceneNode>, idx: int, parent: Option<usize>, fuel: nat)
    ensures
        parents_first(visit(nodes, idx, parent, fuel), parent),
    decreases fuel, 0nat,
{
    if fuel > 0 {
        let vc = visit_children(nodes, nodes[idx].children@, idx, (fuel - 1) as nat);
        lemma_children_parents_first(nodes, nodes[idx].children@, idx, (fuel - 1) as nat);
        let head = seq![(idx as usize, parent)];
        let s = head + vc;
        assert forall|k: int|
            0 <= k < s.len() && (#[trigger] s[k]).1 is Some implies parent == s[k].1 || exists|j: int|
                0 <= j < k && Some((#[trigger] s[j]).0) == s[k].1 by {
            if k > 0 {
                assert(s[k] == vc[k - 1]);
                if s[k].1 == Some(idx as usize) {
                    assert(Some(s[0].0) == s[k].1);
                } else {
                    let j = choose|j: int| 0 <= j < k - 1 && Some((#[trigger] vc[j]).0) == vc[k - 1].1;
                    assert(s[j + 1] == vc[j]);
                }
            }
        }
    }
}

proof fn lemma_children_parents_first(nodes: Seq<SceneNode>, list: Seq<usize>, parent: int, fuel: nat)
    ensures
        parents_first(visit_children(nodes, list, parent, fuel), Some(parent as usize)),
    decreases fuel, list.len() + 1,
{
    if list.len() > 0 {
        lemma_children_parents_first(nodes, list.drop_last(), parent, fuel);
        lemma_visit_parents_first(nodes, list.last() as int, Some(parent as usize), fuel);
        lemma_parents_first_concat(
            visit_children(nodes, list.drop_last(), parent, fuel),
            visit(nodes, list.last() as int, Some(parent as usize), fuel),
            Some(parent as usize),
        );
    }
}

/// Law: in the transform update order every node whose world transform
/// composes with a parent's comes after a step of that parent, so the
/// parent's world transform is already up to date when it is used.
pub proof fn transform_order_visits_parents_first(nodes: Seq<SceneNode>, roots: Seq<usize>, fuel: nat)
    ensures
        parents_first(visit_roots(nodes, roots, fuel), None),
    decreases roots.len(),
{
    if roots.len() > 0 {
        transform_order_visits_parents_first(nodes, roots.drop_last(), fuel);
        lemma_visit_parents_first(nodes, roots.last() as int, None, fuel);
        lemma_parents_first_concat(
            visit_roots(nodes, roots.drop_last(), fuel),
            visit(nodes, roots.last() as int, None, fuel),
            None,
        );
    }
}

/// A step that composes with node `p` is of a child of `p`; a step that
/// composes with nothing is of a node of `roots`.
pub open spec fn composes_with_parents(nodes: Seq<SceneNode>, steps: Seq<TransformStep>, roots: Seq<usize>) -> bool {
    forall|k: int|
        0 <= k < steps.len() ==> match (#[trigger] steps[k]).1 {
            Some(p) => nodes[p as int].children@.contains(steps[k].0),
            None => roots.contains(steps[k].0),
        }
}

proof fn lemma_visit_links(nodes: Seq<SceneNode>, idx: int, parent: Option<usize>, fuel: nat)
    requires
        0 <= idx <= usize::MAX,
    ensures
        ({
            let s = visit(nodes, idx, parent, fuel);
            &&& fuel > 0 ==> s.len() > 0 && s[0] == (idx as usize, parent)
            &&& forall|k: int|
                1 <= k < s.len() ==> match (#[trigger] s[k]).1 {
                    Some(p) => nodes[p as int].children@.contains(s[k].0),
                    None => false,
                }
        }),
    decreases fuel, 0nat,
{
    if fuel > 0 {
        let list = nodes[idx].children@;
        let vc = visit_children(nodes, list, idx, (fuel - 1) as nat);
        lemma_children_links(nodes, list, idx, (fuel - 1) as nat);
        let s = seq![(idx as usize, parent)] + vc;
        assert forall|k: int| 1 <= k < s.len() implies match (#[trigger] s[k]).1 {
            Some(p) => nodes[p as int].children@.contains(s[k].0),
            None => false,
        } by {
            assert(s[k] == vc[k - 1]);
        }
    }
}

proof fn lemma_children_links(nodes: Seq<SceneNode>, list: Seq<usize>, parent: int, fuel: nat)
    requires
        0 <= parent <= usize::MAX,
    ensures
        ({
            let s = visit_children(nodes, list, parent, fuel);
            forall|k: int|
                0 <= k < s.len() ==> match (#[trigger] s[k]).1 {
                    Some(p) => (p == parent && list.contains(s[k].0)) || nodes[p as int].children@.contains(
                        s[k].0,
                    ),
                    None => false,
                }
        }),
    decreases fuel, list.len() + 1,
{
    if list.len() > 0 {
        let a = visit_children(nodes, list.drop_last(), parent, fuel);
        let b = visit(nodes, list.last() as int, Some(parent as usize), fuel);
        lemma_children_links(nodes, list.drop_last(), parent, fuel);
        lemma_visit_links(nodes, list.last() as int, Some(parent as usize), fuel);
        let s = a + b;
        assert forall|k: int| 0 <= k < s.len() implies match (#[trigger] s[k]).1 {
            Some(p) => (p == parent && list.contains(s[k].0)) || nodes[p as int].children@.contains(s[k].0),
            None => false,
        } by {
            if k < a.len() {
                assert(s[k] == a[k]);
                if s[k].1 == Some(parent as usize) && list.drop_last().contains(s[k].0) {
                    let w = choose|w: int| 0 <= w < list.drop_last().len() && list.drop_last()[w] == s[k].0;
                    assert(list[w] == s[k].0);
                }
            } else {
                assert(s[k] == b[k - a.len()]);
                if k == a.len() {
                    assert(list[list.len() - 1] == s[k].0);
                }
            }
        }
    }
}

/// Law: every step of the transform update order composes a node with its
/// real parent. A step that composes with node `p` is of a child of `p`,
/// and a step that composes with nothing is of a root.
pub proof fn transform_order_composes_with_parents(nodes: Seq<SceneNode>, roots: Seq<usize>, fuel: nat)
    ensures
        composes_with_parents(nodes, visit_roots(nodes, roots, fuel), roots),
    decreases roots.len(),
{
    if roots.len() > 0 {
        let a = visit_roots(nodes, roots.drop_last(), fuel);
        let b = visit(nodes, roots.last() as int, None, fuel);
        transform_order_composes_with_parents(nodes, roots.drop_last(), fuel);
        lemma_visit_links(nodes, roots.last() as int, None, fuel);
        let s = a + b;
        assert forall|k: int| 0 <= k < s.len() implies match (#[trigger] s[k]).1 {
            Some(p) => nodes[p as int].children@.contains(s[k].0),
            None => roots.contains(s[k].0),
        } by {
            if k < a.len() {
                assert(s[k] == a[k]);
                if s[k].1 is None {
                    let w = choose|w: int| 0 <= w < roots.drop_last().len() && roots.drop_last()[w] == s[k].0;
                    assert(roots[w] == s[k].0);
                }
            } else {
                assert(s[k] == b[k - a.len()]);
                if k == a.len() {
                    assert(roots[roots.len() - 1] == s[k].0);
                }
            }
        }
    }
}

/// Child `m` of the node of step `k` has a later step that composes it with
/// that node.
pub open spec fn child_visited_after(nodes: Seq<SceneNode>, steps: Seq<TransformStep>, k: int, m: int) -> bool {
    exists|j: int|
        k < j < steps.len() && #[trigger] steps[j] == (nodes[steps[k].0 as int].children@[m], Some(steps[k].0))
}

/// Every child of the node of every step is visited later, composed with
/// that node.
pub open spec fn visits_every_child(nodes: Seq<SceneNode>, steps: Seq<TransformStep>) -> bool {
    forall|k: int, m: int|
        0 <= k < steps.len() && 0 <= m < nodes[steps[k].0 as int].children@.len() ==> #[trigger] child_visited_after(
            nodes,
            steps,
            k,
            m,
        )
}

/// `visits_every_child` survives putting more steps before or after.
proof fn lemma_visits_every_child_concat(nodes: Seq<SceneNode>, a: Seq<TransformStep>, b: Seq<TransformStep>)
    requires
        visits_every_child(nodes, a),
        visits_every_child(nodes, b),
    ensures
        visits_every_child(nodes, a + b),
{
    let s = a + b;
    assert forall|k: int, m: int|
        0 <= k < s.len() && 0 <= m < nodes[s[k].0 as int].children@.len() implies #[trigger] child_visited_after(
        nodes,
        s,
        k,
        m,
    ) by {
        if k < a.len() {
            assert(s[k] == a[k]);
            assert(child_visited_after(nodes, a, k, m));
            let j = choose|j: int|
                k < j < a.len() && #[trigger] a[j] == (nodes[a[k].0 as int].children@[m], Some(a[k].0));
            assert(s[j] == a[j]);
        } else {
            let kb = k - a.len();
            assert(s[k] == b[kb]);
            assert(child_visited_after(nodes, b, kb, m));
            let j = choose|j: int|
                kb < j < b.len() && #[trigger] b[j] == (nodes[b[kb].0 as int].children@[m], Some(b[kb].0));
            assert(s[j + a.len()] == b[j]);
        }
    }
}

proof fn lemma_visit_every_child(nodes: Seq<SceneNode>, idx: int, parent: Option<usize>, fuel: nat)
    requires
        idx <= usize::MAX,
        reach_ok(nodes, idx, fuel),
    ensures
        visits_every_child(nodes, visit(nodes, idx, parent, fuel)),
    decreases fuel, 0nat,
{
    let list = nodes[idx].children@;
    let vc = visit_children(nodes, list, idx, (fuel - 1) as nat);
    assert forall|m: int| 0 <= m < list.len() implies reach_ok(nodes, #[trigger] list[m] as int, (fuel - 1) as nat) by {
        assert(reach_ok(nodes, nodes[idx].children@[m] as int, (fuel - 1) as nat));
    }
    lemma_children_every_child(nodes, list, idx, (fuel - 1) as nat);
    let s = seq![(idx as usize, parent)] + vc;
    assert forall|k: int, m: int|
        0 <= k < s.len() && 0 <= m < nodes[s[k].0 as int].children@.len() implies #[trigger] child_visited_after(
        nodes,
        s,
        k,
        m,
    ) by {
        if k == 0 {
            assert(s[0].0 as int == idx);
            let j = choose|j: int| 0 <= j < vc.len() && #[trigger] vc[j] == (list[m], Some(idx as usize));
            assert(s[j + 1] == vc[j]);
        } else {
            assert(s[k] == vc[k - 1]);
            assert(child_visited_after(nodes, vc, k - 1, m));
            let j = choose|j: int|
                k - 1 < j < vc.len() && #[trigger] vc[j] == (nodes[vc[k - 1].0 as int].children@[m], Some(vc[k - 1].0));
            assert(s[j + 1] == vc[j]);
        }
    }
}

proof fn lemma_children_every_child(nodes: Seq<SceneNode>, list: Seq<usize>, parent: int, fuel: nat)
    requires
        0 <= parent <= usize::MAX,
        forall|m: int| 0 <= m < list.len() ==> reach_ok(nodes, #[trigger] list[m] as int, fuel),
    ensures
        visits_every_child(nodes, visit_children(nodes, list, parent, fuel)),
        forall|m: int|
            0 <= m < list.len() ==> exists|j: int|
                0 <= j < visit_children(nodes, list, parent, fuel).len() && #[trigger] visit_children(
                    nodes,
                    list,
                    parent,
                    fuel,
                )[j] == (#[trigger] list[m], Some(parent as usize)),
    decreases fuel, list.len() + 1,
{
    if list.len() > 0 {
        let rest = list.drop_last();
        let last = list.last();
        assert(reach_ok(nodes, list[list.len() - 1] as int, fuel));
        assert forall|m: int| 0 <= m < rest.len() implies reach_ok(nodes, #[trigger] rest[m] as int, fuel) by {
            assert(rest[m] == list[m]);
        }
        lemma_children_every_child(nodes, rest, parent, fuel);
        lemma_visit_every_child(nodes, last as int, Some(parent as usize), fuel);
        lemma_visit_links(nodes, last as int, Some(parent as usize), fuel);
        let a = visit_children(nodes, rest, parent, fuel);
        let b = visit(nodes, last as int, Some(parent as usize), fuel);
        lemma_visits_every_child_concat(nodes, a, b);
        let s = a + b;
        assert forall|m: int| 0 <= m < list.len() implies exists|j: int|
            0 <= j < s.len() && #[trigger] s[j] == (#[trigger] list[m], Some(parent as usize)) by {
            if m < rest.len() {
                assert(rest[m] == list[m]);
                let j = choose|j: int| 0 <= j < a.len() && #[trigger] a[j] == (rest[m], Some(parent as usize));
                assert(s[j] == a[j]);
            } else {
                assert(s[a.len() as int] == b[0]);
            }
        }
    }
}

proof fn lemma_roots_every_child(nodes: Seq<SceneNode>, roots: Seq<usize>, fuel: nat)
    requires
        forall|m: int| 0 <= m < roots.len() ==> reach_ok(nodes, #[trigger] roots[m] as int, fuel),
    ensures
        visits_every_child(nodes, visit_roots(nodes, roots, fuel)),
    decreases roots.len(),
{
    if roots.len() > 0 {
        let rest = roots.drop_last();
        assert(reach_ok(nodes, roots[roots.len() - 1] as int, fuel));
        assert forall|m: int| 0 <= m < rest.len() implies reach_ok(nodes, #[trigger] rest[m] as int, fuel) by {
            assert(rest[m] == roots[m]);
        }
        lemma_roots_every_child(nodes, rest, fuel);
        lemma_visit_every_child(nodes, roots.last() as int, None, fuel);
        lemma_visits_every_child_concat(
            nodes,
            visit_roots(nodes, rest, fuel),
            visit(nodes, roots.last() as int, None, fuel),
        );
    }
}

/// Law: when the roots reach a finite hierarchy, the transform update order
/// visits every child of every node it visits after that node, composed
/// with that node's world transform.
pub proof fn transform_order_visits_every_child(nodes: Seq<SceneNode>, roots: Seq<usize>)
    requires
        is_hierarchy_from(nodes, roots),
    ensures
        visits_every_child(nodes, visit_roots(nodes, roots, nodes.len() as nat)),
{
    lemma_hierarchy_iff_reachable(nodes, roots);
    lemma_roots_every_child(nodes, roots, nodes.len() as nat);
}

} // verus!
