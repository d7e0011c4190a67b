use crate::text::{join, split, SEPARATOR};
use vstd::prelude::*;

verus! {

/// The numbers of a list of positions or component references, free of their width.
pub open spec fn numbers(v: Seq<u32>) -> Seq<nat> {
    Seq::new(v.len(), |i: int| v[i] as nat)
}

/// The mathematical value of a node.
pub struct NodeModel {
    pub name: Seq<char>,
    pub parent: nat,
    pub index: nat,
    pub children: Seq<nat>,
    pub components: Seq<nat>,
}

impl NodeModel {
    /// A node that belongs to no graph yet: position 0, no children, no components.
    pub open spec fn detached(name: Seq<char>, parent: nat) -> NodeModel {
        NodeModel {
            name: name,
            parent: parent,
            index: 0,
            children: Seq::empty(),
            components: Seq::empty(),
        }
    }

    /// The node that a new graph starts with.
    pub open spec fn root() -> NodeModel {
        NodeModel::detached("root"@, 0)
    }

    /// A node has a parent unless it names itself as its parent.
    pub open spec fn has_parent(self) -> bool {
        self.index != self.parent
    }
}

/// The mathematical value of a handle: a path, and a position where one is known.
pub struct HandleModel {
    pub path: Seq<char>,
    pub index: Option<nat>,
}

impl HandleModel {
    /// The handle that is returned where there is no node to designate.
    pub open spec fn unresolved() -> HandleModel {
        HandleModel { path: "root"@, index: None }
    }
}

/// The mathematical value of a graph.
pub struct GraphModel {
    pub name: Seq<char>,
    pub index: nat,
    pub root: HandleModel,
    pub nodes: Seq<NodeModel>,
}

/// The positions `0, 1, .., n - 1`: the order in which a store holds its nodes.
pub open spec fn store_order(n: nat) -> Seq<nat> {
    Seq::new(n, |i: int| i as nat)
}

/// The models of a list of nodes.
pub open spec fn node_models(nodes: Seq<crate::node::MachNode>) -> Seq<NodeModel> {
    Seq::new(nodes.len(), |i: int| nodes[i]@)
}

/// The `k`-th candidate is a position of the store, and the node there is called `name`.
pub open spec fn matches_at(
    nodes: Seq<NodeModel>,
    candidates: Seq<nat>,
    name: Seq<char>,
    k: int,
) -> bool {
    &&& 0 <= k < candidates.len()
    &&& candidates[k] < nodes.len()
    &&& nodes[candidates[k] as int].name == name
}

/// The `k`-th candidate matches, and none before it does.
pub open spec fn is_first_match(
    nodes: Seq<NodeModel>,
    candidates: Seq<nat>,
    name: Seq<char>,
    k: int,
) -> bool {
    &&& matches_at(nodes, candidates, name, k)
    &&& forall|j: int| 0 <= j < k ==> !matches_at(nodes, candidates, name, j)
}

/// The earliest of `candidates` that is the position of a node called `name`.
/// Candidates beyond the end of the store are passed over.
pub open spec fn first_match(nodes: Seq<NodeModel>, candidates: Seq<nat>, name: Seq<char>) -> Option<
    nat,
> {
    if exists|k: int| is_first_match(nodes, candidates, name, k) {
        Some(candidates[choose|k: int| is_first_match(nodes, candidates, name, k)])
    } else {
        None
    }
}

/// Where the names `segments[k..]` lead from the node at `at`: a name equal to that of
/// the current node stays there, any other name moves to the first child that carries it,
/// and a name that no child carries ends the search.
pub open spec fn descend(nodes: Seq<NodeModel>, at: nat, segments: Seq<Seq<char>>, k: nat) -> Option<
    nat,
>
    recommends
        at < nodes.len(),
    decreases segments.len() - k,
{
    if k >= segments.len() {
        Some(at)
    } else if segments[k as int] == nodes[at as int].name {
        descend(nodes, at, segments, k + 1)
    } else {
        match first_match(nodes, nodes[at as int].children, segments[k as int]) {
            Some(child) => descend(nodes, child, segments, k + 1),
            None => None,
        }
    }
}

/// The position that a dot-separated path designates. The first name is looked for in
/// the whole store, in store order; the others are followed from there, child by child.
/// The result is the position that the node so reached records for itself.
pub open spec fn resolve(nodes: Seq<NodeModel>, path: Seq<char>) -> Option<nat> {
    let segments = split(path, SEPARATOR);
    match first_match(nodes, store_order(nodes.len()), segments[0]) {
        Some(anchor) => match descend(nodes, anchor, segments, 1) {
            Some(at) => Some(nodes[at as int].index),
            None => None,
        },
        None => None,
    }
}

/// The positions from a parentless node down to `at`, each the parent of the next,
/// if following the parent links from `at` gets there within `fuel` steps without
/// leaving the store.
pub open spec fn ancestry(nodes: Seq<NodeModel>, at: nat, fuel: nat) -> Option<Seq<nat>>
    decreases fuel,
{
    if at >= nodes.len() {
        None
    } else if !nodes[at as int].has_parent() {
        Some(seq![at])
    } else if fuel == 0 {
        None
    } else {
        match ancestry(nodes, nodes[at as int].parent, (fuel - 1) as nat) {
            Some(above) => Some(above.push(at)),
            None => None,
        }
    }
}

/// The names of the nodes at the positions of `chain`, in the same order.
pub open spec fn names_along(nodes: Seq<NodeModel>, chain: Seq<nat>) -> Seq<Seq<char>> {
    Seq::new(chain.len(), |i: int| nodes[chain[i] as int].name)
}

/// The path of the node at `at`: the names from its topmost ancestor down to itself,
/// joined by dots. There is none if `at` is no position of the store, if a parent link
/// on the way leaves the store, or if the links never reach a parentless node.
pub open spec fn path_of(nodes: Seq<NodeModel>, at: nat) -> Option<Seq<char>> {
    match ancestry(nodes, at, nodes.len()) {
        Some(chain) => Some(join(names_along(nodes, chain), SEPARATOR)),
        None => None,
    }
}

/// The shape that appending children keeps: every node records its own position,
/// position 0 is the only parentless node, every other node names an earlier node as
/// its parent, and the children of a node are exactly the nodes that name it, listed
/// once each in the order of their positions.
pub open spec fn is_tree(nodes: Seq<NodeModel>) -> bool {
    &&& nodes.len() >= 1
    &&& forall|i: int| 0 <= i < nodes.len() ==> (#[trigger] nodes[i]).index == i
    &&& nodes[0].parent == 0
    &&& forall|i: int| 0 < i < nodes.len() ==> (#[trigger] nodes[i]).parent < i
    &&& forall|i: int, k: int|
        0 <= i < nodes.len() && 0 <= k < nodes[i].children.len() ==> {
            &&& i < (#[trigger] nodes[i].children[k]) < nodes.len()
            &&& nodes[nodes[i].children[k] as int].parent == i
        }
    &&& forall|i: int, j: int, k: int|
        0 <= i < nodes.len() && 0 <= j < k < nodes[i].children.len() ==> (#[trigger] nodes[i].children[j])
            < (#[trigger] nodes[i].children[k])
    &&& forall|i: int|
        0 < i < nodes.len() ==> nodes[(#[trigger] nodes[i]).parent as int].children.contains(i as nat)
}

/// The node at `q` can be reached by its name: the name holds no separator and,
/// unless the node is the root, differs from the name of its parent and is carried
/// by no child that the parent lists before it.
pub open spec fn told_by_name(nodes: Seq<NodeModel>, q: nat) -> bool {
    let node = nodes[q as int];
    let above = nodes[node.parent as int];
    &&& !node.name.contains(SEPARATOR)
    &&& q > 0 ==> node.name != above.name && first_match(nodes, above.children, node.name) == Some(q)
}

/// Every child that a node lists, and that the store holds, comes after that node.
/// Appending children keeps it so, and it rules out that following children ever
/// leads back to a node.
pub open spec fn links_forward(nodes: Seq<NodeModel>) -> bool {
    forall|i: int, k: int|
        0 <= i < nodes.len() && 0 <= k < nodes[i].children.len() && nodes[i].children[k]
            < nodes.len() ==> i < #[trigger] nodes[i].children[k]
}

/// When a walk hands a node to the visitor: before its children or after them.
pub enum Order {
    Pre,
    Post,
}

/// The positions that a walk from `at` passes, in the order in which it passes them:
/// the node itself and, recursively, what the walks from its children pass, child by
/// child in the order in which the node lists them. A child beyond the store is
/// passed over, and so is one that does not come after its parent.
pub open spec fn walk(nodes: Seq<NodeModel>, at: nat, order: Order) -> Seq<nat>
    decreases nodes.len() - at, nodes[at as int].children.len() + 1,
{
    if at >= nodes.len() {
        Seq::empty()
    } else {
        let below = walk_below(nodes, at, nodes[at as int].children.len(), order);
        match order {
            Order::Pre => seq![at] + below,
            Order::Post => below.push(at),
        }
    }
}

/// What the walks from the first `k` children of the node at `at` pass, one after
/// another.
pub open spec fn walk_below(nodes: Seq<NodeModel>, at: nat, k: nat, order: Order) -> Seq<nat>
    decreases nodes.len() - at, k,
{
    if at >= nodes.len() || k == 0 || k > nodes[at as int].children.len() {
        Seq::empty()
    } else {
        let child = nodes[at as int].children[k - 1];
        let earlier = walk_below(nodes, at, (k - 1) as nat, order);
        if at < child < nodes.len() {
            earlier + walk(nodes, child, order)
        } else {
            earlier
        }
    }
}

/// What the walks from the children of the node at `at` pass, one after another,
/// from the child that the node lists at `from` to the last one.
pub open spec fn walk_above(nodes: Seq<NodeModel>, at: nat, from: nat, order: Order) -> Seq<nat>
    decreases nodes[at as int].children.len() - from,
{
    if at >= nodes.len() || from >= nodes[at as int].children.len() {
        Seq::empty()
    } else {
        let child = nodes[at as int].children[from as int];
        let later = walk_above(nodes, at, from + 1, order);
        if at < child < nodes.len() {
            walk(nodes, child, order) + later
        } else {
            later
        }
    }
}

/// The same nodes, each listing its children in the opposite order.
pub open spec fn mirrored(nodes: Seq<NodeModel>) -> Seq<NodeModel> {
    Seq::new(
        nodes.len(),
        |i: int| NodeModel { children: nodes[i].children.reverse(), ..nodes[i] },
    )
}

/// The node at `q` is the node at `top` or one of its descendants: following parent
/// links from `q`, each to an earlier position, arrives at `top`.
pub open spec fn under(nodes: Seq<NodeModel>, top: nat, q: nat) -> bool
    decreases q,
{
    if q == top {
        true
    } else if 0 < q < nodes.len() && nodes[q as int].parent < q {
        under(nodes, top, nodes[q as int].parent)
    } else {
        false
    }
}

impl GraphModel {
    /// The positions that a walk from the root passes, in the order in which it
    /// passes them. Where the root handle designates no node, the walk passes nothing.
    pub open spec fn walk_from_root(self, order: Order) -> Seq<nat> {
        self.walk_from(self.root, order)
    }

    /// The positions that a walk from the node that `handle` designates passes.
    pub open spec fn walk_from(self, handle: HandleModel, order: Order) -> Seq<nat> {
        match self.lookup(handle) {
            Some(at) => walk(self.nodes, at, order),
            None => Seq::empty(),
        }
    }

    /// How far the node that `handle` designates lies from the end of the store.
    pub open spec fn room_after(self, handle: HandleModel) -> nat {
        match self.lookup(handle) {
            Some(at) => (self.nodes.len() - at) as nat,
            None => 0,
        }
    }

    /// The graph that construction yields: one parentless node called `root` at
    /// position 0, and a root handle that knows both its path and its position.
    pub open spec fn fresh(name: Seq<char>) -> GraphModel {
        GraphModel {
            name: name,
            index: 0,
            root: HandleModel { path: "root"@, index: Some(0) },
            nodes: seq![NodeModel::root()],
        }
    }

    /// The position that `handle` names, bounds unchecked: the one it carries, or
    /// else the one its path leads to.
    pub open spec fn target(self, handle: HandleModel) -> Option<nat> {
        match handle.index {
            Some(i) => Some(i),
            None => resolve(self.nodes, handle.path),
        }
    }

    /// The position of the node that `handle` designates in this graph, if there is one.
    pub open spec fn lookup(self, handle: HandleModel) -> Option<nat> {
        match self.target(handle) {
            Some(i) => if i < self.nodes.len() {
                Some(i)
            } else {
                None
            },
            None => None,
        }
    }

    /// The position of the parent of the node that `handle` designates, if that node
    /// has a parent and the parent lies within the store.
    pub open spec fn parent_of(self, handle: HandleModel) -> Option<nat> {
        match self.lookup(handle) {
            Some(at) => {
                let node = self.nodes[at as int];
                if node.has_parent() && node.parent < self.nodes.len() {
                    Some(node.parent)
                } else {
                    None
                }
            },
            None => None,
        }
    }

    /// The handle that designates the node at `at` by its position and, where the
    /// graph has a path for it, by that path.
    pub open spec fn handle_of(self, at: nat) -> HandleModel {
        HandleModel {
            path: match path_of(self.nodes, at) {
                Some(path) => path,
                None => "undefined"@,
            },
            index: Some(at),
        }
    }

    /// This graph with `node` stored as its last node, under the position that it
    /// gets there. No other node learns of it.
    pub open spec fn with_node(self, node: NodeModel) -> GraphModel {
        GraphModel { nodes: self.nodes.push(NodeModel { index: self.nodes.len(), ..node }), ..self }
    }

    /// This graph after a node called `name` was appended as the last child of the
    /// node at `parent`.
    pub open spec fn with_child(self, name: Seq<char>, parent: nat) -> GraphModel
        recommends
            parent < self.nodes.len(),
    {
        let position = self.nodes.len();
        let above = self.nodes[parent as int];
        GraphModel {
            nodes: self.nodes.update(
                parent as int,
                NodeModel { children: above.children.push(position), ..above },
            ).push(NodeModel { index: position, ..NodeModel::detached(name, parent) }),
            ..self
        }
    }

    /// This graph after a node called `name` was appended as the last child of the
    /// node that the root handle designates; this graph itself where it designates none.
    pub open spec fn with_root_child(self, name: Seq<char>) -> GraphModel {
        match self.lookup(self.root) {
            Some(above) => self.with_child(name, above),
            None => self,
        }
    }

    /// This graph after one node for each of `names` was appended to the root, in
    /// the order of `names`.
    pub open spec fn with_root_children(self, names: Seq<Seq<char>>) -> GraphModel
        decreases names.len(),
    {
        if names.len() == 0 {
            self
        } else {
            self.with_root_children(names.drop_last()).with_root_child(names.last())
        }
    }

    /// This graph after `component` was attached to the node at `at`.
    pub open spec fn with_component(self, at: nat, component: nat) -> GraphModel
        recommends
            at < self.nodes.len(),
    {
        let node = self.nodes[at as int];
        GraphModel {
            nodes: self.nodes.update(
                at as int,
                NodeModel { components: node.components.push(component), ..node },
            ),
            ..self
        }
    }

    /// A graph is well formed if its nodes form a tree and its root handle carries
    /// position 0.
    pub open spec fn wf(self) -> bool {
        &&& is_tree(self.nodes)
        &&& self.root.index == Some(0nat)
    }
}

/// A candidate that matches with none before it is the first match.
pub proof fn lemma_first_match_found(
    nodes: Seq<NodeModel>,
    candidates: Seq<nat>,
    name: Seq<char>,
    k: int,
)
    requires
        is_first_match(nodes, candidates, name, k),
    ensures
        first_match(nodes, candidates, name) == Some(candidates[k]),
{
    let chosen = choose|k: int| is_first_match(nodes, candidates, name, k);
    if chosen < k {
        assert(matches_at(nodes, candidates, name, chosen));
    } else if k < chosen {
        assert(matches_at(nodes, candidates, name, k));
    }
}

/// Where no candidate matches there is no first match.
pub proof fn lemma_first_match_none(nodes: Seq<NodeModel>, candidates: Seq<nat>, name: Seq<char>)
    requires
        forall|k: int| 0 <= k < candidates.len() ==> !matches_at(nodes, candidates, name, k),
    ensures
        first_match(nodes, candidates, name) is None,
{
}

} // verus!
