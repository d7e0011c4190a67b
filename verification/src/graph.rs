use crate::handle::Handle;
use crate::laws::{lemma_child_keeps_graph_well_formed, lemma_component_keeps_graph_well_formed};
use crate::model::{node_models, GraphModel, HandleModel, NodeModel};
use crate::node::MachNode;
use vstd::prelude::*;

verus! {

/// A tree of nodes held in an append-only store. A node is known by its position in
/// the store, which never changes once it is assigned.
#[derive(Debug)]
pub struct MachGraph {
    /// Name of this graph.
    pub name: String,
    /// A number for the graph itself, for callers that keep several graphs.
    pub index: u32,
    /// Handle of the node at which traversals start.
    pub root: Handle,
    /// The store, in order of position.
    pub nodes: Vec<MachNode>,
}

impl View for MachGraph {
    type V = GraphModel;

    open spec fn view(&self) -> GraphModel {
        GraphModel {
            name: self.name@,
            index: self.index as nat,
            root: self.root@,
            nodes: node_models(self.nodes@),
        }
    }
}

impl Default for MachGraph {
    /// A graph called `default` that holds the root node and nothing else.
    fn default() -> (graph: MachGraph)
        ensures
            graph@ == GraphModel::fresh("default"@),
    {
        let root = MachNode::default();
        let handle = Handle::from((root.name.clone(), 0));
        let mut nodes: Vec<MachNode> = Vec::new();
        nodes.push(root);
        let graph = MachGraph { name: "default".to_owned(), index: 0, root: handle, nodes: nodes };
        assert(graph@.nodes =~= seq![NodeModel::root()]);
        graph
    }
}

impl MachGraph {
    /// A graph called `name` that holds the root node and nothing else.
    pub fn new(name: &str) -> (graph: MachGraph)
        ensures
            graph@ == GraphModel::fresh(name@),
    {
        let root = MachNode::default();
        let handle = Handle::from((root.name.clone(), 0));
        let mut nodes: Vec<MachNode> = Vec::new();
        nodes.push(root);
        let graph = MachGraph { name: name.to_owned(), index: 0, root: handle, nodes: nodes };
        assert(graph@.nodes =~= seq![NodeModel::root()]);
        graph
    }

    /// The node that the root handle designates.
    pub fn get_root(&self) -> (r: Option<&MachNode>)
        ensures
            match self@.lookup(self@.root) {
                Some(at) => r == Some(&self.nodes[at as int]),
                None => r is None,
            },
    {
        self.get_node(&self.root)
    }

    /// The node that the root handle designates, for modification.
    pub fn get_root_mut(&mut self) -> (r: Option<&mut MachNode>)
        ensures
            match old(self)@.lookup(old(self)@.root) {
                Some(at) => {
                    &&& r is Some
                    &&& *r->0 == old(self).nodes[at as int]
                    &&& final(self).nodes@ == old(self).nodes@.update(at as int, *final(r->0))
                    &&& final(self).name == old(self).name
                    &&& final(self).index == old(self).index
                    &&& final(self).root == old(self).root
                },
                None => r is None && *final(self) == *old(self),
            },
    {
        let root = self.root.clone();
        self.get_node_mut(&root)
    }

    /// The node that `handle` designates: the one at the position that the handle
    /// carries, or else the one that its path leads to. There is none where the path
    /// leads nowhere or the position lies beyond the store.
    pub fn get_node(&self, handle: &Handle) -> (r: Option<&MachNode>)
        ensures
            match self@.lookup(handle@) {
                Some(at) => r == Some(&self.nodes[at as int]),
                None => r is None,
            },
    {
        let index: u32 = match handle.get_index(self) {
            Some(i) => i,
            None => {
                return None;
            },
        };
        let u = index as usize;
        if u < self.nodes.len() {
            return Some(&self.nodes[u]);
        }
        None
    }

    /// The node that `handle` designates, for modification. Only that node is lent
    /// out: the rest of the graph stays as it is.
    pub fn get_node_mut(&mut self, handle: &Handle) -> (r: Option<&mut MachNode>)
        ensures
            match old(self)@.lookup(handle@) {
                Some(at) => {
                    &&& r is Some
                    &&& *r->0 == old(self).nodes[at as int]
                    &&& final(self).nodes@ == old(self).nodes@.update(at as int, *final(r->0))
                    &&& final(self).name == old(self).name
                    &&& final(self).index == old(self).index
                    &&& final(self).root == old(self).root
                },
                None => r is None && *final(self) == *old(self),
            },
    {
        let index: u32 = match handle.get_index(self) {
            Some(i) => i,
            None => {
                return None;
            },
        };
        let u = index as usize;
        if u < self.nodes.len() {
            return Some(&mut self.nodes[u]);
        }
        None
    }

    /// The parent of the node that `handle` designates. There is none where the handle
    /// designates no node, where that node has no parent, or where the parent that it
    /// names lies beyond the store.
    pub fn get_parent(&self, handle: &Handle) -> (r: Option<&MachNode>)
        ensures
            match self@.parent_of(handle@) {
                Some(above) => r == Some(&self.nodes[above as int]),
                None => r is None,
            },
    {
        if let Some(node) = self.get_node(handle) {
            if !node.has_parent() {
                return None;
            }
            return self.get_node(&Handle::from(node.parent));
        }
        None
    }

    /// Attaches `component` to the node that `node` designates, after those that it
    /// holds already. Where the handle designates no node, nothing happens.
    pub fn push_component(&mut self, node: &Handle, component: u32)
        ensures
            match old(self)@.lookup(node@) {
                Some(at) => final(self)@ == old(self)@.with_component(at, component as nat),
                None => *final(self) == *old(self),
            },
            old(self)@.wf() ==> final(self)@.wf(),
    {
        let ghost before = self@;
        if let Some(node) = self.get_node_mut(node) {
            node.push_component(component);
        }
        proof {
            if let Some(at) = before.lookup(node@) {
                assert(self@.nodes =~= before.with_component(at, component as nat).nodes);
                if before.wf() {
                    lemma_component_keeps_graph_well_formed(before, at, component as nat);
                }
            }
        }
    }

    /// Appends a node called `name` as the last child of the root.
    pub fn push_child(&mut self, name: &str) -> (handle: Handle)
        requires
            old(self).nodes.len() <= u32::MAX,
        ensures
            final(self)@ == old(self)@.with_root_child(name@),
            match old(self)@.lookup(old(self)@.root) {
                Some(above) => handle@ == final(self)@.handle_of(old(self)@.nodes.len()),
                None => *final(self) == *old(self) && handle@ == HandleModel::unresolved(),
            },
            old(self)@.wf() ==> final(self)@.wf(),
    {
        let root = self.root.clone();
        self.push_child_of(name, &root)
    }

    /// Appends a node called `name` as the last child of the node that `parent`
    /// designates, and returns a handle with the position and the path of the new node.
    /// Where `parent` designates no node, the graph stays as it is and the handle
    /// returned carries no position.
    pub fn push_child_of(&mut self, name: &str, parent: &Handle) -> (handle: Handle)
        requires
            old(self).nodes.len() <= u32::MAX,
        ensures
            match old(self)@.lookup(parent@) {
                Some(above) => {
                    &&& final(self)@ == old(self)@.with_child(name@, above)
                    &&& handle@ == final(self)@.handle_of(old(self)@.nodes.len())
                },
                None => *final(self) == *old(self) && handle@ == HandleModel::unresolved(),
            },
            old(self)@.wf() ==> final(self)@.wf(),
    {
        let ghost before = self@;
        let above: u32 = match parent.get_index(self) {
            Some(i) => i,
            None => {
                return Handle::from("root");
            },
        };
        if above as usize >= self.nodes.len() {
            return Handle::from("root");
        }
        let index = self.nodes.len() as u32;
        let mut node = MachNode::from((name.to_owned(), above));
        node.index = index;
        let ghost listed = self.nodes[above as int]@.children;
        self.nodes[above as usize].children.push(index);
        assert(self.nodes[above as int]@.children =~= listed.push(index as nat));
        self.nodes.push(node);
        assert(self@.nodes =~= before.with_child(name@, above as nat).nodes);
        proof {
            if before.wf() {
                lemma_child_keeps_graph_well_formed(before, name@, above as nat);
            }
        }
        let mut handle = Handle::from(index);
        handle.set_path(self);
        handle
    }

    /// Stores `node` as the last node, overwrites the position that it records with
    /// the one that it gets, and returns that position. Neither the parent that the
    /// node names nor any other node learns of it.
    pub fn push(&mut self, node: MachNode) -> (position: u32)
        requires
            old(self).nodes.len() <= u32::MAX,
        ensures
            final(self)@ == old(self)@.with_node(node@),
            position == old(self).nodes.len(),
    {
        let ghost before = self@;
        let index = self.nodes.len() as u32;
        let mut node = node;
        node.index = index;
        self.nodes.push(node);
        assert(self@.nodes =~= before.with_node(node@).nodes);
        index
    }
}

} // verus!
