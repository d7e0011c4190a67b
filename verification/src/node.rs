use crate::model::{numbers, NodeModel};
use crate::visitor::Visitor;
use vstd::prelude::*;
use vstd::std_specs::convert::FromSpecImpl;

verus! {

/// The smallest addressable unit of a graph: a name, its place among the other
/// nodes, and references into a store of components that the graph does not own.
#[derive(Debug)]
pub struct MachNode {
    /// Display label; it need not be unique within the graph.
    pub name: String,
    /// Position of the parent. A node that names itself here has no parent.
    pub parent: u32,
    /// Position of this node within the graph that owns it.
    pub index: u32,
    /// Positions of the children, in the order in which they were added.
    pub children: Vec<u32>,
    /// References into the component store, in the order in which they were attached.
    pub components: Vec<u32>,
}

impl View for MachNode {
    type V = NodeModel;

    open spec fn view(&self) -> NodeModel {
        NodeModel {
            name: self.name@,
            parent: self.parent as nat,
            index: self.index as nat,
            children: numbers(self.children@),
            components: numbers(self.components@),
        }
    }
}

impl Default for MachNode {
    /// A parentless node at position 0 with the name `root`.
    fn default() -> (node: MachNode)
        ensures
            node@ == NodeModel::root(),
    {
        let node = MachNode {
            name: "root".to_owned(),
            parent: 0,
            index: 0,
            children: Vec::new(),
            components: Vec::new(),
        };
        assert(node@.children =~= Seq::<nat>::empty());
        assert(node@.components =~= Seq::<nat>::empty());
        node
    }
}

impl From<(String, u32)> for MachNode {
    /// A childless node with the given name and parent position, itself at position 0.
    fn from(pair: (String, u32)) -> (node: MachNode)
        ensures
            node@ == NodeModel::detached(pair.0@, pair.1 as nat),
    {
        let (name, parent) = pair;
        let node = MachNode {
            name: name,
            parent: parent,
            index: 0,
            children: Vec::new(),
            components: Vec::new(),
        };
        assert(node@.children =~= Seq::<nat>::empty());
        assert(node@.components =~= Seq::<nat>::empty());
        node
    }
}

impl FromSpecImpl<(String, u32)> for MachNode {
    open spec fn obeys_from_spec() -> bool {
        false
    }

    open spec fn from_spec(v: (String, u32)) -> MachNode {
        arbitrary()
    }
}

impl MachNode {
    /// A parentless, childless node at position 0 with the given name.
    pub fn new(name: String) -> (node: MachNode)
        ensures
            node@ == NodeModel::detached(name@, 0),
    {
        let node = MachNode {
            name: name,
            parent: 0,
            index: 0,
            children: Vec::new(),
            components: Vec::new(),
        };
        assert(node@.children =~= Seq::<nat>::empty());
        assert(node@.components =~= Seq::<nat>::empty());
        node
    }

    /// Whether this node has a parent, that is, names a position other than its own.
    pub fn has_parent(&self) -> (b: bool)
        ensures
            b == self@.has_parent(),
    {
        self.index != self.parent
    }

    /// Whether at least one child is registered with this node.
    pub fn has_children(&self) -> (b: bool)
        ensures
            b == (self@.children.len() > 0),
    {
        self.children.len() > 0
    }

    /// Whether at least one component is attached to this node.
    pub fn has_components(&self) -> (b: bool)
        ensures
            b == (self@.components.len() > 0),
    {
        self.components.len() > 0
    }

    /// Attaches `component` after the components that this node holds already.
    pub fn push_component(&mut self, component: u32)
        ensures
            final(self)@ == (NodeModel {
                components: old(self)@.components.push(component as nat),
                ..old(self)@
            }),
    {
        self.components.push(component);
        assert(self@.components =~= old(self)@.components.push(component as nat));
    }

    /// Hands this node to `visitor` for inspection, by one call of `visit`.
    pub fn accept<V: Visitor>(&self, visitor: &V)
        ensures
            call_ensures(V::visit, (visitor, self), ()),
    {
        visitor.visit(self);
    }

    /// Hands this node to `visitor` for modification: the node and the visitor end
    /// as one call of `visit_mut` on them leaves them.
    pub fn accept_mut<V: Visitor>(&mut self, visitor: &mut V)
        ensures
            exists|handed: &mut V, lent: &mut MachNode|
                {
                    &&& mut_ref_current(handed) == *old(visitor)
                    &&& mut_ref_future(handed) == *final(visitor)
                    &&& mut_ref_current(lent) == *old(self)
                    &&& mut_ref_future(lent) == *final(self)
                    &&& #[trigger] call_ensures(V::visit_mut, (handed, lent), ())
                },
    {
        visitor.visit_mut(self);
    }
}

} // verus!
