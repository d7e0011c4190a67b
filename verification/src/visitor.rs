use crate::node::MachNode;
use vstd::prelude::*;

verus! {

/// A capability that receives each node of a graph during a traversal.
///
/// A visitor that only inspects nodes implements `visit`; one that changes them
/// implements `visit_mut`. Neither operation returns anything: a visitor reports
/// through its own state, which the caller reads once the traversal is over.
pub trait Visitor {
    /// Receives a node for inspection.
    fn visit(&self, _node: &MachNode) {
    }

    /// Receives a node for modification. Unless overridden, this is one call of
    /// `visit` on the node as it was handed over, and it leaves both the node and
    /// the visitor as they were.
    fn visit_mut(&mut self, node: &mut MachNode)
        default_ensures
            call_ensures(Self::visit, (&*old(self), &*old(node)), ()),
            *final(node) == *old(node),
            &*final(self) == &*old(self),
    {
        self.visit(node);
    }
}

} // verus!
