use crate::graph::MachGraph;
use crate::model::{is_tree, links_forward, numbers};
use vstd::prelude::*;

verus! {

/// Whether `position` is among `listed`.
fn lists(listed: &Vec<u32>, position: u32) -> (b: bool)
    ensures
        b == numbers(listed@).contains(position as nat),
{
    let ghost all = numbers(listed@);
    let mut k: usize = 0;
    while k < listed.len()
        invariant
            k <= listed.len(),
            all == numbers(listed@),
            forall|j: int| 0 <= j < k ==> all[j] != position as nat,
        decreases listed.len() - k,
    {
        if listed[k] == position {
            assert(all[k as int] == position as nat);
            return true;
        }
        k += 1;
    }
    false
}

impl MachGraph {
    /// Whether every child that a node lists, and that the store holds, comes after
    /// that node. This is what the walks that only inspect ask of a graph.
    pub fn has_forward_links(&self) -> (b: bool)
        ensures
            b == links_forward(self@.nodes),
    {
        let ghost nodes = self@.nodes;
        let total = self.nodes.len();
        let mut i: usize = 0;
        while i < total
            invariant
                i <= total,
                total == self.nodes.len(),
                nodes == self@.nodes,
                forall|a: int, k: int|
                    0 <= a < i && 0 <= k < nodes[a].children.len() && nodes[a].children[k]
                        < nodes.len() ==> a < #[trigger] nodes[a].children[k],
            decreases total - i,
        {
            let node = &self.nodes[i];
            let mut k: usize = 0;
            while k < node.children.len()
                invariant
                    k <= node.children.len(),
                    i < total,
                    total == self.nodes.len(),
                    nodes == self@.nodes,
                    node@ == nodes[i as int],
                    forall|j: int|
                        0 <= j < k && nodes[i as int].children[j] < nodes.len() ==> i
                            < #[trigger] nodes[i as int].children[j],
                decreases node.children.len() - k,
            {
                let child = node.children[k] as usize;
                assert(nodes[i as int].children[k as int] == child);
                if child < total && child <= i {
                    return false;
                }
                k += 1;
            }
            i += 1;
        }
        true
    }

    /// Whether the nodes form a tree: every node records its own position, position 0
    /// is the only parentless node, every other node names an earlier node as its
    /// parent, and the children of a node are exactly the nodes that name it, listed
    /// once each in the order of their positions. This is what the walks that hand
    /// out nodes for modification ask of a graph.
    pub fn is_tree(&self) -> (b: bool)
        ensures
            b == is_tree(self@.nodes),
    {
        let ghost nodes = self@.nodes;
        let total = self.nodes.len();
        if total == 0 {
            return false;
        }
        let mut i: usize = 0;
        while i < total
            invariant
                i <= total,
                total >= 1,
                total == self.nodes.len(),
                nodes == self@.nodes,
                forall|a: int| 0 <= a < i ==> (#[trigger] nodes[a]).index == a,
                i > 0 ==> nodes[0].parent == 0,
                forall|a: int| 0 < a < i ==> (#[trigger] nodes[a]).parent < a,
                forall|a: int, k: int|
                    0 <= a < i && 0 <= k < nodes[a].children.len() ==> {
                        &&& a < (#[trigger] nodes[a].children[k]) < nodes.len()
                        &&& nodes[nodes[a].children[k] as int].parent == a
                    },
                forall|a: int, j: int, k: int|
                    0 <= a < i && 0 <= j < k < nodes[a].children.len() ==> (
                    #[trigger] nodes[a].children[j]) < (#[trigger] nodes[a].children[k]),
                forall|a: int|
                    0 < a < i ==> nodes[(#[trigger] nodes[a]).parent as int].children.contains(
                        a as nat,
                    ),
            decreases total - i,
        {
            let node = &self.nodes[i];
            if node.index as usize != i {
                assert(nodes[i as int].index != i);
                return false;
            }
            if i == 0 {
                if node.parent != 0 {
                    return false;
                }
            } else {
                if node.parent as usize >= i {
                    assert(!(nodes[i as int].parent < i));
                    return false;
                }
                if !lists(&self.nodes[node.parent as usize].children, node.index) {
                    assert(!nodes[nodes[i as int].parent as int].children.contains(i as nat));
                    return false;
                }
            }
            let mut k: usize = 0;
            while k < node.children.len()
                invariant
                    k <= node.children.len(),
                    i < total,
                    total == self.nodes.len(),
                    nodes == self@.nodes,
                    node@ == nodes[i as int],
                    forall|m: int|
                        0 <= m < k ==> {
                            &&& i < (#[trigger] nodes[i as int].children[m]) < nodes.len()
                            &&& nodes[nodes[i as int].children[m] as int].parent == i
                        },
                    forall|j: int, m: int|
                        0 <= j < m < k ==> (#[trigger] nodes[i as int].children[j]) < (
                        #[trigger] nodes[i as int].children[m]),
                decreases node.children.len() - k,
            {
                let child = node.children[k] as usize;
                assert(nodes[i as int].children[k as int] == child);
                if child <= i || child >= total {
                    return false;
                }
                if self.nodes[child].parent as usize != i {
                    assert(nodes[nodes[i as int].children[k as int] as int].parent != i);
                    return false;
                }
                if k > 0 {
                    if node.children[k - 1] >= node.children[k] {
                        let ghost earlier = nodes[i as int].children[k - 1];
                        let ghost later = nodes[i as int].children[k as int];
                        assert(earlier >= later);
                        return false;
                    }
                    assert forall|j: int| 0 <= j < k implies (#[trigger] nodes[i as int].children[j])
                        < nodes[i as int].children[k as int] by {
                        if j < k - 1 {
                            assert(nodes[i as int].children[j] < nodes[i as int].children[k - 1]);
                        }
                    }
                }
                k += 1;
            }
            i += 1;
        }
        true
    }
}

} // verus!
