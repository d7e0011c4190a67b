use crate::graph::MachGraph;
use crate::handle::Handle;
use crate::node::MachNode;
use crate::model::{
    is_tree, links_forward, numbers, store_order, under, walk, walk_below, NodeModel, Order,
};
use crate::tree::{
    lemma_siblings_apart, lemma_under_child_is_under, lemma_walk_below_bounds,
    lemma_walk_below_members, lemma_walk_bounds, lemma_walk_members, under_child,
};
use crate::visitor::Visitor;
use vstd::prelude::*;

verus! {

impl MachGraph {
    /// Hands every node to `visitor` once, by a call of `visit`, in the order of the
    /// store, whatever the links between the nodes. Returns the positions in the
    /// order in which their nodes were handed over.
    pub fn visit_all<V: Visitor>(&self, visitor: &V) -> (seen: Ghost<Seq<nat>>)
        ensures
            seen@ == store_order(self@.nodes.len()),
            forall|j: int|
                #![trigger seen@[j]]
                0 <= j < seen@.len() ==> seen@[j] < self.nodes.len() && call_ensures(
                    V::visit,
                    (visitor, &self.nodes[seen@[j] as int]),
                    (),
                ),
    {
        let ghost mut seen: Seq<nat> = Seq::empty();
        let mut i: usize = 0;
        while i < self.nodes.len()
            invariant
                i <= self.nodes.len(),
                seen == store_order(i as nat),
                forall|j: int|
                    #![trigger seen[j]]
                    0 <= j < seen.len() ==> seen[j] < self.nodes.len() && call_ensures(
                        V::visit,
                        (visitor, &self.nodes[seen[j] as int]),
                        (),
                    ),
            decreases self.nodes.len() - i,
        {
            let ghost passed = seen;
            self.nodes[i].accept(visitor);
            proof {
                seen = seen.push(i as nat);
                assert(seen =~= store_order((i + 1) as nat));
                assert forall|j: int| #![trigger seen[j]] 0 <= j < seen.len() implies seen[j]
                    < self.nodes.len() && call_ensures(
                    V::visit,
                    (visitor, &self.nodes[seen[j] as int]),
                    (),
                ) by {
                    if j < passed.len() {
                        assert(seen[j] == passed[j]);
                    }
                }
            }
            i += 1;
        }
        Ghost(seen)
    }

    /// Hands the nodes to `visitor` from the root down, each node before its
    /// children, the children in the order in which their parent lists them. Returns
    /// the positions in the order in which their nodes were handed over.
    pub fn pre_visit<V: Visitor>(&self, visitor: &V) -> (seen: Ghost<Seq<nat>>)
        requires
            links_forward(self@.nodes),
        ensures
            seen@ == self@.walk_from_root(Order::Pre),
            forall|j: int|
                #![trigger seen@[j]]
                0 <= j < seen@.len() ==> seen@[j] < self.nodes.len() && call_ensures(
                    V::visit,
                    (visitor, &self.nodes[seen@[j] as int]),
                    (),
                ),
    {
        let handle = self.root.clone();
        self.pre_visit_internal(visitor, &handle)
    }

    /// The walk that visits parents first, from the node that `handle` designates.
    fn pre_visit_internal<V: Visitor>(&self, visitor: &V, handle: &Handle) -> (seen: Ghost<
        Seq<nat>,
    >)
        requires
            links_forward(self@.nodes),
        ensures
            seen@ == self@.walk_from(handle@, Order::Pre),
            forall|j: int|
                #![trigger seen@[j]]
                0 <= j < seen@.len() ==> seen@[j] < self.nodes.len() && call_ensures(
                    V::visit,
                    (visitor, &self.nodes[seen@[j] as int]),
                    (),
                ),
        decreases self@.room_after(handle@),
    {
        let ghost nodes = self@.nodes;
        let ghost mut seen: Seq<nat> = Seq::empty();
        if let Some(node) = self.get_node(handle) {
            let ghost at = self@.lookup(handle@)->0;
            node.accept(visitor);
            proof {
                seen = seq![at];
            }
            let mut k: usize = 0;
            while k < node.children.len()
                invariant
                    k <= node.children.len(),
                    nodes == self@.nodes,
                    links_forward(nodes),
                    at < nodes.len(),
                    self@.lookup(handle@) == Some(at),
                    node@ == nodes[at as int],
                    seen == seq![at] + walk_below(nodes, at, k as nat, Order::Pre),
                    forall|j: int|
                        #![trigger seen[j]]
                        0 <= j < seen.len() ==> seen[j] < self.nodes.len() && call_ensures(
                            V::visit,
                            (visitor, &self.nodes[seen[j] as int]),
                            (),
                        ),
                decreases node.children.len() - k,
            {
                let child = Handle::from(node.children[k]);
                assert(nodes[at as int].children[k as int] == node.children[k as int] as nat);
                let ghost passed = seen;
                let deeper = self.pre_visit_internal(visitor, &child);
                proof {
                    seen = seen + deeper@;
                    assert forall|j: int| #![trigger seen[j]] 0 <= j < seen.len() implies seen[j]
                        < self.nodes.len() && call_ensures(
                        V::visit,
                        (visitor, &self.nodes[seen[j] as int]),
                        (),
                    ) by {
                        if j < passed.len() {
                            assert(seen[j] == passed[j]);
                        } else {
                            assert(seen[j] == deeper@[j - passed.len()]);
                        }
                    }
                }
                k += 1;
            }
        }
        Ghost(seen)
    }

    /// Hands the nodes to `visitor` from the leaves up, each node after its children,
    /// the children in the order in which their parent lists them. Returns the
    /// positions in the order in which their nodes were handed over.
    pub fn post_visit<V: Visitor>(&self, visitor: &V) -> (seen: Ghost<Seq<nat>>)
        requires
            links_forward(self@.nodes),
        ensures
            seen@ == self@.walk_from_root(Order::Post),
            forall|j: int|
                #![trigger seen@[j]]
                0 <= j < seen@.len() ==> seen@[j] < self.nodes.len() && call_ensures(
                    V::visit,
                    (visitor, &self.nodes[seen@[j] as int]),
                    (),
                ),
    {
        let handle = self.root.clone();
        self.post_visit_internal(visitor, &handle)
    }

    /// The walk that visits children first, from the node that `handle` designates.
    fn post_visit_internal<V: Visitor>(&self, visitor: &V, handle: &Handle) -> (seen: Ghost<
        Seq<nat>,
    >)
        requires
            links_forward(self@.nodes),
        ensures
            seen@ == self@.walk_from(handle@, Order::Post),
            forall|j: int|
                #![trigger seen@[j]]
                0 <= j < seen@.len() ==> seen@[j] < self.nodes.len() && call_ensures(
                    V::visit,
                    (visitor, &self.nodes[seen@[j] as int]),
                    (),
                ),
        decreases self@.room_after(handle@),
    {
        let ghost nodes = self@.nodes;
        let ghost mut seen: Seq<nat> = Seq::empty();
        if let Some(node) = self.get_node(handle) {
            let ghost at = self@.lookup(handle@)->0;
            let mut k: usize = 0;
            while k < node.children.len()
                invariant
                    k <= node.children.len(),
                    nodes == self@.nodes,
                    links_forward(nodes),
                    at < nodes.len(),
                    self@.lookup(handle@) == Some(at),
                    node@ == nodes[at as int],
                    seen == walk_below(nodes, at, k as nat, Order::Post),
                    forall|j: int|
                        #![trigger seen[j]]
                        0 <= j < seen.len() ==> seen[j] < self.nodes.len() && call_ensures(
                            V::visit,
                            (visitor, &self.nodes[seen[j] as int]),
                            (),
                        ),
                decreases node.children.len() - k,
            {
                let child = Handle::from(node.children[k]);
                assert(nodes[at as int].children[k as int] == node.children[k as int] as nat);
                let ghost passed = seen;
                let deeper = self.post_visit_internal(visitor, &child);
                proof {
                    seen = seen + deeper@;
                    assert forall|j: int| #![trigger seen[j]] 0 <= j < seen.len() implies seen[j]
                        < self.nodes.len() && call_ensures(
                        V::visit,
                        (visitor, &self.nodes[seen[j] as int]),
                        (),
                    ) by {
                        if j < passed.len() {
                            assert(seen[j] == passed[j]);
                        } else {
                            assert(seen[j] == deeper@[j - passed.len()]);
                        }
                    }
                }
                k += 1;
            }
            let ghost passed = seen;
            node.accept(visitor);
            proof {
                seen = seen.push(at);
                assert forall|j: int| #![trigger seen[j]] 0 <= j < seen.len() implies seen[j]
                    < self.nodes.len() && call_ensures(
                    V::visit,
                    (visitor, &self.nodes[seen[j] as int]),
                    (),
                ) by {
                    if j < passed.len() {
                        assert(seen[j] == passed[j]);
                    }
                }
            }
        }
        Ghost(seen)
    }
}

/// While a walk over the tree `plan` is at the node at `at` and has passed `seen`,
/// the nodes under the next child, the `k`-th, are still as they were at `start`.
proof fn lemma_next_child_untouched(
    plan: Seq<NodeModel>,
    at: nat,
    k: nat,
    order: Order,
    seen: Seq<nat>,
    q: nat,
)
    requires
        is_tree(plan),
        at < plan.len(),
        k < plan[at as int].children.len(),
        seen == walk_below(plan, at, k, order) || seen == seq![at] + walk_below(plan, at, k, order),
        walk(plan, plan[at as int].children[k as int], order).contains(q),
    ensures
        !seen.contains(q),
        walk(plan, at, order).contains(q),
        q < plan.len(),
{
    let child = plan[at as int].children[k as int];
    let earlier = walk_below(plan, at, k, order);
    lemma_walk_members(plan, child, order);
    lemma_walk_members(plan, at, order);
    lemma_walk_below_members(plan, at, k, order);
    assert(under_child(plan, at, (k + 1) as nat, q));
    lemma_under_child_is_under(plan, at, (k + 1) as nat, q);
    if earlier.contains(q) {
        let m = choose|m: int|
            0 <= m < k && m < plan[at as int].children.len() && under(
                plan,
                #[trigger] plan[at as int].children[m],
                q,
            );
        lemma_siblings_apart(plan, at, m, k as int, q);
    }
    if seen.contains(q) && !earlier.contains(q) {
        vstd::seq_lib::lemma_seq_concat_contains_all_elements(seq![at], earlier, q);
        assert(seq![at].contains(q));
        let i = choose|i: int| 0 <= i < seq![at].len() && seq![at][i] == q;
        assert(q == at);
    }
}

impl MachGraph {
    /// Hands every node to `visitor` once, for modification, in the order of the
    /// store. The visitor decides what becomes of each node: the visitor and the
    /// nodes end as the calls of `visit_mut`, one after another, leave them. The
    /// number of nodes, and the graph's own name, number and root handle, stay as
    /// they are. Returns the positions in the order in which their nodes were handed
    /// over.
    pub fn visit_all_mut<V: Visitor>(&mut self, visitor: &mut V) -> (seen: Ghost<Seq<nat>>)
        ensures
            seen@ == store_order(old(self)@.nodes.len()),
            final(self).nodes.len() == old(self).nodes.len(),
            final(self).name == old(self).name,
            final(self).index == old(self).index,
            final(self).root == old(self).root,
            exists|states: Seq<V>|
                {
                    &&& states.len() == old(self).nodes.len() + 1
                    &&& states[0] == *old(visitor)
                    &&& states.last() == *final(visitor)
                    &&& forall|j: int|
                        #![trigger states[j]]
                        0 <= j < old(self).nodes.len() ==> exists|handed: &mut V, lent: &mut MachNode|
                            {
                                &&& mut_ref_current(handed) == states[j]
                                &&& mut_ref_future(handed) == states[j + 1]
                                &&& mut_ref_current(lent) == old(self).nodes[j]
                                &&& mut_ref_future(lent) == final(self).nodes[j]
                                &&& #[trigger] call_ensures(V::visit_mut, (handed, lent), ())
                            }
                },
    {
        let ghost start = *self;
        let ghost mut seen: Seq<nat> = Seq::empty();
        let ghost mut states: Seq<V> = seq![*visitor];
        let total = self.nodes.len();
        let mut i: usize = 0;
        while i < total
            invariant
                i <= total,
                total == self.nodes.len(),
                total == start.nodes.len(),
                seen == store_order(i as nat),
                self.name == start.name,
                self.index == start.index,
                self.root == start.root,
                states.len() == i + 1,
                states[0] == *old(visitor),
                states.last() == *visitor,
                forall|j: int| i <= j < total ==> self.nodes[j] == start.nodes[j],
                forall|j: int|
                    #![trigger states[j]]
                    0 <= j < i ==> exists|handed: &mut V, lent: &mut MachNode|
                        {
                            &&& mut_ref_current(handed) == states[j]
                            &&& mut_ref_future(handed) == states[j + 1]
                            &&& mut_ref_current(lent) == start.nodes[j]
                            &&& mut_ref_future(lent) == self.nodes[j]
                            &&& #[trigger] call_ensures(V::visit_mut, (handed, lent), ())
                        },
            decreases total - i,
        {
            let ghost earlier = states;
            let ghost before = *self;
            self.nodes[i].accept_mut(visitor);
            proof {
                seen = seen.push(i as nat);
                assert(seen =~= store_order((i + 1) as nat));
                states = states.push(*visitor);
                assert forall|j: int| #![trigger states[j]] 0 <= j < i + 1 implies exists|
                    handed: &mut V,
                    lent: &mut MachNode,
                |
                    {
                        &&& mut_ref_current(handed) == states[j]
                        &&& mut_ref_future(handed) == states[j + 1]
                        &&& mut_ref_current(lent) == start.nodes[j]
                        &&& mut_ref_future(lent) == self.nodes[j]
                        &&& #[trigger] call_ensures(V::visit_mut, (handed, lent), ())
                    } by {
                    if j < i {
                        assert(states[j] == earlier[j]);
                        assert(states[j + 1] == earlier[j + 1]);
                        assert(self.nodes[j] == before.nodes[j]);
                    }
                }
            }
            i += 1;
        }
        Ghost(seen)
    }

    /// Hands the nodes of a tree to `visitor` for modification, from the root handle's
    /// node down, each node before its children. The walk follows the links as they
    /// were when it began: whatever the visitor does to the nodes that it is handed
    /// does not change which nodes the walk passes, nor their order. Each node that
    /// the walk passes is handed over as it was before the walk, once; the visitor
    /// and these nodes end as the calls of `visit_mut`, one after another, leave them,
    /// and the other nodes stay as they were. Returns the positions in the order in
    /// which their nodes were handed over.
    pub fn pre_visit_mut<V: Visitor>(&mut self, visitor: &mut V) -> (seen: Ghost<Seq<nat>>)
        requires
            is_tree(old(self)@.nodes),
        ensures
            seen@ == old(self)@.walk_from_root(Order::Pre),
            final(self).nodes.len() == old(self).nodes.len(),
            final(self).name == old(self).name,
            final(self).index == old(self).index,
            final(self).root == old(self).root,
            exists|states: Seq<V>|
                {
                    &&& states.len() == seen@.len() + 1
                    &&& states[0] == *old(visitor)
                    &&& states.last() == *final(visitor)
                    &&& forall|j: int|
                        #![trigger states[j]]
                        0 <= j < seen@.len() ==> exists|handed: &mut V, lent: &mut MachNode|
                            {
                                &&& mut_ref_current(handed) == states[j]
                                &&& mut_ref_future(handed) == states[j + 1]
                                &&& mut_ref_current(lent) == old(self).nodes[seen@[j] as int]
                                &&& mut_ref_future(lent) == final(self).nodes[seen@[j] as int]
                                &&& #[trigger] call_ensures(V::visit_mut, (handed, lent), ())
                            }
                },
            forall|q: int|
                0 <= q < old(self).nodes.len() && !seen@.contains(q as nat) ==> (
                #[trigger] final(self).nodes[q]) == old(self).nodes[q],
    {
        let ghost plan = self@.nodes;
        let ghost idle: Seq<V> = seq![*visitor];
        let start: u32 = match self.root.get_index(self) {
            Some(i) => i,
            None => {
                assert(idle.len() == 1 && idle[0] == *visitor);
                return Ghost(Seq::empty());
            },
        };
        if start as usize >= self.nodes.len() {
            assert(idle.len() == 1 && idle[0] == *visitor);
            return Ghost(Seq::empty());
        }
        let handle = Handle::from(start);
        let (seen, states) = self.pre_visit_internal_mut(visitor, &handle, Ghost(plan));
        assert(states@.len() == seen@.len() + 1);
        seen
    }

    /// The walk that visits parents first, from the node at the position that
    /// `handle` carries, over a store whose nodes below that node are still as in the
    /// tree `plan`. Returns the positions passed and the states that the visitor went
    /// through, from the one it came in to the one it leaves in.
    fn pre_visit_internal_mut<V: Visitor>(
        &mut self,
        visitor: &mut V,
        handle: &Handle,
        Ghost(plan): Ghost<Seq<NodeModel>>,
    ) -> (out: (Ghost<Seq<nat>>, Ghost<Seq<V>>))
        requires
            is_tree(plan),
            old(self).nodes.len() == plan.len(),
            handle@.index is Some,
            handle@.index->0 < plan.len(),
            forall|q: nat| #[trigger]
                walk(plan, handle@.index->0, Order::Pre).contains(q) ==> old(self)@.nodes[q as int]
                    == plan[q as int],
        ensures
            out.0@ == walk(plan, handle@.index->0, Order::Pre),
            final(self).nodes.len() == old(self).nodes.len(),
            final(self).name == old(self).name,
            final(self).index == old(self).index,
            final(self).root == old(self).root,
            forall|q: int|
                0 <= q < plan.len() && !out.0@.contains(q as nat) ==> (#[trigger] final(self).nodes[q])
                    == old(self).nodes[q],
            out.1@.len() == out.0@.len() + 1,
            out.1@[0] == *old(visitor),
            out.1@.last() == *final(visitor),
            forall|j: int|
                #![trigger out.1@[j]]
                0 <= j < out.0@.len() ==> exists|handed: &mut V, lent: &mut MachNode|
                    {
                        &&& mut_ref_current(handed) == out.1@[j]
                        &&& mut_ref_future(handed) == out.1@[j + 1]
                        &&& mut_ref_current(lent) == old(self).nodes[out.0@[j] as int]
                        &&& mut_ref_future(lent) == final(self).nodes[out.0@[j] as int]
                        &&& #[trigger] call_ensures(V::visit_mut, (handed, lent), ())
                    },
        decreases plan.len() - handle@.index->0,
    {
        let ghost at = handle@.index->0;
        let ghost start = *self;
        let ghost first = *visitor;
        proof {
            lemma_walk_members(plan, at, Order::Pre);
            assert(under(plan, at, at));
            assert(walk(plan, at, Order::Pre).contains(at));
            assert(self@.lookup(handle@) == Some(at));
            assert(self@.nodes[at as int] == plan[at as int]);
        }
        let mut children: Vec<u32> = Vec::new();
        if let Some(node) = self.get_node_mut(handle) {
            children = node.children.clone();
            assert(children@ =~= node.children@);
            assert(numbers(children@) == plan[at as int].children);
            node.accept_mut(visitor);
        }
        let ghost mut seen: Seq<nat> = seq![at];
        let ghost mut states: Seq<V> = seq![first, *visitor];
        assert(seen[0] == at);
        let mut k: usize = 0;
        while k < children.len()
            invariant
                k <= children.len(),
                is_tree(plan),
                at < plan.len(),
                handle@.index == Some(at),
                numbers(children@) == plan[at as int].children,
                self.nodes.len() == plan.len(),
                start.nodes.len() == plan.len(),
                self.name == start.name,
                self.index == start.index,
                self.root == start.root,
                seen == seq![at] + walk_below(plan, at, k as nat, Order::Pre),
                forall|q: nat| #[trigger]
                    walk(plan, at, Order::Pre).contains(q) ==> start@.nodes[q as int] == plan[q as int],
                forall|q: int|
                    0 <= q < plan.len() && !seen.contains(q as nat) ==> (#[trigger] self.nodes[q])
                        == start.nodes[q],
                forall|j: int| 0 <= j < seen.len() ==> (#[trigger] seen[j]) < plan.len(),
                states.len() == seen.len() + 1,
                states[0] == first,
                states.last() == *visitor,
                forall|j: int|
                    #![trigger states[j]]
                    0 <= j < seen.len() ==> exists|handed: &mut V, lent: &mut MachNode|
                        {
                            &&& mut_ref_current(handed) == states[j]
                            &&& mut_ref_future(handed) == states[j + 1]
                            &&& mut_ref_current(lent) == start.nodes[seen[j] as int]
                            &&& mut_ref_future(lent) == self.nodes[seen[j] as int]
                            &&& #[trigger] call_ensures(V::visit_mut, (handed, lent), ())
                        },
            decreases children.len() - k,
        {
            let child = Handle::from(children[k]);
            let ghost next = plan[at as int].children[k as int];
            assert(next == children[k as int] as nat);
            proof {
                assert forall|q: nat| #[trigger]
                    walk(plan, next, Order::Pre).contains(q) implies self@.nodes[q as int]
                    == plan[q as int] by {
                    lemma_next_child_untouched(plan, at, k as nat, Order::Pre, seen, q);
                    assert(self.nodes[q as int] == start.nodes[q as int]);
                }
            }
            let ghost before = *self;
            let ghost earlier = states;
            let ghost passed = seen;
            let (deeper, inner) = self.pre_visit_internal_mut(visitor, &child, Ghost(plan));
            proof {
                let longer = passed + deeper@;
                let chained = earlier + inner@.drop_first();
                lemma_walk_bounds(plan, next, Order::Pre);
                assert forall|q: int| 0 <= q < plan.len() && !longer.contains(q as nat) implies (
                #[trigger] self.nodes[q]) == start.nodes[q] by {
                    vstd::seq_lib::lemma_seq_concat_contains_all_elements(passed, deeper@, q as nat);
                    assert(self.nodes[q] == before.nodes[q]);
                }
                assert forall|j: int| 0 <= j < longer.len() implies (#[trigger] longer[j])
                    < plan.len() by {
                    if j < passed.len() {
                        assert(longer[j] == passed[j]);
                    } else {
                        assert(longer[j] == deeper@[j - passed.len()]);
                    }
                }
                assert forall|j: int| #![trigger chained[j]] 0 <= j < longer.len() implies exists|
                    handed: &mut V,
                    lent: &mut MachNode,
                |
                    {
                        &&& mut_ref_current(handed) == chained[j]
                        &&& mut_ref_future(handed) == chained[j + 1]
                        &&& mut_ref_current(lent) == start.nodes[longer[j] as int]
                        &&& mut_ref_future(lent) == self.nodes[longer[j] as int]
                        &&& #[trigger] call_ensures(V::visit_mut, (handed, lent), ())
                    } by {
                    if j < passed.len() {
                        let q = passed[j];
                        assert(longer[j] == q);
                        assert(chained[j] == earlier[j]);
                        assert(chained[j + 1] == earlier[j + 1]);
                        if deeper@.contains(q) {
                            lemma_next_child_untouched(plan, at, k as nat, Order::Pre, passed, q);
                        }
                        assert(self.nodes[q as int] == before.nodes[q as int]);
                    } else {
                        let i = j - passed.len();
                        let q = deeper@[i];
                        assert(longer[j] == q);
                        assert(deeper@.contains(q));
                        lemma_next_child_untouched(plan, at, k as nat, Order::Pre, passed, q);
                        assert(before.nodes[q as int] == start.nodes[q as int]);
                        assert(chained[j + 1] == inner@[i + 1]);
                        if i == 0 {
                            assert(chained[j] == earlier.last());
                        } else {
                            assert(chained[j] == inner@[i]);
                        }
                        assert(chained[j] == inner@[i]);
                    }
                }
                assert(longer =~= seq![at] + walk_below(plan, at, (k + 1) as nat, Order::Pre));
                seen = longer;
                states = chained;
            }
            k += 1;
        }
        (Ghost(seen), Ghost(states))
    }

    /// Hands the nodes of a tree to `visitor` for modification, from the leaves up to
    /// the root handle's node, each node after its children. The walk follows the
    /// links as they were when it began: whatever the visitor does to the nodes that
    /// it is handed does not change which nodes the walk passes, nor their order.
    /// Each node that the walk passes is handed over as it was before the walk, once;
    /// the visitor and these nodes end as the calls of `visit_mut`, one after another,
    /// leave them, and the other nodes stay as they were. Returns the positions in
    /// the order in which their nodes were handed over.
    pub fn post_visit_mut<V: Visitor>(&mut self, visitor: &mut V) -> (seen: Ghost<Seq<nat>>)
        requires
            is_tree(old(self)@.nodes),
        ensures
            seen@ == old(self)@.walk_from_root(Order::Post),
            final(self).nodes.len() == old(self).nodes.len(),
            final(self).name == old(self).name,
            final(self).index == old(self).index,
            final(self).root == old(self).root,
            exists|states: Seq<V>|
                {
                    &&& states.len() == seen@.len() + 1
                    &&& states[0] == *old(visitor)
                    &&& states.last() == *final(visitor)
                    &&& forall|j: int|
                        #![trigger states[j]]
                        0 <= j < seen@.len() ==> exists|handed: &mut V, lent: &mut MachNode|
                            {
                                &&& mut_ref_current(handed) == states[j]
                                &&& mut_ref_future(handed) == states[j + 1]
                                &&& mut_ref_current(lent) == old(self).nodes[seen@[j] as int]
                                &&& mut_ref_future(lent) == final(self).nodes[seen@[j] as int]
                                &&& #[trigger] call_ensures(V::visit_mut, (handed, lent), ())
                            }
                },
            forall|q: int|
                0 <= q < old(self).nodes.len() && !seen@.contains(q as nat) ==> (
                #[trigger] final(self).nodes[q]) == old(self).nodes[q],
    {
        let ghost plan = self@.nodes;
        let ghost idle: Seq<V> = seq![*visitor];
        let start: u32 = match self.root.get_index(self) {
            Some(i) => i,
            None => {
                assert(idle.len() == 1 && idle[0] == *visitor);
                return Ghost(Seq::empty());
            },
        };
        if start as usize >= self.nodes.len() {
            assert(idle.len() == 1 && idle[0] == *visitor);
            return Ghost(Seq::empty());
        }
        let handle = Handle::from(start);
        let (seen, states) = self.post_visit_internal_mut(visitor, &handle, Ghost(plan));
        assert(states@.len() == seen@.len() + 1);
        seen
    }

    /// The walk that visits children first, from the node at the position that
    /// `handle` carries, over a store whose nodes below that node are still as in the
    /// tree `plan`. Returns the positions passed and the states that the visitor went
    /// through, from the one it came in to the one it leaves in.
    fn post_visit_internal_mut<V: Visitor>(
        &mut self,
        visitor: &mut V,
        handle: &Handle,
        Ghost(plan): Ghost<Seq<NodeModel>>,
    ) -> (out: (Ghost<Seq<nat>>, Ghost<Seq<V>>))
        requires
            is_tree(plan),
            old(self).nodes.len() == plan.len(),
            handle@.index is Some,
            handle@.index->0 < plan.len(),
            forall|q: nat| #[trigger]
                walk(plan, handle@.index->0, Order::Post).contains(q) ==> old(self)@.nodes[q as int]
                    == plan[q as int],
        ensures
            out.0@ == walk(plan, handle@.index->0, Order::Post),
            final(self).nodes.len() == old(self).nodes.len(),
            final(self).name == old(self).name,
            final(self).index == old(self).index,
            final(self).root == old(self).root,
            forall|q: int|
                0 <= q < plan.len() && !out.0@.contains(q as nat) ==> (#[trigger] final(self).nodes[q])
                    == old(self).nodes[q],
            out.1@.len() == out.0@.len() + 1,
            out.1@[0] == *old(visitor),
            out.1@.last() == *final(visitor),
            forall|j: int|
                #![trigger out.1@[j]]
                0 <= j < out.0@.len() ==> exists|handed: &mut V, lent: &mut MachNode|
                    {
                        &&& mut_ref_current(handed) == out.1@[j]
                        &&& mut_ref_future(handed) == out.1@[j + 1]
                        &&& mut_ref_current(lent) == old(self).nodes[out.0@[j] as int]
                        &&& mut_ref_future(lent) == final(self).nodes[out.0@[j] as int]
                        &&& #[trigger] call_ensures(V::visit_mut, (handed, lent), ())
                    },
        decreases plan.len() - handle@.index->0,
    {
        let ghost at = handle@.index->0;
        let ghost start = *self;
        let ghost first = *visitor;
        proof {
            lemma_walk_members(plan, at, Order::Post);
            assert(under(plan, at, at));
            assert(walk(plan, at, Order::Post).contains(at));
            assert(self@.lookup(handle@) == Some(at));
            assert(self@.nodes[at as int] == plan[at as int]);
        }
        let mut children: Vec<u32> = Vec::new();
        if let Some(node) = self.get_node(handle) {
            children = node.children.clone();
            assert(children@ =~= node.children@);
            assert(numbers(children@) == plan[at as int].children);
        }
        let ghost mut seen: Seq<nat> = Seq::empty();
        let ghost mut states: Seq<V> = seq![first];
        let mut k: usize = 0;
        while k < children.len()
            invariant
                k <= children.len(),
                is_tree(plan),
                at < plan.len(),
                handle@.index == Some(at),
                numbers(children@) == plan[at as int].children,
                self.nodes.len() == plan.len(),
                start.nodes.len() == plan.len(),
                self.name == start.name,
                self.index == start.index,
                self.root == start.root,
                seen == walk_below(plan, at, k as nat, Order::Post),
                forall|q: nat| #[trigger]
                    walk(plan, at, Order::Post).contains(q) ==> start@.nodes[q as int] == plan[q as int],
                forall|q: int|
                    0 <= q < plan.len() && !seen.contains(q as nat) ==> (#[trigger] self.nodes[q])
                        == start.nodes[q],
                forall|j: int| 0 <= j < seen.len() ==> (#[trigger] seen[j]) < plan.len(),
                states.len() == seen.len() + 1,
                states[0] == first,
                states.last() == *visitor,
                forall|j: int|
                    #![trigger states[j]]
                    0 <= j < seen.len() ==> exists|handed: &mut V, lent: &mut MachNode|
                        {
                            &&& mut_ref_current(handed) == states[j]
                            &&& mut_ref_future(handed) == states[j + 1]
                            &&& mut_ref_current(lent) == start.nodes[seen[j] as int]
                            &&& mut_ref_future(lent) == self.nodes[seen[j] as int]
                            &&& #[trigger] call_ensures(V::visit_mut, (handed, lent), ())
                        },
            decreases children.len() - k,
        {
            let child = Handle::from(children[k]);
            let ghost next = plan[at as int].children[k as int];
            assert(next == children[k as int] as nat);
            proof {
                assert forall|q: nat| #[trigger]
                    walk(plan, next, Order::Post).contains(q) implies self@.nodes[q as int]
                    == plan[q as int] by {
                    lemma_next_child_untouched(plan, at, k as nat, Order::Post, seen, q);
                    assert(self.nodes[q as int] == start.nodes[q as int]);
                }
            }
            let ghost before = *self;
            let ghost earlier = states;
            let ghost passed = seen;
            let (deeper, inner) = self.post_visit_internal_mut(visitor, &child, Ghost(plan));
            proof {
                let longer = passed + deeper@;
                let chained = earlier + inner@.drop_first();
                lemma_walk_bounds(plan, next, Order::Post);
                assert forall|q: int| 0 <= q < plan.len() && !longer.contains(q as nat) implies (
                #[trigger] self.nodes[q]) == start.nodes[q] by {
                    vstd::seq_lib::lemma_seq_concat_contains_all_elements(passed, deeper@, q as nat);
                    assert(self.nodes[q] == before.nodes[q]);
                }
                assert forall|j: int| 0 <= j < longer.len() implies (#[trigger] longer[j])
                    < plan.len() by {
                    if j < passed.len() {
                        assert(longer[j] == passed[j]);
                    } else {
                        assert(longer[j] == deeper@[j - passed.len()]);
                    }
                }
                assert forall|j: int| #![trigger chained[j]] 0 <= j < longer.len() implies exists|
                    handed: &mut V,
                    lent: &mut MachNode,
                |
                    {
                        &&& mut_ref_current(handed) == chained[j]
                        &&& mut_ref_future(handed) == chained[j + 1]
                        &&& mut_ref_current(lent) == start.nodes[longer[j] as int]
                        &&& mut_ref_future(lent) == self.nodes[longer[j] as int]
                        &&& #[trigger] call_ensures(V::visit_mut, (handed, lent), ())
                    } by {
                    if j < passed.len() {
                        let q = passed[j];
                        assert(longer[j] == q);
                        assert(chained[j] == earlier[j]);
                        assert(chained[j + 1] == earlier[j + 1]);
                        if deeper@.contains(q) {
                            lemma_next_child_untouched(plan, at, k as nat, Order::Post, passed, q);
                        }
                        assert(self.nodes[q as int] == before.nodes[q as int]);
                    } else {
                        let i = j - passed.len();
                        let q = deeper@[i];
                        assert(longer[j] == q);
                        assert(deeper@.contains(q));
                        lemma_next_child_untouched(plan, at, k as nat, Order::Post, passed, q);
                        assert(before.nodes[q as int] == start.nodes[q as int]);
                        assert(chained[j + 1] == inner@[i + 1]);
                        if i == 0 {
                            assert(chained[j] == earlier.last());
                        } else {
                            assert(chained[j] == inner@[i]);
                        }
                        assert(chained[j] == inner@[i]);
                    }
                }
                assert(longer == walk_below(plan, at, (k + 1) as nat, Order::Post));
                seen = longer;
                states = chained;
            }
            k += 1;
        }
        let ghost before = *self;
        let ghost earlier = states;
        let ghost passed = seen;
        if let Some(node) = self.get_node_mut(handle) {
            node.accept_mut(visitor);
        }
        proof {
            let longer = passed.push(at);
            let chained = earlier.push(*visitor);
            lemma_walk_below_bounds(plan, at, children.len() as nat, Order::Post);
            assert(!passed.contains(at)) by {
                if passed.contains(at) {
                    let i = choose|i: int| 0 <= i < passed.len() && passed[i] == at;
                    assert(passed[i] > at);
                }
            }
            assert forall|q: int| 0 <= q < plan.len() && !longer.contains(q as nat) implies (
            #[trigger] self.nodes[q]) == start.nodes[q] by {
                vstd::seq_lib::lemma_seq_contains_after_push(passed, at, q as nat);
                assert(self.nodes[q] == before.nodes[q]);
            }
            assert forall|j: int| #![trigger chained[j]] 0 <= j < longer.len() implies exists|
                handed: &mut V,
                lent: &mut MachNode,
            |
                {
                    &&& mut_ref_current(handed) == chained[j]
                    &&& mut_ref_future(handed) == chained[j + 1]
                    &&& mut_ref_current(lent) == start.nodes[longer[j] as int]
                    &&& mut_ref_future(lent) == self.nodes[longer[j] as int]
                    &&& #[trigger] call_ensures(V::visit_mut, (handed, lent), ())
                } by {
                if j < passed.len() {
                    let q = passed[j];
                    assert(longer[j] == q);
                    assert(chained[j] == earlier[j]);
                    assert(chained[j + 1] == earlier[j + 1]);
                    assert(q != at);
                    assert(self.nodes[q as int] == before.nodes[q as int]);
                } else {
                    assert(longer[j] == at);
                    assert(chained[j] == earlier.last());
                    assert(before.nodes[at as int] == start.nodes[at as int]);
                }
            }
            seen = longer;
            states = chained;
        }
        (Ghost(seen), Ghost(states))
    }
}

} // verus!
