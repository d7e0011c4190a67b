use crate::model::{
    ancestry, descend, is_first_match, is_tree, lemma_first_match_found, links_forward, mirrored,
    names_along, path_of, resolve, store_order, told_by_name, under, walk, GraphModel, NodeModel,
    Order,
};
use crate::text::{lemma_split_join, SEPARATOR};
use crate::tree::{
    lemma_positions_count, lemma_under_root, lemma_walk_distinct, lemma_walk_members,
    lemma_walk_mirrored, lemma_walk_sequence,
};
use vstd::prelude::*;

verus! {

/// A graph as construction yields it holds one node, which is the node that the
/// root handle designates, lies at position 0 and has no parent; and the graph is
/// well formed.
pub proof fn lemma_fresh_graph(name: Seq<char>)
    ensures
        GraphModel::fresh(name).nodes.len() == 1,
        GraphModel::fresh(name).lookup(GraphModel::fresh(name).root) == Some(0nat),
        !GraphModel::fresh(name).nodes[0].has_parent(),
        GraphModel::fresh(name).wf(),
{
    let nodes = GraphModel::fresh(name).nodes;
    assert(nodes[0].children.len() == 0);
}

/// Appending a child to a node of a well-formed graph leaves the graph well formed.
pub proof fn lemma_child_keeps_graph_well_formed(graph: GraphModel, name: Seq<char>, parent: nat)
    requires
        graph.wf(),
        parent < graph.nodes.len(),
    ensures
        graph.with_child(name, parent).wf(),
{
    let before = graph.nodes;
    let after = graph.with_child(name, parent).nodes;
    let added = before.len();
    assert forall|i: int, k: int| 0 <= i < after.len() && 0 <= k < after[i].children.len() implies {
        &&& i < (#[trigger] after[i].children[k]) < after.len()
        &&& after[after[i].children[k] as int].parent == i
    } by {
        if i == parent && k == before[i].children.len() {
        } else {
            assert(after[i].children[k] == before[i].children[k]);
        }
    }
    assert forall|i: int, j: int, k: int|
        0 <= i < after.len() && 0 <= j < k < after[i].children.len() implies (
    #[trigger] after[i].children[j]) < (#[trigger] after[i].children[k]) by {
        if i == parent && k == before[i].children.len() {
            assert(after[i].children[j] == before[i].children[j]);
        } else {
            assert(after[i].children[j] == before[i].children[j]);
            assert(after[i].children[k] == before[i].children[k]);
        }
    }
    assert forall|i: int| 0 < i < after.len() implies after[(
    #[trigger] after[i]).parent as int].children.contains(i as nat) by {
        if i == added {
            assert(after[parent as int].children[before[parent as int].children.len() as int]
                == added);
        } else {
            let above = before[i].parent as int;
            assert(before[above].children.contains(i as nat));
            let k = choose|k: int|
                0 <= k < before[above].children.len() && before[above].children[k] == i as nat;
            assert(after[above].children[k] == i as nat);
        }
    }
}

/// Attaching a component to a node of a well-formed graph leaves the graph well
/// formed.
pub proof fn lemma_component_keeps_graph_well_formed(graph: GraphModel, at: nat, component: nat)
    requires
        graph.wf(),
        at < graph.nodes.len(),
    ensures
        graph.with_component(at, component).wf(),
{
    let before = graph.nodes;
    let after = graph.with_component(at, component).nodes;
    assert forall|i: int| 0 <= i < after.len() implies (#[trigger] after[i]).children
        == before[i].children && after[i].parent == before[i].parent && after[i].index
        == before[i].index by {}
    assert forall|i: int, k: int| 0 <= i < after.len() && 0 <= k < after[i].children.len() implies {
        &&& i < (#[trigger] after[i].children[k]) < after.len()
        &&& after[after[i].children[k] as int].parent == i
    } by {
        assert(after[i].children[k] == before[i].children[k]);
    }
    assert forall|i: int, j: int, k: int|
        0 <= i < after.len() && 0 <= j < k < after[i].children.len() implies (
    #[trigger] after[i].children[j]) < (#[trigger] after[i].children[k]) by {
        assert(after[i].children[j] == before[i].children[j]);
        assert(after[i].children[k] == before[i].children[k]);
    }
    assert forall|i: int| 0 < i < after.len() implies after[(
    #[trigger] after[i]).parent as int].children.contains(i as nat) by {
        assert(before[before[i].parent as int].children.contains(i as nat));
    }
}

/// The handle that appending a child returns designates the new node, and the new
/// node carries the name that was asked for and names as its parent the node that
/// the parent handle designated.
pub proof fn lemma_child_is_found_again(graph: GraphModel, name: Seq<char>, parent: nat)
    requires
        parent < graph.nodes.len(),
    ensures
        ({
            let after = graph.with_child(name, parent);
            let handle = after.handle_of(graph.nodes.len());
            &&& after.lookup(handle) == Some(graph.nodes.len())
            &&& after.nodes[graph.nodes.len() as int].parent == parent
            &&& after.nodes[graph.nodes.len() as int].name == name
            &&& after.nodes[graph.nodes.len() as int].index == graph.nodes.len()
        }),
{
}

/// Walking the store in its own order passes every node exactly once.
pub proof fn lemma_store_order_passes_every_node_once(n: nat)
    ensures
        store_order(n).len() == n,
        store_order(n).no_duplicates(),
        forall|q: nat| q < n <==> #[trigger] store_order(n).contains(q),
{
    assert forall|q: nat| q < n implies #[trigger] store_order(n).contains(q) by {
        assert(store_order(n)[q as int] == q);
    }
}

/// A well-formed graph can be walked from its root, and the walk, in either order,
/// passes every node exactly once: it makes as many visits as there are nodes, none
/// of them twice to the same node, and leaves no node out.
pub proof fn lemma_walk_passes_every_node_once(graph: GraphModel, order: Order)
    requires
        graph.wf(),
    ensures
        links_forward(graph.nodes),
        graph.walk_from_root(order).len() == graph.nodes.len(),
        graph.walk_from_root(order).no_duplicates(),
        forall|q: nat| q < graph.nodes.len() <==> #[trigger] graph.walk_from_root(order).contains(q),
{
    let nodes = graph.nodes;
    let passed = walk(nodes, 0, order);
    lemma_walk_distinct(nodes, 0, order);
    lemma_walk_members(nodes, 0, order);
    assert forall|q: nat| q < nodes.len() <==> #[trigger] passed.contains(q) by {
        if q < nodes.len() {
            lemma_under_root(nodes, q);
        }
    }
    passed.unique_seq_to_set();
    lemma_positions_count(nodes.len());
    assert(passed.to_set() =~= Set::new(|q: nat| q < nodes.len()));
}

/// The walks from the root of a well-formed graph pass the same nodes as the walk
/// in store order, each as often: they differ only in sequence.
pub proof fn lemma_walks_differ_only_in_sequence(graph: GraphModel, order: Order)
    requires
        graph.wf(),
    ensures
        graph.walk_from_root(order).to_multiset() == store_order(
            graph.nodes.len(),
        ).to_multiset(),
{
    let passed = graph.walk_from_root(order);
    let stored = store_order(graph.nodes.len());
    lemma_walk_passes_every_node_once(graph, order);
    lemma_store_order_passes_every_node_once(graph.nodes.len());
    passed.lemma_multiset_has_no_duplicates();
    stored.lemma_multiset_has_no_duplicates();
    assert forall|q: nat| passed.to_multiset().count(q) == stored.to_multiset().count(q) by {
        vstd::seq_lib::to_multiset_contains(passed, q);
        vstd::seq_lib::to_multiset_contains(stored, q);
    }
    assert(passed.to_multiset() =~= stored.to_multiset());
}

/// A walk that visits parents first passes every node before each of its
/// descendants.
pub proof fn lemma_ancestors_come_first(graph: GraphModel, i: int, j: int)
    requires
        graph.wf(),
        0 <= i < graph.walk_from_root(Order::Pre).len(),
        0 <= j < graph.walk_from_root(Order::Pre).len(),
        i != j,
        under(graph.nodes, graph.walk_from_root(Order::Pre)[i], graph.walk_from_root(Order::Pre)[j]),
    ensures
        i < j,
{
    lemma_walk_sequence(graph.nodes, 0, Order::Pre, i, j);
}

/// A walk that visits children first passes every node after all of its
/// descendants.
pub proof fn lemma_descendants_come_first(graph: GraphModel, i: int, j: int)
    requires
        graph.wf(),
        0 <= i < graph.walk_from_root(Order::Post).len(),
        0 <= j < graph.walk_from_root(Order::Post).len(),
        i != j,
        under(
            graph.nodes,
            graph.walk_from_root(Order::Post)[i],
            graph.walk_from_root(Order::Post)[j],
        ),
    ensures
        j < i,
{
    lemma_walk_sequence(graph.nodes, 0, Order::Post, i, j);
}

/// Where the root handle carries a position, the walk that visits children first
/// passes the nodes in the opposite order of the walk that visits parents first
/// over the mirrored graph, in which every node lists its children from the last to
/// the first.
pub proof fn lemma_children_first_mirrors_parents_first(graph: GraphModel)
    requires
        graph.root.index is Some,
    ensures
        graph.walk_from_root(Order::Post) == (GraphModel {
            nodes: mirrored(graph.nodes),
            ..graph
        }).walk_from_root(Order::Pre).reverse(),
{
    let at = graph.root.index->0;
    lemma_walk_mirrored(graph.nodes, at);
    if at >= graph.nodes.len() {
        assert(Seq::<nat>::empty().reverse() =~= Seq::<nat>::empty());
    }
}

/// After any number of children were appended to the root of a well-formed graph,
/// the graph is well formed and has one node more for each of them; each new node
/// lies at the position that follows its predecessor's, records that position,
/// carries the name that was asked for and names the root as its parent; and the
/// root lists, after the children that it had, the new positions in the order in
/// which they were asked for.
pub proof fn lemma_root_children_in_call_order(graph: GraphModel, names: Seq<Seq<char>>)
    requires
        graph.wf(),
    ensures
        ({
            let after = graph.with_root_children(names);
            let held = graph.nodes.len();
            &&& after.wf()
            &&& after.nodes.len() == held + names.len()
            &&& forall|i: int|
                0 <= i < names.len() ==> {
                    &&& (#[trigger] after.nodes[held + i]).index == held + i
                    &&& after.nodes[held + i].name == names[i]
                    &&& after.nodes[held + i].parent == 0
                }
            &&& after.nodes[0].children == graph.nodes[0].children + Seq::new(
                names.len(),
                |i: int| (held + i) as nat,
            )
        }),
    decreases names.len(),
{
    let held = graph.nodes.len();
    if names.len() == 0 {
        assert(graph.nodes[0].children + Seq::new(0, |i: int| (held + i) as nat)
            =~= graph.nodes[0].children);
    } else {
        let front = names.drop_last();
        let before = graph.with_root_children(front);
        let after = graph.with_root_children(names);
        lemma_root_children_in_call_order(graph, front);
        assert(before.lookup(before.root) == Some(0nat));
        lemma_child_keeps_graph_well_formed(before, names.last(), 0);
        assert forall|i: int| 0 <= i < names.len() implies {
            &&& (#[trigger] after.nodes[held + i]).index == held + i
            &&& after.nodes[held + i].name == names[i]
            &&& after.nodes[held + i].parent == 0
        } by {
            if i < front.len() {
                assert(after.nodes[held + i] == before.nodes[held + i]);
                assert(front[i] == names[i]);
            }
        }
        assert(after.nodes[0].children =~= graph.nodes[0].children + Seq::new(
            names.len(),
            |i: int| (held + i) as nat,
        ));
    }
}

/// After `n` children were appended to the root of a new graph, the graph holds
/// `n + 1` nodes, and the root lists the positions `1, .., n`.
pub proof fn lemma_root_children_of_fresh_graph(name: Seq<char>, names: Seq<Seq<char>>)
    ensures
        ({
            let after = GraphModel::fresh(name).with_root_children(names);
            &&& after.nodes.len() == names.len() + 1
            &&& after.nodes[0].children == Seq::new(names.len(), |i: int| (1 + i) as nat)
        }),
{
    lemma_fresh_graph(name);
    lemma_root_children_in_call_order(GraphModel::fresh(name), names);
    assert(Seq::<nat>::empty() + Seq::new(names.len(), |i: int| (1 + i) as nat) =~= Seq::new(
        names.len(),
        |i: int| (1 + i) as nat,
    ));
}

/// In a tree the parent links lead from every node to the root: the chain from the
/// root down to the node exists, and each of its members is an ancestor of the node
/// or the node itself.
pub proof fn lemma_tree_ancestry(nodes: Seq<NodeModel>, at: nat, fuel: nat)
    requires
        is_tree(nodes),
        at < nodes.len(),
        fuel >= at,
    ensures
        ancestry(nodes, at, fuel) is Some,
        ({
            let chain = ancestry(nodes, at, fuel)->0;
            &&& chain.len() >= 1
            &&& chain[0] == 0
            &&& chain.last() == at
            &&& forall|i: int|
                0 <= i < chain.len() ==> (#[trigger] chain[i]) < nodes.len() && under(
                    nodes,
                    chain[i],
                    at,
                )
            &&& forall|i: int|
                0 < i < chain.len() ==> (#[trigger] chain[i]) > 0 && nodes[chain[i] as int].parent
                    == chain[i - 1]
        }),
    decreases at,
{
    if at != 0 {
        let up = nodes[at as int].parent;
        lemma_tree_ancestry(nodes, up, (fuel - 1) as nat);
        let above = ancestry(nodes, up, (fuel - 1) as nat)->0;
        let chain = above.push(at);
        assert forall|i: int| 0 <= i < chain.len() implies (#[trigger] chain[i]) < nodes.len()
            && under(nodes, chain[i], at) by {
            if i < above.len() {
                assert(chain[i] == above[i]);
                assert(under(nodes, above[i], up));
            }
        }
        assert forall|i: int| 0 < i < chain.len() implies (#[trigger] chain[i]) > 0
            && nodes[chain[i] as int].parent == chain[i - 1] by {
            if i < above.len() {
                assert(chain[i] == above[i]);
                assert(chain[i - 1] == above[i - 1]);
            }
        }
    }
}

/// In a tree every node has a path.
pub proof fn lemma_tree_has_paths(nodes: Seq<NodeModel>, at: nat)
    requires
        is_tree(nodes),
        at < nodes.len(),
    ensures
        path_of(nodes, at) is Some,
{
    lemma_tree_ancestry(nodes, at, nodes.len());
}

/// Following the names of a chain of nodes, each told by its name, leads from any
/// member of the chain to its last.
proof fn lemma_descend_along(nodes: Seq<NodeModel>, chain: Seq<nat>, i: int)
    requires
        0 <= i < chain.len(),
        forall|m: int| 0 <= m < chain.len() ==> (#[trigger] chain[m]) < nodes.len(),
        forall|m: int| 0 < m < chain.len() ==> nodes[(#[trigger] chain[m]) as int].parent == chain[m - 1],
        forall|m: int| 0 < m < chain.len() ==> chain[m] > 0 && told_by_name(nodes, #[trigger] chain[m]),
    ensures
        descend(nodes, chain[i], names_along(nodes, chain), (i + 1) as nat) == Some(chain.last()),
    decreases chain.len() - i,
{
    if i + 1 < chain.len() {
        lemma_descend_along(nodes, chain, i + 1);
        let next = chain[i + 1];
        assert(told_by_name(nodes, next));
        assert(names_along(nodes, chain)[i + 1] == nodes[next as int].name);
        assert(nodes[next as int].parent == chain[i]);
    }
}

/// In a tree, the path of a node leads back to that node, provided that the node
/// and each of its ancestors can be told by its name: no name on the way holds a
/// dot, equals the name of the parent, or is carried by an earlier sibling.
pub proof fn lemma_path_leads_back(nodes: Seq<NodeModel>, at: nat)
    requires
        is_tree(nodes),
        at < nodes.len(),
        forall|q: nat| q < nodes.len() && under(nodes, q, at) ==> #[trigger] told_by_name(nodes, q),
    ensures
        path_of(nodes, at) is Some,
        resolve(nodes, path_of(nodes, at)->0) == Some(at),
{
    lemma_tree_ancestry(nodes, at, nodes.len());
    let chain = ancestry(nodes, at, nodes.len())->0;
    let names = names_along(nodes, chain);
    assert forall|i: int| 0 <= i < names.len() implies !(#[trigger] names[i]).contains(
        SEPARATOR,
    ) by {
        assert(told_by_name(nodes, chain[i]));
    }
    lemma_split_join(names, SEPARATOR);
    assert(is_first_match(nodes, store_order(nodes.len()), names[0], 0));
    lemma_first_match_found(nodes, store_order(nodes.len()), names[0], 0);
    assert forall|m: int| 0 < m < chain.len() implies chain[m] > 0 && told_by_name(
        nodes,
        #[trigger] chain[m],
    ) by {
        assert(nodes[chain[m] as int].parent == chain[m - 1]);
        assert(chain[m - 1] < nodes.len());
    }
    lemma_descend_along(nodes, chain, 0);
}

} // verus!
