use crate::model::{
    is_tree, mirrored, under, walk, walk_above, walk_below, NodeModel, Order,
};
use vstd::prelude::*;
use vstd::seq_lib::{
    lemma_no_dup_in_concat, lemma_seq_concat_contains_all_elements, lemma_seq_contains_after_push,
};

verus! {

/// The node at `q` is one of the first `k` children of the node at `at`, or a
/// descendant of one of them.
pub open spec fn under_child(nodes: Seq<NodeModel>, at: nat, k: nat, q: nat) -> bool {
    exists|j: int|
        0 <= j < k && j < nodes[at as int].children.len() && under(
            nodes,
            #[trigger] nodes[at as int].children[j],
            q,
        )
}

/// A walk passes only positions of the store, none of them before its start.
pub proof fn lemma_walk_bounds(nodes: Seq<NodeModel>, at: nat, order: Order)
    ensures
        forall|i: int|
            0 <= i < walk(nodes, at, order).len() ==> at <= (#[trigger] walk(nodes, at, order)[i])
                < nodes.len(),
    decreases nodes.len() - at, nodes[at as int].children.len() + 1,
{
    if at < nodes.len() {
        let below = walk_below(nodes, at, nodes[at as int].children.len(), order);
        lemma_walk_below_bounds(nodes, at, nodes[at as int].children.len(), order);
        assert forall|i: int| 0 <= i < walk(nodes, at, order).len() implies at <= (#[trigger] walk(
            nodes,
            at,
            order,
        )[i]) < nodes.len() by {
            match order {
                Order::Pre => {
                    if i > 0 {
                        assert(walk(nodes, at, order)[i] == below[i - 1]);
                    }
                },
                Order::Post => {
                    if i < below.len() {
                        assert(walk(nodes, at, order)[i] == below[i]);
                    }
                },
            }
        }
    }
}

/// The walks from the children of a node pass only positions after that node.
pub proof fn lemma_walk_below_bounds(nodes: Seq<NodeModel>, at: nat, k: nat, order: Order)
    ensures
        forall|i: int|
            0 <= i < walk_below(nodes, at, k, order).len() ==> at < (#[trigger] walk_below(
                nodes,
                at,
                k,
                order,
            )[i]) < nodes.len(),
    decreases nodes.len() - at, k,
{
    if at < nodes.len() && 0 < k <= nodes[at as int].children.len() {
        let child = nodes[at as int].children[k - 1];
        let earlier = walk_below(nodes, at, (k - 1) as nat, order);
        lemma_walk_below_bounds(nodes, at, (k - 1) as nat, order);
        if at < child < nodes.len() {
            lemma_walk_bounds(nodes, child, order);
            assert forall|i: int| 0 <= i < walk_below(nodes, at, k, order).len() implies at < (
            #[trigger] walk_below(nodes, at, k, order)[i]) < nodes.len() by {
                if i < earlier.len() {
                    assert(walk_below(nodes, at, k, order)[i] == earlier[i]);
                } else {
                    assert(walk_below(nodes, at, k, order)[i] == walk(nodes, child, order)[i
                        - earlier.len()]);
                }
            }
        }
    }
}

/// A descendant never comes before its ancestor, and lies in the store if the
/// ancestor does.
pub proof fn lemma_under_bounds(nodes: Seq<NodeModel>, top: nat, q: nat)
    requires
        under(nodes, top, q),
    ensures
        top <= q,
        top < nodes.len() ==> q < nodes.len(),
    decreases q,
{
    if q != top {
        lemma_under_bounds(nodes, top, nodes[q as int].parent);
    }
}

/// A descendant of a descendant is a descendant.
pub proof fn lemma_under_transitive(nodes: Seq<NodeModel>, x: nat, y: nat, z: nat)
    requires
        under(nodes, x, y),
        under(nodes, y, z),
    ensures
        under(nodes, x, z),
    decreases z,
{
    if z != y && z != x {
        lemma_under_transitive(nodes, x, y, nodes[z as int].parent);
    }
}

/// In a tree every node is the root or one of its descendants.
pub proof fn lemma_under_root(nodes: Seq<NodeModel>, q: nat)
    requires
        is_tree(nodes),
        q < nodes.len(),
    ensures
        under(nodes, 0, q),
    decreases q,
{
    if q != 0 {
        lemma_under_root(nodes, nodes[q as int].parent);
    }
}

/// What lies under a child of a node lies under that node.
pub proof fn lemma_under_child_is_under(nodes: Seq<NodeModel>, at: nat, k: nat, q: nat)
    requires
        is_tree(nodes),
        at < nodes.len(),
        under_child(nodes, at, k, q),
    ensures
        under(nodes, at, q),
        q != at,
{
    let j = choose|j: int|
        0 <= j < k && j < nodes[at as int].children.len() && under(
            nodes,
            #[trigger] nodes[at as int].children[j],
            q,
        );
    let child = nodes[at as int].children[j];
    assert(under(nodes, at, at));
    assert(under(nodes, at, child));
    lemma_under_transitive(nodes, at, child, q);
    lemma_under_bounds(nodes, child, q);
}

/// A proper descendant of a node lies under one of its children.
pub proof fn lemma_under_some_child(nodes: Seq<NodeModel>, at: nat, q: nat)
    requires
        is_tree(nodes),
        at < nodes.len(),
        under(nodes, at, q),
        q != at,
    ensures
        under_child(nodes, at, nodes[at as int].children.len(), q),
    decreases q,
{
    let above = nodes[q as int].parent;
    if above == at {
        assert(nodes[at as int].children.contains(q));
        let j = choose|j: int| 0 <= j < nodes[at as int].children.len() && nodes[at as int].children[j] == q;
        assert(under(nodes, nodes[at as int].children[j], q));
    } else {
        lemma_under_some_child(nodes, at, above);
        let j = choose|j: int|
            0 <= j < nodes[at as int].children.len() && under(
                nodes,
                #[trigger] nodes[at as int].children[j],
                above,
            );
        let child = nodes[at as int].children[j];
        assert(nodes[child as int].parent == at);
        assert(under(nodes, child, q));
    }
}

/// No node lies under two children of one node.
pub proof fn lemma_siblings_apart(nodes: Seq<NodeModel>, at: nat, i: int, j: int, q: nat)
    requires
        is_tree(nodes),
        at < nodes.len(),
        0 <= i < nodes[at as int].children.len(),
        0 <= j < nodes[at as int].children.len(),
        i != j,
        under(nodes, nodes[at as int].children[i], q),
    ensures
        !under(nodes, nodes[at as int].children[j], q),
    decreases q,
{
    let a = nodes[at as int].children[i];
    let b = nodes[at as int].children[j];
    assert(a != b) by {
        if i < j {
            assert(nodes[at as int].children[i] < nodes[at as int].children[j]);
        } else {
            assert(nodes[at as int].children[j] < nodes[at as int].children[i]);
        }
    }
    assert(nodes[a as int].parent == at);
    assert(nodes[b as int].parent == at);
    if under(nodes, b, q) {
        if q == a {
            lemma_under_bounds(nodes, b, at);
        } else if q == b {
            lemma_under_bounds(nodes, a, at);
        } else {
            lemma_siblings_apart(nodes, at, i, j, nodes[q as int].parent);
        }
    }
}

/// In a tree, a walk from a node passes exactly that node and its descendants.
pub proof fn lemma_walk_members(nodes: Seq<NodeModel>, at: nat, order: Order)
    requires
        is_tree(nodes),
        at < nodes.len(),
    ensures
        forall|q: nat| #[trigger]
            walk(nodes, at, order).contains(q) <==> q < nodes.len() && under(nodes, at, q),
    decreases nodes.len() - at, nodes[at as int].children.len() + 1,
{
    let count = nodes[at as int].children.len();
    let below = walk_below(nodes, at, count, order);
    lemma_walk_below_members(nodes, at, count, order);
    assert forall|q: nat| #[trigger]
        walk(nodes, at, order).contains(q) <==> q < nodes.len() && under(nodes, at, q) by {
        match order {
            Order::Pre => {
                lemma_seq_concat_contains_all_elements(seq![at], below, q);
                assert(seq![at].contains(q) <==> q == at) by {
                    if q == at {
                        assert(seq![at][0] == q);
                    }
                }
            },
            Order::Post => {
                lemma_seq_contains_after_push(below, at, q);
            },
        }
        if below.contains(q) {
            lemma_under_child_is_under(nodes, at, count, q);
        }
        if q < nodes.len() && under(nodes, at, q) && q != at {
            lemma_under_some_child(nodes, at, q);
        }
    }
}

/// In a tree, the walks from the first `k` children of a node pass exactly those
/// children and their descendants.
pub proof fn lemma_walk_below_members(nodes: Seq<NodeModel>, at: nat, k: nat, order: Order)
    requires
        is_tree(nodes),
        at < nodes.len(),
        k <= nodes[at as int].children.len(),
    ensures
        forall|q: nat| #[trigger]
            walk_below(nodes, at, k, order).contains(q) <==> q < nodes.len() && under_child(
                nodes,
                at,
                k,
                q,
            ),
    decreases nodes.len() - at, k,
{
    if k > 0 {
        let child = nodes[at as int].children[k - 1];
        let earlier = walk_below(nodes, at, (k - 1) as nat, order);
        lemma_walk_below_members(nodes, at, (k - 1) as nat, order);
        lemma_walk_members(nodes, child, order);
        assert forall|q: nat| #[trigger]
            walk_below(nodes, at, k, order).contains(q) <==> q < nodes.len() && under_child(
                nodes,
                at,
                k,
                q,
            ) by {
            lemma_seq_concat_contains_all_elements(earlier, walk(nodes, child, order), q);
            if earlier.contains(q) {
                let j = choose|j: int|
                    0 <= j < k - 1 && j < nodes[at as int].children.len() && under(
                        nodes,
                        #[trigger] nodes[at as int].children[j],
                        q,
                    );
                assert(under(nodes, nodes[at as int].children[j], q));
            }
            if walk(nodes, child, order).contains(q) {
                assert(under(nodes, nodes[at as int].children[k - 1], q));
            }
            if q < nodes.len() && under_child(nodes, at, k, q) {
                let j = choose|j: int|
                    0 <= j < k && j < nodes[at as int].children.len() && under(
                        nodes,
                        #[trigger] nodes[at as int].children[j],
                        q,
                    );
                if j < k - 1 {
                    assert(under_child(nodes, at, (k - 1) as nat, q));
                }
            }
        }
    }
}

/// In a tree, a walk passes no position twice.
pub proof fn lemma_walk_distinct(nodes: Seq<NodeModel>, at: nat, order: Order)
    requires
        is_tree(nodes),
        at < nodes.len(),
    ensures
        walk(nodes, at, order).no_duplicates(),
    decreases nodes.len() - at, nodes[at as int].children.len() + 1,
{
    let count = nodes[at as int].children.len();
    let below = walk_below(nodes, at, count, order);
    lemma_walk_below_distinct(nodes, at, count, order);
    lemma_walk_below_bounds(nodes, at, count, order);
    match order {
        Order::Pre => {
            lemma_no_dup_in_concat(seq![at], below);
        },
        Order::Post => {
            lemma_no_dup_in_concat(below, seq![at]);
            assert(below.push(at) =~= below + seq![at]);
        },
    }
}

/// In a tree, the walks from the children of a node pass no position twice.
pub proof fn lemma_walk_below_distinct(nodes: Seq<NodeModel>, at: nat, k: nat, order: Order)
    requires
        is_tree(nodes),
        at < nodes.len(),
        k <= nodes[at as int].children.len(),
    ensures
        walk_below(nodes, at, k, order).no_duplicates(),
    decreases nodes.len() - at, k,
{
    if k > 0 {
        let child = nodes[at as int].children[k - 1];
        let earlier = walk_below(nodes, at, (k - 1) as nat, order);
        let last = walk(nodes, child, order);
        lemma_walk_below_distinct(nodes, at, (k - 1) as nat, order);
        lemma_walk_distinct(nodes, child, order);
        lemma_walk_below_members(nodes, at, (k - 1) as nat, order);
        lemma_walk_members(nodes, child, order);
        assert forall|i: int, j: int| 0 <= i < earlier.len() && 0 <= j < last.len() implies earlier[i]
            != last[j] by {
            let q = earlier[i];
            if q == last[j] {
                assert(earlier.contains(q));
                assert(last.contains(q));
                let m = choose|m: int|
                    0 <= m < k - 1 && m < nodes[at as int].children.len() && under(
                        nodes,
                        #[trigger] nodes[at as int].children[m],
                        q,
                    );
                lemma_siblings_apart(nodes, at, m, k - 1, q);
            }
        }
        lemma_no_dup_in_concat(earlier, last);
    }
}

/// The positions below `n` are `n` in number.
pub proof fn lemma_positions_count(n: nat)
    ensures
        Set::new(|q: nat| q < n).finite(),
        Set::new(|q: nat| q < n).len() == n,
    decreases n,
{
    if n == 0 {
        assert(Set::new(|q: nat| q < n) =~= Set::<nat>::empty());
    } else {
        lemma_positions_count((n - 1) as nat);
        assert(Set::new(|q: nat| q < (n - 1) as nat).insert((n - 1) as nat) =~= Set::new(
            |q: nat| q < n,
        ));
    }
}

/// In a tree, an ancestor and a descendant that a walk passes are passed in the
/// order that the kind of walk dictates: the ancestor first before the children,
/// last after them.
pub proof fn lemma_walk_sequence(nodes: Seq<NodeModel>, at: nat, order: Order, i: int, j: int)
    requires
        is_tree(nodes),
        at < nodes.len(),
        0 <= i < walk(nodes, at, order).len(),
        0 <= j < walk(nodes, at, order).len(),
        i != j,
        under(nodes, walk(nodes, at, order)[i], walk(nodes, at, order)[j]),
    ensures
        order is Pre ==> i < j,
        order is Post ==> j < i,
    decreases nodes.len() - at, nodes[at as int].children.len() + 1,
{
    let count = nodes[at as int].children.len();
    let passed = walk(nodes, at, order);
    let below = walk_below(nodes, at, count, order);
    lemma_walk_distinct(nodes, at, order);
    lemma_walk_bounds(nodes, at, order);
    lemma_under_bounds(nodes, passed[i], passed[j]);
    match order {
        Order::Pre => {
            if i != 0 && j != 0 {
                assert(passed[i] == below[i - 1]);
                assert(passed[j] == below[j - 1]);
                lemma_walk_below_sequence(nodes, at, count, order, i - 1, j - 1);
            }
        },
        Order::Post => {
            if i != below.len() && j != below.len() {
                lemma_walk_below_sequence(nodes, at, count, order, i, j);
            }
        },
    }
}

/// The same, for what the walks from the first `k` children of a node pass.
pub proof fn lemma_walk_below_sequence(
    nodes: Seq<NodeModel>,
    at: nat,
    k: nat,
    order: Order,
    i: int,
    j: int,
)
    requires
        is_tree(nodes),
        at < nodes.len(),
        k <= nodes[at as int].children.len(),
        0 <= i < walk_below(nodes, at, k, order).len(),
        0 <= j < walk_below(nodes, at, k, order).len(),
        i != j,
        under(nodes, walk_below(nodes, at, k, order)[i], walk_below(nodes, at, k, order)[j]),
    ensures
        order is Pre ==> i < j,
        order is Post ==> j < i,
    decreases nodes.len() - at, k,
{
    let child = nodes[at as int].children[k - 1];
    let earlier = walk_below(nodes, at, (k - 1) as nat, order);
    let last = walk(nodes, child, order);
    let passed = walk_below(nodes, at, k, order);
    let split = earlier.len() as int;
    lemma_walk_below_members(nodes, at, (k - 1) as nat, order);
    lemma_walk_members(nodes, child, order);
    if i < split && j < split {
        lemma_walk_below_sequence(nodes, at, (k - 1) as nat, order, i, j);
    } else if i >= split && j >= split {
        assert(passed[i] == last[i - split]);
        assert(passed[j] == last[j - split]);
        lemma_walk_sequence(nodes, child, order, i - split, j - split);
    } else {
        // One lies under the last child and the other under an earlier one, so
        // neither can lie under the other.
        let high = if i < split { passed[j] } else { passed[i] };
        let low = if i < split { passed[i] } else { passed[j] };
        assert(earlier.contains(low));
        assert(last.contains(high)) by {
            if i < split {
                assert(last[j - split] == high);
            } else {
                assert(last[i - split] == high);
            }
        }
        let m = choose|m: int|
            0 <= m < k - 1 && m < nodes[at as int].children.len() && under(
                nodes,
                #[trigger] nodes[at as int].children[m],
                low,
            );
        if i < split {
            lemma_under_transitive(nodes, nodes[at as int].children[m], low, high);
            lemma_siblings_apart(nodes, at, m, k - 1, high);
        } else {
            lemma_under_transitive(nodes, child, high, low);
            lemma_siblings_apart(nodes, at, m, k - 1, low);
        }
    }
}

/// The walks from the first `k` children of a node, followed by the walks from the
/// others, are the walks from all of them.
pub proof fn lemma_walk_below_and_above(nodes: Seq<NodeModel>, at: nat, k: nat, order: Order)
    requires
        at < nodes.len(),
        k <= nodes[at as int].children.len(),
    ensures
        walk_below(nodes, at, k, order) + walk_above(nodes, at, k, order) == walk_below(
            nodes,
            at,
            nodes[at as int].children.len(),
            order,
        ),
    decreases nodes[at as int].children.len() - k,
{
    let count = nodes[at as int].children.len();
    if k == count {
        assert(walk_below(nodes, at, k, order) + Seq::<nat>::empty() =~= walk_below(
            nodes,
            at,
            k,
            order,
        ));
    } else {
        lemma_walk_below_and_above(nodes, at, k + 1, order);
        let child = nodes[at as int].children[k as int];
        let earlier = walk_below(nodes, at, k, order);
        let later = walk_above(nodes, at, k + 1, order);
        if at < child < nodes.len() {
            assert((earlier + walk(nodes, child, order)) + later =~= earlier + (walk(
                nodes,
                child,
                order,
            ) + later));
        }
    }
}

/// A walk that visits children first passes the nodes in the opposite order of the
/// walk that visits parents first and takes the children of every node from the
/// last to the first.
pub proof fn lemma_walk_mirrored(nodes: Seq<NodeModel>, at: nat)
    ensures
        walk(nodes, at, Order::Post) == walk(mirrored(nodes), at, Order::Pre).reverse(),
    decreases nodes.len() - at, nodes[at as int].children.len() + 1,
{
    let turned = mirrored(nodes);
    if at < nodes.len() {
        let count = nodes[at as int].children.len();
        assert(turned[at as int].children.len() == count);
        lemma_walk_below_mirrored(nodes, at, count);
        lemma_walk_below_and_above(nodes, at, 0, Order::Post);
        let below = walk_below(turned, at, count, Order::Pre);
        assert(Seq::<nat>::empty() + walk_above(nodes, at, 0, Order::Post) =~= walk_above(
            nodes,
            at,
            0,
            Order::Post,
        ));
        assert((seq![at] + below).reverse() =~= below.reverse().push(at));
    } else {
        assert(Seq::<nat>::empty().reverse() =~= Seq::<nat>::empty());
    }
}

/// The same, for what the walks from the children of a node pass: the first `k`
/// children of the mirrored node are the last `k` children of the node itself.
pub proof fn lemma_walk_below_mirrored(nodes: Seq<NodeModel>, at: nat, k: nat)
    requires
        at < nodes.len(),
        k <= nodes[at as int].children.len(),
    ensures
        walk_below(mirrored(nodes), at, k, Order::Pre).reverse() == walk_above(
            nodes,
            at,
            (nodes[at as int].children.len() - k) as nat,
            Order::Post,
        ),
    decreases nodes.len() - at, k,
{
    let turned = mirrored(nodes);
    let count = nodes[at as int].children.len();
    assert(turned[at as int].children.len() == count);
    if k == 0 {
        assert(Seq::<nat>::empty().reverse() =~= Seq::<nat>::empty());
    } else {
        let child = turned[at as int].children[k - 1];
        assert(child == nodes[at as int].children[count - k]);
        lemma_walk_below_mirrored(nodes, at, (k - 1) as nat);
        let earlier = walk_below(turned, at, (k - 1) as nat, Order::Pre);
        if at < child < nodes.len() {
            lemma_walk_mirrored(nodes, child);
            let last = walk(turned, child, Order::Pre);
            assert((earlier + last).reverse() =~= last.reverse() + earlier.reverse());
        }
    }
}

} // verus!
