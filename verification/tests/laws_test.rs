use mach_graph::{Handle, MachGraph, MachNode, Visitor};
use std::cell::RefCell;

/// Records the positions of the nodes that it is handed, in order.
#[derive(Default)]
struct Recorder {
    seen: Vec<u32>,
}

impl Visitor for Recorder {
    fn visit_mut(&mut self, node: &mut MachNode) {
        self.seen.push(node.index);
    }
}

/// Records positions although it is only ever allowed to look.
#[derive(Default)]
struct Watcher {
    seen: RefCell<Vec<u32>>,
}

impl Visitor for Watcher {
    fn visit(&self, node: &MachNode) {
        self.seen.borrow_mut().push(node.index);
    }
}

fn snowman() -> MachGraph {
    let mut graph = MachGraph::default();
    let body = graph.push_child("body");
    let base = graph.push_child_of("base", &body);
    graph.push_child_of("left", &base);
    graph.push_child_of("right", &base);
    let mid = graph.push_child_of("mid", &body);
    graph.push_child_of("bottom_button", &mid);
    graph.push_child_of("middle_button", &mid);
    graph.push_child_of("top_button", &mid);
    let top = graph.push_child_of("top", &body);
    graph.push_child_of("left", &top);
    graph.push_child_of("right", &top);
    graph.push_child("hat");
    let arms = graph.push_child("arms");
    graph.push_child_of("left", &arms);
    graph.push_child_of("right", &arms);
    graph
}

/// root -> {a -> {c -> {e}, d}, b}, appended level by level, so that the order of
/// the store differs from both walks.
fn staggered() -> MachGraph {
    let mut graph = MachGraph::new("staggered");
    let a = graph.push_child("a");
    let _b = graph.push_child("b");
    let c = graph.push_child_of("c", &a);
    let _d = graph.push_child_of("d", &a);
    let _e = graph.push_child_of("e", &c);
    graph
}

fn sorted(mut positions: Vec<u32>) -> Vec<u32> {
    positions.sort();
    positions
}

#[test]
fn fresh_graph_holds_one_parentless_root() {
    for graph in [MachGraph::default(), MachGraph::new("named"), MachGraph::new("")] {
        assert_eq!(graph.nodes.len(), 1);
        assert_eq!(graph.root.get_index(&graph), Some(0));
        let root = graph.get_root().expect("a new graph has a root");
        assert_eq!(root.index, 0);
        assert!(!root.has_parent());
        assert!(!root.has_children());
        assert!(!root.has_components());
        assert!(graph.get_parent(&graph.root).is_none());
    }
    assert_eq!(MachGraph::default().name, "default");
    assert_eq!(MachGraph::new("named").name, "named");
    assert_eq!(MachGraph::new("named").root.path, "root");
}

#[test]
fn root_children_are_listed_in_call_order() {
    let mut graph = MachGraph::default();
    let names = ["one", "two", "three", "two", "five"];
    let mut last = 0;
    for (i, name) in names.iter().enumerate() {
        let handle = graph.push_child(name);
        let position = handle.index.expect("the root resolves");
        assert!(position > last);
        assert_eq!(position as usize, i + 1);
        assert_eq!(graph.nodes[position as usize].index, position);
        assert_eq!(graph.nodes[position as usize].name, *name);
        assert_eq!(graph.nodes.len(), i + 2);
        last = position;
    }
    assert_eq!(graph.nodes.len(), names.len() + 1);
    assert_eq!(graph.nodes[0].children, vec![1, 2, 3, 4, 5]);
}

#[test]
fn appended_child_is_found_again() {
    let mut graph = snowman();
    for parent in [Handle::from(9), Handle::from("arms"), Handle::from("root.body.mid")] {
        let above = graph.get_node(&parent).expect("the parent resolves").index;
        let handle = graph.push_child_of("scarf", &parent);
        let position = handle.index.expect("the child has a position");
        let child = graph.get_node(&Handle::from(position)).expect("the child is stored");
        assert_eq!(child.parent, above);
        assert_eq!(child.name, "scarf");
        assert_eq!(child.index, position);
        assert_eq!(*graph.nodes[above as usize].children.last().unwrap(), position);
        assert_eq!(graph.get_parent(&handle).unwrap().index, above);
    }
    assert_eq!(graph.nodes.len(), 19);
}

#[test]
fn path_leads_back_to_every_node() {
    let graph = snowman();
    for position in 0..16u32 {
        let path = Handle::path(&graph, position).expect("every node of a tree has a path");
        assert_eq!(Handle::index(&graph, &path), Some(position), "{}", path);
    }
    assert_eq!(Handle::path(&graph, 0).unwrap(), "root");
    assert_eq!(Handle::path(&graph, 7).unwrap(), "root.body.mid.middle_button");
    assert_eq!(Handle::path(&graph, 12).unwrap(), "root.hat");
}

#[test]
fn path_need_not_lead_back_past_a_namesake() {
    // The second "twin" is hidden behind the first, and "echo" behind its parent.
    let mut graph = MachGraph::default();
    graph.push_child("twin");
    let second = graph.push_child("twin");
    let echo = graph.push_child("echo");
    let inner = graph.push_child_of("echo", &echo);
    assert_eq!(second.path, "root.twin");
    assert_eq!(Handle::index(&graph, &second.path), Some(1));
    assert_eq!(inner.path, "root.echo.echo");
    assert_eq!(Handle::index(&graph, &inner.path), Some(3));
    // A dot inside a name is read as a separator.
    let dotted = graph.push_child("a.b");
    assert_eq!(dotted.path, "root.a.b");
    assert_eq!(Handle::index(&graph, &dotted.path), None);
}

#[test]
fn every_walk_passes_every_node_once() {
    for mut graph in [MachGraph::default(), snowman(), staggered()] {
        let count = graph.nodes.len();
        let all: Vec<u32> = (0..count as u32).collect();

        let mut recorder = Recorder::default();
        graph.visit_all_mut(&mut recorder);
        assert_eq!(recorder.seen.len(), count);
        assert_eq!(recorder.seen, all);

        let mut recorder = Recorder::default();
        graph.pre_visit_mut(&mut recorder);
        assert_eq!(recorder.seen.len(), count);
        assert_eq!(sorted(recorder.seen), all);

        let mut recorder = Recorder::default();
        graph.post_visit_mut(&mut recorder);
        assert_eq!(recorder.seen.len(), count);
        assert_eq!(sorted(recorder.seen), all);

        let watcher = Watcher::default();
        graph.visit_all(&watcher);
        assert_eq!(watcher.seen.borrow().len(), count);
        assert_eq!(*watcher.seen.borrow(), all);

        let watcher = Watcher::default();
        graph.pre_visit(&watcher);
        assert_eq!(watcher.seen.borrow().len(), count);
        assert_eq!(sorted(watcher.seen.take()), all);

        let watcher = Watcher::default();
        graph.post_visit(&watcher);
        assert_eq!(watcher.seen.borrow().len(), count);
        assert_eq!(sorted(watcher.seen.take()), all);
    }
}

fn is_under(graph: &MachGraph, top: u32, mut q: u32) -> bool {
    loop {
        if q == top {
            return true;
        }
        if q == 0 {
            return false;
        }
        q = graph.nodes[q as usize].parent;
    }
}

#[test]
fn walks_order_ancestors_and_descendants() {
    for mut graph in [snowman(), staggered()] {
        let mut pre = Recorder::default();
        graph.pre_visit_mut(&mut pre);
        let mut post = Recorder::default();
        graph.post_visit_mut(&mut post);
        for (i, &a) in pre.seen.iter().enumerate() {
            for (j, &d) in pre.seen.iter().enumerate() {
                if i != j && is_under(&graph, a, d) {
                    assert!(i < j, "{} is passed before its descendant {}", a, d);
                }
            }
        }
        for (i, &a) in post.seen.iter().enumerate() {
            for (j, &d) in post.seen.iter().enumerate() {
                if i != j && is_under(&graph, a, d) {
                    assert!(j < i, "{} is passed after its descendant {}", a, d);
                }
            }
        }
    }
}

#[test]
fn walks_follow_the_listed_order_of_children() {
    let mut graph = staggered();
    let mut recorder = Recorder::default();
    graph.pre_visit_mut(&mut recorder);
    assert_eq!(recorder.seen, vec![0, 1, 3, 5, 4, 2]);

    let mut recorder = Recorder::default();
    graph.post_visit_mut(&mut recorder);
    assert_eq!(recorder.seen, vec![5, 3, 4, 1, 2, 0]);

    let watcher = Watcher::default();
    graph.pre_visit(&watcher);
    assert_eq!(watcher.seen.take(), vec![0, 1, 3, 5, 4, 2]);

    let watcher = Watcher::default();
    graph.post_visit(&watcher);
    assert_eq!(watcher.seen.take(), vec![5, 3, 4, 1, 2, 0]);

    let mut graph = snowman();
    let mut recorder = Recorder::default();
    graph.post_visit_mut(&mut recorder);
    assert_eq!(recorder.seen, vec![3, 4, 2, 6, 7, 8, 5, 10, 11, 9, 1, 12, 14, 15, 13, 0]);
}

#[test]
fn snowman_scenario() {
    let mut graph = snowman();
    assert_eq!(graph.nodes.len(), 16);

    let leaves = [
        ("left", 3),
        ("right", 4),
        ("bottom_button", 6),
        ("middle_button", 7),
        ("top_button", 8),
        ("hat", 12),
    ];
    for (name, position) in leaves {
        let node = graph.get_node(&Handle::from(name)).expect("a leaf is found by its name");
        assert_eq!(node.index, position);
        assert_eq!(node.name, name);
        assert!(!node.has_children());
    }
    assert_eq!(graph.get_node(&Handle::from("top.left")).unwrap().index, 10);
    assert_eq!(graph.get_node(&Handle::from("top.right")).unwrap().index, 11);
    assert_eq!(graph.get_node(&Handle::from("arms.left")).unwrap().index, 14);
    assert_eq!(graph.get_node(&Handle::from("arms.right")).unwrap().index, 15);

    let mut recorder = Recorder::default();
    graph.visit_all_mut(&mut recorder);
    assert_eq!(recorder.seen.len(), 16);
    let mut recorder = Recorder::default();
    graph.pre_visit_mut(&mut recorder);
    assert_eq!(recorder.seen.len(), 16);
    let mut recorder = Recorder::default();
    graph.post_visit_mut(&mut recorder);
    assert_eq!(recorder.seen.len(), 16);

    assert_eq!(Handle::path(&graph, 15).unwrap(), "root.arms.right");
}

#[test]
fn stale_handle_is_not_found() {
    let mut graph = snowman();
    for position in [16, 17, 1000, u32::MAX] {
        let stale = Handle::from(position);
        assert!(graph.get_node(&stale).is_none());
        assert!(graph.get_node_mut(&stale).is_none());
        assert!(graph.get_parent(&stale).is_none());
        assert!(Handle::path(&graph, position).is_none());
        graph.push_component(&stale, 1);
        let handle = graph.push_child_of("orphan", &stale);
        assert!(handle.index.is_none());
        assert_eq!(graph.nodes.len(), 16);
    }
    // A stale position wins over a path that would resolve.
    let stale = Handle::from(("root", 16));
    assert!(graph.get_node(&stale).is_none());
    assert!(graph.nodes.iter().all(|node| node.components.is_empty()));
    // The last position of the store is not stale.
    assert_eq!(graph.get_node(&Handle::from(15)).unwrap().index, 15);
}

#[test]
fn ambiguous_first_name_anchors_at_the_first_in_store_order() {
    let graph = snowman();
    // Three nodes are called "left": 3 under base, 10 under top, 14 under arms.
    assert_eq!(Handle::index(&graph, &String::from("left")), Some(3));
    assert_eq!(Handle::index(&graph, &String::from("right")), Some(4));

    // The anchor is picked before the rest of the path is looked at, so a path
    // that only fits a later namesake fails.
    let mut graph = MachGraph::default();
    let first = graph.push_child("pair");
    let second = graph.push_child("pair");
    graph.push_child_of("under_first", &first);
    graph.push_child_of("under_second", &second);
    assert_eq!(Handle::index(&graph, &String::from("pair")), Some(1));
    assert_eq!(Handle::index(&graph, &String::from("pair.under_first")), Some(3));
    assert_eq!(Handle::index(&graph, &String::from("pair.under_second")), None);
    assert_eq!(Handle::index(&graph, &String::from("root.pair")), Some(1));

    // Store order decides, not depth: a deeper node appended earlier wins.
    let mut graph = MachGraph::default();
    let a = graph.push_child("a");
    graph.push_child_of("same", &a);
    graph.push_child("same");
    assert_eq!(Handle::index(&graph, &String::from("same")), Some(2));
}

#[test]
fn children_first_is_parents_first_mirrored_and_reversed() {
    for graph in [MachGraph::default(), snowman(), staggered()] {
        let watcher = Watcher::default();
        graph.post_visit(&watcher);
        let children_first = watcher.seen.take();

        let mut mirror = graph;
        for node in mirror.nodes.iter_mut() {
            node.children.reverse();
        }
        let watcher = Watcher::default();
        mirror.pre_visit(&watcher);
        let mut parents_first = watcher.seen.take();
        parents_first.reverse();
        assert_eq!(children_first, parents_first);
    }
    let graph = staggered();
    let watcher = Watcher::default();
    graph.post_visit(&watcher);
    assert_eq!(watcher.seen.take(), vec![5, 3, 4, 1, 2, 0]);
}
