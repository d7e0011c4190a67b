use mach_graph::text::split_path;
use mach_graph::{Handle, MachGraph, MachNode};

fn family() -> MachGraph {
    // root -> {ann -> {bob, cy}, dee}
    let mut graph = MachGraph::default();
    let ann = graph.push_child("ann");
    graph.push_child_of("bob", &ann);
    graph.push_child_of("cy", &ann);
    graph.push_child("dee");
    graph
}

fn resolve(graph: &MachGraph, path: &str) -> Option<u32> {
    Handle::index(graph, &String::from(path))
}

#[test]
fn split_path_cuts_at_every_dot() {
    assert_eq!(split_path("root.arms.right"), vec!["root", "arms", "right"]);
    assert_eq!(split_path("single"), vec!["single"]);
    assert_eq!(split_path(""), vec![""]);
    assert_eq!(split_path("."), vec!["", ""]);
    assert_eq!(split_path("a..b"), vec!["a", "", "b"]);
    assert_eq!(split_path(".a"), vec!["", "a"]);
    assert_eq!(split_path("a."), vec!["a", ""]);
    assert_eq!(split_path("..."), vec!["", "", "", ""]);
    assert_eq!(split_path("caf\u{e9}.\u{fc}ber.\u{1f600}"), vec!["caf\u{e9}", "\u{fc}ber", "\u{1f600}"]);
    assert_eq!(split_path("a b.c,d"), vec!["a b", "c,d"]);
}

#[test]
fn path_is_followed_child_by_child() {
    let graph = family();
    assert_eq!(resolve(&graph, "root"), Some(0));
    assert_eq!(resolve(&graph, "root.ann"), Some(1));
    assert_eq!(resolve(&graph, "root.ann.bob"), Some(2));
    assert_eq!(resolve(&graph, "root.ann.cy"), Some(3));
    assert_eq!(resolve(&graph, "root.dee"), Some(4));
    assert_eq!(resolve(&graph, "ann.cy"), Some(3));
    assert_eq!(resolve(&graph, "cy"), Some(3));
}

#[test]
fn path_that_leads_nowhere_is_not_found() {
    let graph = family();
    assert_eq!(resolve(&graph, "nobody"), None);
    assert_eq!(resolve(&graph, "root.nobody"), None);
    assert_eq!(resolve(&graph, "root.ann.nobody"), None);
    // Only direct children are searched.
    assert_eq!(resolve(&graph, "root.bob"), None);
    // There is no way up.
    assert_eq!(resolve(&graph, "bob.ann"), None);
    // A failure part of the way gives nothing, not the node reached so far.
    assert_eq!(resolve(&graph, "root.ann.bob.nobody"), None);
    assert_eq!(resolve(&graph, ""), None);
    assert_eq!(resolve(&graph, "."), None);
    assert_eq!(resolve(&graph, "root."), None);
    assert_eq!(resolve(&graph, ".root"), None);
    assert_eq!(resolve(&graph, "root..ann"), None);
    assert_eq!(resolve(&graph, "Root"), None);
    assert_eq!(resolve(&graph, "root .ann"), None);
}

#[test]
fn repeated_name_stays_at_the_same_node() {
    let graph = family();
    assert_eq!(resolve(&graph, "root.root"), Some(0));
    assert_eq!(resolve(&graph, "root.root.root.ann"), Some(1));
    assert_eq!(resolve(&graph, "ann.ann.bob.bob"), Some(2));
}

#[test]
fn empty_name_is_a_name() {
    let mut graph = family();
    let blank = graph.push_child("");
    assert_eq!(blank.index, Some(5));
    assert_eq!(blank.path, "root.");
    assert_eq!(resolve(&graph, ""), Some(5));
    assert_eq!(resolve(&graph, "root."), Some(5));
    assert_eq!(resolve(&graph, "."), Some(5));
    graph.push_child_of("below", &blank);
    assert_eq!(resolve(&graph, "root..below"), Some(6));
    assert_eq!(resolve(&graph, ".below"), Some(6));
}

#[test]
fn handle_resolves_without_changing() {
    let graph = family();
    let by_path = Handle::from("ann.bob");
    assert!(!by_path.has_index());
    assert_eq!(by_path.get_index(&graph), Some(2));
    assert_eq!(by_path.get_index(&graph), Some(2));
    assert!(by_path.index.is_none());
    assert_eq!(by_path.path, "ann.bob");

    let by_position = Handle::from(3);
    assert!(by_position.has_index());
    assert_eq!(by_position.get_index(&graph), Some(3));
    assert_eq!(by_position.path, "undefined");

    // A carried position is trusted, whatever the path says and wherever it points.
    let both = Handle::from(("ann.bob", 4));
    assert_eq!(both.get_index(&graph), Some(4));
    assert_eq!(graph.get_node(&both).unwrap().name, "dee");
    assert_eq!(Handle::from(("nobody", 1)).get_index(&graph), Some(1));
    assert_eq!(Handle::from(77).get_index(&graph), Some(77));
    assert_eq!(Handle::from("nobody").get_index(&graph), None);
}

#[test]
fn set_index_keeps_what_the_handle_names() {
    let graph = family();
    let mut handle = Handle::from("root.ann.cy");
    handle.set_index(&graph);
    assert_eq!(handle.index, Some(3));
    assert_eq!(handle.path, "root.ann.cy");
    handle.set_index(&graph);
    assert_eq!(handle.index, Some(3));

    let mut lost = Handle::from("root.ann.nobody");
    lost.set_index(&graph);
    assert_eq!(lost.index, None);
    assert_eq!(lost.path, "root.ann.nobody");

    // A position that the handle carries is kept, whatever its path says.
    let mut both = Handle::from(("dee", 1));
    both.set_index(&graph);
    assert_eq!(both.index, Some(1));
    assert_eq!(both.path, "dee");
    let mut bare = Handle::from(2);
    bare.set_index(&graph);
    assert_eq!(bare.index, Some(2));
    bare.set_index(&graph);
    assert_eq!(bare.index, Some(2));
    assert_eq!(bare.path, "undefined");

    let fresh = MachGraph::default();
    let mut root = Handle::from(0);
    root.set_index(&fresh);
    assert_eq!(root.index, Some(0));
    root.set_index(&fresh);
    assert_eq!(root.index, Some(0));
    let mut stale = Handle::from(9);
    stale.set_index(&fresh);
    assert_eq!(stale.index, Some(9));
}

#[test]
fn set_path_writes_the_path_from_the_root() {
    let graph = family();
    let mut handle = Handle::from(3);
    handle.set_path(&graph);
    assert_eq!(handle.path, "root.ann.cy");
    assert_eq!(handle.index, Some(3));

    let mut short = Handle::from(("cy", 3));
    short.set_path(&graph);
    assert_eq!(short.path, "root.ann.cy");

    let mut root = Handle::from(0);
    root.set_path(&graph);
    assert_eq!(root.path, "root");

    let mut by_path = Handle::from("ann.cy");
    by_path.set_path(&graph);
    assert_eq!(by_path.path, "ann.cy");
    assert_eq!(by_path.index, None);

    let mut stale = Handle::from(("kept", 5));
    stale.set_path(&graph);
    assert_eq!(stale.path, "kept");
    assert_eq!(stale.index, Some(5));
}

#[test]
fn handle_is_made_from_path_position_or_both() {
    let owned = Handle::from(String::from("a.b"));
    assert_eq!(owned.path, "a.b");
    assert_eq!(owned.index, None);

    let pair = Handle::from((String::from("a.b"), 7));
    assert_eq!(pair.path, "a.b");
    assert_eq!(pair.index, Some(7));

    let copy = pair.clone();
    assert_eq!(copy.path, "a.b");
    assert_eq!(copy.index, Some(7));

    let zero = Handle::from(0);
    assert_eq!(zero.index, Some(0));
    assert!(zero.has_index());
    let top = Handle::from(u32::MAX);
    assert_eq!(top.index, Some(u32::MAX));
}

#[test]
fn lookup_lends_the_node_itself() {
    let mut graph = family();
    {
        let node = graph.get_node_mut(&Handle::from("bob")).expect("bob is there");
        node.name.push_str("by");
        node.components.push(5);
    }
    assert_eq!(graph.nodes[2].name, "bobby");
    assert_eq!(graph.nodes[2].components, vec![5]);
    assert!(graph.get_node(&Handle::from("bob")).is_none());
    assert_eq!(graph.get_node(&Handle::from("ann.bobby")).unwrap().index, 2);

    graph.get_root_mut().expect("the root is there").components.push(8);
    assert_eq!(graph.get_root().unwrap().components, vec![8]);
    assert_eq!(graph.nodes.len(), 5);
}

#[test]
fn root_handle_decides_what_the_root_is() {
    let mut graph = family();
    graph.root = Handle::from("ann");
    assert_eq!(graph.get_root().unwrap().index, 1);
    let handle = graph.push_child("eve");
    assert_eq!(handle.index, Some(5));
    assert_eq!(graph.nodes[5].parent, 1);
    assert_eq!(graph.nodes[1].children, vec![2, 3, 5]);
    assert_eq!(handle.path, "root.ann.eve");

    graph.root = Handle::from("nobody");
    assert!(graph.get_root().is_none());
    assert!(graph.get_root_mut().is_none());
    let unresolved = graph.push_child("fay");
    assert_eq!(unresolved.index, None);
    assert_eq!(unresolved.path, "root");
    assert_eq!(graph.nodes.len(), 6);

    graph.root = Handle::from(40);
    assert!(graph.get_root().is_none());
}

#[test]
fn parent_is_looked_up_by_position() {
    let graph = family();
    assert!(graph.get_parent(&Handle::from("root")).is_none());
    assert!(graph.get_parent(&Handle::from(0)).is_none());
    assert_eq!(graph.get_parent(&Handle::from("ann")).unwrap().index, 0);
    assert_eq!(graph.get_parent(&Handle::from("root.ann.bob")).unwrap().index, 1);
    assert_eq!(graph.get_parent(&Handle::from(3)).unwrap().name, "ann");
    assert_eq!(graph.get_parent(&Handle::from(4)).unwrap().name, "root");
    assert!(graph.get_parent(&Handle::from("nobody")).is_none());
    assert!(graph.get_parent(&Handle::from(5)).is_none());
}

#[test]
fn unresolved_parent_leaves_the_graph_alone() {
    let mut graph = family();
    let handle = graph.push_child_of("lost", &Handle::from("nobody"));
    assert_eq!(handle.index, None);
    assert_eq!(handle.path, "root");
    assert!(!handle.has_index());
    assert_eq!(graph.nodes.len(), 5);
    assert_eq!(graph.nodes[0].children, vec![1, 4]);

    let handle = graph.push_child_of("lost", &Handle::from(5));
    assert_eq!(handle.index, None);
    assert_eq!(graph.nodes.len(), 5);
}

#[test]
fn components_are_kept_in_order() {
    let mut graph = family();
    let bob = Handle::from("root.ann.bob");
    graph.push_component(&bob, 30);
    graph.push_component(&bob, 10);
    graph.push_component(&bob, 30);
    graph.push_component(&Handle::from(2), 0);
    graph.push_component(&Handle::from(4), u32::MAX);
    graph.push_component(&Handle::from("nobody"), 1);
    graph.push_component(&Handle::from(5), 1);
    assert_eq!(graph.nodes[2].components, vec![30, 10, 30, 0]);
    assert_eq!(graph.nodes[4].components, vec![u32::MAX]);
    assert!(graph.nodes[2].has_components());
    assert!(!graph.nodes[1].has_components());
    for position in [0, 1, 3] {
        assert!(graph.nodes[position].components.is_empty());
    }
    assert_eq!(graph.nodes.len(), 5);

    let mut node = MachNode::new(String::from("alone"));
    node.push_component(4);
    node.push_component(4);
    assert_eq!(node.components, vec![4, 4]);
}

#[test]
fn raw_push_assigns_the_position_and_nothing_else() {
    let mut graph = family();
    let mut node = MachNode::from((String::from("loose"), 1));
    node.index = 99;
    node.children.push(2);
    node.components.push(7);
    let position = graph.push(node);
    assert_eq!(position, 5);
    assert_eq!(graph.nodes.len(), 6);
    assert_eq!(graph.nodes[5].index, 5);
    assert_eq!(graph.nodes[5].parent, 1);
    assert_eq!(graph.nodes[5].name, "loose");
    assert_eq!(graph.nodes[5].children, vec![2]);
    assert_eq!(graph.nodes[5].components, vec![7]);
    // The parent that the node names does not list it.
    assert_eq!(graph.nodes[1].children, vec![2, 3]);
    assert_eq!(graph.push(MachNode::default()), 6);
    assert_eq!(graph.nodes[6].index, 6);
    assert_eq!(graph.nodes[6].parent, 0);
}

#[test]
fn node_is_made_detached() {
    let root = MachNode::default();
    assert_eq!(root.name, "root");
    assert_eq!((root.parent, root.index), (0, 0));
    assert!(root.children.is_empty() && root.components.is_empty());
    assert!(!root.has_parent() && !root.has_children() && !root.has_components());

    let named = MachNode::new(String::from("leaf"));
    assert_eq!(named.name, "leaf");
    assert_eq!((named.parent, named.index), (0, 0));
    assert!(!named.has_parent());

    let mut child = MachNode::from((String::from("kid"), 3));
    assert_eq!(child.name, "kid");
    assert_eq!((child.parent, child.index), (3, 0));
    assert!(child.has_parent());
    child.index = 3;
    assert!(!child.has_parent());
    child.children.push(9);
    assert!(child.has_children());
}

#[test]
fn path_of_a_broken_chain_is_absent() {
    // A parent beyond the store.
    let mut graph = family();
    graph.push(MachNode::from((String::from("dangling"), 40)));
    assert_eq!(Handle::path(&graph, 5), None);
    let mut handle = Handle::from(5);
    handle.set_path(&graph);
    assert_eq!(handle.path, "undefined");

    // Parents that lead in a circle.
    let mut graph = family();
    graph.nodes[1].parent = 2;
    assert_eq!(Handle::path(&graph, 1), None);
    assert_eq!(Handle::path(&graph, 2), None);
    assert_eq!(Handle::path(&graph, 3), None);
    assert_eq!(Handle::path(&graph, 4).unwrap(), "root.dee");

    // The longest chain that a store can hold is still followed to its end.
    let mut graph = MachGraph::default();
    let mut last = graph.root.clone();
    for _ in 0..20 {
        last = graph.push_child_of("n", &last);
    }
    let expected = format!("root{}", ".n".repeat(20));
    assert_eq!(Handle::path(&graph, 20).unwrap(), expected);
    assert_eq!(last.path, expected);
}

#[test]
fn lookup_goes_by_the_position_that_a_node_records() {
    // After a raw edit, a node found by name is looked up where it says it is.
    let mut graph = family();
    graph.nodes[3].index = 4;
    assert_eq!(Handle::index(&graph, &String::from("cy")), Some(4));
    assert_eq!(graph.get_node(&Handle::from("cy")).unwrap().name, "dee");
    graph.nodes[3].index = 50;
    assert_eq!(Handle::index(&graph, &String::from("cy")), Some(50));
    assert!(graph.get_node(&Handle::from("cy")).is_none());
}
