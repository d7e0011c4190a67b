use mach_graph::{MachGraph, MachNode, Visitor};

#[derive(Default)]
struct TestVisitor {
    pub path: Vec<String>,
}

impl Visitor for TestVisitor {
    fn visit_mut(&mut self, node: &mut MachNode) {
        self.path.push(node.name.clone());
    }
}

fn snowman() -> MachGraph {
    let mut graph = MachGraph::default();
    let body = graph.push_child("body");
    {
        let base = graph.push_child_of("base", &body);
        {
            let _left_foot = graph.push_child_of("left", &base);
            let _right_foot = graph.push_child_of("right", &base);
        }
        let mid = graph.push_child_of("mid", &body);
        {
            let _bottom = graph.push_child_of("bottom_button", &mid);
            let _middle = graph.push_child_of("middle_button", &mid);
            let _top = graph.push_child_of("top_button", &mid);
        }
        let top = graph.push_child_of("top", &body);
        {
            let _left_eye = graph.push_child_of("left", &top);
            let _right_eye = graph.push_child_of("right", &top);
        }
    }
    let _hat = graph.push_child("hat");
    let arms = graph.push_child("arms");
    {
        let _left_arm = graph.push_child_of("left", &arms);
        let _right_arm = graph.push_child_of("right", &arms);
    }
    graph
}

#[test]
fn visit_all() {
    let mut graph = snowman();

    let mut visitor = TestVisitor::default();
    graph.visit_all_mut(&mut visitor);
    assert_eq!(visitor.path.len(), 16);
}

#[test]
fn pre_visit() {
    let mut graph = snowman();

    let mut visitor = TestVisitor::default();
    graph.pre_visit_mut(&mut visitor);
    assert_eq!(visitor.path.len(), 16);
}

#[test]
fn post_visit() {
    let mut graph = snowman();

    let mut visitor = TestVisitor::default();
    graph.post_visit_mut(&mut visitor);
    assert_eq!(visitor.path.len(), 16);
}
