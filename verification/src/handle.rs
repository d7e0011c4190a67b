use crate::graph::MachGraph;
use crate::model::{
    ancestry, descend, first_match, lemma_first_match_found, lemma_first_match_none, matches_at,
    names_along, numbers, path_of, resolve, store_order, HandleModel,
};
use crate::text::{join, split, split_path, views, SEPARATOR};
use vstd::prelude::*;
use vstd::std_specs::convert::FromSpecImpl;
use vstd::string::StringExecFns;

verus! {

/// A reference to a node of some graph, by its path, by its position, or by both.
/// A handle owns nothing and may outlive the graph that it was made for.
#[derive(Debug)]
pub struct Handle {
    /// Names from an ancestor down to the node, separated by dots.
    pub path: String,
    /// Position of the node, where it is known.
    pub index: Option<u32>,
}

impl View for Handle {
    type V = HandleModel;

    open spec fn view(&self) -> HandleModel {
        HandleModel {
            path: self.path@,
            index: match self.index {
                Some(i) => Some(i as nat),
                None => None,
            },
        }
    }
}

impl Clone for Handle {
    fn clone(&self) -> (copy: Handle)
        ensures
            copy == *self,
    {
        Handle { path: self.path.clone(), index: self.index }
    }
}

impl From<String> for Handle {
    /// A handle that knows only a path.
    fn from(path: String) -> (handle: Handle)
        ensures
            handle.path == path,
            handle.index is None,
    {
        Handle { path: path, index: None }
    }
}

impl FromSpecImpl<String> for Handle {
    open spec fn obeys_from_spec() -> bool {
        true
    }

    open spec fn from_spec(v: String) -> Handle {
        Handle { path: v, index: None }
    }
}

impl From<&str> for Handle {
    /// A handle that knows only a path.
    fn from(path: &str) -> (handle: Handle)
        ensures
            handle@ == (HandleModel { path: path@, index: None }),
    {
        Handle { path: path.to_owned(), index: None }
    }
}

impl FromSpecImpl<&str> for Handle {
    open spec fn obeys_from_spec() -> bool {
        false
    }

    open spec fn from_spec(v: &str) -> Handle {
        arbitrary()
    }
}

impl From<u32> for Handle {
    /// A handle that knows only a position; its path reads `undefined`.
    fn from(index: u32) -> (handle: Handle)
        ensures
            handle@ == (HandleModel { path: "undefined"@, index: Some(index as nat) }),
    {
        Handle { path: "undefined".to_owned(), index: Some(index) }
    }
}

impl FromSpecImpl<u32> for Handle {
    open spec fn obeys_from_spec() -> bool {
        false
    }

    open spec fn from_spec(v: u32) -> Handle {
        arbitrary()
    }
}

impl From<(String, u32)> for Handle {
    /// A handle that takes both path and position from the caller, unchecked.
    fn from(pair: (String, u32)) -> (handle: Handle)
        ensures
            handle.path == pair.0,
            handle.index == Some(pair.1),
    {
        let (path, index) = pair;
        Handle { path: path, index: Some(index) }
    }
}

impl FromSpecImpl<(String, u32)> for Handle {
    open spec fn obeys_from_spec() -> bool {
        true
    }

    open spec fn from_spec(v: (String, u32)) -> Handle {
        Handle { path: v.0, index: Some(v.1) }
    }
}

impl From<(&str, u32)> for Handle {
    /// A handle that takes both path and position from the caller, unchecked.
    fn from(pair: (&str, u32)) -> (handle: Handle)
        ensures
            handle@ == (HandleModel { path: pair.0@, index: Some(pair.1 as nat) }),
    {
        let (path, index) = pair;
        Handle { path: path.to_owned(), index: Some(index) }
    }
}

impl FromSpecImpl<(&str, u32)> for Handle {
    open spec fn obeys_from_spec() -> bool {
        false
    }

    open spec fn from_spec(v: (&str, u32)) -> Handle {
        arbitrary()
    }
}

/// The result of a search for a position, as a model value.
pub open spec fn found(r: Option<u32>) -> Option<nat> {
    match r {
        Some(i) => Some(i as nat),
        None => None,
    }
}

/// Looks through `candidates`, in order, for the position of a node called `name`.
fn find_named(graph: &MachGraph, candidates: &Vec<u32>, name: &String) -> (r: Option<usize>)
    ensures
        match first_match(graph@.nodes, numbers(candidates@), name@) {
            Some(at) => r == Some(at as usize) && at < graph.nodes.len(),
            None => r is None,
        },
{
    let ghost nodes = graph@.nodes;
    let ghost listed = numbers(candidates@);
    let mut k: usize = 0;
    while k < candidates.len()
        invariant
            k <= candidates.len(),
            nodes == graph@.nodes,
            listed == numbers(candidates@),
            forall|j: int| 0 <= j < k ==> !matches_at(nodes, listed, name@, j),
        decreases candidates.len() - k,
    {
        let at = candidates[k] as usize;
        if at < graph.nodes.len() {
            if graph.nodes[at].name == *name {
                proof {
                    assert(matches_at(nodes, listed, name@, k as int));
                    lemma_first_match_found(nodes, listed, name@, k as int);
                }
                return Some(at);
            }
        }
        k += 1;
    }
    proof {
        lemma_first_match_none(nodes, listed, name@);
    }
    None
}

/// Looks through the whole store, in order, for a node called `name`.
fn find_anchor(graph: &MachGraph, name: &String) -> (r: Option<usize>)
    ensures
        match first_match(graph@.nodes, store_order(graph@.nodes.len()), name@) {
            Some(at) => r == Some(at as usize) && at < graph.nodes.len(),
            None => r is None,
        },
{
    let ghost nodes = graph@.nodes;
    let ghost all = store_order(nodes.len());
    let mut i: usize = 0;
    while i < graph.nodes.len()
        invariant
            i <= graph.nodes.len(),
            nodes == graph@.nodes,
            all == store_order(nodes.len()),
            forall|j: int| 0 <= j < i ==> !matches_at(nodes, all, name@, j),
        decreases graph.nodes.len() - i,
    {
        if graph.nodes[i].name == *name {
            proof {
                assert(matches_at(nodes, all, name@, i as int));
                lemma_first_match_found(nodes, all, name@, i as int);
            }
            return Some(i);
        }
        i += 1;
    }
    proof {
        lemma_first_match_none(nodes, all, name@);
    }
    None
}

impl Handle {
    /// Whether this handle carries a position.
    pub fn has_index(&self) -> (b: bool)
        ensures
            b == (self@.index is Some),
    {
        self.index.is_some()
    }

    /// The position that this handle names in `graph`: the one it carries, or else the
    /// one that its path leads to. The handle itself stays as it is.
    pub fn get_index(&self, graph: &MachGraph) -> (r: Option<u32>)
        ensures
            found(r) == graph@.target(self@),
    {
        if self.has_index() {
            return self.index;
        }
        Self::index(graph, &self.path)
    }

    /// Keeps as this handle's position the one that it names in `graph`: the position
    /// that it carries already, or else the one that its path leads to.
    pub fn set_index(&mut self, graph: &MachGraph)
        ensures
            final(self)@.index == graph@.target(old(self)@),
            final(self).path == old(self).path,
    {
        self.index = self.get_index(graph);
    }

    /// Replaces the path by the one that leads from the topmost ancestor to the
    /// position that this handle carries. Without a position, or where `graph` has no
    /// path for it, the handle stays as it is.
    pub fn set_path(&mut self, graph: &MachGraph)
        ensures
            final(self).index == old(self).index,
            match old(self)@.index {
                Some(at) => match path_of(graph@.nodes, at) {
                    Some(path) => final(self)@.path == path,
                    None => final(self).path == old(self).path,
                },
                None => final(self).path == old(self).path,
            },
    {
        if self.has_index() {
            if let Some(path) = Self::path(graph, self.index.unwrap()) {
                self.path = path;
            }
        }
    }

    /// The path of the node at position `index`: the names from its topmost ancestor
    /// down to itself, joined by dots.
    pub fn path(graph: &MachGraph, index: u32) -> (r: Option<String>)
        ensures
            match path_of(graph@.nodes, index as nat) {
                Some(path) => r is Some && r->0@ == path,
                None => r is None,
            },
    {
        let ghost nodes = graph@.nodes;
        let total = graph.nodes.len();
        let mut current = index as usize;
        if current >= total {
            return None;
        }
        // The positions passed so far, the starting node first.
        let mut passed: Vec<usize> = Vec::new();
        passed.push(current);
        let ghost mut trail: Seq<nat> = seq![current as nat];
        let mut steps: usize = 0;
        assert(trail.drop_first() =~= Seq::<nat>::empty());
        while graph.nodes[current].has_parent()
            invariant
                nodes == graph@.nodes,
                total == graph.nodes.len(),
                current < total,
                steps <= total,
                passed.len() == steps + 1,
                trail.len() == steps + 1,
                trail[0] == current,
                forall|i: int| 0 <= i <= steps ==> trail[i] == passed[steps - i] as nat,
                forall|i: int| 0 <= i <= steps ==> passed[i] < total,
                ancestry(nodes, index as nat, total as nat) == (match ancestry(
                    nodes,
                    current as nat,
                    (total - steps) as nat,
                ) {
                    Some(above) => Some(above + trail.drop_first()),
                    None => None,
                }),
            decreases total - steps,
        {
            if steps >= total {
                return None;
            }
            let up = graph.nodes[current].parent as usize;
            if up >= total {
                return None;
            }
            proof {
                let longer = seq![up as nat] + trail;
                assert(longer.drop_first() =~= trail);
                assert(trail =~= seq![current as nat] + trail.drop_first());
                match ancestry(nodes, up as nat, (total - steps - 1) as nat) {
                    Some(above) => {
                        assert(above.push(current as nat) + trail.drop_first() =~= above + trail);
                    },
                    None => {},
                }
                trail = longer;
            }
            current = up;
            passed.push(up);
            steps += 1;
        }
        proof {
            assert(seq![current as nat] + trail.drop_first() =~= trail);
            assert(ancestry(nodes, index as nat, total as nat) == Some(trail));
        }
        let ghost names = names_along(nodes, trail);
        let mut result = graph.nodes[current].name.clone();
        let mut left = steps;
        proof {
            assert(names.take(1) =~= seq![names[0]]);
            reveal_strlit(".");
        }
        while left > 0
            invariant
                nodes == graph@.nodes,
                total == graph.nodes.len(),
                left <= steps,
                passed.len() == steps + 1,
                trail.len() == steps + 1,
                forall|i: int| 0 <= i <= steps ==> trail[i] == passed[steps - i] as nat,
                forall|i: int| 0 <= i <= steps ==> passed[i] < total,
                names == names_along(nodes, trail),
                result@ == join(names.take(steps - left + 1), SEPARATOR),
                "."@ == seq![SEPARATOR],
            decreases left,
        {
            left -= 1;
            let ghost done = names.take(steps - left);
            let ghost next = names.take(steps - left + 1);
            result.append(".");
            result.append(graph.nodes[passed[left]].name.as_str());
            proof {
                assert(next.drop_last() =~= done);
                assert(next.last() == names[steps - left]);
                assert(result@ =~= join(done, SEPARATOR).push(SEPARATOR) + next.last());
            }
        }
        proof {
            assert(names.take(steps + 1) =~= names);
        }
        Some(result)
    }

    /// The position that `path` designates in `graph`.
    ///
    /// The first name of the path is looked for in the whole store, in order of
    /// position, and the first node that carries it becomes the starting point. Each
    /// further name that differs from the name of the current node moves to the first
    /// child of that node that carries it. A name that is found nowhere ends the
    /// search without a result.
    pub fn index(graph: &MachGraph, path: &String) -> (r: Option<u32>)
        ensures
            found(r) == resolve(graph@.nodes, path@),
    {
        let ghost nodes = graph@.nodes;
        let segments = split_path(path.as_str());
        let ghost names = split(path@, SEPARATOR);
        let mut current = match find_anchor(graph, &segments[0]) {
            Some(at) => at,
            None => {
                return None;
            },
        };
        let ghost anchor = current as nat;
        let mut k: usize = 1;
        while k < segments.len()
            invariant
                1 <= k <= segments.len(),
                nodes == graph@.nodes,
                names == views(segments@),
                current < graph.nodes.len(),
                anchor < nodes.len(),
                names == split(path@, SEPARATOR),
                first_match(nodes, store_order(nodes.len()), names[0]) == Some(anchor),
                descend(nodes, anchor, names, 1) == descend(nodes, current as nat, names, k as nat),
            decreases segments.len() - k,
        {
            let name = &segments[k];
            assert(name@ == names[k as int]);
            let stay = *name == graph.nodes[current].name;
            if !stay {
                match find_named(graph, &graph.nodes[current].children, name) {
                    Some(child) => {
                        current = child;
                    },
                    None => {
                        return None;
                    },
                }
            }
            k += 1;
        }
        Some(graph.nodes[current].index)
    }
}

} // verus!
