//! Nodes of the dependency graph, and the mathematical vocabulary of the
//! graph itself: edges, paths and reachability.
//!
//! The graph is an arena: nodes live in one vector, a dependency edge is the
//! index of the depended-on node, and a name-to-index lookup gives each name
//! at most one node.  Upgrading a placeholder mutates the arena slot in
//! place, so every holder of the index observes the upgraded kind.

use vstd::prelude::*;

use crate::lexer::{Command, CommandView};

verus! {

use vstd::string::StringExecFns;
use crate::parser::cmd_views;

/// What a node is: a buildable target with a recipe, a pre-existing
/// filesystem entry, or a placeholder for a name whose defining rule (or
/// file) has not been seen yet.
#[derive(Debug)]
pub enum NodeType {
    Target { commands: Vec<Command> },
    File { path: String },
    Unknown,
}

/// One node of the graph: its kind, its unique name, and the indices of the
/// nodes it depends on.
#[derive(Debug)]
pub struct NodeRaw {
    pub node_type: NodeType,
    pub name: String,
    pub dependencies: Vec<usize>,
}

/// The mathematical shadow of [`NodeType`].
pub enum NodeKind {
    Target(Seq<CommandView>),
    File(Seq<char>),
    Unknown,
}

/// The mathematical shadow of [`NodeRaw`].
pub struct NodeView {
    pub kind: NodeKind,
    pub name: Seq<char>,
    pub deps: Seq<int>,
}

impl View for NodeType {
    type V = NodeKind;

    open spec fn view(&self) -> NodeKind {
        match self {
            NodeType::Target { commands } => NodeKind::Target(cmd_views(commands@)),
            NodeType::File { path } => NodeKind::File(path@),
            NodeType::Unknown => NodeKind::Unknown,
        }
    }
}

impl View for NodeRaw {
    type V = NodeView;

    open spec fn view(&self) -> NodeView {
        NodeView {
            kind: self.node_type@,
            name: self.name@,
            deps: self.dependencies@.map_values(|d: usize| d as int),
        }
    }
}

impl NodeRaw {
    /// A target node built from a rule's commands and resolved
    /// prerequisites.
    pub fn new_target(name: String, commands: Vec<Command>, dep: Vec<usize>) -> (r: NodeRaw)
        ensures
            r@ == (NodeView {
                kind: NodeKind::Target(cmd_views(commands@)),
                name: name@,
                deps: dep@.map_values(|d: usize| d as int),
            }),
    {
        Self::new_target_raw(name, commands, dep)
    }

    /// The plain value behind [`NodeRaw::new_target`].
    pub fn new_target_raw(name: String, commands: Vec<Command>, dep: Vec<usize>) -> (r: NodeRaw)
        ensures
            r@ == (NodeView {
                kind: NodeKind::Target(cmd_views(commands@)),
                name: name@,
                deps: dep@.map_values(|d: usize| d as int),
            }),
    {
        NodeRaw { node_type: NodeType::Target { commands }, name, dependencies: dep }
    }

    /// A placeholder for a name referenced before its defining rule or
    /// filesystem entry has been seen.
    pub fn new_unknown(name: String) -> (r: NodeRaw)
        ensures
            r@ == (NodeView { kind: NodeKind::Unknown, name: name@, deps: Seq::<int>::empty() }),
    {
        let r = NodeRaw { node_type: NodeType::Unknown, name, dependencies: Vec::new() };
        proof {
            assert(r.dependencies@.map_values(|d: usize| d as int) =~= Seq::<int>::empty());
        }
        r
    }

    /// A leaf for a pre-existing filesystem entry: no dependencies, and
    /// executing it is a no-op.
    pub fn new_file(name: String) -> (r: NodeRaw)
        ensures
            r@ == (NodeView { kind: NodeKind::File("."@), name: name@, deps: Seq::<int>::empty() }),
    {
        let r = NodeRaw {
            node_type: NodeType::File { path: String::from_str(".") },
            name,
            dependencies: Vec::new(),
        };
        proof {
            assert(r.dependencies@.map_values(|d: usize| d as int) =~= Seq::<int>::empty());
        }
        r
    }

    /// Replace the kind of this node, keeping its name and dependencies.
    pub fn set_type(&mut self, node_type: NodeType)
        ensures
            final(self)@ == (NodeView {
                kind: node_type@,
                name: old(self)@.name,
                deps: old(self)@.deps,
            }),
    {
        self.node_type = node_type;
    }

    /// Replace the dependencies of this node, keeping its kind and name.
    pub fn set_deps(&mut self, deps: Vec<usize>)
        ensures
            final(self)@ == (NodeView {
                kind: old(self)@.kind,
                name: old(self)@.name,
                deps: deps@.map_values(|d: usize| d as int),
            }),
    {
        self.dependencies = deps;
    }
}

/// A well-formed graph: every dependency index is in range, and no two
/// nodes share a name.
pub open spec fn graph_wf(nodes: Seq<NodeView>) -> bool {
    &&& forall|i: int, k: int|
        0 <= i < nodes.len() && 0 <= k < nodes[i].deps.len() ==> 0 <= #[trigger] nodes[i].deps[k]
            < nodes.len()
    &&& forall|i: int, j: int|
        0 <= i < nodes.len() && 0 <= j < nodes.len() && i != j ==> nodes[i].name != nodes[j].name
}

/// A dependency edge from node `a` to node `b`.
pub open spec fn edge(nodes: Seq<NodeView>, a: int, b: int) -> bool {
    0 <= a < nodes.len() && nodes[a].deps.contains(b)
}

/// A non-empty walk along dependency edges.
pub open spec fn is_path(nodes: Seq<NodeView>, p: Seq<int>) -> bool {
    &&& p.len() >= 1
    &&& forall|k: int| 0 <= k < p.len() ==> 0 <= #[trigger] p[k] < nodes.len()
    &&& forall|k: int| 0 <= k < p.len() - 1 ==> edge(nodes, #[trigger] p[k], p[k + 1])
}

/// Node `b` can be reached from node `a` along dependency edges (every node
/// reaches itself).
pub open spec fn reach(nodes: Seq<NodeView>, a: int, b: int) -> bool {
    exists|p: Seq<int>| is_path(nodes, p) && p.first() == a && p.last() == b
}

pub proof fn lemma_reach_refl(nodes: Seq<NodeView>, a: int)
    requires
        0 <= a < nodes.len(),
    ensures
        reach(nodes, a, a),
{
    let p = seq![a];
    assert(is_path(nodes, p));
    assert(p.first() == a && p.last() == a);
}

/// Reachability extends along one more edge.
pub proof fn lemma_reach_step(nodes: Seq<NodeView>, a: int, b: int, c: int)
    requires
        reach(nodes, a, b),
        edge(nodes, b, c),
        0 <= c < nodes.len(),
    ensures
        reach(nodes, a, c),
{
    let p = choose|p: Seq<int>| is_path(nodes, p) && p.first() == a && p.last() == b;
    let q = p.push(c);
    assert forall|k: int| 0 <= k < q.len() implies 0 <= #[trigger] q[k] < nodes.len() by {
        if k < p.len() {
            assert(q[k] == p[k]);
        } else {
            assert(q[k] == c);
        }
    }
    assert forall|k: int| 0 <= k < q.len() - 1 implies edge(nodes, #[trigger] q[k], q[k + 1]) by {
        if k < p.len() - 1 {
            assert(q[k] == p[k] && q[k + 1] == p[k + 1]);
        } else {
            assert(q[k] == p.last() && q[k + 1] == c);
        }
    }
    assert(is_path(nodes, q));
    assert(q.first() == a && q.last() == c);
}

/// Appending a node with a fresh name and in-range dependencies keeps the
/// graph well-formed.
pub proof fn lemma_push_keeps_wf(nodes: Seq<NodeView>, n: NodeView)
    requires
        graph_wf(nodes),
        forall|k: int| 0 <= k < nodes.len() ==> (#[trigger] nodes[k].name) != n.name,
        forall|k: int| 0 <= k < n.deps.len() ==> 0 <= #[trigger] n.deps[k] < nodes.len() + 1,
    ensures
        graph_wf(nodes.push(n)),
{
    let g = nodes.push(n);
    assert forall|i: int, k: int|
        0 <= i < g.len() && 0 <= k < g[i].deps.len() implies 0 <= #[trigger] g[i].deps[k]
        < g.len() by {
        if i < nodes.len() {
            assert(g[i] == nodes[i]);
        } else {
            assert(g[i] == n);
        }
    }
    assert forall|i: int, j: int|
        0 <= i < g.len() && 0 <= j < g.len() && i != j implies g[i].name != g[j].name by {
        if i < nodes.len() && j < nodes.len() {
            assert(g[i] == nodes[i] && g[j] == nodes[j]);
        } else if i < nodes.len() {
            assert(g[i] == nodes[i] && g[j] == n);
        } else {
            assert(g[i] == n && g[j] == nodes[j]);
        }
    }
}

/// Replacing a node by one of the same name with in-range dependencies
/// keeps the graph well-formed.
pub proof fn lemma_update_keeps_wf(nodes: Seq<NodeView>, i: int, n: NodeView)
    requires
        graph_wf(nodes),
        0 <= i < nodes.len(),
        n.name == nodes[i].name,
        forall|k: int| 0 <= k < n.deps.len() ==> 0 <= #[trigger] n.deps[k] < nodes.len(),
    ensures
        graph_wf(nodes.update(i, n)),
{
    let g = nodes.update(i, n);
    assert forall|x: int, k: int|
        0 <= x < g.len() && 0 <= k < g[x].deps.len() implies 0 <= #[trigger] g[x].deps[k]
        < g.len() by {
        if x != i {
            assert(g[x] == nodes[x]);
        } else {
            assert(g[x] == n);
        }
    }
    assert forall|x: int, j: int|
        0 <= x < g.len() && 0 <= j < g.len() && x != j implies g[x].name != g[j].name by {
        assert(g[x].name == nodes[x].name);
        assert(g[j].name == nodes[j].name);
    }
}

/// Reachability is transitive: dependency paths concatenate.
pub proof fn lemma_reach_trans(nodes: Seq<NodeView>, a: int, b: int, c: int)
    requires
        reach(nodes, a, b),
        reach(nodes, b, c),
    ensures
        reach(nodes, a, c),
{
    let p1 = choose|p: Seq<int>| is_path(nodes, p) && p.first() == a && p.last() == b;
    let p2 = choose|p: Seq<int>| is_path(nodes, p) && p.first() == b && p.last() == c;
    let q = p1 + p2.drop_first();
    assert forall|k: int| 0 <= k < q.len() implies 0 <= #[trigger] q[k] < nodes.len() by {
        if k < p1.len() {
            assert(q[k] == p1[k]);
        } else {
            assert(q[k] == p2[k - p1.len() + 1]);
        }
    }
    assert forall|k: int| 0 <= k < q.len() - 1 implies edge(nodes, #[trigger] q[k], q[k + 1]) by {
        if k < p1.len() - 1 {
            assert(q[k] == p1[k] && q[k + 1] == p1[k + 1]);
            assert(edge(nodes, p1[k], p1[k + 1]));
        } else if k == p1.len() - 1 {
            assert(p2.len() > 1);
            assert(q[k] == p1[p1.len() - 1]);
            assert(q[k + 1] == p2[1]);
            assert(edge(nodes, p2[0], p2[1]));
        } else {
            let m = k - p1.len() + 1;
            assert(q[k] == p2[m] && q[k + 1] == p2[m + 1]);
            assert(edge(nodes, p2[m], p2[m + 1]));
        }
    }
    assert(is_path(nodes, q));
    assert(q.first() == a);
    if p2.len() == 1 {
        assert(q =~= p1);
        assert(q.last() == c);
    } else {
        assert(q.last() == p2[p2.len() - 1]);
    }
}

/// A set of finished nodes, encoded as marks: every dependency of a marked
/// node is marked.
pub open spec fn deps_closed(nodes: Seq<NodeView>, st: Seq<u8>) -> bool {
    forall|x: int, k: int|
        0 <= x < nodes.len() && st[x] == 2 && 0 <= k < nodes[x].deps.len()
            ==> st[#[trigger] nodes[x].deps[k]] == 2
}

/// Walking a path that starts at a finished node only meets finished nodes,
/// because the finished set is closed under dependencies.
pub proof fn lemma_path_visited(nodes: Seq<NodeView>, st: Seq<u8>, p: Seq<int>)
    requires
        st.len() == nodes.len(),
        graph_wf(nodes),
        deps_closed(nodes, st),
        is_path(nodes, p),
        st[p.first()] == 2,
    ensures
        st[p.last()] == 2,
    decreases p.len(),
{
    if p.len() > 1 {
        assert(edge(nodes, p[0], p[1]));
        let k = choose|k: int| 0 <= k < nodes[p[0]].deps.len() && nodes[p[0]].deps[k] == p[1];
        assert(st[p[1]] == 2);
        let q = p.drop_first();
        assert forall|m: int| 0 <= m < q.len() implies 0 <= #[trigger] q[m] < nodes.len() by {
            assert(q[m] == p[m + 1]);
        }
        assert forall|m: int| 0 <= m < q.len() - 1 implies edge(nodes, #[trigger] q[m], q[m + 1]) by {
            assert(q[m] == p[m + 1] && q[m + 1] == p[m + 2]);
            assert(edge(nodes, p[m + 1], p[m + 2]));
        }
        assert(is_path(nodes, q));
        lemma_path_visited(nodes, st, q);
        assert(q.last() == p.last());
    }
}

/// Every node reachable from a finished node is finished.
pub proof fn lemma_reachable_visited(nodes: Seq<NodeView>, st: Seq<u8>, a: int, b: int)
    requires
        st.len() == nodes.len(),
        graph_wf(nodes),
        deps_closed(nodes, st),
        reach(nodes, a, b),
        st[a] == 2,
    ensures
        st[b] == 2,
{
    let p = choose|p: Seq<int>| is_path(nodes, p) && p.first() == a && p.last() == b;
    lemma_path_visited(nodes, st, p);
}

} // verus!
