//! The graph builder, and a printing walker.
//!
//! [`NodeVisitor`] folds a program into a name-keyed dependency graph: one
//! [`NodeRaw`] per name, held in an arena and addressed by stable index.
//! Prerequisites seen before their defining rule become `Unknown`
//! placeholders; the defining rule later upgrades the placeholder in place,
//! so every node already holding the index observes the upgrade.  Defining
//! the same target twice is a [`MakeError::DuplicateTarget`].  When a rule's
//! target name collides with an existing filesystem entry, the rule takes
//! precedence and upgrades the `File` node into a `Target`: a rule is a
//! more specific intent than the mere presence of the file.
//!
//! The first rule folded in records the default target.

use vstd::prelude::*;

use crate::error::{MakeError, MakeErrorView};
use crate::node::{graph_wf, lemma_push_keeps_wf, lemma_update_keeps_wf, NodeKind, NodeRaw, NodeType, NodeView};
use crate::parser::{
    stmt_views, AssignStmt, DirectiveStmt, Program, RuleStmt, RuleStmtView, Statement,
    StatementView, Visitor,
};

verus! {

use vstd::string::StringExecFns;
use crate::lexer::str_views;

/// A walker that renders each statement as one line of text.
pub struct PrintVisitor {
    pub lines: Vec<String>,
}

impl PrintVisitor {
    pub fn new() -> (r: PrintVisitor)
        ensures
            r.lines@.len() == 0,
    {
        PrintVisitor { lines: Vec::new() }
    }
}

impl Visitor for PrintVisitor {
    fn visit_rule(&mut self, t: &RuleStmt) {
        let mut line = String::from_str("RuleStmt{target: ");
        line.append(t.target.as_str());
        line.append(", prerequisite:");
        let mut k: usize = 0;
        while k < t.prerequisite.len()
            invariant
                k <= t.prerequisite@.len(),
            decreases t.prerequisite@.len() - k,
        {
            line.append(" ");
            line.append(t.prerequisite[k].as_str());
            k = k + 1;
        }
        line.append(", commands:");
        let mut m: usize = 0;
        while m < t.commands.len()
            invariant
                m <= t.commands@.len(),
            decreases t.commands@.len() - m,
        {
            line.append(" ");
            line.append(t.commands[m].command.as_str());
            m = m + 1;
        }
        line.append("}");
        self.lines.push(line);
    }

    fn visit_assign(&mut self, _t: &AssignStmt) {
        self.lines.push(String::from_str("AssignStmt{}"));
    }

    fn visit_directive(&mut self, _t: &DirectiveStmt) {
        self.lines.push(String::from_str("DirectiveStmt{}"));
    }
}

/// The mathematical shadow of [`NodeVisitor`]: the graph as a sequence of
/// node views, and the recorded default target.
pub struct BuilderView {
    pub nodes: Seq<NodeView>,
    pub default_target: Option<int>,
}

/// The views of a sequence of nodes.
pub open spec fn graph_views(v: Seq<NodeRaw>) -> Seq<NodeView> {
    v.map_values(|n: NodeRaw| n@)
}

/// A well-formed builder: a well-formed graph, and a default target (if
/// any) that is in range.
pub open spec fn builder_wf(b: BuilderView) -> bool {
    &&& graph_wf(b.nodes)
    &&& match b.default_target {
        Some(i) => 0 <= i < b.nodes.len(),
        None => true,
    }
}

/// The first node at or after `i` whose name is `name`.
pub open spec fn find_from(nodes: Seq<NodeView>, name: Seq<char>, i: int) -> Option<int>
    decreases nodes.len() - i,
{
    if 0 <= i < nodes.len() {
        if nodes[i].name == name {
            Some(i)
        } else {
            find_from(nodes, name, i + 1)
        }
    } else {
        None
    }
}

/// The node of the given name, if the graph holds one.
pub open spec fn find_name(nodes: Seq<NodeView>, name: Seq<char>) -> Option<int> {
    find_from(nodes, name, 0)
}

pub proof fn lemma_find_from(nodes: Seq<NodeView>, name: Seq<char>, i: int)
    requires
        0 <= i,
    ensures
        match find_from(nodes, name, i) {
            Some(j) => i <= j < nodes.len() && nodes[j].name == name,
            None => forall|k: int| i <= k < nodes.len() ==> nodes[k].name != name,
        },
    decreases nodes.len() - i,
{
    if 0 <= i < nodes.len() && nodes[i].name != name {
        lemma_find_from(nodes, name, i + 1);
    }
}

/// A fresh placeholder node.
pub open spec fn unknown_node(name: Seq<char>) -> NodeView {
    NodeView { kind: NodeKind::Unknown, name, deps: Seq::<int>::empty() }
}

/// A fresh filesystem-entry node.
pub open spec fn file_node(name: Seq<char>) -> NodeView {
    NodeView { kind: NodeKind::File("."@), name, deps: Seq::<int>::empty() }
}

/// A target node carrying a rule's commands and resolved prerequisites.
pub open spec fn target_node(name: Seq<char>, commands: Seq<crate::lexer::CommandView>, deps: Seq<int>) -> NodeView {
    NodeView { kind: NodeKind::Target(commands), name, deps }
}

/// Record `i` as the default target if none is recorded yet.
pub open spec fn or_default(d: Option<int>, i: int) -> Option<int> {
    match d {
        Some(j) => Some(j),
        None => Some(i),
    }
}

/// Resolve a rule's prerequisite names in order: an existing node is reused
/// by index, a missing one becomes a fresh `Unknown` node.  Yields the
/// grown graph and the dependency indices.
pub open spec fn spec_resolve_deps(nodes: Seq<NodeView>, names: Seq<Seq<char>>) -> (
    Seq<NodeView>,
    Seq<int>,
)
    decreases names.len(),
{
    if names.len() == 0 {
        (nodes, Seq::<int>::empty())
    } else {
        let step = match find_name(nodes, names[0]) {
            Some(i) => (nodes, i),
            None => (nodes.push(unknown_node(names[0])), nodes.len() as int),
        };
        let rest = spec_resolve_deps(step.0, names.drop_first());
        (rest.0, seq![step.1] + rest.1)
    }
}

pub proof fn lemma_resolve_deps_len(nodes: Seq<NodeView>, names: Seq<Seq<char>>)
    ensures
        spec_resolve_deps(nodes, names).1.len() == names.len(),
    decreases names.len(),
{
    if names.len() > 0 {
        let step = match find_name(nodes, names[0]) {
            Some(i) => (nodes, i),
            None => (nodes.push(unknown_node(names[0])), nodes.len() as int),
        };
        lemma_resolve_deps_len(step.0, names.drop_first());
    }
}

/// Fold one rule into the graph: resolve its prerequisites, then define its
/// target.  A name already defined as a target is a duplicate-definition
/// error; an `Unknown` or `File` node is upgraded in place (the rule takes
/// precedence over a filesystem entry of the same name); the first rule
/// records the default target.
pub open spec fn spec_fold_rule(b: BuilderView, r: RuleStmtView) -> (
    BuilderView,
    Option<MakeErrorView>,
) {
    let (n1, ds) = spec_resolve_deps(b.nodes, r.prerequisite);
    match find_name(n1, r.target) {
        None => (
            BuilderView {
                nodes: n1.push(target_node(r.target, r.commands, ds)),
                default_target: or_default(b.default_target, n1.len() as int),
            },
            None,
        ),
        Some(i) => match n1[i].kind {
            NodeKind::Target(_) => (
                BuilderView { nodes: n1, default_target: b.default_target },
                Some(MakeErrorView::DuplicateTarget { name: r.target }),
            ),
            _ => (
                BuilderView {
                    nodes: n1.update(i, target_node(r.target, r.commands, ds)),
                    default_target: or_default(b.default_target, i),
                },
                None,
            ),
        },
    }
}

/// Seed the graph with one `File` node per filesystem entry name, skipping
/// names that already have a node.
pub open spec fn spec_seed(nodes: Seq<NodeView>, names: Seq<Seq<char>>) -> Seq<NodeView>
    decreases names.len(),
{
    if names.len() == 0 {
        nodes
    } else {
        let n1 = match find_name(nodes, names[0]) {
            Some(_) => nodes,
            None => nodes.push(file_node(names[0])),
        };
        spec_seed(n1, names.drop_first())
    }
}

/// Fold a whole program, rule by rule in source order, stopping at the
/// first error.  Assignment and directive placeholders define no nodes.
pub open spec fn spec_build(b: BuilderView, stmts: Seq<StatementView>) -> (
    BuilderView,
    Option<MakeErrorView>,
)
    decreases stmts.len(),
{
    if stmts.len() == 0 {
        (b, None)
    } else {
        match stmts[0] {
            StatementView::Rule(r) => {
                let (b1, e) = spec_fold_rule(b, r);
                if e is Some {
                    (b1, e)
                } else {
                    spec_build(b1, stmts.drop_first())
                }
            },
            _ => spec_build(b, stmts.drop_first()),
        }
    }
}

/// The graph builder: the arena of nodes and the recorded default target.
#[derive(Debug)]
pub struct NodeVisitor {
    pub nodes: Vec<NodeRaw>,
    pub default_target: Option<usize>,
}

impl View for NodeVisitor {
    type V = BuilderView;

    open spec fn view(&self) -> BuilderView {
        BuilderView {
            nodes: graph_views(self.nodes@),
            default_target: match self.default_target {
                Some(i) => Some(i as int),
                None => None,
            },
        }
    }
}

impl NodeVisitor {
    pub open spec fn wf(&self) -> bool {
        builder_wf(self@)
    }

    pub fn new() -> (r: NodeVisitor)
        ensures
            r.wf(),
            r@.nodes.len() == 0,
            r@.default_target is None,
    {
        let r = NodeVisitor { nodes: Vec::new(), default_target: None };
        proof {
            assert(graph_views(r.nodes@) =~= Seq::<NodeView>::empty());
        }
        r
    }

    /// The index of the node of the given name, if there is one.
    pub fn find_node(&self, name: &String) -> (r: Option<usize>)
        ensures
            match find_name(self@.nodes, name@) {
                Some(j) => r matches Some(u) && u as int == j && 0 <= j < self@.nodes.len(),
                None => r is None,
            },
    {
        let ghost g = self@.nodes;
        proof {
            lemma_find_from(g, name@, 0);
        }
        let mut i: usize = 0;
        while i < self.nodes.len()
            invariant
                i <= self.nodes@.len(),
                g == graph_views(self.nodes@),
                find_from(g, name@, 0) == find_from(g, name@, i as int),
            decreases self.nodes@.len() - i,
        {
            if self.nodes[i].name == *name {
                return Some(i);
            }
            i = i + 1;
        }
        None
    }

    /// Seed the graph with `File` nodes for the given filesystem entry
    /// names, consumed once at the start of a build pass.
    pub fn seed_files(&mut self, entries: Vec<String>)
        requires
            old(self).wf(),
        ensures
            final(self).wf(),
            final(self)@.nodes == spec_seed(old(self)@.nodes, str_views(entries@)),
            final(self)@.default_target == old(self)@.default_target,
    {
        let ghost g0 = self@.nodes;
        let ghost e0 = str_views(entries@);
        let mut entries = entries;
        while entries.len() > 0
            invariant
                self.wf(),
                spec_seed(self@.nodes, str_views(entries@)) == spec_seed(g0, e0),
                self@.default_target == old(self)@.default_target,
            decreases entries@.len(),
        {
            let ghost epre = str_views(entries@);
            let ghost gpre = self@.nodes;
            let name = entries.remove(0);
            proof {
                assert(str_views(entries@) =~= epre.drop_first());
                lemma_find_from(gpre, name@, 0);
            }
            match self.find_node(&name) {
                Some(_) => {},
                None => {
                    proof {
                        lemma_push_keeps_wf(gpre, file_node(name@));
                    }
                    self.nodes.push(NodeRaw::new_file(name));
                    proof {
                        assert(graph_views(self.nodes@) =~= gpre.push(file_node(name@)));
                    }
                },
            }
        }
        proof {
            assert(str_views(entries@) =~= Seq::<Seq<char>>::empty());
        }
    }

    /// Fold one rule into the graph; the behaviour is exactly
    /// [`spec_fold_rule`] on the current state.
    pub fn fold_rule(&mut self, t: RuleStmt) -> (r: Result<(), MakeError>)
        requires
            old(self).wf(),
        ensures
            final(self).wf(),
            final(self)@ == spec_fold_rule(old(self)@, t@).0,
            match spec_fold_rule(old(self)@, t@).1 {
                None => r is Ok,
                Some(ev) => r matches Err(e) && e@ == ev,
            },
    {
        let ghost b0 = self@;
        let ghost names = str_views(t.prerequisite@);
        let ghost full = spec_resolve_deps(b0.nodes, names);
        let mut deps: Vec<usize> = Vec::new();
        let mut k: usize = 0;
        let ghost lng = names.len() as int;
        proof {
            lemma_resolve_deps_len(b0.nodes, names);
            assert(names.subrange(0, lng) =~= names);
            assert(full.1.subrange(0, lng) =~= full.1);
            assert(deps@.map_values(|d: usize| d as int) =~= full.1.subrange(0, 0));
        }
        while k < t.prerequisite.len()
            invariant
                self.wf(),
                k <= t.prerequisite@.len(),
                names == str_views(t.prerequisite@),
                names.len() == t.prerequisite@.len(),
                lng == names.len() as int,
                self@.default_target == b0.default_target,
                spec_resolve_deps(self@.nodes, names.subrange(k as int, lng)).0 == full.0,
                spec_resolve_deps(self@.nodes, names.subrange(k as int, lng)).1 == full.1.subrange(
                    k as int,
                    lng,
                ),
                full.1.len() == lng,
                deps@.map_values(|d: usize| d as int) == full.1.subrange(0, k as int),
                forall|m: int| 0 <= m < deps@.len() ==> deps@[m] < self.nodes@.len(),
            decreases t.prerequisite@.len() - k,
        {
            let ghost gpre = self@.nodes;
            let ghost rem = names.subrange(k as int, lng);
            let name = t.prerequisite[k].clone();
            proof {
                assert(rem[0] == names[k as int]);
                assert(rem.drop_first() =~= names.subrange(k + 1 as int, lng));
                lemma_find_from(gpre, name@, 0);
            }
            let d: usize = match self.find_node(&name) {
                Some(i) => i,
                None => {
                    let idx = self.nodes.len();
                    proof {
                        lemma_push_keeps_wf(gpre, unknown_node(names[k as int]));
                    }
                    self.nodes.push(NodeRaw::new_unknown(name));
                    proof {
                        assert(graph_views(self.nodes@) =~= gpre.push(
                            unknown_node(names[k as int]),
                        ));
                    }
                    idx
                },
            };
            deps.push(d);
            proof {
                let ghost dpre = deps@.drop_last();
                let tail = spec_resolve_deps(self@.nodes, rem.drop_first());
                assert(spec_resolve_deps(gpre, rem).0 == tail.0);
                assert(spec_resolve_deps(gpre, rem).1 == seq![d as int] + tail.1);
                assert((seq![d as int] + tail.1).drop_first() =~= tail.1);
                assert(full.1.subrange(k as int, lng).drop_first() =~= full.1.subrange(
                    k + 1 as int,
                    lng,
                ));
                assert(tail.1 == full.1.subrange(k + 1 as int, lng));
                assert((seq![d as int] + tail.1)[0] == d as int);
                assert(d as int == full.1[k as int]);
                assert(deps@.map_values(|dd: usize| dd as int) =~= dpre.map_values(
                    |dd: usize| dd as int,
                ).push(d as int));
                assert(full.1.subrange(0, k + 1 as int) =~= full.1.subrange(0, k as int).push(
                    full.1[k as int],
                ));
            }
            k = k + 1;
        }
        proof {
            assert(names.subrange(k as int, lng) =~= Seq::<Seq<char>>::empty());
            assert(self@.nodes == full.0);
            assert(full.1.subrange(k as int, lng) =~= Seq::<int>::empty());
            assert(deps@.map_values(|d: usize| d as int) =~= full.1);
        }
        let ghost n1 = self@.nodes;
        proof {
            lemma_find_from(n1, t.target@, 0);
        }
        let ghost newnode = target_node(t@.target, t@.commands, full.1);
        match self.find_node(&t.target) {
            None => {
                let idx = self.nodes.len();
                proof {
                    lemma_push_keeps_wf(n1, newnode);
                }
                self.nodes.push(NodeRaw::new_target_raw(t.target, t.commands, deps));
                if self.default_target.is_none() {
                    self.default_target = Some(idx);
                }
                proof {
                    assert(graph_views(self.nodes@) =~= n1.push(newnode));
                }
                Ok(())
            },
            Some(i) => {
                let dup = match &self.nodes[i].node_type {
                    NodeType::Target { .. } => true,
                    _ => false,
                };
                if dup {
                    return Err(MakeError::DuplicateTarget { name: t.target });
                }
                proof {
                    lemma_update_keeps_wf(n1, i as int, newnode);
                }
                self.nodes[i].set_type(NodeType::Target { commands: t.commands });
                self.nodes[i].set_deps(deps);
                if self.default_target.is_none() {
                    self.default_target = Some(i);
                }
                proof {
                    assert(graph_views(self.nodes@) =~= n1.update(i as int, newnode));
                }
                Ok(())
            },
        }
    }

    /// Fold a whole program into the graph, rule by rule in source order,
    /// stopping at the first error; the behaviour is exactly
    /// [`spec_build`] on the current state.
    pub fn build(&mut self, t: Program) -> (r: Result<(), MakeError>)
        requires
            old(self).wf(),
        ensures
            final(self).wf(),
            final(self)@ == spec_build(old(self)@, t@).0,
            match spec_build(old(self)@, t@).1 {
                None => r is Ok,
                Some(ev) => r matches Err(e) && e@ == ev,
            },
    {
        let ghost b0 = self@;
        let ghost all = t@;
        let mut prog = t;
        while prog.statements.len() > 0
            invariant
                self.wf(),
                b0 == old(self)@,
                all == t@,
                spec_build(self@, stmt_views(prog.statements@)) == spec_build(b0, all),
            decreases prog.statements@.len(),
        {
            let ghost bpre = self@;
            let ghost spre = stmt_views(prog.statements@);
            let st = prog.statements.remove(0);
            proof {
                assert(stmt_views(prog.statements@) =~= spre.drop_first());
                assert(spre[0] == st@);
            }
            match st {
                Statement::RuleStmt(r) => {
                    let ghost rv = r@;
                    match self.fold_rule(r) {
                        Ok(()) => {
                            proof {
                                assert(spec_build(bpre, spre) == spec_build(
                                    spec_fold_rule(bpre, rv).0,
                                    spre.drop_first(),
                                ));
                            }
                        },
                        Err(e) => {
                            proof {
                                assert(spec_build(bpre, spre) == (
                                    spec_fold_rule(bpre, rv).0,
                                    spec_fold_rule(bpre, rv).1,
                                ));
                            }
                            return Err(e);
                        },
                    }
                },
                Statement::AssignStmt(_) => {},
                Statement::DirectiveStmt(_) => {},
            }
        }
        proof {
            assert(stmt_views(prog.statements@) =~= Seq::<StatementView>::empty());
        }
        Ok(())
    }
}

} // verus!
