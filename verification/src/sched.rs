//! The scheduler and executor: a cycle-safe topological order over the
//! graph, and a step machine that drives the planned commands in declared
//! order, halting at the first failure.
//!
//! Ordering is a depth-first traversal with three-state marking (absent,
//! visiting, visited), emitting each node after all of its dependencies.  A
//! back-edge to a node still being visited is a cycle; a placeholder node
//! reached during traversal is an unresolved prerequisite.  Both abort
//! before any command runs: the plan is computed fully before any side
//! effect.

use vstd::prelude::*;

use crate::error::{MakeError, MakeErrorView};
use crate::lexer::{Command, CommandView};
use crate::node::{
    deps_closed, edge, graph_wf, is_path, lemma_reach_refl, lemma_reach_step,
    lemma_reachable_visited, reach, NodeKind, NodeType, NodeView,
};
use crate::parser::cmd_views;
use crate::visitor::{find_name, NodeVisitor};

verus! {

/// The views of a sequence of indices.
pub open spec fn idx_views(v: Seq<usize>) -> Seq<int> {
    v.map_values(|u: usize| u as int)
}

/// How many marks are still absent.
pub open spec fn count_zeros(st: Seq<u8>) -> int
    decreases st.len(),
{
    if st.len() == 0 {
        0
    } else {
        count_zeros(st.drop_last()) + if st.last() == 0 {
            1int
        } else {
            0int
        }
    }
}

pub proof fn lemma_count_zeros_nonneg(st: Seq<u8>)
    ensures
        count_zeros(st) >= 0,
    decreases st.len(),
{
    if st.len() > 0 {
        lemma_count_zeros_nonneg(st.drop_last());
    }
}

/// Marks only ever appear, so the count of absent marks never grows.
pub proof fn lemma_count_zeros_mono(a: Seq<u8>, b: Seq<u8>)
    requires
        a.len() == b.len(),
        forall|j: int| 0 <= j < b.len() && b[j] == 0 ==> a[j] == 0,
    ensures
        count_zeros(b) <= count_zeros(a),
    decreases a.len(),
{
    if a.len() > 0 {
        assert(forall|j: int|
            0 <= j < b.drop_last().len() && b.drop_last()[j] == 0 ==> a.drop_last()[j] == 0);
        lemma_count_zeros_mono(a.drop_last(), b.drop_last());
    }
}

/// Marking a node that had no mark strictly shrinks the count.
pub proof fn lemma_count_zeros_strict(a: Seq<u8>, b: Seq<u8>, i: int)
    requires
        a.len() == b.len(),
        forall|j: int| 0 <= j < b.len() && b[j] == 0 ==> a[j] == 0,
        0 <= i < a.len(),
        a[i] == 0,
        b[i] != 0,
    ensures
        count_zeros(b) < count_zeros(a),
    decreases a.len(),
{
    assert(forall|j: int|
        0 <= j < b.drop_last().len() && b.drop_last()[j] == 0 ==> a.drop_last()[j] == 0);
    if i == a.len() - 1 {
        lemma_count_zeros_mono(a.drop_last(), b.drop_last());
    } else {
        lemma_count_zeros_strict(a.drop_last(), b.drop_last(), i);
    }
}

/// The invariant of the traversal: marks match the emitted order.  Emitted
/// nodes are exactly those marked visited, each emitted once, each after
/// all of its dependencies; everything marked is reachable from the
/// requested root and is no placeholder.
pub open spec fn topo_inv(nodes: Seq<NodeView>, root: int, st: Seq<u8>, out: Seq<int>) -> bool {
    &&& st.len() == nodes.len()
    &&& forall|j: int| 0 <= j < st.len() ==> st[j] == 0 || st[j] == 1 || st[j] == 2
    &&& forall|k: int| 0 <= k < out.len() ==> 0 <= #[trigger] out[k] < nodes.len()
    &&& forall|k: int| 0 <= k < out.len() ==> st[#[trigger] out[k]] == 2
    &&& forall|k1: int, k2: int| 0 <= k1 < k2 < out.len() ==> out[k1] != out[k2]
    &&& forall|j: int| 0 <= j < st.len() && st[j] == 2 ==> out.contains(j)
    &&& deps_closed(nodes, st)
    &&& forall|j: int| 0 <= j < st.len() && st[j] >= 1 ==> reach(nodes, root, j)
    &&& forall|j: int| 0 <= j < st.len() && st[j] >= 1 ==> !(nodes[j].kind is Unknown)
    &&& forall|k: int, d: int|
        0 <= k < out.len() && nodes[out[k]].deps.contains(d) ==> exists|m: int|
            0 <= m < k && out[m] == d
}

/// What a scheduling failure certifies: a dependency cycle among nodes
/// reachable from the root, or a reachable placeholder that was never
/// resolved.
pub open spec fn sched_fail(nodes: Seq<NodeView>, root: int, ev: MakeErrorView) -> bool {
    match ev {
        MakeErrorView::CycleDetected { from, to } => exists|a: int, b: int|
            0 <= a < nodes.len() && reach(nodes, root, b) && reach(nodes, a, b) && edge(
                nodes,
                b,
                a,
            ) && from == nodes[b].name && to == nodes[a].name,
        MakeErrorView::UnresolvedPrerequisite { name } => exists|j: int|
            0 <= j < nodes.len() && reach(nodes, root, j) && nodes[j].kind is Unknown && name
                == nodes[j].name,
        _ => false,
    }
}

/// A correct schedule for `root`: it holds exactly the nodes reachable from
/// the root, each exactly once, none a placeholder, and every node comes
/// strictly after all of its dependencies.
pub open spec fn topo_props(nodes: Seq<NodeView>, root: int, ord: Seq<int>) -> bool {
    &&& forall|k: int| 0 <= k < ord.len() ==> 0 <= #[trigger] ord[k] < nodes.len()
    &&& forall|k: int| 0 <= k < ord.len() ==> reach(nodes, root, #[trigger] ord[k])
    &&& forall|k: int| 0 <= k < ord.len() ==> !(nodes[#[trigger] ord[k]].kind is Unknown)
    &&& forall|k1: int, k2: int| 0 <= k1 < k2 < ord.len() ==> ord[k1] != ord[k2]
    &&& forall|j: int| 0 <= j < nodes.len() && reach(nodes, root, j) ==> ord.contains(j)
    &&& forall|k: int, d: int|
        0 <= k < ord.len() && nodes[ord[k]].deps.contains(d) ==> exists|m: int|
            0 <= m < k && ord[m] == d
}

impl NodeVisitor {
    /// Depth-first post-order emission from node `i`.  Marks `i` visiting,
    /// finishes every dependency first, then emits `i` and marks it
    /// visited.  A visiting dependency is a back-edge (cycle); a
    /// placeholder is an unresolved prerequisite.
    fn dfs(
        &self,
        i: usize,
        Ghost(root): Ghost<int>,
        st: &mut Vec<u8>,
        out: &mut Vec<usize>,
    ) -> (r: Result<(), MakeError>)
        requires
            self.wf(),
            i < self@.nodes.len(),
            old(st)@.len() == self@.nodes.len(),
            old(st)@[i as int] == 0,
            topo_inv(self@.nodes, root, old(st)@, idx_views(old(out)@)),
            reach(self@.nodes, root, i as int),
            forall|j: int|
                0 <= j < old(st)@.len() && old(st)@[j] == 1 ==> reach(
                    self@.nodes,
                    j,
                    i as int,
                ),
        ensures
            final(st)@.len() == old(st)@.len(),
            r matches Err(e) ==> sched_fail(self@.nodes, root, e@),
            r is Ok ==> {
                &&& forall|j: int|
                    0 <= j < old(st)@.len() ==> ((final(st)@[j] == 1) <==> (old(st)@[j] == 1))
                &&& forall|j: int| 0 <= j < old(st)@.len() && old(st)@[j] == 2 ==> final(st)@[j] == 2
                &&& forall|j: int| 0 <= j < old(st)@.len() && final(st)@[j] == 0 ==> old(st)@[j] == 0
                &&& final(out)@.len() >= old(out)@.len()
                &&& forall|k: int| 0 <= k < old(out)@.len() ==> final(out)@[k] == old(out)@[k]
                &&& topo_inv(self@.nodes, root, final(st)@, idx_views(final(out)@))
                &&& final(st)@[i as int] == 2
                &&& final(out)@.len() > old(out)@.len()
                &&& final(out)@.last() == i
            },
        decreases count_zeros(st@),
    {
        let ghost nodes = self@.nodes;
        let ghost st0 = st@;
        let unknown = matches!(self.nodes[i].node_type, NodeType::Unknown);
        if unknown {
            return Err(MakeError::UnresolvedPrerequisite { name: self.nodes[i].name.clone() });
        }
        st[i] = 1;
        proof {
            lemma_reach_refl(nodes, i as int);
            assert(topo_inv(nodes, root, st@, idx_views(out@)));
        }
        let deps_len = self.nodes[i].dependencies.len();
        let mut k: usize = 0;
        while k < deps_len
            invariant
                self.wf(),
                nodes == self@.nodes,
                i < nodes.len(),
                deps_len == nodes[i as int].deps.len(),
                k <= deps_len,
                st0 == old(st)@,
                st0.len() == nodes.len(),
                st@.len() == nodes.len(),
                st0[i as int] == 0,
                st@[i as int] == 1,
                topo_inv(nodes, root, st@, idx_views(out@)),
                forall|j: int| 0 <= j < st0.len() ==> ((st@[j] == 1) <==> (st0[j] == 1 || j == i)),
                forall|j: int| 0 <= j < st0.len() && st0[j] == 2 ==> st@[j] == 2,
                forall|j: int| 0 <= j < st0.len() && st@[j] == 0 ==> st0[j] == 0,
                out@.len() >= old(out)@.len(),
                forall|k2: int| 0 <= k2 < old(out)@.len() ==> out@[k2] == old(out)@[k2],
                forall|m: int| 0 <= m < k ==> st@[nodes[i as int].deps[m]] == 2,
                reach(nodes, root, i as int),
                forall|j: int| 0 <= j < st@.len() && st@[j] == 1 ==> reach(nodes, j, i as int),
            decreases deps_len - k,
        {
            let d = self.nodes[i].dependencies[k];
            proof {
                assert(edge(nodes, i as int, d as int)) by {
                    assert(nodes[i as int].deps[k as int] == d as int);
                }
                assert(d < nodes.len());
            }
            let sd = st[d];
            if sd == 1 {
                let from = self.nodes[i].name.clone();
                let to = self.nodes[d].name.clone();
                proof {
                    let a = d as int;
                    let b = i as int;
                    assert(reach(nodes, root, b) && reach(nodes, a, b) && edge(nodes, b, a));
                }
                return Err(MakeError::CycleDetected { from, to });
            }
            if sd == 0 {
                proof {
                    lemma_reach_step(nodes, root, i as int, d as int);
                    assert forall|j: int| 0 <= j < st@.len() && st@[j] == 1 implies reach(
                        nodes,
                        j,
                        d as int,
                    ) by {
                        lemma_reach_step(nodes, j, i as int, d as int);
                    }
                    lemma_count_zeros_strict(st0, st@, i as int);
                    lemma_count_zeros_mono(st0, st@);
                    lemma_count_zeros_nonneg(st@);
                }
                let ghost st_pre = st@;
                let ghost out_pre = out@;
                match self.dfs(d, Ghost(root), st, out) {
                    Ok(()) => {
                        proof {
                            assert forall|j: int|
                                0 <= j < st0.len() implies ((st@[j] == 1) <==> (st0[j] == 1 || j
                                == i)) by {
                                assert((st@[j] == 1) <==> (st_pre[j] == 1));
                            }
                        }
                    },
                    Err(e) => {
                        return Err(e);
                    },
                }
            }
            proof {
                assert(st@[nodes[i as int].deps[k as int]] == 2);
            }
            k = k + 1;
        }
        let ghost st_fin = st@;
        let ghost out_fin = idx_views(out@);
        out.push(i);
        st[i] = 2;
        proof {
            assert(idx_views(out@) =~= out_fin.push(i as int));
            let st2 = st@;
            let out2 = idx_views(out@);
            assert forall|j: int| 0 <= j < st2.len() && st2[j] == 2 implies out2.contains(j) by {
                if j == i {
                    assert(out2[out2.len() - 1] == i as int);
                } else {
                    assert(st_fin[j] == 2);
                    assert(out_fin.contains(j));
                    let m = choose|m: int| 0 <= m < out_fin.len() && out_fin[m] == j;
                    assert(out2[m] == j);
                }
            }
            assert forall|x: int, kk: int|
                0 <= x < nodes.len() && st2[x] == 2 && 0 <= kk < nodes[x].deps.len() implies st2[
                #[trigger] nodes[x].deps[kk]] == 2 by {
                if x == i {
                    assert(st_fin[nodes[i as int].deps[kk]] == 2);
                } else {
                    assert(st_fin[x] == 2);
                    assert(st_fin[nodes[x].deps[kk]] == 2);
                }
            }
            assert forall|k1: int, d2: int|
                0 <= k1 < out2.len() && nodes[out2[k1]].deps.contains(d2) implies exists|m: int|
                0 <= m < k1 && out2[m] == d2 by {
                if k1 < out_fin.len() {
                    assert(out2[k1] == out_fin[k1]);
                    let m = choose|m: int| 0 <= m < k1 && out_fin[m] == d2;
                    assert(out2[m] == d2);
                } else {
                    assert(out2[k1] == i as int);
                    let kk = choose|kk: int|
                        0 <= kk < nodes[i as int].deps.len() && nodes[i as int].deps[kk] == d2;
                    assert(st_fin[d2] == 2);
                    assert(out_fin.contains(d2));
                    let m = choose|m: int| 0 <= m < out_fin.len() && out_fin[m] == d2;
                    assert(out2[m] == d2);
                }
            }
            assert(topo_inv(nodes, root, st@, idx_views(out@)));
        }
        Ok(())
    }

    /// A cycle-safe topological order of everything the requested node
    /// needs: every node reachable from `root` appears exactly once, after
    /// all of its dependencies, with `root` itself last.  A reachable cycle
    /// or unresolved placeholder aborts with the offending names, before
    /// anything is executed.
    pub fn topo_sort(&self, root: usize) -> (r: Result<Vec<usize>, MakeError>)
        requires
            self.wf(),
            root < self@.nodes.len(),
        ensures
            match r {
                Ok(order) => topo_props(self@.nodes, root as int, idx_views(order@))
                    && order@.len() > 0 && order@.last() == root,
                Err(e) => sched_fail(self@.nodes, root as int, e@),
            },
    {
        let ghost nodes = self@.nodes;
        let n = self.nodes.len();
        let mut st: Vec<u8> = Vec::new();
        let mut m: usize = 0;
        while m < n
            invariant
                m <= n,
                st@.len() == m,
                forall|j: int| 0 <= j < m ==> st@[j] == 0,
            decreases n - m,
        {
            st.push(0);
            m = m + 1;
        }
        let mut out: Vec<usize> = Vec::new();
        proof {
            assert(idx_views(out@) =~= Seq::<int>::empty());
            assert(topo_inv(nodes, root as int, st@, idx_views(out@)));
            lemma_reach_refl(nodes, root as int);
        }
        match self.dfs(root, Ghost(root as int), &mut st, &mut out) {
            Err(e) => Err(e),
            Ok(()) => {
                proof {
                    let ord = idx_views(out@);
                    assert forall|j: int|
                        0 <= j < nodes.len() && reach(nodes, root as int, j) implies ord.contains(
                        j,
                    ) by {
                        lemma_reachable_visited(nodes, st@, root as int, j);
                    }
                }
                Ok(out)
            },
        }
    }
}

/// One planned step of a run: a node's name and the commands its execution
/// runs.  A `File` node contributes no commands: its presence on disk alone
/// satisfies its dependents.
pub struct Task {
    pub name: String,
    pub commands: Vec<Command>,
}

/// The mathematical shadow of [`Task`].
pub struct TaskView {
    pub name: Seq<char>,
    pub commands: Seq<CommandView>,
}

impl View for Task {
    type V = TaskView;

    open spec fn view(&self) -> TaskView {
        TaskView { name: self.name@, commands: cmd_views(self.commands@) }
    }
}

/// The views of a sequence of tasks.
pub open spec fn task_views(v: Seq<Task>) -> Seq<TaskView> {
    v.map_values(|t: Task| t@)
}

/// The commands a node contributes when executed: a target's recipe in
/// declared order; anything else contributes none.
pub open spec fn node_commands(k: NodeKind) -> Seq<CommandView> {
    match k {
        NodeKind::Target(c) => c,
        _ => Seq::<CommandView>::empty(),
    }
}

/// The planned step for node `i`.
pub open spec fn task_of(nodes: Seq<NodeView>, i: int) -> TaskView {
    TaskView { name: nodes[i].name, commands: node_commands(nodes[i].kind) }
}

/// The commands of the first `n` tasks, concatenated in declared order.
pub open spec fn prefix_cmds(tasks: Seq<TaskView>, n: int) -> Seq<CommandView>
    decreases n,
{
    if n <= 0 {
        Seq::<CommandView>::empty()
    } else {
        prefix_cmds(tasks, n - 1) + tasks[n - 1].commands
    }
}

/// Every command of the whole plan, in declared order.
pub open spec fn all_commands(tasks: Seq<TaskView>) -> Seq<CommandView> {
    prefix_cmds(tasks, tasks.len() as int)
}

/// The commands of the tasks from `n` on, concatenated in declared order.
pub open spec fn suffix_cmds(tasks: Seq<TaskView>, n: int) -> Seq<CommandView>
    decreases tasks.len() - n,
{
    if 0 <= n < tasks.len() {
        tasks[n].commands + suffix_cmds(tasks, n + 1)
    } else {
        Seq::<CommandView>::empty()
    }
}

/// What has been issued by the time the cursor stands at task `cur`,
/// command `cmd`.
pub open spec fn issued_of(tasks: Seq<TaskView>, cur: int, cmd: int) -> Seq<CommandView> {
    prefix_cmds(tasks, cur) + if cur < tasks.len() {
        tasks[cur].commands.subrange(0, cmd)
    } else {
        Seq::<CommandView>::empty()
    }
}

/// A run in progress: the ordered plan, a cursor over its commands, the
/// first failure if one was reported, and the history of issued commands.
/// Commands are handed out strictly in declared order, and nothing more is
/// handed out once a failure is reported.
pub struct Execution {
    pub tasks: Vec<Task>,
    pub cur: usize,
    pub cmd: usize,
    pub failed: Option<String>,
    pub issued: Ghost<Seq<CommandView>>,
}

impl Execution {
    /// The cursor is inside the plan, stands on a real command while the
    /// run is healthy, and the issued history matches it.
    pub open spec fn wf(&self) -> bool {
        &&& self.cur <= self.tasks@.len()
        &&& self.cur < self.tasks@.len() ==> self.cmd <= task_views(self.tasks@)[self.cur as int].commands.len()
        &&& (self.failed is None && self.cur < self.tasks@.len() ==> self.cmd < task_views(
            self.tasks@,
        )[self.cur as int].commands.len())
        &&& self.issued@ == issued_of(task_views(self.tasks@), self.cur as int, self.cmd as int)
    }

    /// The command to run next: none once the plan is exhausted or a
    /// failure was reported.
    pub open spec fn spec_next_command(&self) -> Option<CommandView> {
        if self.failed is Some || self.cur >= self.tasks@.len() {
            None
        } else {
            Some(task_views(self.tasks@)[self.cur as int].commands[self.cmd as int])
        }
    }

    /// Move the cursor forward past exhausted tasks (tasks without
    /// commands, such as planned `File` nodes, run nothing).
    fn advance_position(&mut self)
        requires
            old(self).cur <= old(self).tasks@.len(),
            old(self).cur < old(self).tasks@.len() ==> old(self).cmd <= task_views(
                old(self).tasks@,
            )[old(self).cur as int].commands.len(),
            old(self).issued@ == issued_of(
                task_views(old(self).tasks@),
                old(self).cur as int,
                old(self).cmd as int,
            ),
        ensures
            final(self).tasks@ == old(self).tasks@,
            final(self).failed == old(self).failed,
            final(self).issued@ == old(self).issued@,
            final(self).cur <= final(self).tasks@.len(),
            final(self).cur < final(self).tasks@.len() ==> final(self).cmd < task_views(
                final(self).tasks@,
            )[final(self).cur as int].commands.len(),
            final(self).issued@ == issued_of(
                task_views(final(self).tasks@),
                final(self).cur as int,
                final(self).cmd as int,
            ),
    {
        while self.cur < self.tasks.len() && self.cmd >= self.tasks[self.cur].commands.len()
            invariant
                self.tasks@ == old(self).tasks@,
                self.failed == old(self).failed,
                self.issued@ == old(self).issued@,
                self.cur <= self.tasks@.len(),
                self.cur < self.tasks@.len() ==> self.cmd <= task_views(self.tasks@)[self.cur as int].commands.len(),
                self.issued@ == issued_of(
                    task_views(self.tasks@),
                    self.cur as int,
                    self.cmd as int,
                ),
            decreases self.tasks@.len() - self.cur,
        {
            proof {
                let tv = task_views(self.tasks@);
                let c = self.cur as int;
                assert(prefix_cmds(tv, c + 1) == prefix_cmds(tv, c) + tv[c].commands);
                assert(tv[c].commands.subrange(0, self.cmd as int) =~= tv[c].commands);
                assert(issued_of(tv, c + 1, 0) =~= issued_of(tv, c, self.cmd as int));
            }
            self.cur = self.cur + 1;
            self.cmd = 0;
        }
    }

    /// A fresh run over the given plan: nothing issued, nothing failed,
    /// the cursor on the first real command.
    pub fn new(tasks: Vec<Task>) -> (r: Execution)
        ensures
            r.wf(),
            r.failed is None,
            r.issued@ == Seq::<CommandView>::empty(),
            task_views(r.tasks@) == task_views(tasks@),
    {
        let ghost tv = task_views(tasks@);
        let mut e = Execution {
            tasks,
            cur: 0,
            cmd: 0,
            failed: None,
            issued: Ghost(Seq::<CommandView>::empty()),
        };
        proof {
            assert(issued_of(tv, 0, 0) =~= Seq::<CommandView>::empty());
        }
        e.advance_position();
        e
    }

    /// The command to run next, if the run is still healthy and commands
    /// are left.
    pub fn next_command(&self) -> (r: Option<&Command>)
        requires
            self.wf(),
        ensures
            match self.spec_next_command() {
                Some(cv) => r matches Some(c) && c@ == cv,
                None => r is None,
            },
    {
        match &self.failed {
            Some(_) => None,
            None => {
                if self.cur < self.tasks.len() {
                    Some(&self.tasks[self.cur].commands[self.cmd])
                } else {
                    None
                }
            },
        }
    }

    /// Record the outcome of the command just handed out.  On success the
    /// cursor moves to the next command; on failure the run is marked
    /// failed with the offending program, and nothing more will be handed
    /// out.
    pub fn report_status(&mut self, ok: bool)
        requires
            old(self).wf(),
            old(self).spec_next_command() is Some,
        ensures
            final(self).wf(),
            task_views(final(self).tasks@) == task_views(old(self).tasks@),
            final(self).issued@ == old(self).issued@.push(
                old(self).spec_next_command().unwrap(),
            ),
            ok ==> final(self).failed == old(self).failed,
            !ok ==> (final(self).failed matches Some(p) && p@ == old(
                self,
            ).spec_next_command().unwrap().program),
            !ok ==> final(self).spec_next_command() is None,
    {
        let ghost tv = task_views(self.tasks@);
        let ghost c = self.cur as int;
        let ghost m = self.cmd as int;
        let program = self.tasks[self.cur].commands[self.cmd].command.clone();
        self.issued = Ghost(self.issued@.push(tv[c].commands[m]));
        let n_cmds = self.tasks[self.cur].commands.len();
        proof {
            assert(tv[c].commands.len() == self.tasks@[c].commands@.len());
            assert(self.cmd < n_cmds);
        }
        self.cmd = self.cmd + 1;
        proof {
            assert(tv[c].commands.subrange(0, m + 1) =~= tv[c].commands.subrange(0, m).push(
                tv[c].commands[m],
            ));
            assert(issued_of(tv, c, m + 1) =~= issued_of(tv, c, m).push(tv[c].commands[m]));
        }
        if !ok {
            self.failed = Some(program);
        } else {
            self.advance_position();
        }
    }

    /// The outcome of a finished run: success, or the failure that stopped
    /// it.  Success of the whole plan is the only success outcome.
    pub fn outcome(&self) -> (r: Result<(), MakeError>)
        requires
            self.wf(),
            self.spec_next_command() is None,
        ensures
            match self.failed {
                Some(p) => r matches Err(e) && e@ == (MakeErrorView::CommandFailed {
                    program: p@,
                }),
                None => r is Ok && self.cur == self.tasks@.len(),
            },
    {
        match &self.failed {
            Some(p) => Err(MakeError::CommandFailed { program: p.clone() }),
            None => Ok(()),
        }
    }
}

/// A deep copy of a recipe that provably keeps every command.
fn clone_commands(v: &Vec<Command>) -> (r: Vec<Command>)
    ensures
        cmd_views(r@) == cmd_views(v@),
{
    let mut r: Vec<Command> = Vec::new();
    proof {
        assert(cmd_views(r@) =~= cmd_views(v@).subrange(0, 0));
    }
    let mut k: usize = 0;
    while k < v.len()
        invariant
            k <= v@.len(),
            cmd_views(r@) == cmd_views(v@).subrange(0, k as int),
        decreases v@.len() - k,
    {
        r.push(v[k].clone());
        proof {
            assert(cmd_views(r@) =~= cmd_views(r@.drop_last()).push(v@[k as int]@));
            assert(cmd_views(v@).subrange(0, k + 1 as int) =~= cmd_views(v@).subrange(
                0,
                k as int,
            ).push(cmd_views(v@)[k as int]));
        }
        k = k + 1;
    }
    proof {
        assert(cmd_views(v@).subrange(0, v@.len() as int) =~= cmd_views(v@));
    }
    r
}

/// A successfully planned run: a fresh, healthy execution whose tasks are
/// exactly some correct schedule for the root, node by node.
pub open spec fn run_ok(b: crate::visitor::BuilderView, root: int, ex: Execution) -> bool {
    &&& ex.wf()
    &&& ex.failed is None
    &&& ex.issued@ == Seq::<CommandView>::empty()
    &&& exists|ord: Seq<int>|
        topo_props(b.nodes, root, ord) && task_views(ex.tasks@) == ord.map_values(
            |i: int| task_of(b.nodes, i),
        )
}

/// The node a request names: an explicit target name is looked up in the
/// graph, an absent one falls back to the recorded default target.
pub open spec fn requested_root(b: crate::visitor::BuilderView, target: Option<Seq<char>>) -> Option<
    int,
> {
    match target {
        Some(name) => find_name(b.nodes, name),
        None => b.default_target,
    }
}

impl NodeVisitor {
    /// Plan a run for the requested target (or the default target): a
    /// cycle-safe topological schedule turned into tasks, ready to be
    /// driven command by command.  Scheduling is computed fully before any
    /// side effect: a cycle or an unresolved prerequisite aborts here.
    #[verifier::rlimit(50)]
    pub fn run(&self, target: Option<String>) -> (r: Result<Execution, MakeError>)
        requires
            self.wf(),
        ensures
            ({
                let treq: Option<Seq<char>> = match target {
                    Some(n) => Some(n@),
                    None => None,
                };
                match requested_root(self@, treq) {
                    Some(root) => match r {
                        Ok(ex) => run_ok(self@, root, ex),
                        Err(e) => sched_fail(self@.nodes, root, e@),
                    },
                    None => match treq {
                        Some(n) => r matches Err(e) && e@ == (MakeErrorView::TargetNotFound {
                            name: n,
                        }),
                        None => r matches Err(e) && e@ == MakeErrorView::NoDefaultTarget,
                    },
                }
            }),
    {
        let ghost nodes = self@.nodes;
        let root_opt: Option<usize> = match &target {
            Some(name) => self.find_node(name),
            None => self.default_target,
        };
        let root = match root_opt {
            Some(i) => i,
            None => {
                return Err(
                    match target {
                        Some(name) => MakeError::TargetNotFound { name },
                        None => MakeError::NoDefaultTarget,
                    },
                );
            },
        };
        let order = match self.topo_sort(root) {
            Ok(o) => o,
            Err(e) => {
                return Err(e);
            },
        };
        let ghost ord = idx_views(order@);
        let mut tasks: Vec<Task> = Vec::new();
        proof {
            assert(task_views(tasks@) =~= ord.subrange(0, 0).map_values(
                |i: int| task_of(nodes, i),
            ));
        }
        let mut k: usize = 0;
        while k < order.len()
            invariant
                self.wf(),
                nodes == self@.nodes,
                topo_props(nodes, root as int, ord),
                ord == idx_views(order@),
                k <= order@.len(),
                task_views(tasks@) == ord.subrange(0, k as int).map_values(
                    |i: int| task_of(nodes, i),
                ),
            decreases order@.len() - k,
        {
            let idx = order[k];
            proof {
                assert(ord[k as int] == idx as int);
                assert(0 <= ord[k as int] < nodes.len());
            }
            let name = self.nodes[idx].name.clone();
            let commands: Vec<Command> = match &self.nodes[idx].node_type {
                NodeType::Target { commands } => clone_commands(commands),
                NodeType::File { .. } => Vec::new(),
                NodeType::Unknown => Vec::new(),
            };
            proof {
                assert(cmd_views(Seq::<Command>::empty()) =~= Seq::<CommandView>::empty());
            }
            tasks.push(Task { name, commands });
            proof {
                assert(task_views(tasks@) =~= task_views(tasks@.drop_last()).push(
                    task_of(nodes, ord[k as int]),
                ));
                assert(ord.subrange(0, k + 1 as int) =~= ord.subrange(0, k as int).push(
                    ord[k as int],
                ));
                assert(ord.subrange(0, k + 1 as int).map_values(|i: int| task_of(nodes, i))
                    =~= ord.subrange(0, k as int).map_values(|i: int| task_of(nodes, i)).push(
                    task_of(nodes, ord[k as int]),
                ));
            }
            k = k + 1;
        }
        proof {
            assert(ord.subrange(0, ord.len() as int) =~= ord);
        }
        let ex = Execution::new(tasks);
        proof {
            assert(ord.map_values(|i: int| task_of(self@.nodes, i)) =~= ord.map_values(
                |i: int| task_of(nodes, i),
            ));
            assert(topo_props(self@.nodes, root as int, ord) && task_views(ex.tasks@)
                == ord.map_values(|i: int| task_of(self@.nodes, i)));
            assert(run_ok(self@, root as int, ex));
        }
        Ok(ex)
    }
}


/// The position of a node in a duplicate-free schedule.
pub open spec fn pos_of(ord: Seq<int>, x: int) -> int {
    choose|m: int| 0 <= m < ord.len() && ord[m] == x
}

proof fn lemma_pos_of(ord: Seq<int>, x: int)
    requires
        ord.contains(x),
    ensures
        0 <= pos_of(ord, x) < ord.len(),
        ord[pos_of(ord, x)] == x,
{
    assert(exists|m: int| 0 <= m < ord.len() && ord[m] == x);
}

/// A dependency edge forces the depended-on node strictly earlier in the
/// schedule.
proof fn lemma_edge_pos(nodes: Seq<NodeView>, root: int, ord: Seq<int>, x: int, y: int)
    requires
        topo_props(nodes, root, ord),
        ord.contains(x),
        edge(nodes, x, y),
    ensures
        ord.contains(y),
        pos_of(ord, y) < pos_of(ord, x),
{
    lemma_pos_of(ord, x);
    let k = pos_of(ord, x);
    assert(nodes[ord[k]].deps.contains(y));
    let m = choose|m: int| 0 <= m < k && ord[m] == y;
    assert(ord[m] == y);
    lemma_pos_of(ord, y);
    let py = pos_of(ord, y);
    if py < m {
        assert(ord[py] != ord[m]);
    } else if m < py {
        assert(ord[m] != ord[py]);
    }
}

/// A dependency path only ever leads backwards in the schedule, strictly
/// so with every step.
proof fn lemma_path_pos(nodes: Seq<NodeView>, root: int, ord: Seq<int>, p: Seq<int>)
    requires
        topo_props(nodes, root, ord),
        is_path(nodes, p),
        ord.contains(p.first()),
    ensures
        ord.contains(p.last()),
        pos_of(ord, p.last()) <= pos_of(ord, p.first()) - (p.len() - 1),
    decreases p.len(),
{
    if p.len() > 1 {
        assert(edge(nodes, p[0], p[1]));
        lemma_edge_pos(nodes, root, ord, p[0], p[1]);
        let q = p.drop_first();
        assert forall|m: int| 0 <= m < q.len() implies 0 <= #[trigger] q[m] < nodes.len() by {
            assert(q[m] == p[m + 1]);
        }
        assert forall|m: int| 0 <= m < q.len() - 1 implies edge(nodes, #[trigger] q[m], q[m + 1]) by {
            assert(q[m] == p[m + 1] && q[m + 1] == p[m + 2]);
            assert(edge(nodes, p[m + 1], p[m + 2]));
        }
        assert(is_path(nodes, q));
        lemma_path_pos(nodes, root, ord, q);
        assert(q.last() == p.last());
    }
}

/// A schedule in which every node follows all of its dependencies rules
/// out any dependency cycle among the nodes reachable from the root: were
/// an edge to lead from a reachable node back to one of its (transitive)
/// dependents, both would need to stand strictly before each other.  So a
/// cyclic graph admits no such schedule, and the scheduler can only report
/// the cycle.
pub proof fn lemma_topo_order_acyclic(nodes: Seq<NodeView>, root: int, ord: Seq<int>)
    requires
        graph_wf(nodes),
        topo_props(nodes, root, ord),
    ensures
        forall|a: int, b: int|
            !(reach(nodes, root, a) && reach(nodes, a, b) && edge(nodes, b, a)),
{
    assert forall|a: int, b: int|
        !(reach(nodes, root, a) && reach(nodes, a, b) && edge(nodes, b, a)) by {
        if reach(nodes, root, a) && reach(nodes, a, b) && edge(nodes, b, a) {
            let p0 = choose|p: Seq<int>|
                is_path(nodes, p) && p.first() == root && p.last() == a;
            assert(0 <= a < nodes.len());
            assert(ord.contains(a));
            let p = choose|p: Seq<int>| is_path(nodes, p) && p.first() == a && p.last() == b;
            lemma_path_pos(nodes, root, ord, p);
            lemma_edge_pos(nodes, root, ord, b, a);
            assert(false);
        }
    }
}

/// A planned `File` node runs nothing: the mere on-disk existence of the
/// entry satisfies its dependents, so its task carries no commands.
pub proof fn lemma_file_task_runs_nothing(nodes: Seq<NodeView>, i: int)
    requires
        0 <= i < nodes.len(),
        nodes[i].kind matches NodeKind::File(_),
    ensures
        task_of(nodes, i).commands.len() == 0,
{
}

/// The whole plan holds the commands of the first `n` tasks followed by
/// those of the rest.
proof fn lemma_prefix_suffix(tasks: Seq<TaskView>, n: int)
    requires
        0 <= n <= tasks.len(),
    ensures
        all_commands(tasks) == prefix_cmds(tasks, n) + suffix_cmds(tasks, n),
    decreases tasks.len() - n,
{
    if n == tasks.len() {
        assert(prefix_cmds(tasks, n) + suffix_cmds(tasks, n) =~= prefix_cmds(tasks, n));
    } else {
        lemma_prefix_suffix(tasks, n + 1);
        assert(prefix_cmds(tasks, n + 1) == prefix_cmds(tasks, n) + tasks[n].commands);
        assert(suffix_cmds(tasks, n) == tasks[n].commands + suffix_cmds(tasks, n + 1));
        assert((prefix_cmds(tasks, n) + tasks[n].commands) + suffix_cmds(tasks, n + 1)
            =~= prefix_cmds(tasks, n) + (tasks[n].commands + suffix_cmds(tasks, n + 1)));
    }
}

/// Commands run in declared order: at every moment of a run, what has been
/// issued is a prefix of the full declared command sequence of the plan,
/// task by task and command by command.
pub proof fn lemma_issued_in_declared_order(e: Execution)
    requires
        e.wf(),
    ensures
        e.issued@.is_prefix_of(all_commands(task_views(e.tasks@))),
{
    let tv = task_views(e.tasks@);
    let cur = e.cur as int;
    let cmd = e.cmd as int;
    lemma_prefix_suffix(tv, cur);
    if cur < tv.len() {
        let cms = tv[cur].commands;
        let rest = cms.subrange(cmd, cms.len() as int) + suffix_cmds(tv, cur + 1);
        assert(cms.subrange(0, cmd) + cms.subrange(cmd, cms.len() as int) =~= cms);
        assert(suffix_cmds(tv, cur) == cms + suffix_cmds(tv, cur + 1));
        assert(e.issued@ + rest =~= all_commands(tv));
        assert((e.issued@ + rest).subrange(0, e.issued@.len() as int) =~= e.issued@);
    } else {
        assert(suffix_cmds(tv, cur) =~= Seq::<CommandView>::empty());
        assert(e.issued@ =~= all_commands(tv));
        assert(all_commands(tv).subrange(0, all_commands(tv).len() as int) =~= all_commands(
            tv,
        ));
    }
}

/// Once a command has failed, nothing further is ever handed out: the
/// failure of one command stops the remaining commands of its target and
/// the rest of the plan.
pub proof fn lemma_failure_halts(e: Execution)
    requires
        e.failed is Some,
    ensures
        e.spec_next_command() is None,
{
}

} // verus!
