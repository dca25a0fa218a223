//! Checks on a task graph before anything runs, and the decisions that the
//! run builder and the task dispatcher take on plain values.
use vstd::prelude::*;
use crate::graph::{edges_in_range, is_cycle, DepGraph};
use crate::kv::message;
use crate::text::{chars_eq, chars_of, is_ws};
use crate::yarn1::occurs_at;

verus! {

/// The name of the workspace root package.
pub const ROOT_PKG_NAME: &'static str = "//";
pub const TURBO_WORD: &'static str = "turbo";
pub const TASK_SEP: &'static str = "#";

/// Tasks of a run: their names (`package#task`), which of them are
/// persistent, and what each depends on.
pub struct TaskGraph {
    names: Vec<String>,
    persistent: Vec<bool>,
    graph: DepGraph,
}

/// Why a task graph cannot run.
#[derive(Debug, Clone, PartialEq, Eq)]
pub enum EngineError {
    /// The tasks of a dependency cycle, in order.
    Cycle(Vec<String>),
    /// `task` depends on `dependency`, which never exits.
    PersistentDependency { task: String, dependency: String },
    /// Persistent tasks and their dependents hold `persistent` slots, and
    /// one more is needed to make progress.
    Concurrency { persistent: u64, concurrency: u32 },
}

/// Whether some dependency of task `i` is persistent.
pub open spec fn has_persistent_dep(g: Seq<Seq<usize>>, p: Seq<bool>, i: int) -> bool {
    exists|k: int| 0 <= k < g[i].len() && p[#[trigger] g[i][k] as int]
}

/// Whether task `i` holds a slot for good: it is persistent, or it waits on
/// a persistent task.
pub open spec fn holds_slot(g: Seq<Seq<usize>>, p: Seq<bool>, i: int) -> bool {
    p[i] || has_persistent_dep(g, p, i)
}

/// Number of the first `m` tasks that hold a slot for good.
pub open spec fn slots(g: Seq<Seq<usize>>, p: Seq<bool>, m: int) -> nat
    decreases m,
{
    if m <= 0 {
        0
    } else {
        slots(g, p, m - 1) + if holds_slot(g, p, m - 1) {
            1nat
        } else {
            0nat
        }
    }
}

proof fn lemma_slots_bound(g: Seq<Seq<usize>>, p: Seq<bool>, m: int)
    requires
        0 <= m,
    ensures
        slots(g, p, m) <= m,
    decreases m,
{
    if m > 0 {
        lemma_slots_bound(g, p, m - 1);
    }
}

impl TaskGraph {
    #[verifier::type_invariant]
    spec fn inv(self) -> bool {
        &&& self.names@.len() == self.graph@.len()
        &&& self.persistent@.len() == self.graph@.len()
    }

    pub closed spec fn deps(&self) -> Seq<Seq<usize>> {
        self.graph@
    }

    pub closed spec fn persistent_view(&self) -> Seq<bool> {
        self.persistent@
    }

    pub closed spec fn name(&self, i: int) -> Seq<char> {
        self.names@[i]@
    }

    /// Whether the graph has no cycle.
    pub open spec fn acyclic(&self) -> bool {
        forall|c: Seq<usize>| !#[trigger] is_cycle(self.deps(), c)
    }

    /// Whether no task depends on a persistent one.
    pub open spec fn no_persistent_deps(&self) -> bool {
        forall|i: int| 0 <= i < self.deps().len() ==> !#[trigger] has_persistent_dep(
            self.deps(),
            self.persistent_view(),
            i,
        )
    }

    /// Number of tasks that hold a worker slot for the whole run.
    pub open spec fn slot_count(&self) -> nat {
        slots(self.deps(), self.persistent_view(), self.deps().len() as int)
    }

    /// Whether `task` is the first task, by index, that depends on a
    /// persistent task, and `dependency` is such a persistent dependency.
    pub open spec fn first_persistent_dep(&self, task: Seq<char>, dependency: Seq<char>) -> bool {
        exists|i: int, k: int|
            {
                &&& 0 <= i < self.deps().len()
                &&& 0 <= k < self.deps()[i].len()
                &&& self.persistent_view()[#[trigger] self.deps()[i][k] as int]
                &&& task == self.name(i)
                &&& dependency == self.name(self.deps()[i][k] as int)
                &&& forall|j: int| 0 <= j < i ==> !#[trigger] has_persistent_dep(
                    self.deps(),
                    self.persistent_view(),
                    j,
                )
            }
    }

    /// A task graph; `None` where the lists differ in length or an edge
    /// names no task.
    pub fn new(names: Vec<String>, persistent: Vec<bool>, deps: Vec<Vec<usize>>) -> (r: Option<Self>)
        ensures
            match r {
                Some(t) => t.deps() == crate::graph::graph_view(deps@) && t.persistent_view()
                    == persistent@ && names.len() == deps.len() && forall|i: int|
                    0 <= i < names.len() ==> #[trigger] t.name(i) == names@[i]@,
                None => names.len() != deps.len() || persistent.len() != deps.len()
                    || !edges_in_range(crate::graph::graph_view(deps@)),
            },
    {
        if names.len() != deps.len() || persistent.len() != deps.len() {
            return None;
        }
        match DepGraph::new(deps) {
            Some(graph) => Some(TaskGraph { names, persistent, graph }),
            None => None,
        }
    }

    /// The dependency graph of the tasks.
    pub fn graph(&self) -> (r: &DepGraph)
        ensures
            r@ == self.deps(),
    {
        &self.graph
    }

    /// The first task, by index, that depends on a persistent task, with
    /// that dependency; none such is what a run needs.
    pub fn validate_persistent(&self) -> (r: Result<(), EngineError>)
        ensures
            match r {
                Ok(()) => forall|i: int| 0 <= i < self.deps().len() ==> !#[trigger] has_persistent_dep(
                    self.deps(),
                    self.persistent_view(),
                    i,
                ),
                Err(EngineError::PersistentDependency { task, dependency }) => exists|i: int, k: int|
                    {
                        &&& 0 <= i < self.deps().len()
                        &&& 0 <= k < self.deps()[i].len()
                        &&& self.persistent_view()[#[trigger] self.deps()[i][k] as int]
                        &&& task@ == self.name(i)
                        &&& dependency@ == self.name(self.deps()[i][k] as int)
                        &&& forall|j: int| 0 <= j < i ==> !#[trigger] has_persistent_dep(
                            self.deps(),
                            self.persistent_view(),
                            j,
                        )
                    },
                Err(_) => false,
            },
    {
        proof {
            use_type_invariant(self);
        }
        let n = self.graph.len();
        let ghost g = self.deps();
        let mut i: usize = 0;
        while i < n
            invariant
                i <= n == g.len(),
                g == self.deps(),
                edges_in_range(g),
                self.persistent@.len() == n,
                self.names@.len() == n,
                forall|j: int| 0 <= j < i ==> !#[trigger] has_persistent_dep(g, self.persistent@, j),
            decreases n - i,
        {
            let d = self.graph.deps_of(i);
            let mut k: usize = 0;
            while k < d.len()
                invariant
                    d@ == g[i as int],
                    k <= d.len(),
                    i < n == g.len(),
                    edges_in_range(g),
                    self.persistent@.len() == n,
                    self.names@.len() == n,
                    g == self.deps(),
                    forall|j: int| 0 <= j < i ==> !#[trigger] has_persistent_dep(g, self.persistent@, j),
                    forall|q: int| 0 <= q < k ==> !self.persistent@[#[trigger] g[i as int][q] as int],
                decreases d.len() - k,
            {
                if self.persistent[d[k]] {
                    assert(self.persistent@[g[i as int][k as int] as int]);
                    return Err(
                        EngineError::PersistentDependency {
                            task: self.names[i].clone(),
                            dependency: self.names[d[k]].clone(),
                        },
                    );
                }
                k += 1;
            }
            assert(!has_persistent_dep(g, self.persistent@, i as int));
            i += 1;
        }
        Ok(())
    }

    /// Number of tasks that hold a worker slot for the whole run: the
    /// persistent ones and those that depend on one.
    pub fn persistent_slots(&self) -> (r: usize)
        ensures
            r == slots(self.deps(), self.persistent_view(), self.deps().len() as int),
    {
        proof {
            use_type_invariant(self);
        }
        let n = self.graph.len();
        let ghost g = self.deps();
        let mut count: usize = 0;
        let mut i: usize = 0;
        while i < n
            invariant
                i <= n == g.len(),
                g == self.deps(),
                edges_in_range(g),
                self.persistent@.len() == n,
                count == slots(g, self.persistent@, i as int),
                count <= i,
            decreases n - i,
        {
            let mut hold = self.persistent[i];
            let d = self.graph.deps_of(i);
            let mut k: usize = 0;
            while k < d.len() && !hold
                invariant
                    d@ == g[i as int],
                    k <= d.len(),
                    i < n == g.len(),
                    edges_in_range(g),
                    self.persistent@.len() == n,
                    hold ==> holds_slot(g, self.persistent@, i as int),
                    !hold ==> !self.persistent@[i as int] && forall|q: int| 0 <= q < k ==> !self.persistent@[#[trigger] g[i as int][q] as int],
                decreases d.len() - k,
            {
                if self.persistent[d[k]] {
                    hold = true;
                }
                k += 1;
            }
            if hold {
                count += 1;
            }
            i += 1;
        }
        count
    }

    /// Whether `concurrency` workers can run the graph: the tasks that
    /// hold a slot for good need one more slot beside them.
    pub fn validate_concurrency(&self, concurrency: u32) -> (r: Result<(), EngineError>)
        ensures
            match r {
                Ok(()) => concurrency >= slots(self.deps(), self.persistent_view(), self.deps().len() as int) + 1,
                Err(EngineError::Concurrency { persistent, concurrency: c }) => c == concurrency
                    && persistent == slots(self.deps(), self.persistent_view(), self.deps().len() as int)
                    && concurrency < persistent + 1,
                Err(_) => false,
            },
    {
        let p = self.persistent_slots();
        if (concurrency as u64) <= (p as u64) {
            Err(EngineError::Concurrency { persistent: p as u64, concurrency })
        } else {
            Ok(())
        }
    }

    /// The names of the tasks of a cycle.
    fn cycle_names(&self, c: &Vec<usize>) -> (r: Vec<String>)
        requires
            forall|i: int| 0 <= i < c.len() ==> #[trigger] c@[i] < self.deps().len(),
        ensures
            r.len() == c.len(),
            forall|i: int| 0 <= i < c.len() ==> #[trigger] r@[i]@ == self.name(c@[i] as int),
    {
        proof {
            use_type_invariant(self);
        }
        let mut r: Vec<String> = Vec::new();
        let mut i: usize = 0;
        while i < c.len()
            invariant
                i <= c.len(),
                r.len() == i,
                self.names@.len() == self.deps().len(),
                forall|j: int| 0 <= j < c.len() ==> #[trigger] c@[j] < self.deps().len(),
                forall|j: int| 0 <= j < i ==> #[trigger] r@[j]@ == self.name(c@[j] as int),
            decreases c.len() - i,
        {
            r.push(self.names[c[i]].clone());
            i += 1;
        }
        r
    }

    /// All checks before a run: no cycle, no task that depends on a
    /// persistent one, and enough workers, in that order. A cycle is
    /// reported as one of the shortest.
    pub fn validate(&self, concurrency: u32) -> (r: Result<(), EngineError>)
        ensures
            match r {
                Ok(()) => {
                    &&& self.acyclic()
                    &&& self.no_persistent_deps()
                    &&& concurrency >= self.slot_count() + 1
                },
                Err(EngineError::Cycle(names)) => {
                    &&& exists|c: Seq<usize>|
                        #[trigger] is_cycle(self.deps(), c) && names.len() == c.len() && forall|i: int|
                            0 <= i < c.len() ==> #[trigger] names@[i]@ == self.name(c[i] as int)
                    &&& forall|c: Seq<usize>| #[trigger] is_cycle(self.deps(), c) ==> c.len() >= names.len()
                },
                Err(EngineError::PersistentDependency { task, dependency }) => {
                    &&& self.acyclic()
                    &&& self.first_persistent_dep(task@, dependency@)
                },
                Err(EngineError::Concurrency { persistent, concurrency: c }) => {
                    &&& self.acyclic()
                    &&& self.no_persistent_deps()
                    &&& c == concurrency
                    &&& persistent == self.slot_count()
                    &&& concurrency < persistent + 1
                },
            },
            !self.acyclic() ==> r is Err && r->Err_0 is Cycle,
    {
        match self.graph.topological_order() {
            Err(c0) => {
                let c = match self.graph.shortest_cycle(c0.len()) {
                    Some(c) => c,
                    None => {
                        assert(is_cycle(self.deps(), c0@));
                        c0
                    },
                };
                let names = self.cycle_names(&c);
                return Err(EngineError::Cycle(names));
            },
            Ok(o) => {
                proof {
                    assert forall|c: Seq<usize>| !#[trigger] is_cycle(self.deps(), c) by {
                        if is_cycle(self.deps(), c) {
                            crate::graph::lemma_cycle_has_no_order(self.deps(), c, o@);
                        }
                    }
                }
            },
        }
        match self.validate_persistent() {
            Err(e) => return Err(e),
            Ok(()) => {},
        }
        self.validate_concurrency(concurrency)
    }
}

/// Whether `cmd` runs `turbo` as a word of its own: at the start or after
/// whitespace, and at the end or before whitespace.
pub open spec fn invokes_turbo(cmd: Seq<char>) -> bool {
    exists|i: int|
        occurs_at(cmd, TURBO_WORD@, i) && (i == 0 || is_ws(cmd[i - 1])) && (i + TURBO_WORD@.len()
            == cmd.len() || is_ws(cmd[i + TURBO_WORD@.len()]))
}

/// Whether running `command` as a task of `package` would call the tool
/// again on itself: it is a script of the root package that runs `turbo`.
/// Scripts of other packages may call `turbo`.
pub fn is_recursive_turbo(package: &str, command: &str) -> (r: bool)
    ensures
        r == (package@ == ROOT_PKG_NAME@ && invokes_turbo(command@)),
{
    if !crate::text::str_eq(package, ROOT_PKG_NAME) {
        return false;
    }
    let cs = chars_of(command);
    let w = chars_of(TURBO_WORD);
    assert(TURBO_WORD@.len() == 5) by {
        reveal_strlit("turbo");
    }
    let m = w.len();
    if cs.len() < m {
        assert forall|i: int| !(occurs_at(command@, TURBO_WORD@, i)) by {}
        return false;
    }
    let mut i: usize = 0;
    while i <= cs.len() - m
        invariant
            cs@ == command@,
            w@ == TURBO_WORD@,
            m == 5,
            TURBO_WORD@.len() == 5,
            package@ == ROOT_PKG_NAME@,
            m <= cs.len(),
            i <= cs.len() - m + 1,
            forall|j: int|
                0 <= j < i ==> !(occurs_at(command@, TURBO_WORD@, j) && (j == 0 || is_ws(
                    command@[j - 1],
                )) && (j + 5 == command@.len() || is_ws(command@[j + 5]))),
        decreases cs.len() - m + 1 - i,
    {
        if chars_eq(&cs, i, i + m, &w) && (i == 0 || crate::text::char_is_ws(cs[i - 1])) && (i + m
            == cs.len() || crate::text::char_is_ws(cs[i + m])) {
            assert(occurs_at(command@, TURBO_WORD@, i as int) && (i == 0 || is_ws(command@[i - 1]))
                && (i + TURBO_WORD@.len() == command@.len() || is_ws(
                command@[i + TURBO_WORD@.len()],
            )));
            return true;
        }
        i += 1;
    }
    assert forall|j: int|
        !(occurs_at(command@, TURBO_WORD@, j) && (j == 0 || is_ws(command@[j - 1])) && (j + 5
            == command@.len() || is_ws(command@[j + 5]))) by {
        if j >= i {
            assert(!occurs_at(command@, TURBO_WORD@, j));
        }
    }
    false
}

/// A root task whose script would run the tool again.
#[derive(Debug, Clone, PartialEq, Eq)]
pub struct RecursiveTurboError {
    pub task_name: String,
    pub command: String,
}

/// Refuses to run a root task whose script calls `turbo`, before anything
/// is spawned.
pub fn check_task_command(package: &str, task: &str, command: &str) -> (r: Result<
    (),
    RecursiveTurboError,
>)
    ensures
        match r {
            Ok(()) => !(package@ == ROOT_PKG_NAME@ && invokes_turbo(command@)),
            Err(e) => package@ == ROOT_PKG_NAME@ && invokes_turbo(command@) && e.task_name@
                == package@ + TASK_SEP@ + task@ && e.command@ == command@,
        },
{
    if is_recursive_turbo(package, command) {
        let mut name = message(package, TASK_SEP);
        name.append(task);
        Err(RecursiveTurboError { task_name: name, command: command.to_owned() })
    } else {
        Ok(())
    }
}

/// The task a requested name stands for at the root: `pkg#task` as it is,
/// a bare `task` as `//#task`.
pub open spec fn root_task_name(t: Seq<char>) -> Seq<char> {
    if t.contains('#') {
        t
    } else {
        ROOT_PKG_NAME@ + TASK_SEP@ + t
    }
}

/// Whether `i` is the first requested task whose root name the root
/// configuration defines.
pub open spec fn first_root_task(tasks: Seq<Seq<char>>, root_tasks: Seq<Seq<char>>, i: int) -> bool {
    &&& 0 <= i < tasks.len()
    &&& root_tasks.contains(root_task_name(tasks[i]))
    &&& forall|j: int| 0 <= j < i ==> !root_tasks.contains(#[trigger] root_task_name(tasks[j]))
}

/// Where every package is selected, the root package joins the run for
/// the first requested task that the root configuration defines as a root
/// task; this gives that task's root name.
pub fn root_task_to_include(tasks: &Vec<String>, root_tasks: &Vec<String>) -> (r: Option<String>)
    ensures
        match r {
            Some(t) => exists|i: int|
                first_root_task(crate::yarn1::keys_view(tasks@), crate::yarn1::keys_view(root_tasks@), i)
                    && t@ == root_task_name(tasks@[i]@),
            None => forall|i: int|
                0 <= i < tasks.len() ==> !crate::yarn1::keys_view(root_tasks@).contains(
                    #[trigger] root_task_name(tasks@[i]@),
                ),
        },
{
    let ghost tv = crate::yarn1::keys_view(tasks@);
    let ghost rv = crate::yarn1::keys_view(root_tasks@);
    let mut i: usize = 0;
    while i < tasks.len()
        invariant
            i <= tasks.len(),
            tv == crate::yarn1::keys_view(tasks@),
            rv == crate::yarn1::keys_view(root_tasks@),
            forall|j: int| 0 <= j < i ==> !rv.contains(#[trigger] root_task_name(tasks@[j]@)),
        decreases tasks.len() - i,
    {
        let cs = chars_of(tasks[i].as_str());
        let has_sep = match crate::text::find_char(&cs, 0, cs.len(), '#') {
            Some(_) => true,
            None => false,
        };
        proof {
            assert(cs@.subrange(0, cs.len() as int) =~= cs@);
            if has_sep {
                let q = choose|q: int| 0 <= q < cs@.len() && cs@[q] == '#';
                assert(tasks@[i as int]@.contains('#'));
            } else {
                assert(!tasks@[i as int]@.contains('#'));
            }
        }
        let name = if has_sep {
            tasks[i].clone()
        } else {
            let mut n = message(ROOT_PKG_NAME, TASK_SEP);
            n.append(tasks[i].as_str());
            n
        };
        assert(name@ == root_task_name(tasks@[i as int]@));
        let mut j: usize = 0;
        while j < root_tasks.len()
            invariant
                j <= root_tasks.len(),
                i < tasks.len(),
                tv == crate::yarn1::keys_view(tasks@),
                rv == crate::yarn1::keys_view(root_tasks@),
                name@ == root_task_name(tasks@[i as int]@),
                forall|q: int| 0 <= q < i ==> !rv.contains(#[trigger] root_task_name(tasks@[q]@)),
                forall|q: int| 0 <= q < j ==> rv[q] != name@,
            decreases root_tasks.len() - j,
        {
            assert(rv[j as int] == root_tasks@[j as int]@);
            if root_tasks[j] == name {
                proof {
                    assert(rv.contains(name@));
                    assert(tv[i as int] == tasks@[i as int]@);
                    assert forall|q: int| 0 <= q < i implies !rv.contains(#[trigger] root_task_name(tv[q])) by {
                        assert(tv[q] == tasks@[q]@);
                    }
                    assert(first_root_task(tv, rv, i as int));
                }
                return Some(name);
            }
            j += 1;
        }
        assert(!rv.contains(name@));
        i += 1;
    }
    None
}

} // verus!
