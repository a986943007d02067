//! Running a stage graph, as a state machine: the caller asks for the next
//! step, performs it against the backend, and reports how the stage ended.
use vstd::prelude::*;
use crate::graph::{inputs_defined, is_topological, listed_before, PipelineGraph, PlanNode};

verus! {

#[derive(Clone, Copy, Debug, PartialEq, Eq, Structural)]
pub enum StageState {
    Pending,
    Running,
    Completed,
    Failed,
    Cancelled,
}

/// What the caller is to do next.
#[derive(Clone, Copy, Debug, PartialEq, Eq, Structural)]
pub enum Step {
    /// Run this stage: its inputs are all completed.
    Start(usize),
    /// Wait for a running stage to end.
    Wait,
    /// The terminal stage completed: its output answers the query.
    Done(usize),
    /// This stage failed; nothing else is started.
    Fail(usize),
}

pub struct Execution {
    graph: PipelineGraph,
    states: Vec<StageState>,
    failure: Option<usize>,
}

pub struct ExecutionView {
    pub nodes: Seq<PlanNode>,
    pub order: Seq<usize>,
    pub states: Seq<StageState>,
    pub failure: Option<usize>,
}

impl View for Execution {
    type V = ExecutionView;

    closed spec fn view(&self) -> ExecutionView {
        ExecutionView { nodes: self.graph@.nodes, order: self.graph@.order, states: self.states@, failure: self.failure }
    }
}

/// Stage `i` is pending and all of its inputs have completed.
pub open spec fn ready(e: ExecutionView, i: int) -> bool {
    &&& 0 <= i < e.states.len()
    &&& e.states[i] == StageState::Pending
    &&& forall|k: int|
        0 <= k < e.nodes[i].inputs@.len() ==> e.states[#[trigger] e.nodes[i].inputs@[k] as int]
            == StageState::Completed
}

/// The stage whose output answers the query: the plan's last.
pub open spec fn terminal(e: ExecutionView) -> int {
    e.nodes.len() - 1
}

pub open spec fn exec_wf(e: ExecutionView) -> bool {
    &&& e.nodes.len() > 0
    &&& e.states.len() == e.nodes.len()
    &&& inputs_defined(e.nodes)
    &&& is_topological(e.nodes, e.order)
    &&& match e.failure {
        Some(b) => b < e.states.len() && e.states[b as int] == StageState::Failed && forall|i: int|
            0 <= i < e.states.len() ==> #[trigger] e.states[i] != StageState::Pending,
        None => forall|i: int|
            0 <= i < e.states.len() ==> #[trigger] e.states[i] != StageState::Failed && e.states[i]
                != StageState::Cancelled,
    }
}

impl Execution {
    pub open spec fn wf(&self) -> bool {
        exec_wf(self@)
    }

    /// A fresh execution: every stage pending.
    pub fn new(graph: PipelineGraph) -> (r: Execution)
        ensures
            r.wf(),
            r@.nodes == graph@.nodes,
            r@.order == graph@.order,
            r@.failure is None,
            forall|i: int| 0 <= i < r@.states.len() ==> r@.states[i] == StageState::Pending,
    {
        graph.check_wf();
        let n = graph.len();
        let mut states: Vec<StageState> = Vec::new();
        let mut i: usize = 0;
        while i < n
            invariant
                i <= n,
                states@.len() == i,
                forall|j: int| 0 <= j < i ==> states@[j] == StageState::Pending,
            decreases n - i,
        {
            states.push(StageState::Pending);
            i += 1;
        }
        Execution { graph, states, failure: None }
    }

    pub fn state(&self, i: usize) -> (r: StageState)
        requires
            i < self@.states.len(),
        ensures
            r == self@.states[i as int],
    {
        self.states[i]
    }

    pub fn failure(&self) -> (r: Option<usize>)
        ensures
            r == self@.failure,
    {
        self.failure
    }

    fn inputs_completed(&self, i: usize) -> (b: bool)
        requires
            self.wf(),
            i < self@.states.len(),
        ensures
            b == forall|k: int|
                0 <= k < self@.nodes[i as int].inputs@.len() ==> self@.states[#[trigger] self@.nodes[
                i as int].inputs@[k] as int] == StageState::Completed,
    {
        let ins = &self.graph.node(i).inputs;
        let mut k: usize = 0;
        while k < ins.len()
            invariant
                self.wf(),
                i < self@.states.len(),
                ins == self@.nodes[i as int].inputs,
                k <= ins@.len(),
                forall|k2: int| 0 <= k2 < k ==> self@.states[#[trigger] ins@[k2] as int] == StageState::Completed,
            decreases ins@.len() - k,
        {
            assert(ins@[k as int] < self@.nodes.len());
            if self.states[ins[k]] != StageState::Completed {
                return false;
            }
            k += 1;
        }
        true
    }

    /// The next step. After a failure it is always that failure; once the
    /// terminal stage completed, it is done; otherwise a ready stage is
    /// started, and only where none is ready does the caller wait.
    pub fn next_step(&self) -> (r: Step)
        requires
            self.wf(),
        ensures
            self@.failure matches Some(b) ==> r == Step::Fail(b),
            self@.failure is None && self@.states[terminal(self@)] == StageState::Completed ==> r
                == Step::Done(terminal(self@) as usize),
            self@.failure is None && self@.states[terminal(self@)] != StageState::Completed ==> (
            r matches Step::Start(i) && ready(self@, i as int)) || (r == Step::Wait && forall|i: int|
                0 <= i < self@.states.len() ==> !#[trigger] ready(self@, i)),
            r == Step::Wait ==> exists|i: int| 0 <= i < self@.states.len() && self@.states[i] == StageState::Running,
    {
        match self.failure {
            Some(b) => {
                return Step::Fail(b);
            },
            None => {},
        }
        let n = self.states.len();
        if self.states[n - 1] == StageState::Completed {
            return Step::Done(n - 1);
        }
        let mut i: usize = 0;
        while i < n
            invariant
                self.wf(),
                n == self@.states.len(),
                i <= n,
                self@.failure is None,
                self@.states[n - 1] != StageState::Completed,
                forall|j: int| 0 <= j < i ==> !#[trigger] ready(self@, j),
            decreases n - i,
        {
            if self.states[i] == StageState::Pending && self.inputs_completed(i) {
                return Step::Start(i);
            }
            i += 1;
        }
        proof {
            lemma_some_running(self@);
        }
        Step::Wait
    }

    /// Stage `i` was started.
    pub fn start(&mut self, i: usize)
        requires
            old(self).wf(),
            ready(old(self)@, i as int),
        ensures
            final(self).wf(),
            final(self)@.nodes == old(self)@.nodes,
            final(self)@.order == old(self)@.order,
            final(self)@.failure == old(self)@.failure,
            final(self)@.states == old(self)@.states.update(i as int, StageState::Running),
    {
        self.states.set(i, StageState::Running);
    }

    /// Stage `i` produced its output.
    pub fn complete(&mut self, i: usize)
        requires
            old(self).wf(),
            i < old(self)@.states.len(),
            old(self)@.states[i as int] == StageState::Running,
        ensures
            final(self).wf(),
            final(self)@.nodes == old(self)@.nodes,
            final(self)@.order == old(self)@.order,
            final(self)@.failure == old(self)@.failure,
            final(self)@.states == old(self)@.states.update(i as int, StageState::Completed),
    {
        self.states.set(i, StageState::Completed);
    }

    /// Stage `i` failed. Every stage not yet started is cancelled and never
    /// runs; the failure reported is the first one.
    pub fn fail(&mut self, i: usize)
        requires
            old(self).wf(),
            i < old(self)@.states.len(),
            old(self)@.states[i as int] == StageState::Running,
        ensures
            final(self).wf(),
            final(self)@.nodes == old(self)@.nodes,
            final(self)@.order == old(self)@.order,
            final(self)@.failure == (match old(self)@.failure {
                Some(b) => Some(b),
                None => Some(i),
            }),
            final(self)@.states.len() == old(self)@.states.len(),
            final(self)@.states[i as int] == StageState::Failed,
            forall|j: int|
                0 <= j < old(self)@.states.len() && j != i ==> #[trigger] final(self)@.states[j] == (
                if old(self)@.states[j] == StageState::Pending {
                    StageState::Cancelled
                } else {
                    old(self)@.states[j]
                }),
    {
        self.states.set(i, StageState::Failed);
        if self.failure.is_none() {
            self.failure = Some(i);
        }
        let n = self.states.len();
        let mut j: usize = 0;
        while j < n
            invariant
                n == self@.states.len(),
                n == old(self)@.states.len(),
                j <= n,
                i < n,
                self@.nodes == old(self)@.nodes,
                self@.order == old(self)@.order,
                self@.failure == (match old(self)@.failure {
                    Some(b) => Some(b),
                    None => Some(i),
                }),
                self@.states[i as int] == StageState::Failed,
                forall|j2: int|
                    0 <= j2 < n && j2 != i ==> #[trigger] self@.states[j2] == (if j2 < j
                        && old(self)@.states[j2] == StageState::Pending {
                        StageState::Cancelled
                    } else {
                        old(self)@.states[j2]
                    }),
            decreases n - j,
        {
            if self.states[j] == StageState::Pending {
                self.states.set(j, StageState::Cancelled);
            }
            j += 1;
        }
        proof {
            let b = self@.failure.unwrap();
            assert(self@.states[b as int] == StageState::Failed);
            assert forall|k: int| 0 <= k < n implies #[trigger] self@.states[k] != StageState::Pending by {
                if k != i {
                    assert(self@.states[k] == (if old(self)@.states[k] == StageState::Pending {
                        StageState::Cancelled
                    } else {
                        old(self)@.states[k]
                    }));
                }
            }
        }
    }
}

/// `s[j]` is false: some position at or before `j` holds the first false.
proof fn lemma_first_false(s: Seq<bool>, j: int)
    requires
        0 <= j < s.len(),
        !s[j],
    ensures
        exists|m: int| 0 <= m <= j && !s[m] && forall|m2: int| 0 <= m2 < m ==> #[trigger] s[m2],
    decreases j,
{
    if exists|m2: int| 0 <= m2 < j && !#[trigger] s[m2] {
        let m2 = choose|m2: int| 0 <= m2 < j && !#[trigger] s[m2];
        lemma_first_false(s, m2);
    }
}

/// Without a failure, with the terminal stage unfinished and no stage
/// ready, some stage is running: waiting never waits for nothing.
proof fn lemma_some_running(e: ExecutionView)
    requires
        exec_wf(e),
        e.nodes.len() <= usize::MAX,
        e.failure is None,
        e.states[terminal(e)] != StageState::Completed,
        forall|i: int| 0 <= i < e.states.len() ==> !#[trigger] ready(e, i),
    ensures
        exists|i: int| 0 <= i < e.states.len() && e.states[i] == StageState::Running,
{
    let t = terminal(e) as usize;
    assert(e.order.contains(t));
    let jt = choose|jt: int| 0 <= jt < e.order.len() && e.order[jt] == t;
    let fin = Seq::new(e.order.len(), |m: int| e.states[e.order[m] as int] == StageState::Completed);
    assert(!fin[jt]);
    lemma_first_false(fin, jt);
    let m = choose|m: int| 0 <= m <= jt && !fin[m] && forall|m2: int| 0 <= m2 < m ==> #[trigger] fin[m2];
    let s = e.order[m] as int;
    assert(0 <= s < e.states.len());
    assert forall|k: int| 0 <= k < e.nodes[s].inputs@.len() implies e.states[#[trigger] e.nodes[s].inputs@[k] as int]
        == StageState::Completed by {
        let d = e.nodes[s].inputs@[k];
        assert(listed_before(e.order, m, d));
        let j2 = choose|j2: int| 0 <= j2 < m && e.order[j2] == d;
        assert(fin[j2]);
    }
    assert(!ready(e, s));
    assert(e.states[s] != StageState::Failed && e.states[s] != StageState::Cancelled);
    assert(e.states[s] == StageState::Running);
}

/// Once a stage has failed, no stage can be started: none is pending, so
/// none is ready, and the failure reported stays the first one.
pub proof fn lemma_failure_starts_nothing(e: ExecutionView)
    requires
        exec_wf(e),
        e.failure is Some,
    ensures
        forall|i: int| 0 <= i < e.states.len() ==> !#[trigger] ready(e, i),
        forall|i: int| 0 <= i < e.states.len() ==> #[trigger] e.states[i] != StageState::Pending,
{
}

} // verus!
