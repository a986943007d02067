//! Compiling a query plan into a stage graph: every input must name a stage
//! of the plan, and the stages must admit an order in which each comes after
//! all of its inputs.
use vstd::prelude::*;

verus! {

/// One node of a query plan: the stage's command and the positions of the
/// nodes whose output it consumes.
pub struct PlanNode {
    pub command: String,
    pub inputs: Vec<usize>,
}

/// A query plan; its last node is the one whose output answers the query.
pub struct QueryPlan {
    pub nodes: Vec<PlanNode>,
}

#[derive(Debug, PartialEq, Eq)]
pub enum GraphError {
    EmptyPlan,
    /// Input `input` of node `stage` names no node.
    UndefinedInput { stage: usize, input: usize },
    /// Every node listed consumes the output of another node listed.
    Cycle { stages: Vec<usize> },
}

/// The stage graph: the plan's nodes, and an order in which each stage comes
/// after its inputs.
pub struct PipelineGraph {
    nodes: Vec<PlanNode>,
    order: Vec<usize>,
}

pub open spec fn inputs_defined(nodes: Seq<PlanNode>) -> bool {
    forall|i: int, k: int|
        0 <= i < nodes.len() && 0 <= k < nodes[i].inputs@.len() ==> #[trigger] nodes[i].inputs@[k]
            < nodes.len()
}

/// `order` lists each stage once, each after all of its inputs.
pub open spec fn is_topological(nodes: Seq<PlanNode>, order: Seq<usize>) -> bool {
    &&& order.len() == nodes.len()
    &&& order.no_duplicates()
    &&& forall|j: int| 0 <= j < order.len() ==> #[trigger] order[j] < nodes.len()
    &&& forall|i: usize| i < nodes.len() ==> #[trigger] order.contains(i)
    &&& inputs_listed(nodes, order)
}

/// `d` stands in `order` before position `j`.
pub open spec fn listed_before(order: Seq<usize>, j: int, d: usize) -> bool {
    exists|j2: int| 0 <= j2 < j && order[j2] == d
}

/// Every stage of `stages` consumes the output of a stage of `stages`: the
/// graph has a cycle among them.
pub open spec fn closed_under_inputs(nodes: Seq<PlanNode>, stages: Seq<usize>) -> bool {
    &&& stages.len() > 0
    &&& forall|j: int| 0 <= j < stages.len() ==> #[trigger] stages[j] < nodes.len()
    &&& forall|j: int| 0 <= j < stages.len() ==> waits_within(nodes, stages, #[trigger] stages[j])
}

/// Stage `s` consumes the output of a stage of `stages`.
pub open spec fn waits_within(nodes: Seq<PlanNode>, stages: Seq<usize>, s: usize) -> bool {
    exists|k: int| 0 <= k < nodes[s as int].inputs@.len() && stages.contains(#[trigger] nodes[s as int].inputs@[k])
}

pub open spec fn count_true(s: Seq<bool>) -> nat
    decreases s.len(),
{
    if s.len() == 0 {
        0
    } else {
        count_true(s.drop_last()) + if s.last() {
            1nat
        } else {
            0nat
        }
    }
}

proof fn lemma_count_bound(s: Seq<bool>)
    ensures
        count_true(s) <= s.len(),
        count_true(s) < s.len() ==> exists|i: int| 0 <= i < s.len() && !s[i],
    decreases s.len(),
{
    if s.len() > 0 {
        lemma_count_bound(s.drop_last());
        if count_true(s) < s.len() && s.last() {
            let i = choose|i: int| 0 <= i < s.drop_last().len() && !s.drop_last()[i];
            assert(!s[i]);
        }
    }
}

proof fn lemma_count_full(s: Seq<bool>)
    requires
        count_true(s) == s.len(),
    ensures
        forall|i: int| 0 <= i < s.len() ==> s[i],
    decreases s.len(),
{
    if s.len() > 0 {
        lemma_count_bound(s.drop_last());
        lemma_count_full(s.drop_last());
        assert forall|i: int| 0 <= i < s.len() implies s[i] by {
            if i < s.len() - 1 {
                assert(s.drop_last()[i] == s[i]);
            }
        }
    }
}

/// No stage of a cycle can stand at or before position `j` of an order in
/// which each stage follows its inputs.
proof fn lemma_cycle_not_in_prefix(nodes: Seq<PlanNode>, stages: Seq<usize>, order: Seq<usize>, j: int)
    requires
        closed_under_inputs(nodes, stages),
        inputs_listed(nodes, order),
        0 <= j < order.len(),
    ensures
        forall|j2: int| 0 <= j2 <= j ==> !stages.contains(#[trigger] order[j2]),
    decreases j,
{
    if j > 0 {
        lemma_cycle_not_in_prefix(nodes, stages, order, j - 1);
    }
    if stages.contains(order[j]) {
        let m = choose|m: int| 0 <= m < stages.len() && stages[m] == order[j];
        assert(waits_within(nodes, stages, stages[m]));
        let k = choose|k: int|
            0 <= k < nodes[order[j] as int].inputs@.len() && stages.contains(
                #[trigger] nodes[order[j] as int].inputs@[k],
            );
        let d = nodes[order[j] as int].inputs@[k];
        assert(listed_before(order, j, d));
        let j2 = choose|j2: int| 0 <= j2 < j && order[j2] == d;
        assert(!stages.contains(order[j2]));
    }
}

/// A plan with a cycle has no order in which each stage follows its inputs.
pub proof fn lemma_cycle_has_no_order(nodes: Seq<PlanNode>, stages: Seq<usize>, order: Seq<usize>)
    requires
        closed_under_inputs(nodes, stages),
    ensures
        !is_topological(nodes, order),
{
    if is_topological(nodes, order) {
        let s = stages[0];
        assert(s < nodes.len());
        assert(order.contains(s));
        let j = choose|j: int| 0 <= j < order.len() && order[j] == s;
        lemma_cycle_not_in_prefix(nodes, stages, order, j);
        assert(stages.contains(s));
    }
}

proof fn lemma_count_set(s: Seq<bool>, i: int)
    requires
        0 <= i < s.len(),
        !s[i],
    ensures
        count_true(s.update(i, true)) == count_true(s) + 1,
    decreases s.len(),
{
    let t = s.update(i, true);
    if i == s.len() - 1 {
        assert(t.drop_last() =~= s.drop_last());
    } else {
        assert(t.drop_last() =~= s.drop_last().update(i, true));
        lemma_count_set(s.drop_last(), i);
    }
}

fn all_done(inputs: &Vec<usize>, done: &Vec<bool>) -> (b: bool)
    requires
        forall|k: int| 0 <= k < inputs@.len() ==> #[trigger] inputs@[k] < done@.len(),
    ensures
        b == forall|k: int| 0 <= k < inputs@.len() ==> done@[#[trigger] inputs@[k] as int],
{
    let mut k: usize = 0;
    while k < inputs.len()
        invariant
            k <= inputs@.len(),
            forall|k: int| 0 <= k < inputs@.len() ==> #[trigger] inputs@[k] < done@.len(),
            forall|k2: int| 0 <= k2 < k ==> done@[#[trigger] inputs@[k2] as int],
        decreases inputs@.len() - k,
    {
        if !done[inputs[k]] {
            return false;
        }
        k += 1;
    }
    true
}

fn first_undefined(nodes: &Vec<PlanNode>) -> (r: Option<(usize, usize)>)
    ensures
        r is None <==> inputs_defined(nodes@),
        r matches Some((i, d)) ==> i < nodes@.len() && d >= nodes@.len() && nodes@[i as int].inputs@.contains(d),
{
    let n = nodes.len();
    let mut i: usize = 0;
    while i < n
        invariant
            n == nodes@.len(),
            i <= n,
            forall|i2: int, k: int|
                0 <= i2 < i && 0 <= k < nodes@[i2].inputs@.len() ==> #[trigger] nodes@[i2].inputs@[k] < n,
        decreases n - i,
    {
        let ins = &nodes[i].inputs;
        let mut k: usize = 0;
        while k < ins.len()
            invariant
                n == nodes@.len(),
                i < n,
                ins == nodes@[i as int].inputs,
                k <= ins@.len(),
                forall|i2: int, k: int|
                    0 <= i2 < i && 0 <= k < nodes@[i2].inputs@.len() ==> #[trigger] nodes@[i2].inputs@[k] < n,
                forall|k2: int| 0 <= k2 < k ==> #[trigger] ins@[k2] < n,
            decreases ins@.len() - k,
        {
            if ins[k] >= n {
                assert(nodes@[i as int].inputs@[k as int] == ins[k as int]);
                return Some((i, ins[k]));
            }
            k += 1;
        }
        i += 1;
    }
    None
}

pub struct GraphView {
    pub nodes: Seq<PlanNode>,
    pub order: Seq<usize>,
}

impl View for PipelineGraph {
    type V = GraphView;

    closed spec fn view(&self) -> GraphView {
        GraphView { nodes: self.nodes@, order: self.order@ }
    }
}

/// Each stage of `order` comes after all of its inputs.
pub open spec fn inputs_listed(nodes: Seq<PlanNode>, order: Seq<usize>) -> bool {
    forall|j: int, k: int|
        0 <= j < order.len() && 0 <= k < nodes[order[j] as int].inputs@.len() ==> listed_before(
            order,
            j,
            #[trigger] nodes[order[j] as int].inputs@[k],
        )
}

pub open spec fn blocked(nodes: Seq<PlanNode>, done: Seq<bool>, i: int) -> bool {
    exists|k: int| 0 <= k < nodes[i].inputs@.len() && !done[#[trigger] nodes[i].inputs@[k] as int]
}

impl PipelineGraph {
    pub open spec fn wf(&self) -> bool {
        &&& self@.nodes.len() > 0
        &&& inputs_defined(self@.nodes)
        &&& is_topological(self@.nodes, self@.order)
    }

    #[verifier::type_invariant]
    closed spec fn inv(&self) -> bool {
        self.wf()
    }

    /// Every graph is well formed: only the builder makes one.
    pub fn check_wf(&self)
        ensures
            self.wf(),
    {
        proof {
            use_type_invariant(self);
        }
    }

    pub fn len(&self) -> (r: usize)
        ensures
            r == self@.nodes.len(),
    {
        self.nodes.len()
    }

    pub fn node(&self, i: usize) -> (r: &PlanNode)
        requires
            i < self@.nodes.len(),
        ensures
            *r == self@.nodes[i as int],
    {
        &self.nodes[i]
    }

    /// The position in the plan of the `j`-th stage of the execution order.
    pub fn order_at(&self, j: usize) -> (r: usize)
        requires
            j < self@.order.len(),
        ensures
            r == self@.order[j as int],
    {
        self.order[j]
    }
}

pub open spec fn scan_inv(nodes: Seq<PlanNode>, done: Seq<bool>, order: Seq<usize>) -> bool {
    &&& done.len() == nodes.len()
    &&& order.len() == count_true(done)
    &&& forall|d: usize| d < nodes.len() ==> (done[d as int] <==> #[trigger] order.contains(d))
    &&& order.no_duplicates()
    &&& forall|j: int| 0 <= j < order.len() ==> #[trigger] order[j] < nodes.len()
    &&& inputs_listed(nodes, order)
}

proof fn lemma_push_ready(nodes: Seq<PlanNode>, done: Seq<bool>, order: Seq<usize>, i: usize)
    requires
        inputs_defined(nodes),
        scan_inv(nodes, done, order),
        i < nodes.len(),
        !done[i as int],
        forall|k: int| 0 <= k < nodes[i as int].inputs@.len() ==> done[#[trigger] nodes[i as int].inputs@[k] as int],
    ensures
        scan_inv(nodes, done.update(i as int, true), order.push(i)),
        order.push(i).len() <= nodes.len(),
{
    let n = nodes.len();
    let d2 = done.update(i as int, true);
    let o2 = order.push(i);
    lemma_count_set(done, i as int);
    lemma_count_bound(d2);
    assert forall|d: usize| d < n implies (d2[d as int] <==> #[trigger] o2.contains(d)) by {
        if d == i {
            assert(o2[o2.len() - 1] == i);
        }
        if order.contains(d) {
            let j = choose|j: int| 0 <= j < order.len() && order[j] == d;
            assert(o2[j] == d);
        }
        if o2.contains(d) && d != i {
            let j = choose|j: int| 0 <= j < o2.len() && o2[j] == d;
            assert(o2[order.len() as int] == i);
            assert(j < order.len());
            assert(order[j] == d);
            assert(order.contains(d));
        }
    }
    assert(!order.contains(i));
    assert forall|j: int| 0 <= j < o2.len() implies #[trigger] o2[j] < n by {
        if j < order.len() {
            assert(o2[j] == order[j]);
        }
    }
    assert forall|a: int, b: int| 0 <= a < o2.len() && 0 <= b < o2.len() && a != b implies o2[a] != o2[b] by {
        if b == order.len() as int {
            assert(order[a] == o2[a]);
        }
        if a == order.len() as int {
            assert(order[b] == o2[b]);
        }
    }
    assert forall|j: int, k: int|
        0 <= j < o2.len() && 0 <= k < nodes[o2[j] as int].inputs@.len() implies listed_before(
        o2,
        j,
        #[trigger] nodes[o2[j] as int].inputs@[k],
    ) by {
        let d = nodes[o2[j] as int].inputs@[k];
        if j == order.len() as int {
            assert(done[d as int]);
            assert(d < n);
            assert(order.contains(d));
            let j2 = choose|j2: int| 0 <= j2 < order.len() && order[j2] == d;
            assert(o2[j2] == d);
        } else {
            assert(order[j] == o2[j]);
            assert(listed_before(order, j, d));
            let j2 = choose|j2: int| 0 <= j2 < j && order[j2] == d;
            assert(o2[j2] == d);
        }
    }
    assert(d2.len() == nodes.len());
    assert(o2.len() == count_true(d2));
    assert(o2.no_duplicates());
    assert(inputs_listed(nodes, o2));
}

/// One pass over the stages: every stage not yet placed whose inputs are
/// all placed is placed. Without progress, every unplaced stage waits on an
/// unplaced input.
fn scan_pass(nodes: &Vec<PlanNode>, done: &mut Vec<bool>, order: &mut Vec<usize>) -> (progress: bool)
    requires
        inputs_defined(nodes@),
        scan_inv(nodes@, old(done)@, old(order)@),
    ensures
        scan_inv(nodes@, final(done)@, final(order)@),
        progress ==> old(order)@.len() < final(order)@.len(),
        !progress ==> final(order)@ == old(order)@ && final(done)@ == old(done)@,
        !progress ==> forall|i2: int|
            0 <= i2 < nodes@.len() && !final(done)@[i2] ==> blocked(nodes@, final(done)@, i2),
{
    let n = nodes.len();
    let mut progress = false;
    let mut i: usize = 0;
    while i < n
        invariant
            n == nodes@.len(),
            i <= n,
            inputs_defined(nodes@),
            scan_inv(nodes@, done@, order@),
            progress ==> old(order)@.len() < order@.len(),
            !progress ==> order@ == old(order)@ && done@ == old(done)@,
            !progress ==> forall|i2: int| 0 <= i2 < i && !done@[i2] ==> blocked(nodes@, done@, i2),
        decreases n - i,
    {
        let ins = &nodes[i].inputs;
        assert forall|k: int| 0 <= k < ins@.len() implies #[trigger] ins@[k] < done@.len() by {
            assert(nodes@[i as int].inputs@[k] < n);
        }
        if !done[i] {
            if all_done(ins, &done) {
                proof {
                    lemma_push_ready(nodes@, done@, order@, i);
                }
                done[i] = true;
                order.push(i);
                progress = true;
            } else {
                assert(blocked(nodes@, done@, i as int)) by {
                    let k = choose|k: int| 0 <= k < ins@.len() && !done@[ins@[k] as int];
                    assert(nodes@[i as int].inputs@[k] == ins@[k]);
                }
            }
        }
        i += 1;
    }
    progress
}

/// The stages not yet placed.
fn unplaced(done: &Vec<bool>) -> (r: Vec<usize>)
    ensures
        forall|j: int| 0 <= j < r@.len() ==> #[trigger] r@[j] < done@.len() && !done@[r@[j] as int],
        forall|i: usize| i < done@.len() && !done@[i as int] ==> #[trigger] r@.contains(i),
{
    let n = done.len();
    let mut stages: Vec<usize> = Vec::new();
    let mut i: usize = 0;
    while i < n
        invariant
            n == done@.len(),
            i <= n,
            forall|j: int| 0 <= j < stages@.len() ==> #[trigger] stages@[j] < n && !done@[stages@[j] as int],
            forall|i2: usize| i2 < i && !done@[i2 as int] ==> #[trigger] stages@.contains(i2),
        decreases n - i,
    {
        if !done[i] {
            let ghost old_stages = stages@;
            stages.push(i);
            assert(stages@[stages@.len() - 1] == i);
            assert forall|i2: usize| i2 <= i && !done@[i2 as int] implies #[trigger] stages@.contains(i2) by {
                if i2 < i {
                    assert(old_stages.contains(i2));
                    let j = choose|j: int| 0 <= j < old_stages.len() && old_stages[j] == i2;
                    assert(stages@[j] == i2);
                }
            }
        }
        i += 1;
    }
    stages
}

fn none_placed(n: usize) -> (done: Vec<bool>)
    ensures
        done@.len() == n,
        count_true(done@) == 0,
        forall|j: int| 0 <= j < n ==> !done@[j],
{
    let mut done: Vec<bool> = Vec::new();
    let mut i: usize = 0;
    while i < n
        invariant
            i <= n,
            done@.len() == i,
            count_true(done@) == 0,
            forall|j: int| 0 <= j < i ==> !done@[j],
        decreases n - i,
    {
        assert(done@.push(false).drop_last() =~= done@);
        done.push(false);
        i += 1;
    }
    done
}

proof fn lemma_unplaced_cycle(nodes: Seq<PlanNode>, done: Seq<bool>, stages: Seq<usize>)
    requires
        inputs_defined(nodes),
        done.len() == nodes.len(),
        nodes.len() <= usize::MAX,
        count_true(done) < done.len(),
        forall|i2: int| 0 <= i2 < nodes.len() && !done[i2] ==> blocked(nodes, done, i2),
        forall|j: int| 0 <= j < stages.len() ==> #[trigger] stages[j] < done.len() && !done[stages[j] as int],
        forall|i: usize| i < done.len() && !done[i as int] ==> #[trigger] stages.contains(i),
    ensures
        closed_under_inputs(nodes, stages),
{
    lemma_count_bound(done);
    let i0 = choose|i0: int| 0 <= i0 < done.len() && !done[i0];
    assert(i0 < nodes.len());
    assert(stages.contains(i0 as usize));
    assert forall|j: int| 0 <= j < stages.len() implies waits_within(nodes, stages, #[trigger] stages[j]) by {
        let s = stages[j] as int;
        assert(blocked(nodes, done, s));
        let k = choose|k: int| 0 <= k < nodes[s].inputs@.len() && !done[#[trigger] nodes[s].inputs@[k] as int];
        let d = nodes[s].inputs@[k];
        assert(d < nodes.len());
        assert(stages.contains(d));
    }
}

/// Compiles a plan into a stage graph. An empty plan, an input that names no
/// node, and a cycle are refused before anything runs.
pub fn build_pipeline_graph(plan: QueryPlan) -> (r: Result<PipelineGraph, GraphError>)
    ensures
        r matches Err(GraphError::EmptyPlan) <==> plan.nodes@.len() == 0,
        r matches Err(GraphError::UndefinedInput { .. }) <==> (plan.nodes@.len() > 0 && !inputs_defined(
            plan.nodes@,
        )),
        r matches Err(GraphError::UndefinedInput { stage, input }) ==> stage < plan.nodes@.len()
            && input >= plan.nodes@.len() && plan.nodes@[stage as int].inputs@.contains(input),
        r matches Err(GraphError::Cycle { stages }) ==> plan.nodes@.len() > 0 && inputs_defined(plan.nodes@)
            && closed_under_inputs(plan.nodes@, stages@),
        r matches Err(GraphError::Cycle { .. }) ==> forall|o: Seq<usize>| !is_topological(plan.nodes@, o),
        r matches Ok(g) ==> g@.nodes == plan.nodes@ && g.wf(),
{
    let nodes = plan.nodes;
    let n = nodes.len();
    if n == 0 {
        return Err(GraphError::EmptyPlan);
    }
    match first_undefined(&nodes) {
        Some((stage, input)) => {
            return Err(GraphError::UndefinedInput { stage, input });
        },
        None => {},
    }
    let mut done = none_placed(n);
    let mut order: Vec<usize> = Vec::new();
    let mut progress = true;
    while progress
        invariant
            n == nodes@.len(),
            inputs_defined(nodes@),
            scan_inv(nodes@, done@, order@),
            !progress ==> forall|i2: int| 0 <= i2 < n && !done@[i2] ==> blocked(nodes@, done@, i2),
        decreases n - order@.len() + (if progress {
            1int
        } else {
            0int
        }),
    {
        proof {
            lemma_count_bound(done@);
        }
        progress = scan_pass(&nodes, &mut done, &mut order);
        proof {
            lemma_count_bound(done@);
        }
    }
    if order.len() == n {
        assert(order@.len() == nodes@.len());
        assert(order@.no_duplicates());
        assert(forall|j: int| 0 <= j < order@.len() ==> #[trigger] order@[j] < nodes@.len());
        assert(inputs_listed(nodes@, order@));
        proof {
            lemma_count_full(done@);
        }
        assert forall|i: usize| i < nodes@.len() implies #[trigger] order@.contains(i) by {
            assert(done@[i as int]);
        }
        assert(is_topological(nodes@, order@));
        let g = PipelineGraph { nodes, order };
        return Ok(g);
    }
    proof {
        lemma_count_bound(done@);
    }
    let stages = unplaced(&done);
    proof {
        lemma_unplaced_cycle(nodes@, done@, stages@);
        assert forall|o: Seq<usize>| !is_topological(nodes@, o) by {
            lemma_cycle_has_no_order(nodes@, stages@, o);
        }
    }
    Err(GraphError::Cycle { stages })
}

} // verus!