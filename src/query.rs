//! The query command: given the plan parsed from its query string, either
//! hands the plan back for display or compiles it for execution.
use vstd::prelude::*;
use crate::graph::{
    build_pipeline_graph, closed_under_inputs, inputs_defined, is_topological, GraphError, QueryPlan,
};
use crate::pipeline::{Execution, StageState};

verus! {

/// Arguments of the query command.
#[derive(Debug)]
pub struct Query {
    /// Query string.
    pub query: String,
    /// Output the constructed pipeline instead of running it.
    pub dump_pipeline: bool,
}

#[derive(Debug)]
pub struct QueryCommand {
    pub args: Query,
}

/// What the query command does with a parsed plan.
pub enum QueryStep {
    /// Show the plan; nothing is compiled and the backend is not consulted.
    DumpPlan(QueryPlan),
    /// Run the compiled graph, from a state in which no stage has started.
    Run(Execution),
}

impl QueryCommand {
    pub fn prepare(&self, plan: QueryPlan) -> (r: Result<QueryStep, GraphError>)
        ensures
            self.args.dump_pipeline ==> (r matches Ok(QueryStep::DumpPlan(p)) && p == plan),
            !self.args.dump_pipeline ==> !(r matches Ok(QueryStep::DumpPlan(_))),
            !self.args.dump_pipeline ==> (r matches Err(GraphError::EmptyPlan) <==> plan.nodes@.len()
                == 0),
            !self.args.dump_pipeline ==> (r matches Err(GraphError::UndefinedInput { .. }) <==> (
            plan.nodes@.len() > 0 && !inputs_defined(plan.nodes@))),
            r matches Err(GraphError::UndefinedInput { stage, input }) ==> stage < plan.nodes@.len()
                && input >= plan.nodes@.len() && plan.nodes@[stage as int].inputs@.contains(input),
            r matches Err(GraphError::Cycle { stages }) ==> closed_under_inputs(plan.nodes@, stages@),
            r matches Err(GraphError::Cycle { .. }) ==> forall|o: Seq<usize>| !is_topological(plan.nodes@, o),
            r matches Ok(QueryStep::Run(e)) ==> e.wf() && e@.nodes == plan.nodes@ && e@.failure is None
                && forall|i: int| 0 <= i < e@.states.len() ==> e@.states[i] == StageState::Pending,
    {
        if self.args.dump_pipeline {
            return Ok(QueryStep::DumpPlan(plan));
        }
        match build_pipeline_graph(plan) {
            Ok(graph) => Ok(QueryStep::Run(Execution::new(graph))),
            Err(e) => Err(e),
        }
    }
}

} // verus!
