use mozsearch::graph::{build_pipeline_graph, GraphError, PlanNode, QueryPlan};
use mozsearch::pipeline::{Execution, StageState, Step};
use mozsearch::query::{Query, QueryCommand, QueryStep};

fn node(command: &str, inputs: Vec<usize>) -> PlanNode {
    PlanNode { command: command.to_string(), inputs }
}

fn fan_in_plan() -> QueryPlan {
    QueryPlan { nodes: vec![node("a", vec![]), node("b", vec![]), node("c", vec![0, 1])] }
}

#[test]
fn empty_plan_is_refused() {
    assert!(matches!(build_pipeline_graph(QueryPlan { nodes: vec![] }), Err(GraphError::EmptyPlan)));
}

#[test]
fn undefined_input_is_refused() {
    let plan = QueryPlan { nodes: vec![node("a", vec![]), node("b", vec![0, 7])] };
    match build_pipeline_graph(plan) {
        Err(e) => assert_eq!(e, GraphError::UndefinedInput { stage: 1, input: 7 }),
        Ok(_) => panic!("graph built"),
    }
}

#[test]
fn cycle_is_refused() {
    let plan = QueryPlan { nodes: vec![node("a", vec![]), node("b", vec![2]), node("c", vec![1])] };
    match build_pipeline_graph(plan) {
        Err(e) => assert_eq!(e, GraphError::Cycle { stages: vec![1, 2] }),
        Ok(_) => panic!("graph built"),
    }
}

#[test]
fn self_input_is_a_cycle() {
    let plan = QueryPlan { nodes: vec![node("a", vec![0])] };
    match build_pipeline_graph(plan) {
        Err(e) => assert_eq!(e, GraphError::Cycle { stages: vec![0] }),
        Ok(_) => panic!("graph built"),
    }
}

#[test]
fn plan_out_of_order_still_compiles() {
    let plan = QueryPlan { nodes: vec![node("late", vec![1]), node("early", vec![])] };
    let g = build_pipeline_graph(plan).ok().unwrap();
    assert_eq!(g.len(), 2);
    assert_eq!(g.order_at(0), 1);
    assert_eq!(g.order_at(1), 0);
}

#[test]
fn stages_run_in_dependency_order() {
    let g = build_pipeline_graph(fan_in_plan()).ok().unwrap();
    let mut e = Execution::new(g);
    assert_eq!(e.next_step(), Step::Start(0));
    e.start(0);
    assert_eq!(e.next_step(), Step::Start(1));
    e.start(1);
    assert_eq!(e.next_step(), Step::Wait);
    e.complete(0);
    assert_eq!(e.next_step(), Step::Wait);
    e.complete(1);
    assert_eq!(e.next_step(), Step::Start(2));
    e.start(2);
    e.complete(2);
    assert_eq!(e.next_step(), Step::Done(2));
}

#[test]
fn failed_input_cancels_its_consumer() {
    let g = build_pipeline_graph(fan_in_plan()).ok().unwrap();
    let mut e = Execution::new(g);
    e.start(0);
    e.start(1);
    e.fail(1);
    assert_eq!(e.state(2), StageState::Cancelled);
    assert_eq!(e.next_step(), Step::Fail(1));
    e.complete(0);
    assert_eq!(e.state(2), StageState::Cancelled);
    assert_eq!(e.next_step(), Step::Fail(1));
    assert_eq!(e.failure(), Some(1));
}

#[test]
fn first_failure_is_reported() {
    let g = build_pipeline_graph(fan_in_plan()).ok().unwrap();
    let mut e = Execution::new(g);
    e.start(0);
    e.start(1);
    e.fail(0);
    e.fail(1);
    assert_eq!(e.next_step(), Step::Fail(0));
}

#[test]
fn dump_returns_plan_without_running() {
    let cmd = QueryCommand { args: Query { query: "foo".to_string(), dump_pipeline: true } };
    match cmd.prepare(fan_in_plan()) {
        Ok(QueryStep::DumpPlan(p)) => {
            assert_eq!(p.nodes.len(), 3);
            assert_eq!(p.nodes[2].inputs, vec![0, 1]);
        },
        _ => panic!("plan not dumped"),
    }
}

#[test]
fn dump_does_not_compile_a_bad_plan() {
    let cmd = QueryCommand { args: Query { query: "foo".to_string(), dump_pipeline: true } };
    let bad = QueryPlan { nodes: vec![node("a", vec![3])] };
    assert!(matches!(cmd.prepare(bad), Ok(QueryStep::DumpPlan(_))));
}

#[test]
fn run_starts_with_every_stage_pending() {
    let cmd = QueryCommand { args: Query { query: "foo".to_string(), dump_pipeline: false } };
    match cmd.prepare(fan_in_plan()) {
        Ok(QueryStep::Run(e)) => {
            for i in 0..3 {
                assert_eq!(e.state(i), StageState::Pending);
            }
            assert_eq!(e.failure(), None);
        },
        _ => panic!("no execution"),
    }
}

#[test]
fn run_reports_graph_errors() {
    let cmd = QueryCommand { args: Query { query: "foo".to_string(), dump_pipeline: false } };
    assert!(matches!(cmd.prepare(QueryPlan { nodes: vec![] }), Err(GraphError::EmptyPlan)));
}
