use tiny_agent_graph::engine::{
    aggregate_status, execution_order, is_blocked, run_flow, run_steps, simulate_step_execution,
    RunError, RunStatus, StepResult, StepResults, StepStatus,
};
use tiny_agent_graph::flow::{build_step_graph, Flow, Step, StepGraph, StepNode};

/// Builds a flow and its graph by hand.
fn build_test_flow(steps: Vec<Step>, edges: Vec<(usize, usize)>) -> (Flow, StepGraph) {
    let flow = Flow {
        id: "test-flow".to_string(),
        description: Some("Test flow".into()),
        nodes: steps.clone(),
    };

    let mut graph = StepGraph::new();
    let mut indices = Vec::new();

    for step in steps {
        let idx = graph.add_node(StepNode { step });
        indices.push(idx);
    }

    for (from, to) in edges {
        graph.add_edge(indices[from], indices[to], ());
    }

    (flow, graph)
}

fn step(id: &str, kind: &str, deps: &[&str]) -> Step {
    Step {
        id: id.into(),
        kind: kind.into(),
        depends_on: deps.iter().map(|d| d.to_string()).collect(),
        ..Default::default()
    }
}

fn failed_reason(result: &StepResult) -> Option<&str> {
    match &result.status {
        StepStatus::Failed(reason) => Some(reason.as_str()),
        StepStatus::Success => None,
    }
}

#[test]
fn test_successful_linear_flow() {
    let steps = vec![
        Step {
            id: "a".into(),
            kind: "noop".into(),
            ..Default::default()
        },
        Step {
            id: "b".into(),
            kind: "noop".into(),
            depends_on: vec!["a".into()],
            ..Default::default()
        },
        Step {
            id: "c".into(),
            kind: "noop".into(),
            depends_on: vec!["b".into()],
            ..Default::default()
        },
    ];

    let (flow, graph) = build_test_flow(steps, vec![(0, 1), (1, 2)]);

    let result = run_flow(&flow, graph).unwrap();
    assert!(matches!(result.status, RunStatus::Success));
    assert_eq!(result.step_results.len(), 3);

    for status in result.step_results.entries.iter().map(|(_, r)| &r.status) {
        assert!(matches!(status, StepStatus::Success));
    }
}

#[test]
fn test_failure_propagation() {
    let steps = vec![
        Step {
            id: "a".into(),
            kind: "fail_test".into(),
            ..Default::default()
        },
        Step {
            id: "b".into(),
            kind: "noop".into(),
            depends_on: vec!["a".into()],
            ..Default::default()
        },
        Step {
            id: "c".into(),
            kind: "noop".into(),
            depends_on: vec!["b".into()],
            ..Default::default()
        },
    ];

    let (flow, graph) = build_test_flow(steps, vec![(0, 1), (1, 2)]);

    let result = run_flow(&flow, graph).unwrap();
    assert!(matches!(result.status, RunStatus::Failed(_)));

    let step_a = result.step_results.get("a").unwrap();
    assert!(matches!(step_a.status, StepStatus::Failed(_)));

    let step_b = result.step_results.get("b").unwrap();
    assert!(matches!(step_b.status, StepStatus::Failed(_)));

    let step_c = result.step_results.get("c").unwrap();
    assert!(matches!(step_c.status, StepStatus::Failed(_)));
}

#[test]
fn test_parallel_branching_success() {
    let steps = vec![
        Step {
            id: "a".into(),
            kind: "noop".into(),
            ..Default::default()
        },
        Step {
            id: "b1".into(),
            kind: "noop".into(),
            depends_on: vec!["a".into()],
            ..Default::default()
        },
        Step {
            id: "b2".into(),
            kind: "noop".into(),
            depends_on: vec!["a".into()],
            ..Default::default()
        },
        Step {
            id: "c".into(),
            kind: "noop".into(),
            depends_on: vec!["b1".into(), "b2".into()],
            ..Default::default()
        },
    ];

    let (flow, graph) = build_test_flow(steps, vec![(0, 1), (0, 2), (1, 3), (2, 3)]);

    let result = run_flow(&flow, graph).unwrap();
    assert!(matches!(result.status, RunStatus::Success));
}

#[test]
fn failure_cascade_distinguishes_failed_from_blocked() {
    let steps = vec![step("a", "fail_test", &[]), step("b", "noop", &["a"]), step("c", "noop", &["b"])];
    let (flow, graph) = build_test_flow(steps, vec![(0, 1), (1, 2)]);
    let result = run_flow(&flow, graph).unwrap();
    match &result.status {
        RunStatus::Failed(reason) => assert_eq!(reason, "At least one step failed"),
        RunStatus::Success => panic!("the run must fail"),
    }
    assert_eq!(result.flow_id, "test-flow");
    assert_eq!(failed_reason(result.step_results.get("a").unwrap()), Some("Simulated failure"));
    assert_eq!(
        failed_reason(result.step_results.get("b").unwrap()),
        Some("Blocked by failed dependencies")
    );
    assert_eq!(
        failed_reason(result.step_results.get("c").unwrap()),
        Some("Blocked by failed dependencies")
    );
    assert!(result.step_results.get("a").unwrap().output.is_none());
    assert!(result.step_results.get("b").unwrap().output.is_none());
}

#[test]
fn diamond_runs_every_step_once() {
    let steps = vec![
        step("a", "noop", &[]),
        step("b1", "noop", &["a"]),
        step("b2", "noop", &["a"]),
        step("c", "noop", &["b1", "b2"]),
    ];
    let (flow, graph) = build_test_flow(steps, vec![(0, 1), (0, 2), (1, 3), (2, 3)]);
    let result = run_flow(&flow, graph).unwrap();
    assert_eq!(result.step_results.len(), 4);
    for id in ["a", "b1", "b2", "c"] {
        let r = result.step_results.get(id).unwrap();
        assert!(matches!(r.status, StepStatus::Success));
        assert_eq!(r.output, Some(format!("Simulated output of '{}'", id)));
    }
    assert!(result.step_results.get("zzz").is_none());
}

#[test]
fn independent_branch_still_runs_after_a_failure() {
    let steps = vec![step("a", "fail_test", &[]), step("b", "noop", &["a"]), step("x", "noop", &[])];
    let (flow, graph) = build_test_flow(steps, vec![(0, 1)]);
    let result = run_flow(&flow, graph).unwrap();
    assert_eq!(result.step_results.len(), 3);
    assert!(matches!(result.step_results.get("x").unwrap().status, StepStatus::Success));
    assert!(matches!(result.status, RunStatus::Failed(_)));
}

#[test]
fn results_follow_the_topological_order() {
    let flow = Flow {
        id: "ordered".into(),
        description: None,
        nodes: vec![step("c", "noop", &["b"]), step("b", "noop", &["a"]), step("a", "noop", &[])],
    };
    let graph = build_step_graph(&flow).unwrap();
    let order = execution_order(&graph).unwrap();
    assert_eq!(order, vec![2, 1, 0]);
    let result = run_flow(&flow, graph).unwrap();
    let ids: Vec<&str> = result.step_results.entries.iter().map(|(id, _)| id.as_str()).collect();
    assert_eq!(ids, vec!["a", "b", "c"]);
    assert!(matches!(result.status, RunStatus::Success));
}

#[test]
fn unknown_dependency_blocks_the_step_at_run_time() {
    let flow = Flow {
        id: "warn-flow".into(),
        description: None,
        nodes: vec![step("x", "noop", &["nonexistent_step"]), step("y", "noop", &[])],
    };
    let graph = build_step_graph(&flow).unwrap();
    let result = run_flow(&flow, graph).unwrap();
    assert_eq!(
        failed_reason(result.step_results.get("x").unwrap()),
        Some("Blocked by failed dependencies")
    );
    assert!(matches!(result.step_results.get("y").unwrap().status, StepStatus::Success));
    assert!(matches!(result.status, RunStatus::Failed(_)));
}

#[test]
fn run_on_a_cyclic_graph_fails() {
    let steps = vec![step("a", "noop", &["b"]), step("b", "noop", &["a"])];
    let (flow, graph) = build_test_flow(steps, vec![(1, 0), (0, 1)]);
    let err = run_flow(&flow, graph).err().unwrap();
    assert!(err.step_id == "a" || err.step_id == "b");
    assert_eq!(err.message(), format!("Cycle detected at step {:?}", err.step_id));
}

#[test]
fn run_error_message_quotes_the_step() {
    let err = RunError { step_id: "a\"b".into() };
    assert_eq!(err.message(), "Cycle detected at step \"a\\\"b\"");
}

#[test]
fn run_ids_are_fresh() {
    let (flow, graph) = build_test_flow(vec![step("a", "noop", &[])], vec![]);
    let first = run_flow(&flow, graph).unwrap();
    let (flow, graph) = build_test_flow(vec![step("a", "noop", &[])], vec![]);
    let second = run_flow(&flow, graph).unwrap();
    assert_eq!(first.run_id.len(), 36);
    assert_eq!(second.run_id.len(), 36);
    assert_ne!(first.run_id, second.run_id);
}

#[test]
fn empty_flow_succeeds_with_no_results() {
    let (flow, graph) = build_test_flow(vec![], vec![]);
    let result = run_flow(&flow, graph).unwrap();
    assert!(matches!(result.status, RunStatus::Success));
    assert_eq!(result.step_results.len(), 0);
}

#[test]
fn step_without_dependencies_is_never_blocked() {
    let mut results = StepResults::new();
    assert!(!is_blocked(&step("a", "noop", &[]), &results));
    results.insert("z".into(), StepResult::blocked());
    assert!(!is_blocked(&step("a", "noop", &[]), &results));
}

#[test]
fn gating_blocks_on_absent_or_failed_dependency() {
    let mut results = StepResults::new();
    let s = step("s", "noop", &["a", "b"]);
    assert!(is_blocked(&s, &results));
    results.insert("a".into(), StepResult::from_outcome(Ok("out".into())));
    assert!(is_blocked(&s, &results));
    results.insert("b".into(), StepResult::from_outcome(Err("boom".into())));
    assert!(is_blocked(&s, &results));
    results.insert("b".into(), StepResult::from_outcome(Ok("fine".into())));
    assert!(!is_blocked(&s, &results));
    assert_eq!(results.len(), 2);
}

#[test]
fn insert_replaces_the_entry_of_an_identifier() {
    let mut results = StepResults::new();
    results.insert("a".into(), StepResult::from_outcome(Err("first".into())));
    results.insert("b".into(), StepResult::from_outcome(Ok("other".into())));
    results.insert("a".into(), StepResult::from_outcome(Ok("second".into())));
    assert_eq!(results.len(), 2);
    assert_eq!(results.position(&"a".to_string()), Some(0));
    assert_eq!(results.position(&"b".to_string()), Some(1));
    assert_eq!(results.position(&"c".to_string()), None);
    let a = results.get("a").unwrap();
    assert!(a.is_success());
    assert_eq!(a.output.as_deref(), Some("second"));
}

#[test]
fn stand_in_execution_gives_canned_values() {
    assert_eq!(simulate_step_execution("a", "noop"), Ok("Simulated output of 'a'".to_string()));
    assert_eq!(simulate_step_execution("a", "fail_test"), Err("Simulated failure".to_string()));
    assert_eq!(simulate_step_execution("", "http_get"), Ok("Simulated output of ''".to_string()));
}

#[test]
fn blocked_and_outcome_results() {
    let b = StepResult::blocked();
    assert_eq!(failed_reason(&b), Some("Blocked by failed dependencies"));
    assert!(b.output.is_none());
    assert!(!b.is_success());
    let ok = StepResult::from_outcome(Ok("v".into()));
    assert!(ok.is_success());
    assert_eq!(ok.output.as_deref(), Some("v"));
    let failed = StepResult::from_outcome(Err("why".into()));
    assert_eq!(failed_reason(&failed), Some("why"));
    assert!(failed.output.is_none());
}

#[test]
fn status_is_success_only_without_failed_entries() {
    let mut results = StepResults::new();
    assert!(matches!(aggregate_status(&results), RunStatus::Success));
    results.insert("a".into(), StepResult::from_outcome(Ok("v".into())));
    assert!(matches!(aggregate_status(&results), RunStatus::Success));
    results.insert("b".into(), StepResult::blocked());
    match aggregate_status(&results) {
        RunStatus::Failed(reason) => assert_eq!(reason, "At least one step failed"),
        RunStatus::Success => panic!("a failed entry must fail the run"),
    }
}

#[test]
fn walk_in_a_given_order_blocks_a_step_visited_too_early() {
    let steps = vec![step("a", "noop", &[]), step("b", "noop", &["a"])];
    let (_flow, graph) = build_test_flow(steps, vec![]);
    let results = run_steps(&graph, &vec![1, 0]);
    assert_eq!(failed_reason(results.get("b").unwrap()), Some("Blocked by failed dependencies"));
    assert!(results.get("a").unwrap().is_success());
    let ids: Vec<&str> = results.entries.iter().map(|(id, _)| id.as_str()).collect();
    assert_eq!(ids, vec!["b", "a"]);
}

#[test]
fn two_topological_orders_give_the_same_results() {
    let flow = Flow {
        id: "diamond".into(),
        description: None,
        nodes: vec![
            step("a", "noop", &[]),
            step("b1", "fail_test", &["a"]),
            step("b2", "noop", &["a"]),
            step("c", "noop", &["b1", "b2"]),
        ],
    };
    let graph = build_step_graph(&flow).unwrap();
    let first = run_steps(&graph, &vec![0, 1, 2, 3]);
    let second = run_steps(&graph, &vec![0, 2, 1, 3]);
    assert_eq!(first.len(), 4);
    assert_eq!(second.len(), 4);
    for id in ["a", "b1", "b2", "c"] {
        let x = first.get(id).unwrap();
        let y = second.get(id).unwrap();
        assert_eq!(x.is_success(), y.is_success());
        assert_eq!(failed_reason(x), failed_reason(y));
        assert_eq!(x.output, y.output);
    }
    assert_eq!(failed_reason(first.get("b1").unwrap()), Some("Simulated failure"));
    assert_eq!(failed_reason(first.get("c").unwrap()), Some("Blocked by failed dependencies"));
    assert!(first.get("b2").unwrap().is_success());
}

#[test]
fn a_built_flow_always_runs() {
    let flow = Flow {
        id: "chain".into(),
        description: Some("three in a row".into()),
        nodes: vec![step("a", "noop", &[]), step("b", "noop", &["a"]), step("c", "noop", &["b"])],
    };
    let graph = build_step_graph(&flow).unwrap();
    let history = run_flow(&flow, graph).unwrap();
    assert_eq!(history.flow_id, "chain");
    assert_eq!(history.step_results.len(), flow.nodes.len());
    assert!(matches!(history.status, RunStatus::Success));
}
