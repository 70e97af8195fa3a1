use petgraph::algo::is_cyclic_directed;
use tiny_agent_graph::flow::{
    build_step_graph, default_backoff, find_step, unknown_dependencies, within_limits, CycleError,
    Flow, Step,
};

fn node(id: &str, deps: &[&str]) -> Step {
    Step {
        id: id.into(),
        kind: "noop".into(),
        depends_on: deps.iter().map(|d| d.to_string()).collect(),
        ..Default::default()
    }
}

fn flow(id: &str, nodes: Vec<Step>) -> Flow {
    Flow { id: id.into(), description: None, nodes }
}

fn edges_of(graph: &tiny_agent_graph::flow::StepGraph) -> Vec<(usize, usize)> {
    graph
        .raw_edges()
        .iter()
        .map(|e| (e.source().index(), e.target().index()))
        .collect()
}

#[test]
fn test_loads_valid_linear_flow() {
    let flow = flow("test-flow", vec![node("a", &[]), node("b", &["a"]), node("c", &["b"])]);
    assert!(within_limits(&flow));
    let graph = build_step_graph(&flow).expect("Failed to load flow");

    assert_eq!(flow.id, "test-flow");
    assert_eq!(flow.nodes.len(), 3);
    assert_eq!(graph.node_count(), 3);
    assert!(!is_cyclic_directed(&graph));
}

#[test]
fn test_loads_branching_flow() {
    let flow = flow(
        "branch-flow",
        vec![
            node("start", &[]),
            node("a", &["start"]),
            node("b", &["start"]),
            node("end", &["a", "b"]),
        ],
    );
    let graph = build_step_graph(&flow).expect("Failed to load flow");

    assert_eq!(graph.node_count(), 4);
    assert!(!is_cyclic_directed(&graph));
}

#[test]
fn test_detects_cycle() {
    let flow = flow("bad-flow", vec![node("a", &["c"]), node("b", &["a"]), node("c", &["b"])]);
    let result = build_step_graph(&flow);

    assert!(result.is_err());
    let err = result.err().unwrap().message();
    assert!(err.contains("cycle"), "Error did not contain 'cycle': {}", err);
}

#[test]
fn test_missing_dependency_warns_but_does_not_crash() {
    let flow = flow("warn-flow", vec![node("x", &["nonexistent_step"])]);
    let result = build_step_graph(&flow);

    assert!(result.is_ok(), "Missing dep should warn, not error");
    let graph = result.unwrap();
    assert_eq!(graph.node_count(), 1);
    assert_eq!(graph.edge_count(), 0);
}

#[test]
fn cycle_error_names_the_flow_and_a_step_on_the_cycle() {
    let flow = flow(
        "bad-flow",
        vec![node("free", &[]), node("a", &["c"]), node("b", &["a"]), node("c", &["b"])],
    );
    let err = build_step_graph(&flow).err().unwrap();
    assert_eq!(err.flow_id, "bad-flow");
    assert!(["a", "b", "c"].contains(&err.step_id.as_str()));
    assert_eq!(
        err.message(),
        format!("Flow 'bad-flow' contains a cycle at step '{}'", err.step_id)
    );
}

#[test]
fn cycle_error_message_is_exact() {
    let err = CycleError { flow_id: "f".into(), step_id: "s".into() };
    assert_eq!(err.message(), "Flow 'f' contains a cycle at step 's'");
}

#[test]
fn self_dependency_is_a_cycle() {
    let flow = flow("selfish", vec![node("a", &["a"])]);
    let err = build_step_graph(&flow).err().unwrap();
    assert_eq!(err.step_id, "a");
}

#[test]
fn edges_run_from_dependency_to_dependent() {
    let flow = flow(
        "branch-flow",
        vec![
            node("start", &[]),
            node("a", &["start"]),
            node("b", &["start", "ghost"]),
            node("end", &["a", "b"]),
        ],
    );
    let graph = build_step_graph(&flow).unwrap();
    assert_eq!(edges_of(&graph), vec![(0, 1), (0, 2), (1, 3), (2, 3)]);
    let ids: Vec<&str> = graph.node_weights().map(|n| n.step.id.as_str()).collect();
    assert_eq!(ids, vec!["start", "a", "b", "end"]);
    assert_eq!(graph[petgraph::graph::NodeIndex::new(2)].step.depends_on, vec!["start", "ghost"]);
}

#[test]
fn a_repeated_identifier_stands_for_its_last_step() {
    let steps = vec![node("a", &[]), node("b", &["a"]), node("a", &[])];
    assert_eq!(find_step(&steps, &"a".to_string()), Some(2));
    assert_eq!(find_step(&steps, &"b".to_string()), Some(1));
    assert_eq!(find_step(&steps, &"c".to_string()), None);
    let graph = build_step_graph(&flow("twice", steps)).unwrap();
    assert_eq!(graph.node_count(), 3);
    assert_eq!(edges_of(&graph), vec![(2, 1)]);
}

#[test]
fn empty_flow_builds_an_empty_graph() {
    let flow = flow("empty", vec![]);
    assert!(within_limits(&flow));
    let graph = build_step_graph(&flow).unwrap();
    assert_eq!(graph.node_count(), 0);
    assert_eq!(graph.edge_count(), 0);
}

#[test]
fn default_step_is_a_noop() {
    let step = Step::default();
    assert_eq!(step.id, "");
    assert_eq!(step.kind, "noop");
    assert!(step.depends_on.is_empty());
    assert_eq!(step.config, serde_yaml::Value::Null);
    assert!(step.retry.is_none());
    assert!(step.idempotency_key.is_none());
    assert!(step.compensation.is_none());
}

#[test]
fn clone_keeps_every_field() {
    let step = Step {
        id: "s".into(),
        kind: "http_post".into(),
        depends_on: vec!["a".into(), "b".into()],
        config: serde_yaml::Value::String("cfg".into()),
        retry: Some(tiny_agent_graph::flow::RetryPolicy { max_attempts: 5, backoff_seconds: 10 }),
        idempotency_key: Some("key".into()),
        compensation: Some(tiny_agent_graph::flow::Compensation {
            kind: "http_delete".into(),
            config: serde_yaml::Value::Bool(true),
        }),
    };
    let copy = step.clone();
    assert_eq!(copy.id, "s");
    assert_eq!(copy.kind, "http_post");
    assert_eq!(copy.depends_on, vec!["a", "b"]);
    assert_eq!(copy.config, serde_yaml::Value::String("cfg".into()));
    let retry = copy.retry.expect("Missing retry");
    assert_eq!(retry.max_attempts, 5);
    assert_eq!(retry.backoff_seconds, 10);
    assert_eq!(copy.idempotency_key.as_deref(), Some("key"));
    let comp = copy.compensation.expect("Missing compensation");
    assert_eq!(comp.kind, "http_delete");
    assert_eq!(comp.config, serde_yaml::Value::Bool(true));
}

#[test]
fn default_backoff_is_five_seconds() {
    assert_eq!(default_backoff(), 5);
}

#[test]
fn unknown_dependencies_are_listed_in_declaration_order() {
    let flow = flow(
        "warn-flow",
        vec![node("x", &["nonexistent_step"]), node("y", &["x", "ghost", "y"]), node("z", &[])],
    );
    assert_eq!(unknown_dependencies(&flow), vec![(0, 0), (1, 1)]);
    let clean = flow_of_two();
    assert!(unknown_dependencies(&clean).is_empty());
}

fn flow_of_two() -> Flow {
    flow("two", vec![node("a", &[]), node("b", &["a"])])
}
