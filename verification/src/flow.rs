//! The flow model and the construction of its dependency graph.

pub use crate::graph::StepGraph;
use crate::graph::{
    edges_in_range, graph_add_edge, graph_add_node, graph_edges, graph_new, graph_nodes,
    graph_toposort, has_cycle, lemma_topological_order_excludes_cycles, on_cycle,
};
use vstd::prelude::*;

verus! {

/// `serde_yaml::Value`, the configuration of a step: carried along and never
/// looked into.
#[verifier::external_type_specification]
#[verifier::external_body]
pub struct ExConfigValue(serde_yaml::Value);

/// A complete flow: an identifier, a description and the steps in the order
/// in which they were declared.
#[derive(Debug)]
pub struct Flow {
    pub id: String,
    pub description: Option<String>,
    pub nodes: Vec<Step>,
}

/// A single step of a flow.
#[derive(Debug)]
pub struct Step {
    /// Identifier of the step within its flow.
    pub id: String,
    /// Selects the handler that runs the step.
    pub kind: String,
    /// Identifiers of the steps that must succeed first.
    pub depends_on: Vec<String>,
    /// Configuration handed to the handler, never examined here.
    pub config: serde_yaml::Value,
    pub retry: Option<RetryPolicy>,
    pub idempotency_key: Option<String>,
    pub compensation: Option<Compensation>,
}

/// Retry policy of a step.
#[derive(Debug, Clone)]
pub struct RetryPolicy {
    pub max_attempts: usize,
    /// Seconds between attempts.
    pub backoff_seconds: u64,
}

/// Handler that undoes a step.
#[derive(Debug)]
pub struct Compensation {
    pub kind: String,
    pub config: serde_yaml::Value,
}

/// A node of the dependency graph: it holds its step.
#[derive(Debug, Clone)]
pub struct StepNode {
    pub step: Step,
}

/// What the engine reads of a step.
pub struct StepView {
    pub id: Seq<char>,
    pub kind: Seq<char>,
    pub depends_on: Seq<Seq<char>>,
}

impl View for Step {
    type V = StepView;

    open spec fn view(&self) -> StepView {
        StepView {
            id: self.id@,
            kind: self.kind@,
            depends_on: self.depends_on@.map_values(|d: String| d@),
        }
    }
}

/// `copy` says what `step` says, field by field.
pub open spec fn same_step(copy: Step, step: Step) -> bool {
    &&& copy@ == step@
    &&& copy.config == step.config
    &&& copy.retry == step.retry
    &&& copy.idempotency_key == step.idempotency_key
    &&& copy.compensation == step.compensation
}

/// The views of a list of steps.
pub open spec fn step_views(steps: Seq<Step>) -> Seq<StepView> {
    steps.map_values(|s: Step| s@)
}

/// The views of the steps that a graph's nodes hold.
pub open spec fn node_views(g: StepGraph) -> Seq<StepView> {
    graph_nodes(g).map_values(|n: StepNode| n.step@)
}

/// `serde_yaml::Value::Null`, the empty configuration.
#[verifier::external_body]
fn null_config() -> serde_yaml::Value {
    serde_yaml::Value::Null
}

/// `Clone::clone` of `serde_yaml::Value`: the copy equals the value copied.
#[verifier::external_body]
fn clone_config(v: &serde_yaml::Value) -> (r: serde_yaml::Value)
    ensures
        r == *v,
{
    v.clone()
}

/// Backoff in seconds of a retry policy that names none.
pub fn default_backoff() -> (r: u64)
    ensures
        r == 5,
{
    5
}

fn clone_strings(v: &Vec<String>) -> (r: Vec<String>)
    ensures
        r@.map_values(|d: String| d@) == v@.map_values(|d: String| d@),
        r@ == v@,
{
    let mut out: Vec<String> = Vec::new();
    let mut i: usize = 0;
    while i < v.len()
        invariant
            i <= v.len(),
            out@ == v@.take(i as int),
        decreases v.len() - i,
    {
        out.push(v[i].clone());
        assert(out@ =~= v@.take(i + 1));
        i += 1;
    }
    assert(v@.take(v.len() as int) =~= v@);
    out
}

impl Clone for Compensation {
    fn clone(&self) -> (r: Compensation)
        ensures
            r == *self,
    {
        Compensation { kind: self.kind.clone(), config: clone_config(&self.config) }
    }
}

impl Clone for Step {
    fn clone(&self) -> (r: Step)
        ensures
            same_step(r, *self),
    {
        let retry = match &self.retry {
            Some(p) => Some(
                RetryPolicy { max_attempts: p.max_attempts, backoff_seconds: p.backoff_seconds },
            ),
            None => None,
        };
        let idempotency_key = match &self.idempotency_key {
            Some(k) => Some(k.clone()),
            None => None,
        };
        let compensation = match &self.compensation {
            Some(c) => Some(c.clone()),
            None => None,
        };
        Step {
            id: self.id.clone(),
            kind: self.kind.clone(),
            depends_on: clone_strings(&self.depends_on),
            config: clone_config(&self.config),
            retry,
            idempotency_key,
            compensation,
        }
    }
}

impl Default for Step {
    /// A step of kind `noop` with an empty identifier and nothing else.
    fn default() -> (r: Step)
        ensures
            r@.id.len() == 0,
            r@.kind == "noop"@,
            r@.depends_on.len() == 0,
            r.retry is None,
            r.idempotency_key is None,
            r.compensation is None,
    {
        Step {
            id: String::new(),
            kind: "noop".to_owned(),
            depends_on: Vec::new(),
            config: null_config(),
            retry: None,
            idempotency_key: None,
            compensation: None,
        }
    }
}

/// Construction found a cycle among the dependencies.
#[derive(Debug)]
pub struct CycleError {
    /// The flow that holds the cycle.
    pub flow_id: String,
    /// A step that lies on the cycle.
    pub step_id: String,
}

impl CycleError {
    /// The text of the error.
    pub open spec fn spec_message(flow_id: Seq<char>, step_id: Seq<char>) -> Seq<char> {
        "Flow '"@ + flow_id + "' contains a cycle at step '"@ + step_id + "'"@
    }

    /// The text of the error: it names the flow and the step.
    pub fn message(&self) -> (r: String)
        ensures
            r@ == Self::spec_message(self.flow_id@, self.step_id@),
    {
        let mut s = "Flow '".to_owned();
        s.append(self.flow_id.as_str());
        s.append("' contains a cycle at step '");
        s.append(self.step_id.as_str());
        s.append("'");
        s
    }
}

/// The index of the last step whose identifier is `id`.
pub open spec fn last_index_of(steps: Seq<StepView>, id: Seq<char>) -> Option<int>
    decreases steps.len(),
{
    if steps.len() == 0 {
        None
    } else if steps.last().id == id {
        Some(steps.len() - 1)
    } else {
        last_index_of(steps.drop_last(), id)
    }
}

/// The index of the last step of `steps` whose identifier is `id`; a later
/// declaration of an identifier hides an earlier one.
pub fn find_step(steps: &Vec<Step>, id: &String) -> (r: Option<usize>)
    ensures
        match r {
            Some(i) => last_index_of(step_views(steps@), id@) == Some(i as int) && i < steps.len()
                && steps[i as int].id@ == id@,
            None => last_index_of(step_views(steps@), id@) is None,
        },
{
    let ghost views = step_views(steps@);
    let mut found: Option<usize> = None;
    let mut i: usize = 0;
    while i < steps.len()
        invariant
            i <= steps.len(),
            views == step_views(steps@),
            match found {
                Some(k) => last_index_of(views.take(i as int), id@) == Some(k as int) && k < i
                    && steps[k as int].id@ == id@,
                None => last_index_of(views.take(i as int), id@) is None,
            },
        decreases steps.len() - i,
    {
        proof {
            assert(views.take(i + 1).drop_last() =~= views.take(i as int));
            assert(views.take(i + 1).last() == steps[i as int]@);
        }
        if steps[i].id == *id {
            found = Some(i);
        }
        i += 1;
    }
    proof {
        assert(views.take(steps.len() as int) =~= views);
    }
    found
}

/// The edges that the dependencies `deps` of the step at index `to` give:
/// one from each dependency that names a declared step, in order.
pub open spec fn dependency_edges(steps: Seq<StepView>, to: int, deps: Seq<Seq<char>>) -> Seq<
    (int, int),
>
    decreases deps.len(),
{
    if deps.len() == 0 {
        Seq::empty()
    } else {
        let rest = dependency_edges(steps, to, deps.drop_last());
        match last_index_of(steps, deps.last()) {
            Some(from) => rest.push((from, to)),
            None => rest,
        }
    }
}

/// The node that stands for the step at index `k`: the last step with its
/// identifier.
pub open spec fn node_of(steps: Seq<StepView>, k: int) -> int {
    match last_index_of(steps, steps[k].id) {
        Some(i) => i,
        None => k,
    }
}

/// The edges that the first `k` steps of a flow give.
pub open spec fn flow_edges(steps: Seq<StepView>, k: nat) -> Seq<(int, int)>
    decreases k,
{
    if k == 0 {
        Seq::empty()
    } else {
        flow_edges(steps, (k - 1) as nat) + dependency_edges(
            steps,
            node_of(steps, k - 1),
            steps[k - 1].depends_on,
        )
    }
}

/// The number of dependencies that the first `k` steps declare.
pub open spec fn total_dependencies(steps: Seq<StepView>, k: nat) -> nat
    decreases k,
{
    if k == 0 {
        0
    } else {
        total_dependencies(steps, (k - 1) as nat) + steps[k - 1].depends_on.len()
    }
}

/// The dependency count only grows with the number of steps.
pub proof fn lemma_total_dependencies_grows(steps: Seq<StepView>, j: nat, k: nat)
    requires
        j <= k,
    ensures
        total_dependencies(steps, j) <= total_dependencies(steps, k),
    decreases k,
{
    if j < k {
        lemma_total_dependencies_grows(steps, j, (k - 1) as nat);
    }
}

/// Among the dependencies `deps` of the step at index `s`, the places of
/// those that name no declared step, each as (step index, place).
pub open spec fn unknown_among(steps: Seq<StepView>, s: int, deps: Seq<Seq<char>>) -> Seq<
    (int, int),
>
    decreases deps.len(),
{
    if deps.len() == 0 {
        Seq::empty()
    } else {
        let rest = unknown_among(steps, s, deps.drop_last());
        match last_index_of(steps, deps.last()) {
            Some(_) => rest,
            None => rest.push((s, deps.len() - 1)),
        }
    }
}

/// The dependencies of the first `k` steps that name no declared step, each
/// as (step index, place among the step's dependencies).
pub open spec fn unknown_dependencies_of(steps: Seq<StepView>, k: nat) -> Seq<(int, int)>
    decreases k,
{
    if k == 0 {
        Seq::empty()
    } else {
        unknown_dependencies_of(steps, (k - 1) as nat) + unknown_among(
            steps,
            k - 1,
            steps[k - 1].depends_on,
        )
    }
}

/// Pairs of indices as pairs of integers.
pub open spec fn index_pairs(pairs: Seq<(usize, usize)>) -> Seq<(int, int)> {
    pairs.map_values(|p: (usize, usize)| (p.0 as int, p.1 as int))
}

/// The dependencies of a flow that name no declared step, in declaration
/// order. They do not keep the flow from being built; each is worth a
/// warning, since the step that names one will be blocked.
pub fn unknown_dependencies(flow: &Flow) -> (r: Vec<(usize, usize)>)
    ensures
        index_pairs(r@) == unknown_dependencies_of(step_views(flow.nodes@), flow.nodes@.len()),
{
    let ghost views = step_views(flow.nodes@);
    let mut out: Vec<(usize, usize)> = Vec::new();
    let mut i: usize = 0;
    assert(index_pairs(out@) =~= unknown_dependencies_of(views, 0));
    while i < flow.nodes.len()
        invariant
            i <= flow.nodes.len(),
            views == step_views(flow.nodes@),
            index_pairs(out@) == unknown_dependencies_of(views, i as nat),
        decreases flow.nodes.len() - i,
    {
        let step = &flow.nodes[i];
        let ghost deps = views[i as int].depends_on;
        let ghost before = index_pairs(out@);
        assert(views[i as int] == step@);
        let mut j: usize = 0;
        assert(index_pairs(out@) =~= before + unknown_among(views, i as int, deps.take(0)));
        while j < step.depends_on.len()
            invariant
                j <= step.depends_on.len(),
                i < flow.nodes.len(),
                views == step_views(flow.nodes@),
                deps == step@.depends_on,
                deps.len() == step.depends_on.len(),
                index_pairs(out@) == before + unknown_among(views, i as int, deps.take(j as int)),
            decreases step.depends_on.len() - j,
        {
            proof {
                assert(deps.take(j + 1).drop_last() =~= deps.take(j as int));
                assert(deps.take(j + 1).last() == step.depends_on[j as int]@);
            }
            let ghost so_far = unknown_among(views, i as int, deps.take(j as int));
            if find_step(&flow.nodes, &step.depends_on[j]).is_none() {
                let ghost listed = out@;
                out.push((i, j));
                assert(index_pairs(out@) =~= index_pairs(listed).push((i as int, j as int)));
                assert(index_pairs(out@) =~= before + so_far.push((i as int, j as int)));
            }
            j += 1;
        }
        proof {
            assert(deps.take(deps.len() as int) =~= deps);
        }
        i += 1;
    }
    out
}

/// Whether a flow is small enough for a graph with 32-bit indices: it has
/// fewer steps, and fewer dependencies in all, than `u32::MAX`.
pub open spec fn fits_graph(steps: Seq<StepView>) -> bool {
    steps.len() < u32::MAX && total_dependencies(steps, steps.len()) < u32::MAX
}

/// Tests whether `build_step_graph` can take the flow.
pub fn within_limits(flow: &Flow) -> (b: bool)
    ensures
        b == fits_graph(step_views(flow.nodes@)),
{
    let ghost views = step_views(flow.nodes@);
    let n = flow.nodes.len();
    if n >= 0xffff_ffff {
        return false;
    }
    let mut total: usize = 0;
    let mut i: usize = 0;
    while i < n
        invariant
            i <= n,
            n == flow.nodes.len(),
            n < u32::MAX,
            views == step_views(flow.nodes@),
            total == total_dependencies(views, i as nat),
            total < u32::MAX,
        decreases n - i,
    {
        let count = flow.nodes[i].depends_on.len();
        assert(views[i as int].depends_on.len() == count);
        if count >= 0xffff_ffff - total {
            proof {
                lemma_total_dependencies_grows(views, (i + 1) as nat, n as nat);
            }
            return false;
        }
        total = total + count;
        i += 1;
    }
    true
}

/// A dependency names no step exactly when no step bears its identifier.
pub proof fn lemma_last_index_of(steps: Seq<StepView>, id: Seq<char>)
    ensures
        match last_index_of(steps, id) {
            Some(i) => 0 <= i < steps.len() && steps[i].id == id,
            None => forall|v: int| 0 <= v < steps.len() ==> (#[trigger] steps[v]).id != id,
        },
    decreases steps.len(),
{
    if steps.len() > 0 && steps.last().id != id {
        lemma_last_index_of(steps.drop_last(), id);
        assert forall|v: int| 0 <= v < steps.len() - 1 implies steps[v] == steps.drop_last()[v] by {}
    }
}

/// A dependency that names no declared step adds no edge, so it cannot keep
/// a flow from being built.
pub proof fn lemma_unknown_dependency_adds_no_edge(
    steps: Seq<StepView>,
    to: int,
    deps: Seq<Seq<char>>,
    unknown: Seq<char>,
)
    requires
        forall|v: int| 0 <= v < steps.len() ==> (#[trigger] steps[v]).id != unknown,
    ensures
        dependency_edges(steps, to, deps.push(unknown)) == dependency_edges(steps, to, deps),
{
    lemma_last_index_of(steps, unknown);
    assert(deps.push(unknown).drop_last() =~= deps);
}

/// No two steps share an identifier.
pub open spec fn distinct_ids(nodes: Seq<StepView>) -> bool {
    forall|i: int, j: int|
        0 <= i < j < nodes.len() ==> (#[trigger] nodes[i]).id != (#[trigger] nodes[j]).id
}

/// `id` is the identifier of one of the steps.
pub open spec fn names_step(nodes: Seq<StepView>, id: Seq<char>) -> bool {
    exists|v: int| 0 <= v < nodes.len() && (#[trigger] nodes[v]).id == id
}

/// Every dependency that names a step has an edge from that step to the
/// step that depends on it.
pub open spec fn edges_cover_dependencies(nodes: Seq<StepView>, edges: Seq<(int, int)>) -> bool {
    forall|s: int, j: int, v: int|
        #![trigger nodes[s].depends_on[j], nodes[v]]
        0 <= s < nodes.len() && 0 <= j < nodes[s].depends_on.len() && 0 <= v < nodes.len()
            && nodes[v].id == nodes[s].depends_on[j] ==> edges.contains((v, s))
}

/// When no two steps share an identifier, each identifier stands for its own
/// step.
pub proof fn lemma_last_index_of_distinct(steps: Seq<StepView>, v: int)
    requires
        distinct_ids(steps),
        0 <= v < steps.len(),
    ensures
        last_index_of(steps, steps[v].id) == Some(v),
        node_of(steps, v) == v,
{
    lemma_last_index_of(steps, steps[v].id);
}

/// A dependency that names a step gives the edge from that step.
pub proof fn lemma_dependency_edges_contains(
    steps: Seq<StepView>,
    to: int,
    deps: Seq<Seq<char>>,
    j: int,
)
    requires
        0 <= j < deps.len(),
        last_index_of(steps, deps[j]) is Some,
    ensures
        dependency_edges(steps, to, deps).contains((last_index_of(steps, deps[j]).unwrap(), to)),
    decreases deps.len(),
{
    let all = dependency_edges(steps, to, deps);
    let rest = dependency_edges(steps, to, deps.drop_last());
    let edge = (last_index_of(steps, deps[j]).unwrap(), to);
    if j == deps.len() - 1 {
        assert(all == rest.push(edge));
        assert(all[rest.len() as int] == edge);
    } else {
        assert(deps.drop_last()[j] == deps[j]);
        lemma_dependency_edges_contains(steps, to, deps.drop_last(), j);
        let i = choose|i: int| 0 <= i < rest.len() && rest[i] == edge;
        assert(all[i] == edge);
    }
}

/// The edges of a flow hold the edges of each of its steps.
pub proof fn lemma_flow_edges_contains(steps: Seq<StepView>, k: nat, s: int, edge: (int, int))
    requires
        0 <= s < k,
        dependency_edges(steps, node_of(steps, s), steps[s].depends_on).contains(edge),
    ensures
        flow_edges(steps, k).contains(edge),
    decreases k,
{
    let earlier = flow_edges(steps, (k - 1) as nat);
    let added = dependency_edges(steps, node_of(steps, k - 1), steps[k - 1].depends_on);
    if s == k - 1 {
        let i = choose|i: int| 0 <= i < added.len() && added[i] == edge;
        assert((earlier + added)[earlier.len() + i] == edge);
    } else {
        lemma_flow_edges_contains(steps, (k - 1) as nat, s, edge);
        let i = choose|i: int| 0 <= i < earlier.len() && earlier[i] == edge;
        assert((earlier + added)[i] == edge);
    }
}

/// When no two steps share an identifier, the edges of a flow cover its
/// dependencies: each dependency that names a step has its edge.
pub proof fn lemma_flow_edges_cover(steps: Seq<StepView>)
    requires
        distinct_ids(steps),
    ensures
        edges_cover_dependencies(steps, flow_edges(steps, steps.len())),
{
    let edges = flow_edges(steps, steps.len());
    assert forall|s: int, j: int, v: int|
        #![trigger steps[s].depends_on[j], steps[v]]
        0 <= s < steps.len() && 0 <= j < steps[s].depends_on.len() && 0 <= v < steps.len()
            && steps[v].id == steps[s].depends_on[j] implies edges.contains((v, s)) by {
        lemma_last_index_of_distinct(steps, v);
        lemma_last_index_of_distinct(steps, s);
        lemma_dependency_edges_contains(steps, s, steps[s].depends_on, j);
        lemma_flow_edges_contains(steps, steps.len(), s, (v, s));
    }
}

/// Builds the dependency graph of a flow: one node per step in declaration
/// order, and one edge from each declared dependency to the step that names
/// it. A dependency that names no step gives no edge. Fails if and only if
/// the dependencies hold a cycle, and then names a step on it.
pub fn build_step_graph(flow: &Flow) -> (r: Result<StepGraph, CycleError>)
    requires
        fits_graph(step_views(flow.nodes@)),
    ensures
        r is Err <==> has_cycle(flow_edges(step_views(flow.nodes@), flow.nodes@.len())),
        match r {
            Ok(g) => {
                &&& graph_nodes(g).len() == flow.nodes.len()
                &&& forall|k: int|
                    0 <= k < flow.nodes.len() ==> same_step(
                        (#[trigger] graph_nodes(g)[k]).step,
                        flow.nodes[k],
                    )
                &&& node_views(g) == step_views(flow.nodes@)
                &&& graph_edges(g) == flow_edges(step_views(flow.nodes@), flow.nodes@.len())
                &&& edges_in_range(graph_edges(g), flow.nodes@.len())
            },
            Err(e) => {
                &&& e.flow_id@ == flow.id@
                &&& exists|v: int|
                    0 <= v < flow.nodes.len() && #[trigger] on_cycle(
                        flow_edges(step_views(flow.nodes@), flow.nodes@.len()),
                        v,
                    ) && e.step_id@ == flow.nodes[v].id@
            },
        },
{
    let ghost views = step_views(flow.nodes@);
    let n = flow.nodes.len();
    let mut graph = graph_new();
    let mut i: usize = 0;
    while i < n
        invariant
            i <= n,
            n == flow.nodes.len(),
            n < u32::MAX,
            graph_nodes(graph).len() == i,
            graph_edges(graph).len() == 0,
            forall|k: int|
                0 <= k < i ==> same_step((#[trigger] graph_nodes(graph)[k]).step, flow.nodes[k]),
        decreases n - i,
    {
        graph_add_node(&mut graph, StepNode { step: flow.nodes[i].clone() });
        i += 1;
    }
    assert(node_views(graph) =~= views);
    assert(graph_edges(graph) =~= flow_edges(views, 0));

    let mut i: usize = 0;
    while i < n
        invariant
            i <= n,
            n == flow.nodes.len(),
            views == step_views(flow.nodes@),
            total_dependencies(views, n as nat) < u32::MAX,
            graph_nodes(graph).len() == n,
            forall|k: int|
                0 <= k < n ==> same_step((#[trigger] graph_nodes(graph)[k]).step, flow.nodes[k]),
            node_views(graph) == views,
            graph_edges(graph) == flow_edges(views, i as nat),
            graph_edges(graph).len() <= total_dependencies(views, i as nat),
            edges_in_range(graph_edges(graph), n as nat),
        decreases n - i,
    {
        let step = &flow.nodes[i];
        let to = match find_step(&flow.nodes, &step.id) {
            Some(t) => t,
            None => i,
        };
        proof {
            assert(views[i as int] == step@);
            assert(to == node_of(views, i as int));
            lemma_total_dependencies_grows(views, (i + 1) as nat, n as nat);
        }
        let ghost deps = views[i as int].depends_on;
        let ghost before = graph_edges(graph);
        let mut j: usize = 0;
        while j < step.depends_on.len()
            invariant
                j <= step.depends_on.len(),
                i < n,
                to < n,
                n == flow.nodes.len(),
                views == step_views(flow.nodes@),
                deps == step@.depends_on,
                deps.len() == step.depends_on.len(),
                graph_nodes(graph).len() == n,
                forall|k: int|
                    0 <= k < n ==> same_step(
                        (#[trigger] graph_nodes(graph)[k]).step,
                        flow.nodes[k],
                    ),
                node_views(graph) == views,
                graph_edges(graph) == before + dependency_edges(views, to as int, deps.take(j as int)),
                before.len() <= total_dependencies(views, i as nat),
                dependency_edges(views, to as int, deps.take(j as int)).len() <= j,
                total_dependencies(views, i as nat) + deps.len() < u32::MAX,
                edges_in_range(graph_edges(graph), n as nat),
            decreases step.depends_on.len() - j,
        {
            proof {
                assert(deps.take(j + 1).drop_last() =~= deps.take(j as int));
                assert(deps.take(j + 1).last() == step.depends_on[j as int]@);
            }
            let ghost so_far = dependency_edges(views, to as int, deps.take(j as int));
            match find_step(&flow.nodes, &step.depends_on[j]) {
                Some(from) => {
                    graph_add_edge(&mut graph, from, to);
                    assert(graph_edges(graph) =~= before + so_far.push((from as int, to as int)));
                },
                None => {},
            }
            j += 1;
        }
        proof {
            assert(deps.take(deps.len() as int) =~= deps);
        }
        i += 1;
    }

    match graph_toposort(&graph) {
        Ok(order) => {
            proof {
                lemma_topological_order_excludes_cycles(order@, n as nat, graph_edges(graph));
            }
            Ok(graph)
        },
        Err(v) => {
            proof {
                assert(on_cycle(graph_edges(graph), v as int));
                assert(has_cycle(graph_edges(graph)));
                assert(views[v as int].id == flow.nodes[v as int].id@);
            }
            Err(CycleError { flow_id: flow.id.clone(), step_id: flow.nodes[v].id.clone() })
        },
    }
}

} // verus!
