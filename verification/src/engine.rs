//! The dependency-gated executor: it walks a topological order of the graph,
//! lets a step run only if every step it depends on has succeeded, and sums
//! the results up into the status of the run.

use crate::flow::{
    distinct_ids, edges_cover_dependencies, flow_edges, lemma_flow_edges_cover, names_step,
    node_views, Flow, Step, StepView,
};
use crate::graph::{
    appears_in, edges_in_range, graph_edges, graph_node, graph_nodes, graph_toposort, has_cycle,
    is_topological_order, lemma_topological_order_excludes_cycles, lists_every_node, on_cycle,
    StepGraph,
};
use vstd::prelude::*;

verus! {

/// Status of a single step.
#[derive(Debug)]
pub enum StepStatus {
    Success,
    /// The step failed or was blocked, with the reason.
    Failed(String),
}

/// Outcome of a single step: its status and, on success, what it produced.
#[derive(Debug)]
pub struct StepResult {
    pub status: StepStatus,
    pub output: Option<String>,
}

/// Status of a whole run.
#[derive(Debug)]
pub enum RunStatus {
    Success,
    Failed(String),
}

/// The results of a run, one entry per step identifier, in the order in which
/// the identifiers were first recorded.
#[derive(Debug)]
pub struct StepResults {
    pub entries: Vec<(String, StepResult)>,
}

/// Summary of a completed run.
#[derive(Debug)]
pub struct RunHistory {
    pub run_id: String,
    pub flow_id: String,
    pub status: RunStatus,
    pub step_results: StepResults,
}

/// The run met a graph with a cycle.
#[derive(Debug)]
pub struct RunError {
    /// A step that lies on the cycle.
    pub step_id: String,
}

/// The text that `Debug` formatting gives for a string: the string in double
/// quotes, with escapes.
pub uninterp spec fn debug_text(s: Seq<char>) -> Seq<char>;

/// `Debug` formatting of a `String`, through `format!`: the result is the
/// text that this formatting gives for the string.
#[verifier::external_body]
fn debug_string(s: &String) -> (r: String)
    ensures
        r@ == debug_text(s@),
{
    format!("{:?}", s)
}

impl RunError {
    /// The text of the error: it names the step, quoted.
    pub fn message(&self) -> (r: String)
        ensures
            r@ == "Cycle detected at step "@ + debug_text(self.step_id@),
    {
        let mut out = "Cycle detected at step ".to_owned();
        let quoted = debug_string(&self.step_id);
        out.append(quoted.as_str());
        out
    }
}

/// What a status says, with texts as sequences of characters.
pub enum StatusView {
    Success,
    Failed(Seq<char>),
}

/// What a result says, with texts as sequences of characters.
pub struct ResultView {
    pub status: StatusView,
    pub output: Option<Seq<char>>,
}

impl View for StepStatus {
    type V = StatusView;

    open spec fn view(&self) -> StatusView {
        match self {
            StepStatus::Success => StatusView::Success,
            StepStatus::Failed(reason) => StatusView::Failed(reason@),
        }
    }
}

impl View for StepResult {
    type V = ResultView;

    open spec fn view(&self) -> ResultView {
        ResultView {
            status: self.status@,
            output: match self.output {
                Some(o) => Some(o@),
                None => None,
            },
        }
    }
}

impl View for StepResults {
    type V = Seq<(Seq<char>, ResultView)>;

    open spec fn view(&self) -> Seq<(Seq<char>, ResultView)> {
        self.entries@.map_values(|e: (String, StepResult)| (e.0@, e.1@))
    }
}

/// No identifier has two entries.
pub open spec fn distinct_keys(rs: Seq<(Seq<char>, ResultView)>) -> bool {
    forall|i: int, j: int|
        0 <= i < j < rs.len() ==> (#[trigger] rs[i]).0 != (#[trigger] rs[j]).0
}

/// `id` has an entry.
pub open spec fn has_key(rs: Seq<(Seq<char>, ResultView)>, id: Seq<char>) -> bool {
    exists|i: int| 0 <= i < rs.len() && (#[trigger] rs[i]).0 == id
}

/// The place of an entry of `id`.
pub open spec fn key_index(rs: Seq<(Seq<char>, ResultView)>, id: Seq<char>) -> int {
    choose|i: int| 0 <= i < rs.len() && (#[trigger] rs[i]).0 == id
}

/// `id` has an entry whose status is success.
pub open spec fn succeeded(rs: Seq<(Seq<char>, ResultView)>, id: Seq<char>) -> bool {
    exists|i: int|
        0 <= i < rs.len() && (#[trigger] rs[i]).0 == id && rs[i].1.status is Success
}

/// The gating rule: a step is blocked when one of its dependencies has no
/// result or a failed one.
pub open spec fn blocked(deps: Seq<Seq<char>>, rs: Seq<(Seq<char>, ResultView)>) -> bool {
    exists|j: int| 0 <= j < deps.len() && !succeeded(rs, #[trigger] deps[j])
}

/// The results after `result` was recorded for `id`: a new entry at the end,
/// or the entry of `id` replaced.
pub open spec fn recorded(
    rs: Seq<(Seq<char>, ResultView)>,
    id: Seq<char>,
    result: ResultView,
) -> Seq<(Seq<char>, ResultView)> {
    if has_key(rs, id) {
        rs.update(key_index(rs, id), (id, result))
    } else {
        rs.push((id, result))
    }
}

/// The result of a step that was blocked.
pub open spec fn blocked_result() -> ResultView {
    ResultView { status: StatusView::Failed("Blocked by failed dependencies"@), output: None }
}

/// The result of a step that ran, by what its execution gave.
pub open spec fn outcome_result(outcome: Result<Seq<char>, Seq<char>>) -> ResultView {
    match outcome {
        Ok(output) => ResultView { status: StatusView::Success, output: Some(output) },
        Err(reason) => ResultView { status: StatusView::Failed(reason), output: None },
    }
}

/// What the stand-in execution gives: a failure for the kind `fail_test`, a
/// canned output that names the step for every other kind.
pub open spec fn simulated_outcome(id: Seq<char>, kind: Seq<char>) -> Result<
    Seq<char>,
    Seq<char>,
> {
    if kind == "fail_test"@ {
        Err("Simulated failure"@)
    } else {
        Ok("Simulated output of '"@ + id + "'"@)
    }
}

/// The result that a step gets when `rs` holds the results so far.
pub open spec fn step_result(step: StepView, rs: Seq<(Seq<char>, ResultView)>) -> ResultView {
    if blocked(step.depends_on, rs) {
        blocked_result()
    } else {
        outcome_result(simulated_outcome(step.id, step.kind))
    }
}

/// The results of walking the nodes in `order`.
pub open spec fn walk(nodes: Seq<StepView>, order: Seq<usize>) -> Seq<(Seq<char>, ResultView)>
    decreases order.len(),
{
    if order.len() == 0 {
        Seq::empty()
    } else {
        let before = walk(nodes, order.drop_last());
        let step = nodes[order.last() as int];
        recorded(before, step.id, step_result(step, before))
    }
}

/// `rs` are the results of walking all nodes in some topological order of
/// the graph.
pub open spec fn is_run_of(
    rs: Seq<(Seq<char>, ResultView)>,
    nodes: Seq<StepView>,
    edges: Seq<(int, int)>,
) -> bool {
    exists|order: Seq<usize>|
        #![auto]
        is_topological_order(order, nodes.len(), edges) && rs == walk(nodes, order)
}

/// No entry has failed.
pub open spec fn all_succeeded(rs: Seq<(Seq<char>, ResultView)>) -> bool {
    forall|i: int| 0 <= i < rs.len() ==> (#[trigger] rs[i]).1.status is Success
}

/// Every entry of `order` is a node below `n`.
pub open spec fn within(order: Seq<usize>, n: nat) -> bool {
    forall|i: int| 0 <= i < order.len() ==> (#[trigger] order[i]) < n
}

/// Recording keeps the identifiers distinct, and adds at most the one
/// recorded.
pub proof fn lemma_recorded(rs: Seq<(Seq<char>, ResultView)>, id: Seq<char>, result: ResultView)
    requires
        distinct_keys(rs),
    ensures
        distinct_keys(recorded(rs, id, result)),
        has_key(recorded(rs, id, result), id),
        forall|other: Seq<char>|
            has_key(recorded(rs, id, result), other) <==> (other == id || has_key(rs, other)),
{
    let after = recorded(rs, id, result);
    if has_key(rs, id) {
        let k = key_index(rs, id);
        assert(after[k].0 == id);
        assert forall|other: Seq<char>| has_key(after, other) <==> (other == id || has_key(
            rs,
            other,
        )) by {
            if has_key(after, other) {
                let i = key_index(after, other);
                assert(rs[i].0 == after[i].0);
            }
            if has_key(rs, other) {
                let i = key_index(rs, other);
                assert(after[i].0 == other);
            }
        }
    } else {
        assert(after[rs.len() as int].0 == id);
        assert forall|other: Seq<char>| has_key(after, other) <==> (other == id || has_key(
            rs,
            other,
        )) by {
            if has_key(after, other) {
                let i = key_index(after, other);
                if i < rs.len() {
                    assert(rs[i].0 == other);
                }
            }
            if has_key(rs, other) {
                let i = key_index(rs, other);
                assert(after[i].0 == other);
            }
        }
    }
}

impl StepResult {
    /// The result of a step that did not run because a dependency had not
    /// succeeded.
    pub fn blocked() -> (r: StepResult)
        ensures
            r@ == blocked_result(),
    {
        StepResult {
            status: StepStatus::Failed("Blocked by failed dependencies".to_owned()),
            output: None,
        }
    }

    /// The result of a step that ran: success with its output, or failure
    /// with its reason.
    pub fn from_outcome(outcome: Result<String, String>) -> (r: StepResult)
        ensures
            r@ == outcome_result(
                match outcome {
                    Ok(o) => Ok(o@),
                    Err(e) => Err(e@),
                },
            ),
    {
        match outcome {
            Ok(output) => StepResult { status: StepStatus::Success, output: Some(output) },
            Err(reason) => StepResult { status: StepStatus::Failed(reason), output: None },
        }
    }

    /// Whether the step succeeded.
    pub fn is_success(&self) -> (b: bool)
        ensures
            b == (self@.status is Success),
    {
        match self.status {
            StepStatus::Success => true,
            StepStatus::Failed(_) => false,
        }
    }
}

impl StepResults {
    /// No identifier has two entries.
    pub open spec fn wf(&self) -> bool {
        distinct_keys(self@)
    }

    /// No results yet.
    pub fn new() -> (r: StepResults)
        ensures
            r@.len() == 0,
            r.wf(),
    {
        StepResults { entries: Vec::new() }
    }

    /// The number of entries.
    pub fn len(&self) -> (n: usize)
        ensures
            n == self@.len(),
    {
        self.entries.len()
    }

    /// The place of the first entry of `id`.
    pub fn position(&self, id: &String) -> (r: Option<usize>)
        ensures
            match r {
                Some(i) => i < self@.len() && self@[i as int].0 == id@ && forall|k: int|
                    0 <= k < i ==> (#[trigger] self@[k]).0 != id@,
                None => !has_key(self@, id@),
            },
    {
        let mut i: usize = 0;
        while i < self.entries.len()
            invariant
                i <= self.entries.len(),
                forall|k: int| 0 <= k < i ==> (#[trigger] self@[k]).0 != id@,
            decreases self.entries.len() - i,
        {
            if self.entries[i].0 == *id {
                return Some(i);
            }
            i += 1;
        }
        None
    }

    /// The result recorded for `id`, if there is one.
    pub fn get(&self, id: &str) -> (r: Option<&StepResult>)
        ensures
            match r {
                Some(found) => has_key(self@, id@) && exists|i: int|
                    0 <= i < self@.len() && (#[trigger] self@[i]).0 == id@ && self@[i].1 == found@,
                None => !has_key(self@, id@),
            },
            self.wf() && r is Some ==> r.unwrap()@ == self@[key_index(self@, id@)].1,
    {
        let key = id.to_owned();
        match self.position(&key) {
            Some(i) => {
                Some(&self.entries[i].1)
            },
            None => None,
        }
    }

    /// Records `result` for `id`: it replaces the entry of `id`, or becomes a
    /// new entry at the end.
    pub fn insert(&mut self, id: String, result: StepResult)
        requires
            old(self).wf(),
        ensures
            final(self).wf(),
            final(self)@ == recorded(old(self)@, id@, result@),
    {
        proof {
            lemma_recorded(self@, id@, result@);
        }
        match self.position(&id) {
            Some(i) => {
                self.entries.set(i, (id, result));
                assert(self@ =~= recorded(old(self)@, id@, result@));
            },
            None => {
                self.entries.push((id, result));
                assert(self@ =~= recorded(old(self)@, id@, result@));
            },
        }
    }
}

/// The gating check: whether `step` must not run, because one of its
/// dependencies has no result or a failed one. A step without dependencies
/// is never blocked.
pub fn is_blocked(step: &Step, results: &StepResults) -> (b: bool)
    requires
        results.wf(),
    ensures
        b == blocked(step@.depends_on, results@),
        step@.depends_on.len() == 0 ==> !b,
{
    let ghost deps = step@.depends_on;
    let mut all_ok = true;
    let mut j: usize = 0;
    while j < step.depends_on.len()
        invariant
            j <= step.depends_on.len(),
            deps == step@.depends_on,
            deps.len() == step.depends_on.len(),
            results.wf(),
            all_ok == (forall|k: int| 0 <= k < j ==> succeeded(results@, #[trigger] deps[k])),
        decreases step.depends_on.len() - j,
    {
        assert(deps[j as int] == step.depends_on[j as int]@);
        let ok = match results.position(&step.depends_on[j]) {
            Some(i) => {
                let ok = results.entries[i].1.is_success();
                assert(ok == succeeded(results@, deps[j as int])) by {
                    if succeeded(results@, deps[j as int]) {
                        let w = choose|w: int|
                            0 <= w < results@.len() && (#[trigger] results@[w]).0 == deps[j as int]
                                && results@[w].1.status is Success;
                        assert(w == i);
                    }
                }
                ok
            },
            None => false,
        };
        if !ok {
            all_ok = false;
        }
        j += 1;
    }
    !all_ok
}

/// The stand-in for the execution of a step: it fails for the kind
/// `fail_test`, and gives a canned output that names the step for every
/// other kind.
pub fn simulate_step_execution(id: &str, kind: &str) -> (r: Result<String, String>)
    ensures
        match r {
            Ok(o) => simulated_outcome(id@, kind@) == Ok::<Seq<char>, Seq<char>>(o@),
            Err(e) => simulated_outcome(id@, kind@) == Err::<Seq<char>, Seq<char>>(e@),
        },
{
    if kind.to_owned() == "fail_test".to_owned() {
        Err("Simulated failure".to_owned())
    } else {
        let mut out = "Simulated output of '".to_owned();
        out.append(id);
        out.append("'");
        Ok(out)
    }
}

/// The status of a run: success if and only if no step failed.
pub fn aggregate_status(results: &StepResults) -> (status: RunStatus)
    ensures
        status is Success <==> all_succeeded(results@),
        status matches RunStatus::Failed(reason) ==> reason@ == "At least one step failed"@,
{
    let mut i: usize = 0;
    while i < results.entries.len()
        invariant
            i <= results.entries.len(),
            forall|k: int| 0 <= k < i ==> (#[trigger] results@[k]).1.status is Success,
        decreases results.entries.len() - i,
    {
        if !results.entries[i].1.is_success() {
            assert(!(results@[i as int].1.status is Success));
            return RunStatus::Failed("At least one step failed".to_owned());
        }
        i += 1;
    }
    RunStatus::Success
}

/// Walks the nodes of `graph` in `order`: each step is gated, then blocked or
/// run by the stand-in execution, and its result recorded before the next
/// step is looked at. Every entry of the order is visited, whatever failed
/// before it.
pub fn run_steps(graph: &StepGraph, order: &Vec<usize>) -> (results: StepResults)
    requires
        within(order@, graph_nodes(*graph).len()),
    ensures
        results.wf(),
        results@ == walk(node_views(*graph), order@),
{
    let ghost nodes = node_views(*graph);
    let mut results = StepResults::new();
    let mut k: usize = 0;
    while k < order.len()
        invariant
            k <= order.len(),
            nodes == node_views(*graph),
            within(order@, graph_nodes(*graph).len()),
            results.wf(),
            results@ == walk(nodes, order@.take(k as int)),
        decreases order.len() - k,
    {
        let idx = order[k];
        proof {
            assert(order@.take(k + 1).drop_last() =~= order@.take(k as int));
            assert(order@.take(k + 1).last() == idx);
        }
        let step = &graph_node(graph, idx).step;
        assert(step@ == nodes[idx as int]);
        let result = if is_blocked(step, &results) {
            StepResult::blocked()
        } else {
            StepResult::from_outcome(simulate_step_execution(step.id.as_str(), step.kind.as_str()))
        };
        results.insert(step.id.clone(), result);
        k += 1;
    }
    assert(order@.take(order.len() as int) =~= order@);
    results
}

/// `Uuid::new_v4` and its hyphenated text, 36 characters long: a fresh
/// random identifier.
#[verifier::external_body]
fn fresh_run_id() -> (id: String)
    ensures
        id@.len() == 36,
{
    uuid::Uuid::new_v4().to_string()
}

/// The topological order in which a run visits the nodes of `graph`, or a
/// node on a cycle.
pub fn execution_order(graph: &StepGraph) -> (r: Result<Vec<usize>, RunError>)
    ensures
        r is Err ==> has_cycle(graph_edges(*graph)),
        edges_in_range(graph_edges(*graph), graph_nodes(*graph).len()) && has_cycle(
            graph_edges(*graph),
        ) ==> r is Err,
        match r {
            Ok(order) => is_topological_order(
                order@,
                graph_nodes(*graph).len(),
                graph_edges(*graph),
            ),
            Err(e) => exists|v: int|
                0 <= v < graph_nodes(*graph).len() && #[trigger] on_cycle(graph_edges(*graph), v)
                    && e.step_id@ == node_views(*graph)[v].id,
        },
{
    match graph_toposort(graph) {
        Ok(order) => {
            proof {
                if edges_in_range(graph_edges(*graph), graph_nodes(*graph).len()) {
                    lemma_topological_order_excludes_cycles(
                        order@,
                        graph_nodes(*graph).len(),
                        graph_edges(*graph),
                    );
                }
            }
            Ok(order)
        },
        Err(v) => {
            assert(on_cycle(graph_edges(*graph), v as int));
            Err(RunError { step_id: graph_node(graph, v).step.id.clone() })
        },
    }
}

/// Runs a flow over its graph: the steps are visited in a topological order
/// of the graph, each exactly once; a step whose dependencies have not all
/// succeeded is recorded as blocked and not run; the run succeeds if and only
/// if no step failed. Fails only on a graph with a cycle.
pub fn run_flow(flow: &Flow, graph: StepGraph) -> (r: Result<RunHistory, RunError>)
    ensures
        r is Err ==> has_cycle(graph_edges(graph)),
        edges_in_range(graph_edges(graph), graph_nodes(graph).len()) && has_cycle(
            graph_edges(graph),
        ) ==> r is Err,
        match r {
            Ok(h) => {
                &&& h.flow_id@ == flow.id@
                &&& h.run_id@.len() == 36
                &&& h.step_results.wf()
                &&& is_run_of(h.step_results@, node_views(graph), graph_edges(graph))
                &&& h.status is Success <==> all_succeeded(h.step_results@)
                &&& h.status matches RunStatus::Failed(reason) ==> reason@
                    == "At least one step failed"@
                &&& distinct_ids(node_views(graph)) ==> {
                    &&& h.step_results@.len() == graph_nodes(graph).len()
                    &&& forall|v: int|
                        0 <= v < graph_nodes(graph).len() ==> result_of(
                            h.step_results@,
                            (#[trigger] node_views(graph)[v]).id,
                        ) is Some
                }
            },
            Err(e) => exists|v: int|
                0 <= v < graph_nodes(graph).len() && #[trigger] on_cycle(graph_edges(graph), v)
                    && e.step_id@ == node_views(graph)[v].id,
        },
{
    let run_id = fresh_run_id();
    match execution_order(&graph) {
        Ok(order) => {
            let results = run_steps(&graph, &order);
            let status = aggregate_status(&results);
            proof {
                let nodes = node_views(graph);
                if distinct_ids(nodes) {
                    lemma_walk_visits_each_once(nodes, order@);
                    assert forall|v: int| 0 <= v < nodes.len() implies result_of(
                        results@,
                        (#[trigger] nodes[v]).id,
                    ) is Some by {
                        lemma_every_step_has_a_result(nodes, order@, v);
                    }
                }
            }
            Ok(RunHistory { run_id, flow_id: flow.id.clone(), status, step_results: results })
        },
        Err(e) => Err(e),
    }
}

/// A step without dependencies is never blocked.
pub proof fn lemma_no_dependencies_never_blocked(
    step: StepView,
    rs: Seq<(Seq<char>, ResultView)>,
)
    requires
        step.depends_on.len() == 0,
    ensures
        !blocked(step.depends_on, rs),
        step_result(step, rs) == outcome_result(simulated_outcome(step.id, step.kind)),
{
}

/// A step with a dependency that has no result, or a failed one, is recorded
/// as blocked, whatever its execution would have given.
pub proof fn lemma_unmet_dependency_blocks(
    step: StepView,
    rs: Seq<(Seq<char>, ResultView)>,
    j: int,
)
    requires
        0 <= j < step.depends_on.len(),
        !succeeded(rs, step.depends_on[j]),
    ensures
        blocked(step.depends_on, rs),
        step_result(step, rs) == blocked_result(),
{
}

/// When no two steps share an identifier, a walk in an order that lists each
/// node once gives one entry per step: the entry at each place is that of
/// the step visited at that place.
pub proof fn lemma_walk_visits_each_once(nodes: Seq<StepView>, order: Seq<usize>)
    requires
        distinct_ids(nodes),
        within(order, nodes.len()),
        forall|i: int, j: int|
            0 <= i < j < order.len() ==> (#[trigger] order[i]) != (#[trigger] order[j]),
    ensures
        walk(nodes, order).len() == order.len(),
        distinct_keys(walk(nodes, order)),
        forall|k: int|
            0 <= k < order.len() ==> (#[trigger] walk(nodes, order)[k]).0 == nodes[order[k] as int].id,
        order.len() > 0 ==> walk(nodes, order) == walk(nodes, order.drop_last()).push(
            (
                nodes[order.last() as int].id,
                step_result(nodes[order.last() as int], walk(nodes, order.drop_last())),
            ),
        ),
    decreases order.len(),
{
    if order.len() > 0 {
        let shorter = order.drop_last();
        lemma_walk_visits_each_once(nodes, shorter);
        let before = walk(nodes, shorter);
        let step = nodes[order.last() as int];
        if has_key(before, step.id) {
            let i = key_index(before, step.id);
            assert(before[i].0 == nodes[shorter[i] as int].id);
            assert(shorter[i] == order[i]);
            assert(order[i] != order[order.len() - 1]);
            assert(false);
        }
        let after = walk(nodes, order);
        assert(after == before.push((step.id, step_result(step, before))));
        assert forall|k: int| 0 <= k < order.len() implies (#[trigger] after[k]).0
            == nodes[order[k] as int].id by {
            if k < shorter.len() {
                assert(after[k] == before[k]);
                assert(shorter[k] == order[k]);
            }
        }
        lemma_recorded(before, step.id, step_result(step, before));
    }
}

/// When no two steps share an identifier, the results after the first `k`
/// visits are the first `k` entries of the final results.
pub proof fn lemma_walk_prefix(nodes: Seq<StepView>, order: Seq<usize>, k: int)
    requires
        distinct_ids(nodes),
        within(order, nodes.len()),
        forall|i: int, j: int|
            0 <= i < j < order.len() ==> (#[trigger] order[i]) != (#[trigger] order[j]),
        0 <= k <= order.len(),
    ensures
        walk(nodes, order.take(k)) == walk(nodes, order).take(k),
    decreases order.len(),
{
    lemma_walk_visits_each_once(nodes, order);
    if k == order.len() {
        assert(order.take(k) =~= order);
        assert(walk(nodes, order).take(k) =~= walk(nodes, order));
    } else {
        let shorter = order.drop_last();
        lemma_walk_visits_each_once(nodes, shorter);
        lemma_walk_prefix(nodes, shorter, k);
        assert(order.take(k) =~= shorter.take(k));
        assert(walk(nodes, order).take(k) =~= walk(nodes, shorter).take(k));
    }
}

/// The gating rule holds of the final results. When no two steps share an
/// identifier, the order is topological and every dependency that names a
/// step has its edge, the result of each step is the one that the gating
/// rule gives against the results of the whole run: blocked if a dependency
/// is absent from them or failed in them, and what its execution gave
/// otherwise.
pub proof fn lemma_gating_holds_of_final_results(
    nodes: Seq<StepView>,
    edges: Seq<(int, int)>,
    order: Seq<usize>,
    k: int,
)
    requires
        distinct_ids(nodes),
        is_topological_order(order, nodes.len(), edges),
        edges_cover_dependencies(nodes, edges),
        0 <= k < order.len(),
    ensures
        walk(nodes, order).len() == nodes.len(),
        walk(nodes, order)[k] == (
            nodes[order[k] as int].id,
            step_result(nodes[order[k] as int], walk(nodes, order)),
        ),
{
    let all = walk(nodes, order);
    let step = nodes[order[k] as int];
    lemma_walk_visits_each_once(nodes, order);
    lemma_walk_prefix(nodes, order, k);
    lemma_walk_prefix(nodes, order, k + 1);
    let upto = order.take(k + 1);
    lemma_walk_visits_each_once(nodes, upto);
    assert(upto.drop_last() =~= order.take(k));
    assert(upto.last() == order[k]);
    let before = walk(nodes, order.take(k));
    assert(before == all.take(k));
    assert(all.take(k + 1)[k] == all[k]);
    assert(all[k] == (step.id, step_result(step, before)));
    assert forall|j: int| 0 <= j < step.depends_on.len() implies succeeded(
        before,
        #[trigger] step.depends_on[j],
    ) == succeeded(all, step.depends_on[j]) by {
        let d = step.depends_on[j];
        if succeeded(before, d) {
            let i = choose|i: int|
                0 <= i < before.len() && (#[trigger] before[i]).0 == d && before[i].1.status is Success;
            assert(all[i] == before[i]);
        }
        if succeeded(all, d) {
            let i = choose|i: int|
                0 <= i < all.len() && (#[trigger] all[i]).0 == d && all[i].1.status is Success;
            let v = order[i] as int;
            assert(nodes[v].id == step.depends_on[j]);
            assert(edges.contains((v, order[k] as int)));
            let e = choose|e: int| 0 <= e < edges.len() && edges[e] == (v, order[k] as int);
            assert(order[k] == edges[e].1 && order[i] == edges[e].0);
            assert(i < k);
            assert(before[i] == all[i]);
        }
    }
    assert(blocked(step.depends_on, before) == blocked(step.depends_on, all));
}

/// The result recorded for `id`, if there is one.
pub open spec fn result_of(rs: Seq<(Seq<char>, ResultView)>, id: Seq<char>) -> Option<ResultView> {
    if has_key(rs, id) {
        Some(rs[key_index(rs, id)].1)
    } else {
        None
    }
}

/// When no two steps share an identifier, the result recorded for the step
/// visited at place `k` is the entry at place `k`.
pub proof fn lemma_result_of_visited(nodes: Seq<StepView>, order: Seq<usize>, k: int)
    requires
        distinct_ids(nodes),
        within(order, nodes.len()),
        forall|i: int, j: int|
            0 <= i < j < order.len() ==> (#[trigger] order[i]) != (#[trigger] order[j]),
        0 <= k < order.len(),
    ensures
        result_of(walk(nodes, order), nodes[order[k] as int].id) == Some(walk(nodes, order)[k].1),
{
    lemma_walk_visits_each_once(nodes, order);
    let rs = walk(nodes, order);
    let id = nodes[order[k] as int].id;
    assert(rs[k].0 == id);
    let i = key_index(rs, id);
    if i < k {
        assert(rs[i].0 != rs[k].0);
    } else if k < i {
        assert(rs[k].0 != rs[i].0);
    }
}

/// When no two steps share an identifier, a walk of all nodes records a
/// result for every step.
pub proof fn lemma_every_step_has_a_result(nodes: Seq<StepView>, order: Seq<usize>, v: int)
    requires
        distinct_ids(nodes),
        lists_every_node(order, nodes.len()),
        0 <= v < nodes.len(),
    ensures
        walk(nodes, order).len() == nodes.len(),
        result_of(walk(nodes, order), nodes[v].id) is Some,
{
    lemma_walk_visits_each_once(nodes, order);
    assert(appears_in(order, v));
    let k = choose|i: int| 0 <= i < order.len() && #[trigger] order[i] == v;
    lemma_result_of_visited(nodes, order, k);
}

/// A run of a flow obeys the gating rule. When no two steps of the flow
/// share an identifier, a walk in a topological order of the flow's edges
/// gives one entry per step, and the result of each step is the one that the
/// gating rule gives against the results of the whole run.
pub proof fn lemma_run_of_flow(steps: Seq<StepView>, order: Seq<usize>, k: int)
    requires
        distinct_ids(steps),
        is_topological_order(order, steps.len(), flow_edges(steps, steps.len())),
        0 <= k < order.len(),
    ensures
        walk(steps, order).len() == steps.len(),
        walk(steps, order)[k] == (
            steps[order[k] as int].id,
            step_result(steps[order[k] as int], walk(steps, order)),
        ),
{
    lemma_flow_edges_cover(steps);
    lemma_gating_holds_of_final_results(steps, flow_edges(steps, steps.len()), order, k);
}

/// The results do not depend on the topological order chosen. When no two
/// steps share an identifier and every dependency that names a step has its
/// edge, two walks in topological orders record the same result for the step
/// that the first visits at place `p`.
pub proof fn lemma_results_are_order_independent(
    nodes: Seq<StepView>,
    edges: Seq<(int, int)>,
    first: Seq<usize>,
    second: Seq<usize>,
    p: int,
)
    requires
        distinct_ids(nodes),
        is_topological_order(first, nodes.len(), edges),
        is_topological_order(second, nodes.len(), edges),
        edges_cover_dependencies(nodes, edges),
        0 <= p < first.len(),
    ensures
        result_of(walk(nodes, first), nodes[first[p] as int].id) == result_of(
            walk(nodes, second),
            nodes[first[p] as int].id,
        ),
        result_of(walk(nodes, first), nodes[first[p] as int].id) is Some,
    decreases p,
{
    let v = first[p] as int;
    let step = nodes[v];
    let w1 = walk(nodes, first);
    let w2 = walk(nodes, second);
    assert(appears_in(second, v));
    let p2 = choose|i: int| 0 <= i < second.len() && #[trigger] second[i] == v;
    lemma_gating_holds_of_final_results(nodes, edges, first, p);
    lemma_gating_holds_of_final_results(nodes, edges, second, p2);
    lemma_result_of_visited(nodes, first, p);
    lemma_result_of_visited(nodes, second, p2);
    lemma_walk_visits_each_once(nodes, first);
    lemma_walk_visits_each_once(nodes, second);
    assert forall|j: int| 0 <= j < step.depends_on.len() implies succeeded(
        w1,
        #[trigger] step.depends_on[j],
    ) == succeeded(w2, step.depends_on[j]) by {
        let d = step.depends_on[j];
        if succeeded(w1, d) {
            let i = choose|i: int|
                0 <= i < w1.len() && (#[trigger] w1[i]).0 == d && w1[i].1.status is Success;
            let u = first[i] as int;
            assert(nodes[u].id == nodes[v].depends_on[j]);
            assert(edges.contains((u, v)));
            let e = choose|e: int| 0 <= e < edges.len() && edges[e] == (u, v);
            assert(first[p] == edges[e].1 && first[i] == edges[e].0);
            assert(i < p);
            lemma_results_are_order_independent(nodes, edges, first, second, i);
            lemma_result_of_visited(nodes, first, i);
            let i2 = key_index(w2, d);
            assert(w2[i2].0 == d && w2[i2].1.status is Success);
        }
        if succeeded(w2, d) {
            let i2 = choose|i: int|
                0 <= i < w2.len() && (#[trigger] w2[i]).0 == d && w2[i].1.status is Success;
            let u = second[i2] as int;
            assert(nodes[u].id == nodes[v].depends_on[j]);
            assert(edges.contains((u, v)));
            assert(appears_in(first, u));
            let i = choose|i: int| 0 <= i < first.len() && #[trigger] first[i] == u;
            let e = choose|e: int| 0 <= e < edges.len() && edges[e] == (u, v);
            assert(first[p] == edges[e].1 && first[i] == edges[e].0);
            assert(i < p);
            lemma_results_are_order_independent(nodes, edges, first, second, i);
            lemma_result_of_visited(nodes, first, i);
            lemma_result_of_visited(nodes, second, i2);
            assert(w1[i].0 == d && w1[i].1.status is Success);
        }
    }
    assert(blocked(step.depends_on, w1) == blocked(step.depends_on, w2));
}

/// A walk records results only under identifiers of steps.
pub proof fn lemma_walk_keys_are_step_ids(nodes: Seq<StepView>, order: Seq<usize>)
    requires
        within(order, nodes.len()),
    ensures
        distinct_keys(walk(nodes, order)),
        forall|id: Seq<char>| has_key(walk(nodes, order), id) ==> names_step(nodes, id),
    decreases order.len(),
{
    if order.len() > 0 {
        let shorter = order.drop_last();
        lemma_walk_keys_are_step_ids(nodes, shorter);
        let before = walk(nodes, shorter);
        let step = nodes[order.last() as int];
        lemma_recorded(before, step.id, step_result(step, before));
        assert forall|id: Seq<char>| has_key(walk(nodes, order), id) implies names_step(
            nodes,
            id,
        ) by {
            if id == step.id {
                assert(nodes[order.last() as int].id == id);
            } else {
                assert(has_key(before, id));
            }
        }
    } else {
        assert forall|id: Seq<char>| !has_key(walk(nodes, order), id) by {}
    }
}

/// A step with a dependency that names no step is blocked at whatever point
/// of a walk it is gated.
pub proof fn lemma_unknown_dependency_blocks(
    nodes: Seq<StepView>,
    order: Seq<usize>,
    step: StepView,
    j: int,
)
    requires
        within(order, nodes.len()),
        0 <= j < step.depends_on.len(),
        !names_step(nodes, step.depends_on[j]),
    ensures
        blocked(step.depends_on, walk(nodes, order)),
        step_result(step, walk(nodes, order)) == blocked_result(),
{
    lemma_walk_keys_are_step_ids(nodes, order);
    let rs = walk(nodes, order);
    if succeeded(rs, step.depends_on[j]) {
        assert(has_key(rs, step.depends_on[j]));
        assert(false);
    }
}

} // verus!
