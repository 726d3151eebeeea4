//! The run engine: drives one workflow execution node by node, gathers each
//! node's inputs from its incoming edges, emits lifecycle events, honours
//! cooperative cancellation at node boundaries, and stops the whole run on
//! the first node failure.

use vstd::prelude::*;

use crate::dispatch::{chat_call_ok, chat_response_value, http_call_ok, http_response_value,
    ChatCall, HttpCall, NodeAction};
use crate::models::{Execution, ExecutionStatus};
use crate::schedule::{acyclic, edge_respected, edges_valid, execution_order, first_pos};
use crate::value::{obj_lookup, obj_store, obj_view, Entry, Value, ValueSpec};
use crate::workflow::{lemma_node_idx, node_idx, Workflow, WorkflowEdge, WorkflowNode};

verus! {

broadcast use vstd::seq::axiom_seq_index_decreases, vstd::seq::axiom_seq_subrange_decreases, vstd::std_specs::vec::axiom_vec_decreases_to_view, vstd::std_specs::vec::axiom_spec_len;

/// One lifecycle event of a run, in emission order.
#[derive(Debug)]
pub enum ExecutionEvent {
    /// The run began.
    Started { execution_id: String, workflow_id: String },
    /// A node is about to run.
    NodeStarted { node_id: String, node_type: String },
    /// A node finished with these outputs.
    NodeCompleted { node_id: String, outputs: Value, duration_ms: i64 },
    /// A node failed; the run stops.
    NodeFailed { node_id: String, error: String },
    /// Progress after one node completed.
    Progress { completed_nodes: usize, total_nodes: usize, current_node: Option<String> },
    /// The run finished with these outputs.
    Completed { outputs: Value, duration_ms: i64 },
    /// The run failed.
    Failed { error: String, failed_node: Option<String> },
    /// The run was cancelled before a node started.
    Cancelled { execution_id: String },
}

/// Whether an event reports one node's completion or failure.
pub open spec fn is_node_outcome(e: ExecutionEvent) -> bool {
    e is NodeCompleted || e is NodeFailed
}

/// Whether an event is a terminal run event.
pub open spec fn is_terminal(e: ExecutionEvent) -> bool {
    e is Completed || e is Failed || e is Cancelled
}

/// How many events report a node's completion or failure.
pub open spec fn count_node_outcomes(es: Seq<ExecutionEvent>) -> nat
    decreases es.len(),
{
    if es.len() == 0 {
        0
    } else {
        (if is_node_outcome(es.last()) {
            1nat
        } else {
            0nat
        }) + count_node_outcomes(es.drop_last())
    }
}

/// How many events are terminal run events.
pub open spec fn count_terminal(es: Seq<ExecutionEvent>) -> nat
    decreases es.len(),
{
    if es.len() == 0 {
        0
    } else {
        (if is_terminal(es.last()) {
            1nat
        } else {
            0nat
        }) + count_terminal(es.drop_last())
    }
}

/// The indices of the nodes whose tag is not `start`.
pub open spec fn non_start_set(nodes: Seq<WorkflowNode>) -> Set<int> {
    vstd::set_lib::set_int_range(0, nodes.len() as int).filter(
        |i: int| nodes[i].node_type@ != "start"@,
    )
}

/// How many nodes carry a tag other than `start`.
pub open spec fn non_start_count(nodes: Seq<WorkflowNode>) -> nat {
    non_start_set(nodes).len()
}

/// How many of the first `k` order entries name a node whose tag is not
/// `start`.
pub open spec fn ns_prefix(order: Seq<String>, nodes: Seq<WorkflowNode>, k: int) -> nat
    decreases k,
{
    if k <= 0 {
        0
    } else {
        ns_prefix(order, nodes, k - 1) + (if node_idx(nodes, order[k - 1]@) >= 0 && nodes[node_idx(
            nodes,
            order[k - 1]@,
        )].node_type@ != "start"@ {
            1nat
        } else {
            0nat
        })
    }
}

/// With distinct valid entries, the prefix count never exceeds the number
/// of non-start nodes.
proof fn lemma_ns_prefix_bound(
    order: Seq<String>,
    nodes: Seq<WorkflowNode>,
    k: int,
    avail: Set<int>,
)
    requires
        0 <= k <= order.len(),
        forall|a: int, b: int| 0 <= a < b < order.len() ==> (#[trigger] order[a]@) != (#[trigger] order[b]@),
        forall|a: int| 0 <= a < order.len() ==> node_idx(nodes, (#[trigger] order[a])@) >= 0,
        avail.finite(),
        forall|a: int|
            0 <= a < k ==> avail.contains(node_idx(nodes, (#[trigger] order[a])@)),
    ensures
        ns_prefix(order, nodes, k) <= avail.filter(
            |i: int| 0 <= i < nodes.len() && nodes[i].node_type@ != "start"@,
        ).len(),
    decreases k,
{
    let pred = |i: int| 0 <= i < nodes.len() && nodes[i].node_type@ != "start"@;
    avail.lemma_len_filter(pred);
    if k > 0 {
        let x = node_idx(nodes, order[k - 1]@);
        lemma_node_idx(nodes, order[k - 1]@);
        let rest_avail = avail.remove(x);
        assert forall|a: int| 0 <= a < k - 1 implies rest_avail.contains(
            node_idx(nodes, (#[trigger] order[a])@),
        ) by {
            let y = node_idx(nodes, order[a]@);
            lemma_node_idx(nodes, order[a]@);
            if y == x {
                assert(nodes[y].id@ == order[a]@);
                assert(nodes[x].id@ == order[k - 1]@);
            }
        }
        lemma_ns_prefix_bound(order, nodes, k - 1, rest_avail);
        rest_avail.lemma_len_filter(pred);
        if pred(x) {
            assert(avail.filter(pred).contains(x));
            assert(rest_avail.filter(pred) =~= avail.filter(pred).remove(x));
            assert(rest_avail.filter(pred).len() == avail.filter(pred).len() - 1);
        } else {
            assert(rest_avail.filter(pred) =~= avail.filter(pred).remove(x));
            vstd::set_lib::lemma_len_subset(rest_avail.filter(pred), avail.filter(pred));
        }
    }
}

/// The prefix count of the whole order is bounded by the non-start count.
pub proof fn lemma_order_ns_bound(order: Seq<String>, nodes: Seq<WorkflowNode>, k: int)
    requires
        0 <= k <= order.len(),
        forall|a: int, b: int| 0 <= a < b < order.len() ==> (#[trigger] order[a]@) != (#[trigger] order[b]@),
        forall|a: int| 0 <= a < order.len() ==> node_idx(nodes, (#[trigger] order[a])@) >= 0,
    ensures
        ns_prefix(order, nodes, k) <= non_start_count(nodes),
{
    let range = vstd::set_lib::set_int_range(0, nodes.len() as int);
    vstd::set_lib::lemma_int_range(0, nodes.len() as int);
    assert forall|a: int| 0 <= a < k implies range.contains(
        node_idx(nodes, (#[trigger] order[a])@),
    ) by {
        lemma_node_idx(nodes, order[a]@);
    }
    lemma_ns_prefix_bound(order, nodes, k, range);
    let pred = |i: int| 0 <= i < nodes.len() && nodes[i].node_type@ != "start"@;
    assert(range.filter(pred) =~= non_start_set(nodes));
}

/// What the engine waits on after handing out an external call.
#[derive(Debug)]
pub enum AwaitKind {
    /// An HTTP request is in flight.
    Http,
    /// A model exchange is in flight; the field is the resolved model name.
    Chat(String),
}

/// The node whose external call is in flight.
#[derive(Debug)]
pub struct AwaitState {
    pub node_id: String,
    pub started_ms: i64,
    pub kind: AwaitKind,
}

/// The second-to-last event reports a node completion with this output.
pub open spec fn completed_with(events: Seq<ExecutionEvent>, output: ValueSpec) -> bool {
    events.len() >= 2 && (events[events.len() - 2] matches ExecutionEvent::NodeCompleted {
        outputs: o,
        ..
    } && o.view_spec() == output)
}

/// What one engine step asks of its caller.
#[derive(Debug)]
pub enum StepOutcome {
    /// A node ran to completion inside the engine; step again.
    Progressed,
    /// Perform this HTTP request and hand the result back.
    NeedsHttp(HttpCall),
    /// Perform this model exchange and hand the result back.
    NeedsChat(ChatCall),
    /// The run reached a terminal status; the event log holds the outcome.
    Finished,
}

/// The state of one run.
#[derive(Debug)]
pub struct Engine {
    pub execution_id: String,
    pub workflow: Workflow,
    pub order: Vec<String>,
    pub pos: usize,
    pub node_outputs: Vec<Entry>,
    pub events: Vec<ExecutionEvent>,
    pub completed_nodes: usize,
    pub total_nodes: usize,
    pub status: ExecutionStatus,
    pub awaiting: Option<AwaitState>,
    pub started_ms: i64,
    pub error: Option<String>,
}

impl Engine {
    /// The engine's well-formedness: the order is a duplicate-free list of
    /// node ids, at most one node-outcome event stands per processed
    /// non-start entry, and exactly one terminal event stands once the run
    /// has ended.
    pub open spec fn inv(self) -> bool {
        &&& self.workflow.wf()
        &&& self.pos <= self.order@.len()
        &&& self.total_nodes == self.workflow.nodes@.len()
        &&& (forall|a: int, b: int|
            0 <= a < b < self.order@.len() ==> (#[trigger] self.order@[a]@) != (
            #[trigger] self.order@[b]@))
        &&& (forall|a: int|
            0 <= a < self.order@.len() ==> node_idx(
                self.workflow.nodes@,
                (#[trigger] self.order@[a])@,
            ) >= 0)
        &&& count_node_outcomes(self.events@) <= ns_prefix(
            self.order@,
            self.workflow.nodes@,
            self.pos as int,
        )
        &&& count_terminal(self.events@) == (if self.status is Running {
            0nat
        } else {
            1nat
        })
        &&& (self.awaiting is Some ==> self.status is Running && self.pos < self.order@.len()
            && count_node_outcomes(self.events@) < ns_prefix(
            self.order@,
            self.workflow.nodes@,
            self.pos + 1,
        ) && self.awaiting->Some_0.node_id@ == self.order@[self.pos as int]@)
        &&& (forall|i: int|
            0 <= i < self.events@.len() && (#[trigger] self.events@[i]) is NodeFailed ==> i
                == self.events@.len() - 2 && self.events@[self.events@.len() - 1] is Failed)
        &&& (self.error is Some <==> self.status is Failed)
    }

    /// A running engine has recorded no node failure: a failure ends the
    /// run at once.
    pub proof fn lemma_running_no_failure(self)
        requires
            self.inv(),
            self.status is Running,
        ensures
            forall|i: int| 0 <= i < self.events@.len() ==> !((#[trigger] self.events@[i])
                is NodeFailed),
    {
        assert forall|i: int| 0 <= i < self.events@.len() implies !((#[trigger] self.events@[i])
            is NodeFailed) by {
            if self.events@[i] is NodeFailed {
                assert(self.events@[self.events@.len() - 1] is Failed);
                assert(count_terminal(self.events@) == (if is_terminal(self.events@.last()) {
                    1nat
                } else {
                    0nat
                }) + count_terminal(self.events@.drop_last()));
            }
        }
    }

    /// Both halves of the event budget: node outcomes never exceed the
    /// number of non-start nodes, and a finished run has exactly one
    /// terminal event.
    pub proof fn lemma_event_budget(self)
        requires
            self.inv(),
        ensures
            count_node_outcomes(self.events@) <= non_start_count(self.workflow.nodes@),
            !(self.status is Running) ==> count_terminal(self.events@) == 1,
            self.status is Running ==> count_terminal(self.events@) == 0,
            forall|i: int|
                0 <= i < self.events@.len() && (#[trigger] self.events@[i]) is NodeFailed ==> i
                    == self.events@.len() - 2 && self.events@[self.events@.len() - 1] is Failed,
    {
        lemma_order_ns_bound(self.order@, self.workflow.nodes@, self.pos as int);
    }

    /// Starts a run: computes the execution order, publishes the raw inputs
    /// as the output of every `start` node, and emits the start event. The
    /// stored order carries the scheduler's guarantees: it is duplicate
    /// free, names only known nodes, respects every edge, and on an acyclic
    /// graph with valid edges it holds every node.
    #[verifier::loop_isolation(false)]
    pub fn start(execution_id: String, workflow: Workflow, inputs: &Value, now_ms: i64) -> (e:
        Engine)
        requires
            workflow.wf(),
        ensures
            e.inv(),
            e.status is Running,
            e.events@.len() == 1,
            e.events@[0] matches ExecutionEvent::Started { execution_id: x, workflow_id: w } && x
                == execution_id && w@ == workflow.id@,
            e.awaiting is None,
            e.started_ms == now_ms,
            e.execution_id == execution_id,
            e.workflow == workflow,
            e.pos == 0,
            e.total_nodes == workflow.nodes@.len(),
            e.order@.len() <= workflow.nodes@.len(),
            forall|ei: int|
                0 <= ei < workflow.edges@.len() ==> edge_respected(
                    #[trigger] workflow.edges@[ei],
                    e.order@,
                ),
            edges_valid(workflow) && acyclic(workflow) ==> forall|k: int|
                0 <= k < workflow.nodes@.len() ==> first_pos(
                    e.order@,
                    (#[trigger] workflow.nodes@[k]).id@,
                ) >= 0,
            forall|k: int|
                0 <= k < workflow.nodes@.len() && (#[trigger] workflow.nodes@[k]).node_type@
                    == "start"@ ==> obj_lookup(
                    obj_view(e.node_outputs@),
                    workflow.nodes@[k].id@,
                ) == Some(inputs.view_spec()),
            forall|id: Seq<char>|
                (#[trigger] obj_lookup(obj_view(e.node_outputs@), id)) is Some ==> exists|k: int|
                    0 <= k < workflow.nodes@.len() && (#[trigger] workflow.nodes@[k]).id@ == id
                        && workflow.nodes@[k].node_type@ == "start"@,
    {
        let order = execution_order(&workflow);
        let mut node_outputs: Vec<Entry> = Vec::new();
        // publish the inputs as the output of every start node
        let n = workflow.nodes.len();
        let mut i: usize = 0;
        while i < n
            invariant
                i <= n,
                n == workflow.nodes@.len(),
                forall|k: int|
                    0 <= k < i && (#[trigger] workflow.nodes@[k]).node_type@ == "start"@
                        ==> obj_lookup(obj_view(node_outputs@), workflow.nodes@[k].id@) == Some(
                        inputs.view_spec(),
                    ),
                forall|id: Seq<char>|
                    (#[trigger] obj_lookup(obj_view(node_outputs@), id)) is Some ==> exists|k: int|
                        0 <= k < i && (#[trigger] workflow.nodes@[k]).id@ == id
                            && workflow.nodes@[k].node_type@ == "start"@,
            decreases n - i,
        {
            let tc = crate::text::string_chars(workflow.nodes[i].node_type.as_str());
            if str_eq_start(&tc) {
                let ghost before = obj_view(node_outputs@);
                let ghost seeded = workflow.nodes@[i as int].id@;
                crate::value::obj_set(
                    &mut node_outputs,
                    workflow.nodes[i].id.clone(),
                    inputs.deep_clone(),
                );
                proof {
                    crate::value::lemma_obj_store_same(before, seeded, inputs.view_spec());
                    assert forall|k: int|
                        0 <= k < i + 1 && (#[trigger] workflow.nodes@[k]).node_type@
                            == "start"@ implies obj_lookup(
                        obj_view(node_outputs@),
                        workflow.nodes@[k].id@,
                    ) == Some(inputs.view_spec()) by {
                        if k < i {
                            assert(workflow.nodes@[k].id@ != seeded);
                            crate::value::lemma_obj_store_other(
                                before,
                                seeded,
                                inputs.view_spec(),
                                workflow.nodes@[k].id@,
                            );
                        }
                    }
                    assert forall|id: Seq<char>|
                        (#[trigger] obj_lookup(obj_view(node_outputs@), id))
                            is Some implies exists|k: int|
                        0 <= k < i + 1 && (#[trigger] workflow.nodes@[k]).id@ == id
                            && workflow.nodes@[k].node_type@ == "start"@ by {
                        if id == seeded {
                            assert(workflow.nodes@[i as int].id@ == id
                                && workflow.nodes@[i as int].node_type@ == "start"@);
                        } else {
                            crate::value::lemma_obj_store_other(
                                before,
                                seeded,
                                inputs.view_spec(),
                                id,
                            );
                        }
                    }
                }
            }
            i = i + 1;
        }
        let mut events: Vec<ExecutionEvent> = Vec::new();
        events.push(
            ExecutionEvent::Started {
                execution_id: execution_id.clone(),
                workflow_id: workflow.id.clone(),
            },
        );
        let total = workflow.nodes.len();
        let e = Engine {
            execution_id,
            workflow,
            order,
            pos: 0,
            node_outputs,
            events,
            completed_nodes: 0,
            total_nodes: total,
            status: ExecutionStatus::Running,
            awaiting: None,
            started_ms: now_ms,
            error: None,
        };
        proof {
            assert(e.events@ == events@);
            assert(events@.len() == 1);
            assert(!is_terminal(events@.last()));
            assert(!is_node_outcome(events@.last()));
            assert(events@.drop_last() =~= Seq::<ExecutionEvent>::empty());
            assert(count_terminal(Seq::<ExecutionEvent>::empty()) == 0);
            assert(count_node_outcomes(Seq::<ExecutionEvent>::empty()) == 0);
            assert(count_terminal(events@) == (if is_terminal(events@.last()) {
                1nat
            } else {
                0nat
            }) + count_terminal(events@.drop_last()));
            assert(count_node_outcomes(events@) == (if is_node_outcome(events@.last()) {
                1nat
            } else {
                0nat
            }) + count_node_outcomes(events@.drop_last()));
        }
        e
    }

    /// The merged inputs of one node: for each edge into it, in declaration
    /// order, the source node's recorded output under the edge's source
    /// handle, or under the source id; later edges overwrite earlier keys.
    pub open spec fn gathered(
        es: Seq<WorkflowEdge>,
        outs: Seq<(Seq<char>, ValueSpec)>,
        target: Seq<char>,
        k: int,
    ) -> Seq<(Seq<char>, ValueSpec)>
        decreases k,
    {
        if k <= 0 {
            Seq::empty()
        } else {
            let prev = Self::gathered(es, outs, target, k - 1);
            let e = es[k - 1];
            if e.target@ == target {
                match obj_lookup(outs, e.source@) {
                    Some(v) => obj_store(
                        prev,
                        match e.source_handle {
                            Some(h) => h@,
                            None => e.source@,
                        },
                        v,
                    ),
                    None => prev,
                }
            } else {
                prev
            }
        }
    }

    /// Gathers one node's inputs from its incoming edges.
    #[verifier::loop_isolation(false)]
    pub fn collect_node_inputs(&self, node_id: &String) -> (r: Value)
        ensures
            r.view_spec() == ValueSpec::Obj(
                Self::gathered(
                    self.workflow.edges@,
                    obj_view(self.node_outputs@),
                    node_id@,
                    self.workflow.edges@.len() as int,
                ),
            ),
    {
        let m = self.workflow.edges.len();
        let mut acc: Vec<Entry> = Vec::new();
        let mut k: usize = 0;
        while k < m
            invariant
                k <= m,
                m == self.workflow.edges@.len(),
                obj_view(acc@) == Self::gathered(
                    self.workflow.edges@,
                    obj_view(self.node_outputs@),
                    node_id@,
                    k as int,
                ),
            decreases m - k,
        {
            let edge = &self.workflow.edges[k];
            if edge.target.eq(node_id) {
                match crate::value::obj_get(&self.node_outputs, &edge.source) {
                    Some(v) => {
                        let key = match &edge.source_handle {
                            Some(h) => h.clone(),
                            None => edge.source.clone(),
                        };
                        crate::value::obj_set(&mut acc, key, v.deep_clone());
                    },
                    None => {
                    },
                }
            }
            k = k + 1;
        }
        Value::Obj(acc)
    }
}

/// Whether the characters spell `start`.
fn str_eq_start(tc: &Vec<char>) -> (r: bool)
    ensures
        r == (tc@ == "start"@),
{
    let wc = crate::text::string_chars("start");
    let n = tc.len();
    if n != wc.len() {
        return false;
    }
    let mut j: usize = 0;
    while j < n
        invariant
            j <= n,
            n == tc@.len(),
            n == wc@.len(),
            wc@ == "start"@,
            forall|j2: int| 0 <= j2 < j ==> tc@[j2] == wc@[j2],
        decreases n - j,
    {
        if tc[j] != wc[j] {
            return false;
        }
        j = j + 1;
    }
    proof {
        assert(tc@ =~= wc@);
    }
    true
}


/// Event counts after appending one event.
proof fn lemma_counts_push(es: Seq<ExecutionEvent>, e: ExecutionEvent)
    ensures
        count_node_outcomes(es.push(e)) == count_node_outcomes(es) + (if is_node_outcome(e) {
            1nat
        } else {
            0nat
        }),
        count_terminal(es.push(e)) == count_terminal(es) + (if is_terminal(e) {
            1nat
        } else {
            0nat
        }),
{
    assert(es.push(e).drop_last() =~= es);
    assert(es.push(e).last() == e);
}

/// The index of the first node with the given tag; -1 when absent.
pub open spec fn first_of_type(nodes: Seq<WorkflowNode>, tag: Seq<char>) -> int
    decreases nodes.len(),
{
    if nodes.len() == 0 {
        -1
    } else if nodes[0].node_type@ == tag {
        0
    } else {
        let r = first_of_type(nodes.subrange(1, nodes.len() as int), tag);
        if r < 0 {
            -1
        } else {
            r + 1
        }
    }
}

/// The run's final outputs: the recorded output of the first `end` node,
/// or an empty object when no `end` node produced one.
pub open spec fn run_outputs(nodes: Seq<WorkflowNode>, outs: Seq<(Seq<char>, ValueSpec)>) -> ValueSpec {
    let e = first_of_type(nodes, "end"@);
    if e >= 0 {
        match obj_lookup(outs, nodes[e].id@) {
            Some(v) => v,
            None => ValueSpec::Obj(Seq::empty()),
        }
    } else {
        ValueSpec::Obj(Seq::empty())
    }
}

/// `first_of_type` finds a node with the tag, or there is none.
proof fn lemma_first_of_type(nodes: Seq<WorkflowNode>, tag: Seq<char>)
    ensures
        first_of_type(nodes, tag) >= 0 ==> first_of_type(nodes, tag) < nodes.len()
            && nodes[first_of_type(nodes, tag)].node_type@ == tag,
        first_of_type(nodes, tag) < 0 ==> forall|j: int|
            0 <= j < nodes.len() ==> (#[trigger] nodes[j].node_type@) != tag,
    decreases nodes.len(),
{
    if nodes.len() > 0 && nodes[0].node_type@ != tag {
        let tail = nodes.subrange(1, nodes.len() as int);
        lemma_first_of_type(tail, tag);
        assert forall|j: int| 1 <= j < nodes.len() implies nodes[j].node_type@ == tail[j - 1].node_type@ by {
            assert(tail[j - 1] == nodes[j]);
        }
    }
}

/// `first_of_type` returns the first match.
proof fn lemma_first_of_type_at(nodes: Seq<WorkflowNode>, tag: Seq<char>, k: int)
    requires
        0 <= k < nodes.len(),
        nodes[k].node_type@ == tag,
        forall|j: int| 0 <= j < k ==> (#[trigger] nodes[j].node_type@) != tag,
    ensures
        first_of_type(nodes, tag) == k,
    decreases k,
{
    if k > 0 {
        let tail = nodes.subrange(1, nodes.len() as int);
        assert forall|j: int| 0 <= j < k - 1 implies (#[trigger] tail[j].node_type@) != tag by {
            assert(tail[j] == nodes[j + 1]);
        }
        assert(tail[k - 1] == nodes[k]);
        lemma_first_of_type_at(tail, tag, k - 1);
    }
}

impl Engine {
    /// The run's final outputs so far.
    #[verifier::loop_isolation(false)]
    pub fn compute_final_outputs(&self) -> (r: Value)
        ensures
            r.view_spec() == run_outputs(self.workflow.nodes@, obj_view(self.node_outputs@)),
    {
        let tag = String::from_str("end");
        let n = self.workflow.nodes.len();
        let mut i: usize = 0;
        while i < n
            invariant
                i <= n,
                n == self.workflow.nodes@.len(),
                forall|j: int|
                    0 <= j < i ==> (#[trigger] self.workflow.nodes@[j].node_type@) != "end"@,
            decreases n - i,
        {
            if self.workflow.nodes[i].node_type.eq(&tag) {
                proof {
                    lemma_first_of_type_at(self.workflow.nodes@, "end"@, i as int);
                }
                match crate::value::obj_get(&self.node_outputs, &self.workflow.nodes[i].id) {
                    Some(v) => {
                        return v.deep_clone();
                    },
                    None => {
                        let empty: Vec<Entry> = Vec::new();
                        proof {
                            assert(obj_view(empty@) =~= Seq::<(Seq<char>, ValueSpec)>::empty());
                        }
                        return Value::Obj(empty);
                    },
                }
            }
            i = i + 1;
        }
        proof {
            lemma_first_of_type(self.workflow.nodes@, "end"@);
            if first_of_type(self.workflow.nodes@, "end"@) >= 0 {
                assert(false);
            }
        }
        let empty: Vec<Entry> = Vec::new();
        proof {
            assert(obj_view(empty@) =~= Seq::<(Seq<char>, ValueSpec)>::empty());
        }
        Value::Obj(empty)
    }

    /// Finishes one node successfully: records its output, emits the
    /// completion and progress events, and moves on.
    fn complete_node(&mut self, node_id: String, outputs: Value, started_ms: i64, now_ms: i64)
        requires
            old(self).inv(),
            old(self).status is Running,
            old(self).pos < old(self).order@.len(),
            node_id@ == old(self).order@[old(self).pos as int]@,
            count_node_outcomes(old(self).events@) < ns_prefix(
                old(self).order@,
                old(self).workflow.nodes@,
                old(self).pos + 1,
            ),
        ensures
            final(self).inv(),
            final(self).status is Running,
            final(self).awaiting is None,
            final(self).pos == old(self).pos + 1,
            final(self).workflow == old(self).workflow,
            final(self).order == old(self).order,
            final(self).execution_id == old(self).execution_id,
            final(self).started_ms == old(self).started_ms,
            obj_view(final(self).node_outputs@) == obj_store(
                obj_view(old(self).node_outputs@),
                node_id@,
                outputs.view_spec(),
            ),
            final(self).events@.len() == old(self).events@.len() + 2,
            final(self).events@[final(self).events@.len() - 2] matches ExecutionEvent::NodeCompleted {
                node_id: nid,
                outputs: o,
                duration_ms: d,
            } && nid@ == node_id@ && o.view_spec() == outputs.view_spec(),
            final(self).events@.last() is Progress,
    {
        let ghost oldev = self.events@;
        let duration = now_ms.wrapping_sub(started_ms);
        let completed_event = ExecutionEvent::NodeCompleted {
            node_id: node_id.clone(),
            outputs: outputs.deep_clone(),
            duration_ms: duration,
        };
        self.events.push(completed_event);
        proof {
            lemma_counts_push(oldev, self.events@.last());
        }
        let ghost midev = self.events@;
        if self.completed_nodes < usize::MAX {
            self.completed_nodes = self.completed_nodes + 1;
        }
        let progress_event = ExecutionEvent::Progress {
            completed_nodes: self.completed_nodes,
            total_nodes: self.total_nodes,
            current_node: Some(node_id.clone()),
        };
        self.events.push(progress_event);
        proof {
            lemma_counts_push(midev, self.events@.last());
        }
        crate::value::obj_set(&mut self.node_outputs, node_id, outputs);
        proof {
            assert(self.order@.len() == vstd::std_specs::vec::spec_vec_len(&self.order));
        }
        self.pos = self.pos + 1;
        self.awaiting = None;
    }

    /// Fails the run on one node: emits the node failure and the run
    /// failure, and records the error.
    fn fail_run(&mut self, node_id: String, error: String)
        requires
            old(self).inv(),
            old(self).status is Running,
            old(self).pos < old(self).order@.len(),
            count_node_outcomes(old(self).events@) < ns_prefix(
                old(self).order@,
                old(self).workflow.nodes@,
                old(self).pos + 1,
            ),
        ensures
            final(self).inv(),
            final(self).status is Failed,
            final(self).workflow == old(self).workflow,
            final(self).order == old(self).order,
            final(self).execution_id == old(self).execution_id,
            final(self).error matches Some(e) && e@ == error@,
            final(self).events@.len() == old(self).events@.len() + 2,
            final(self).events@.subrange(0, old(self).events@.len() as int) == old(self).events@,
            final(self).events@[final(self).events@.len() - 2] matches ExecutionEvent::NodeFailed {
                node_id: nid,
                error: er,
            } && nid@ == node_id@ && er@ == error@,
            final(self).events@.last() matches ExecutionEvent::Failed { error: er2, failed_node: fnode }
                && er2@ == error@ && (fnode matches Some(fid) && fid@ == node_id@),
    {
        let ghost oldev = self.events@;
        self.events.push(ExecutionEvent::NodeFailed { node_id: node_id.clone(), error: error.clone() });
        proof {
            lemma_counts_push(oldev, self.events@.last());
        }
        let ghost midev = self.events@;
        self.events.push(
            ExecutionEvent::Failed { error: error.clone(), failed_node: Some(node_id.clone()) },
        );
        proof {
            lemma_counts_push(midev, self.events@.last());
            assert(self.order@.len() == vstd::std_specs::vec::spec_vec_len(&self.order));
        }
        self.pos = self.pos + 1;
        self.status = ExecutionStatus::Failed;
        self.error = Some(error);
        self.awaiting = None;
    }

    /// Takes one step of the run. Cancellation is honoured first; a run
    /// whose order is exhausted completes with the `end` node's collected
    /// inputs; a `start` node is skipped but counted; pure nodes run here;
    /// HTTP and model nodes hand their prepared call to the caller.
    #[verifier::loop_isolation(false)]
    #[verifier::rlimit(100)]
    pub fn step(&mut self, cancelled: bool, now_ms: i64) -> (r: StepOutcome)
        requires
            old(self).inv(),
            old(self).status is Running,
            old(self).awaiting is None,
        ensures
            final(self).inv(),
            final(self).workflow == old(self).workflow,
            final(self).execution_id == old(self).execution_id,
            count_node_outcomes(final(self).events@) <= non_start_count(
                final(self).workflow.nodes@,
            ),
            cancelled ==> final(self).status is Cancelled && final(self).events@ == old(
                self,
            ).events@.push(
                ExecutionEvent::Cancelled { execution_id: final(self).execution_id },
            ) && r is Finished,
            !cancelled && old(self).pos == old(self).order@.len() ==> final(self).status
                is Completed && r is Finished && final(self).events@.len() == old(
                self,
            ).events@.len() + 1 && (final(self).events@.last() matches ExecutionEvent::Completed {
                outputs: o,
                duration_ms: d,
            } && o.view_spec() == run_outputs(
                old(self).workflow.nodes@,
                obj_view(old(self).node_outputs@),
            )),
            r is Finished <==> !(final(self).status is Running),
            r matches StepOutcome::NeedsHttp(c) ==> final(self).awaiting is Some && http_call_ok(
                c,
                old(self).workflow.nodes@[node_idx(
                    old(self).workflow.nodes@,
                    old(self).order@[old(self).pos as int]@,
                )].data.view_spec(),
                ValueSpec::Obj(
                    Self::gathered(
                        old(self).workflow.edges@,
                        obj_view(old(self).node_outputs@),
                        old(self).order@[old(self).pos as int]@,
                        old(self).workflow.edges@.len() as int,
                    ),
                ),
            ),
            r matches StepOutcome::NeedsChat(c) ==> final(self).awaiting is Some && chat_call_ok(
                c,
                old(self).workflow.nodes@[node_idx(
                    old(self).workflow.nodes@,
                    old(self).order@[old(self).pos as int]@,
                )].data.view_spec(),
                ValueSpec::Obj(
                    Self::gathered(
                        old(self).workflow.edges@,
                        obj_view(old(self).node_outputs@),
                        old(self).order@[old(self).pos as int]@,
                        old(self).workflow.edges@.len() as int,
                    ),
                ),
            ),
            // a pure node's completion event carries exactly its computed output
            ({
                let nodes = old(self).workflow.nodes@;
                let done = !cancelled && old(self).pos < old(self).order@.len();
                let id = old(self).order@[old(self).pos as int]@;
                let idx = node_idx(nodes, id);
                let config = nodes[idx].data.view_spec();
                let ins = ValueSpec::Obj(
                    Self::gathered(
                        old(self).workflow.edges@,
                        obj_view(old(self).node_outputs@),
                        id,
                        old(self).workflow.edges@.len() as int,
                    ),
                );
                let tag = nodes[idx].node_type@;
                &&& (done && idx >= 0 && tag == "template"@ ==> completed_with(
                    final(self).events@,
                    crate::dispatch::template_output(config, ins),
                ))
                &&& (done && idx >= 0 && tag == "condition"@ ==> completed_with(
                    final(self).events@,
                    crate::dispatch::condition_output(config, ins),
                ))
                &&& (done && idx >= 0 && tag == "variable"@ ==> completed_with(
                    final(self).events@,
                    crate::dispatch::variable_output(config, ins),
                ))
                &&& (done && idx >= 0 && tag != "template"@ && tag != "condition"@ && tag
                    != "variable"@ && tag != "http"@ && tag != "llm"@ && tag != "start"@
                    ==> completed_with(final(self).events@, ins))
                &&& (done && idx >= 0 && tag == "http"@ && crate::dispatch::conf_str(
                    config,
                    "url"@,
                ) is None ==> ({
                    let ev = final(self).events@;
                    &&& final(self).status is Failed
                    &&& r is Finished
                    &&& ev.len() == old(self).events@.len() + 3
                    &&& ev[ev.len() - 3] is NodeStarted
                    &&& (ev[ev.len() - 2] matches ExecutionEvent::NodeFailed {
                        node_id: nid,
                        error: er,
                    } && nid@ == id && er@ == "HTTP node missing url"@)
                    &&& (ev.last() matches ExecutionEvent::Failed { error: er2, failed_node: fnode }
                        && er2@ == "HTTP node missing url"@ && (fnode matches Some(fid) && fid@
                        == id))
                }))
            }),
    {
        if cancelled {
            let ghost oldev = self.events@;
            self.events.push(ExecutionEvent::Cancelled { execution_id: self.execution_id.clone() });
            proof {
                lemma_counts_push(oldev, self.events@.last());
            }
            self.status = ExecutionStatus::Cancelled;
            self.awaiting = None;
            proof {
                self.lemma_event_budget();
            }
            return StepOutcome::Finished;
        }
        if self.pos >= self.order.len() {
            let outputs = self.compute_final_outputs();
            let ghost oldev = self.events@;
            let duration = now_ms.wrapping_sub(self.started_ms);
            self.events.push(ExecutionEvent::Completed { outputs, duration_ms: duration });
            proof {
                lemma_counts_push(oldev, self.events@.last());
            }
            self.status = ExecutionStatus::Completed;
            proof {
                self.lemma_event_budget();
            }
            return StepOutcome::Finished;
        }
        let node_id = self.order[self.pos].clone();
        let idx = match crate::workflow::find_node_index(&self.workflow.nodes, &node_id) {
            Some(i) => i,
            None => {
                // the order only holds known node ids
                proof {
                    assert(node_idx(self.workflow.nodes@, self.order@[self.pos as int]@) >= 0);
                    assert(false);
                }
                unreached()
            },
        };
        let node_type = self.workflow.nodes[idx].node_type.clone();
        let tc = crate::text::string_chars(node_type.as_str());
        proof {
            lemma_node_idx(self.workflow.nodes@, node_id@);
        }
        if str_eq_start(&tc) {
            // already seeded; counted as completed for progress purposes
            if self.completed_nodes < usize::MAX {
                self.completed_nodes = self.completed_nodes + 1;
            }
            self.pos = self.pos + 1;
            proof {
                reveal_strlit("start");
                reveal_strlit("template");
                reveal_strlit("condition");
                reveal_strlit("variable");
                reveal_strlit("http");
                reveal_strlit("llm");
                assert("start"@.len() == 5);
                assert("template"@.len() == 8);
                assert("condition"@.len() == 9);
                assert("variable"@.len() == 8);
                assert("http"@.len() == 4);
                assert("llm"@.len() == 3);
                assert("start"@ != "template"@);
                assert("start"@ != "condition"@);
                assert("start"@ != "variable"@);
                assert("start"@ != "http"@);
                assert("start"@ != "llm"@);
                assert(ns_prefix(self.order@, self.workflow.nodes@, self.pos as int) == ns_prefix(
                    self.order@,
                    self.workflow.nodes@,
                    self.pos - 1,
                ));
                self.lemma_event_budget();
            }
            return StepOutcome::Progressed;
        }
        // the entry at `pos` is a non-start node: one more outcome fits
        proof {
            assert(ns_prefix(self.order@, self.workflow.nodes@, self.pos + 1) == ns_prefix(
                self.order@,
                self.workflow.nodes@,
                self.pos as int,
            ) + 1);
        }
        let ghost oldev = self.events@;
        self.events.push(
            ExecutionEvent::NodeStarted { node_id: node_id.clone(), node_type: node_type.clone() },
        );
        proof {
            lemma_counts_push(oldev, self.events@.last());
        }
        let inputs = self.collect_node_inputs(&node_id);
        let config = &self.workflow.nodes[idx].data;
        match crate::dispatch::execute_node(&node_type, config, &inputs) {
            NodeAction::Output(out) => {
                let ghost out_view = out.view_spec();
                proof {
                    assert(inputs.view_spec() == ValueSpec::Obj(
                        Self::gathered(
                            old(self).workflow.edges@,
                            obj_view(old(self).node_outputs@),
                            node_id@,
                            old(self).workflow.edges@.len() as int,
                        ),
                    ));
                }
                self.complete_node(node_id, out, now_ms, now_ms);
                proof {
                    assert(completed_with(self.events@, out_view));
                    self.lemma_event_budget();
                }
                StepOutcome::Progressed
            },
            NodeAction::Invalid(msg) => {
                self.fail_run(node_id, msg);
                proof {
                    self.lemma_event_budget();
                }
                StepOutcome::Finished
            },
            NodeAction::CallHttp(c) => {
                self.awaiting = Some(
                    AwaitState { node_id, started_ms: now_ms, kind: AwaitKind::Http },
                );
                proof {
                    self.lemma_event_budget();
                }
                StepOutcome::NeedsHttp(c)
            },
            NodeAction::CallChat(c) => {
                let model = c.model.clone();
                self.awaiting = Some(
                    AwaitState { node_id, started_ms: now_ms, kind: AwaitKind::Chat(model) },
                );
                proof {
                    self.lemma_event_budget();
                }
                StepOutcome::NeedsChat(c)
            },
        }
    }

    /// Hands an HTTP response back to the engine: the awaited node
    /// completes with `{status, body}` as its output.
    pub fn provide_http(&mut self, status: i64, body: Value, now_ms: i64)
        requires
            old(self).inv(),
            old(self).awaiting matches Some(a) && a.kind is Http,
        ensures
            final(self).inv(),
            final(self).status is Running,
            final(self).awaiting is None,
            final(self).workflow == old(self).workflow,
            final(self).execution_id == old(self).execution_id,
            count_node_outcomes(final(self).events@) <= non_start_count(
                final(self).workflow.nodes@,
            ),
            final(self).events@[final(self).events@.len() - 2] matches ExecutionEvent::NodeCompleted {
                node_id: nid,
                outputs: o,
                ..
            } && nid@ == old(self).awaiting->Some_0.node_id@ && o.view_spec() == ValueSpec::Obj(
                seq![("status"@, ValueSpec::Int(status as int)), ("body"@, body.view_spec())],
            ),
    {
        let (node_id, started) = match &self.awaiting {
            Some(a) => (a.node_id.clone(), a.started_ms),
            None => {
                proof {
                    assert(false);
                }
                unreached()
            },
        };
        let out = http_response_value(status, body);
        self.complete_node(node_id, out, started, now_ms);
        proof {
            self.lemma_event_budget();
        }
    }

    /// Hands a model reply back to the engine: the awaited node completes
    /// with `{text, model}` as its output.
    pub fn provide_chat(&mut self, text: String, now_ms: i64)
        requires
            old(self).inv(),
            old(self).awaiting matches Some(a) && a.kind is Chat,
        ensures
            final(self).inv(),
            final(self).status is Running,
            final(self).awaiting is None,
            final(self).workflow == old(self).workflow,
            final(self).execution_id == old(self).execution_id,
            count_node_outcomes(final(self).events@) <= non_start_count(
                final(self).workflow.nodes@,
            ),
            final(self).events@[final(self).events@.len() - 2] matches ExecutionEvent::NodeCompleted {
                node_id: nid,
                outputs: o,
                ..
            } && nid@ == old(self).awaiting->Some_0.node_id@ && o.view_spec() == ValueSpec::Obj(
                seq![
                    ("text"@, ValueSpec::Str(text@)),
                    ("model"@, ValueSpec::Str(old(self).awaiting->Some_0.kind->Chat_0@)),
                ],
            ),
    {
        let (node_id, started, model) = match &self.awaiting {
            Some(a) => match &a.kind {
                AwaitKind::Chat(m) => (a.node_id.clone(), a.started_ms, m.clone()),
                AwaitKind::Http => {
                    proof {
                        assert(false);
                    }
                    unreached()
                },
            },
            None => {
                proof {
                    assert(false);
                }
                unreached()
            },
        };
        let out = chat_response_value(text, model);
        self.complete_node(node_id, out, started, now_ms);
        proof {
            self.lemma_event_budget();
        }
    }

    /// Hands an external failure back to the engine: the awaited node and
    /// the run fail.
    pub fn provide_failure(&mut self, error: String)
        requires
            old(self).inv(),
            old(self).awaiting is Some,
        ensures
            final(self).inv(),
            final(self).status is Failed,
            final(self).awaiting is None,
            final(self).workflow == old(self).workflow,
            final(self).execution_id == old(self).execution_id,
            count_node_outcomes(final(self).events@) <= non_start_count(
                final(self).workflow.nodes@,
            ),
            final(self).error matches Some(e) && e@ == error@,
            final(self).events@.len() == old(self).events@.len() + 2,
            final(self).events@[final(self).events@.len() - 2] matches ExecutionEvent::NodeFailed {
                node_id: nid,
                error: er,
            } && nid@ == old(self).awaiting->Some_0.node_id@ && er@ == error@,
            final(self).events@.last() matches ExecutionEvent::Failed {
                error: er2,
                failed_node: fnode,
            } && er2@ == error@ && (fnode matches Some(fid) && fid@
                == old(self).awaiting->Some_0.node_id@),
    {
        let node_id = match &self.awaiting {
            Some(a) => a.node_id.clone(),
            None => {
                proof {
                    assert(false);
                }
                unreached()
            },
        };
        self.fail_run(node_id, error);
        proof {
            self.lemma_event_budget();
        }
    }

    /// The run's history record. A cancelled run is always recorded with
    /// the `Cancelled` status, a completed one with its outputs, a failed
    /// one with its error.
    pub fn finalize(&self, now_ms: i64) -> (r: Execution)
        requires
            self.inv(),
            !(self.status is Running),
        ensures
            r.id@ == self.execution_id@,
            r.workflow_id@ == self.workflow.id@,
            r.status == self.status,
            self.status is Cancelled ==> r.status == ExecutionStatus::Cancelled,
            r.outputs is Some <==> self.status is Completed,
            self.status is Completed ==> (r.outputs matches Some(o) && o.view_spec()
                == run_outputs(self.workflow.nodes@, obj_view(self.node_outputs@))),
            r.error is Some <==> self.status is Failed,
            self.status is Failed ==> (r.error matches Some(er) && self.error matches Some(er2)
                && er@ == er2@),
            r.started_at == self.started_ms,
            r.completed_at == Some(now_ms),
            r.duration_ms is Some,
    {
        let outputs = if matches!(self.status, ExecutionStatus::Completed) {
            Some(self.compute_final_outputs())
        } else {
            None
        };
        let error = match &self.error {
            Some(e) => Some(e.clone()),
            None => None,
        };
        Execution {
            id: self.execution_id.clone(),
            workflow_id: self.workflow.id.clone(),
            status: self.status,
            inputs: Value::Null,
            outputs,
            error,
            started_at: self.started_ms,
            completed_at: Some(now_ms),
            duration_ms: Some(now_ms.wrapping_sub(self.started_ms)),
            node_results: Vec::new(),
        }
    }
}

} // verus!
