//! The workflow graph: typed nodes joined by directed edges.

use vstd::prelude::*;

use crate::value::Value;

verus! {

/// A typed unit of work in the workflow graph.
#[derive(Debug)]
pub struct WorkflowNode {
    pub id: String,
    pub node_type: String,
    pub data: Value,
}

/// A data dependency between two nodes, optionally naming an output slot.
#[derive(Debug)]
pub struct WorkflowEdge {
    pub id: String,
    pub source: String,
    pub target: String,
    pub source_handle: Option<String>,
    pub target_handle: Option<String>,
}

/// A workflow: a graph of nodes and edges, immutable during a run.
#[derive(Debug)]
pub struct Workflow {
    pub id: String,
    pub name: String,
    pub nodes: Vec<WorkflowNode>,
    pub edges: Vec<WorkflowEdge>,
}

/// The index of the first node with the given id; -1 when absent.
pub open spec fn node_idx(nodes: Seq<WorkflowNode>, id: Seq<char>) -> int
    decreases nodes.len(),
{
    if nodes.len() == 0 {
        -1
    } else if nodes[0].id@ == id {
        0
    } else {
        let r = node_idx(nodes.subrange(1, nodes.len() as int), id);
        if r < 0 {
            -1
        } else {
            r + 1
        }
    }
}

/// `node_idx` finds a valid index whose node carries the id.
pub proof fn lemma_node_idx(nodes: Seq<WorkflowNode>, id: Seq<char>)
    ensures
        node_idx(nodes, id) >= 0 ==> node_idx(nodes, id) < nodes.len() && nodes[node_idx(
            nodes,
            id,
        )].id@ == id,
        node_idx(nodes, id) < 0 ==> forall|j: int| 0 <= j < nodes.len() ==> nodes[j].id@ != id,
    decreases nodes.len(),
{
    if nodes.len() > 0 && nodes[0].id@ != id {
        let tail = nodes.subrange(1, nodes.len() as int);
        lemma_node_idx(tail, id);
        assert forall|j: int| 1 <= j < nodes.len() implies nodes[j].id@ == tail[j - 1].id@ by {
            assert(tail[j - 1] == nodes[j]);
        }
    }
}

/// With unique ids, `node_idx` inverts indexing.
pub proof fn lemma_node_idx_of(nodes: Seq<WorkflowNode>, k: int)
    requires
        0 <= k < nodes.len(),
        forall|a: int, b: int|
            0 <= a < b < nodes.len() ==> (#[trigger] nodes[a].id@) != (#[trigger] nodes[b].id@),
    ensures
        node_idx(nodes, nodes[k].id@) == k,
    decreases k,
{
    if k == 0 {
    } else {
        let tail = nodes.subrange(1, nodes.len() as int);
        assert(nodes[0].id@ != nodes[k].id@);
        assert forall|a: int, b: int|
            0 <= a < b < tail.len() implies (#[trigger] tail[a].id@) != (
        #[trigger] tail[b].id@) by {
            assert(tail[a] == nodes[a + 1]);
            assert(tail[b] == nodes[b + 1]);
        }
        assert(tail[k - 1] == nodes[k]);
        lemma_node_idx_of(tail, k - 1);
    }
}

impl Workflow {
    /// Node ids are unique.
    pub open spec fn wf(self) -> bool {
        forall|a: int, b: int|
            0 <= a < b < self.nodes@.len() ==> (#[trigger] self.nodes@[a].id@) != (
            #[trigger] self.nodes@[b].id@)
    }
}

/// Finds the first node with the given id.
#[verifier::loop_isolation(false)]
pub fn find_node_index(nodes: &Vec<WorkflowNode>, id: &String) -> (r: Option<usize>)
    ensures
        r matches Some(i) ==> node_idx(nodes@, id@) == i && i < nodes@.len(),
        r is None ==> node_idx(nodes@, id@) < 0,
{
    let n = nodes.len();
    let mut i: usize = 0;
    while i < n
        invariant
            i <= n,
            n == nodes@.len(),
            forall|j: int| 0 <= j < i ==> (#[trigger] nodes@[j].id@) != id@,
        decreases n - i,
    {
        if nodes[i].id.eq(id) {
            proof {
                lemma_node_idx_first(nodes@, id@, i as int);
            }
            return Some(i);
        }
        i = i + 1;
    }
    proof {
        lemma_node_idx(nodes@, id@);
        if node_idx(nodes@, id@) >= 0 {
            assert(nodes@[node_idx(nodes@, id@)].id@ == id@);
        }
    }
    None
}

/// `node_idx` returns the first match.
proof fn lemma_node_idx_first(nodes: Seq<WorkflowNode>, id: Seq<char>, k: int)
    requires
        0 <= k < nodes.len(),
        nodes[k].id@ == id,
        forall|j: int| 0 <= j < k ==> (#[trigger] nodes[j].id@) != id,
    ensures
        node_idx(nodes, id) == k,
    decreases k,
{
    if k > 0 {
        let tail = nodes.subrange(1, nodes.len() as int);
        assert forall|j: int| 0 <= j < k - 1 implies (#[trigger] tail[j].id@) != id by {
            assert(tail[j] == nodes[j + 1]);
        }
        assert(tail[k - 1] == nodes[k]);
        lemma_node_idx_first(tail, id, k - 1);
    }
}

} // verus!
