//! Execution-order computation: Kahn's algorithm over the workflow graph.
//!
//! Nodes inside a cycle, and nodes only reachable through one, are silently
//! left out of the order; on an acyclic graph with well-formed edges the
//! order contains every node, and it always respects every edge.

use vstd::prelude::*;

use crate::workflow::{lemma_node_idx, lemma_node_idx_of, node_idx, Workflow, WorkflowEdge,
    WorkflowNode};

verus! {

broadcast use vstd::seq::axiom_seq_index_decreases, vstd::seq::axiom_seq_subrange_decreases, vstd::std_specs::vec::axiom_vec_decreases_to_view, vstd::std_specs::vec::axiom_spec_len;

/// The node index an edge leaves from; -1 when the id is unknown.
pub open spec fn src_of(nodes: Seq<WorkflowNode>, e: WorkflowEdge) -> int {
    node_idx(nodes, e.source@)
}

/// The node index an edge points to; -1 when the id is unknown.
pub open spec fn tgt_of(nodes: Seq<WorkflowNode>, e: WorkflowEdge) -> int {
    node_idx(nodes, e.target@)
}

/// Every edge joins two existing nodes.
pub open spec fn edges_valid(w: Workflow) -> bool {
    forall|ei: int|
        0 <= ei < w.edges@.len() ==> src_of(w.nodes@, #[trigger] w.edges@[ei]) >= 0 && tgt_of(
            w.nodes@,
            w.edges@[ei],
        ) >= 0
}

/// The graph is acyclic: some rank strictly increases along every edge.
/// A cycle admits no such rank, and an acyclic graph is ranked by longest
/// path from a source.
pub open spec fn acyclic(w: Workflow) -> bool {
    exists|rank: Seq<nat>|
        rank.len() == w.nodes@.len() && #[trigger] rank_respects(rank, w)
}

/// The rank strictly increases along every edge with known endpoints.
pub open spec fn rank_respects(rank: Seq<nat>, w: Workflow) -> bool {
    forall|ei: int|
        0 <= ei < w.edges@.len() && src_of(w.nodes@, #[trigger] w.edges@[ei]) >= 0 && tgt_of(
            w.nodes@,
            w.edges@[ei],
        ) >= 0 ==> rank[src_of(w.nodes@, w.edges@[ei])] < rank[tgt_of(w.nodes@, w.edges@[ei])]
}

/// The position of the first entry with the given id; -1 when absent.
pub open spec fn first_pos(order: Seq<String>, id: Seq<char>) -> int
    decreases order.len(),
{
    if order.len() == 0 {
        -1
    } else if order[0]@ == id {
        0
    } else {
        let r = first_pos(order.subrange(1, order.len() as int), id);
        if r < 0 {
            -1
        } else {
            r + 1
        }
    }
}

/// `first_pos` finds the first occurrence.
pub proof fn lemma_first_pos(order: Seq<String>, id: Seq<char>)
    ensures
        first_pos(order, id) >= 0 ==> first_pos(order, id) < order.len() && order[first_pos(
            order,
            id,
        )]@ == id,
        first_pos(order, id) < 0 ==> forall|j: int| 0 <= j < order.len() ==> order[j]@ != id,
    decreases order.len(),
{
    if order.len() > 0 && order[0]@ != id {
        let tail = order.subrange(1, order.len() as int);
        lemma_first_pos(tail, id);
        assert forall|j: int| 1 <= j < order.len() implies order[j]@ == tail[j - 1]@ by {
            assert(tail[j - 1] == order[j]);
        }
    }
}

/// A hit at `k` puts the first occurrence at or before `k`.
pub proof fn lemma_first_pos_le(order: Seq<String>, id: Seq<char>, k: int)
    requires
        0 <= k < order.len(),
        order[k]@ == id,
    ensures
        0 <= first_pos(order, id) <= k,
    decreases k,
{
    if order[0]@ != id {
        let tail = order.subrange(1, order.len() as int);
        assert(tail[k - 1] == order[k]);
        lemma_first_pos_le(tail, id, k - 1);
    }
}

/// An edge's place in the order: if its target appears, its source appears
/// first.
pub open spec fn edge_respected(e: WorkflowEdge, order: Seq<String>) -> bool {
    first_pos(order, e.target@) >= 0 ==> 0 <= first_pos(order, e.source@) < first_pos(
        order,
        e.target@,
    )
}

/// One edge's contribution to a pending count.
pub open spec fn edge_contrib(
    e: WorkflowEdge,
    nodes: Seq<WorkflowNode>,
    done: Seq<int>,
    t: int,
) -> nat {
    if tgt_of(nodes, e) == t && (src_of(nodes, e) < 0 || !done.contains(src_of(nodes, e))) {
        1
    } else {
        0
    }
}

/// How many of the edges point into `t` from a source that is unknown or
/// not yet processed.
pub open spec fn pending_into(
    es: Seq<WorkflowEdge>,
    nodes: Seq<WorkflowNode>,
    done: Seq<int>,
    t: int,
) -> nat
    decreases es.len(),
{
    if es.len() == 0 {
        0
    } else {
        edge_contrib(es[0], nodes, done, t) + pending_into(
            es.subrange(1, es.len() as int),
            nodes,
            done,
            t,
        )
    }
}

/// Appending one edge adds its contribution.
proof fn lemma_pending_snoc(
    es: Seq<WorkflowEdge>,
    e: WorkflowEdge,
    nodes: Seq<WorkflowNode>,
    done: Seq<int>,
    t: int,
)
    ensures
        pending_into(es.push(e), nodes, done, t) == pending_into(es, nodes, done, t)
            + edge_contrib(e, nodes, done, t),
    decreases es.len(),
{
    if es.len() == 0 {
        assert(es.push(e)[0] == e);
        assert(es.push(e).subrange(1, 1) =~= Seq::<WorkflowEdge>::empty());
        assert(pending_into(Seq::<WorkflowEdge>::empty(), nodes, done, t) == 0);
        assert(pending_into(es.push(e), nodes, done, t) == edge_contrib(e, nodes, done, t)
            + pending_into(es.push(e).subrange(1, 1), nodes, done, t));
        assert(pending_into(es, nodes, done, t) == 0);
    } else {
        assert(es.push(e)[0] == es[0]);
        assert(es.push(e).subrange(1, es.len() as int + 1) =~= es.subrange(1, es.len() as int).push(e));
        lemma_pending_snoc(es.subrange(1, es.len() as int), e, nodes, done, t);
    }
}

/// A pending count never exceeds the number of edges.
proof fn lemma_pending_le(es: Seq<WorkflowEdge>, nodes: Seq<WorkflowNode>, done: Seq<int>, t: int)
    ensures
        pending_into(es, nodes, done, t) <= es.len(),
    decreases es.len(),
{
    if es.len() > 0 {
        lemma_pending_le(es.subrange(1, es.len() as int), nodes, done, t);
    }
}

/// A zero pending count means every edge into `t` has a processed source.
proof fn lemma_pending_zero(es: Seq<WorkflowEdge>, nodes: Seq<WorkflowNode>, done: Seq<int>, t: int)
    requires
        pending_into(es, nodes, done, t) == 0,
    ensures
        forall|j: int|
            0 <= j < es.len() && tgt_of(nodes, #[trigger] es[j]) == t ==> src_of(nodes, es[j]) >= 0
                && done.contains(src_of(nodes, es[j])),
    decreases es.len(),
{
    if es.len() > 0 {
        let tail = es.subrange(1, es.len() as int);
        lemma_pending_zero(tail, nodes, done, t);
        assert forall|j: int|
            0 <= j < es.len() && tgt_of(nodes, #[trigger] es[j]) == t implies src_of(nodes, es[j])
            >= 0 && done.contains(src_of(nodes, es[j])) by {
            if j > 0 {
                assert(es[j] == tail[j - 1]);
            }
        }
    }
}

/// When every edge into `t` has a processed source, nothing is pending.
proof fn lemma_pending_zero_conv(
    es: Seq<WorkflowEdge>,
    nodes: Seq<WorkflowNode>,
    done: Seq<int>,
    t: int,
)
    requires
        forall|j: int|
            0 <= j < es.len() && tgt_of(nodes, #[trigger] es[j]) == t ==> src_of(nodes, es[j]) >= 0
                && done.contains(src_of(nodes, es[j])),
    ensures
        pending_into(es, nodes, done, t) == 0,
    decreases es.len(),
{
    if es.len() > 0 {
        let tail = es.subrange(1, es.len() as int);
        assert forall|j: int|
            0 <= j < tail.len() && tgt_of(nodes, #[trigger] tail[j]) == t implies src_of(
            nodes,
            tail[j],
        ) >= 0 && done.contains(src_of(nodes, tail[j])) by {
            assert(tail[j] == es[j + 1]);
        }
        lemma_pending_zero_conv(tail, nodes, done, t);
    }
}

/// An edge with an unprocessed source keeps the count positive.
proof fn lemma_pending_pos(
    es: Seq<WorkflowEdge>,
    nodes: Seq<WorkflowNode>,
    done: Seq<int>,
    t: int,
    j: int,
)
    requires
        0 <= j < es.len(),
        tgt_of(nodes, es[j]) == t,
        src_of(nodes, es[j]) < 0 || !done.contains(src_of(nodes, es[j])),
    ensures
        pending_into(es, nodes, done, t) >= 1,
{
    if pending_into(es, nodes, done, t) == 0 {
        lemma_pending_zero(es, nodes, done, t);
    }
}

/// The first `head` queue entries, as node indices.
pub open spec fn done_of(q: Seq<usize>, head: int) -> Seq<int> {
    Seq::new(if head < 0 {
        0
    } else {
        head as nat
    }, |i: int| q[i] as int)
}

/// A sequence of distinct indices below `n` has at most `n` entries.
proof fn lemma_unique_bounded_len(q: Seq<usize>, n: nat)
    requires
        forall|a: int, b: int| 0 <= a < b < q.len() ==> q[a] != q[b],
        forall|a: int| 0 <= a < q.len() ==> (#[trigger] q[a]) < n,
    ensures
        q.len() <= n,
{
    let qi = Seq::new(q.len(), |i: int| q[i] as int);
    assert(qi.no_duplicates());
    qi.unique_seq_to_set();
    let range = vstd::set_lib::set_int_range(0, n as int);
    vstd::set_lib::lemma_int_range(0, n as int);
    assert forall|x: int| qi.to_set().contains(x) implies range.contains(x) by {
        let i = choose|i: int| 0 <= i < qi.len() && qi[i] == x;
    }
    vstd::set_lib::lemma_len_subset(qi.to_set(), range);
}

/// One processed node has been queued.
pub open spec fn queued(q: Seq<usize>, t: int) -> bool {
    exists|i: int| 0 <= i < q.len() && (#[trigger] q[i]) as int == t
}

/// In an acyclic graph whose edges are valid, every node ends up queued.
proof fn lemma_rank_queued(w: Workflow, q: Seq<usize>, rank: Seq<nat>, t: int)
    requires
        w.wf(),
        edges_valid(w),
        rank.len() == w.nodes@.len(),
        rank_respects(rank, w),
        0 <= t < w.nodes@.len(),
        forall|t2: int|
            0 <= t2 < w.nodes@.len() && pending_into(
                w.edges@,
                w.nodes@,
                done_of(q, q.len() as int),
                t2,
            ) == 0 ==> queued(q, t2),
    ensures
        queued(q, t),
    decreases rank[t],
{
    let done = done_of(q, q.len() as int);
    assert forall|j: int|
        0 <= j < w.edges@.len() && tgt_of(w.nodes@, #[trigger] w.edges@[j]) == t implies src_of(
        w.nodes@,
        w.edges@[j],
    ) >= 0 && done.contains(src_of(w.nodes@, w.edges@[j])) by {
        let s = src_of(w.nodes@, w.edges@[j]);
        lemma_node_idx(w.nodes@, w.edges@[j].source@);
        assert(rank[s] < rank[t]);
        lemma_rank_queued(w, q, rank, s);
        let i = choose|i: int| 0 <= i < q.len() && (#[trigger] q[i]) as int == s;
        assert(done[i] == s);
    }
    lemma_pending_zero_conv(w.edges@, w.nodes@, done, t);
}

/// Computes a dependency-respecting execution order by Kahn's algorithm,
/// seeding ties in declaration order. Nodes on or behind a cycle, or behind
/// an edge with an unknown endpoint, are left out; on an acyclic graph with
/// valid edges the order holds every node exactly once, and in every case
/// each listed edge's source precedes its target.
#[verifier::loop_isolation(false)]
#[verifier::rlimit(100)]
#[verifier::spinoff_prover]
pub fn execution_order(w: &Workflow) -> (order: Vec<String>)
    requires
        w.wf(),
    ensures
        order@.len() <= w.nodes@.len(),
        forall|a: int, b: int|
            0 <= a < b < order@.len() ==> (#[trigger] order@[a]@) != (#[trigger] order@[b]@),
        forall|a: int| 0 <= a < order@.len() ==> node_idx(w.nodes@, (#[trigger] order@[a])@) >= 0,
        forall|ei: int| 0 <= ei < w.edges@.len() ==> edge_respected(#[trigger] w.edges@[ei], order@),
        edges_valid(*w) && acyclic(*w) ==> forall|k: int|
            0 <= k < w.nodes@.len() ==> first_pos(order@, (#[trigger] w.nodes@[k]).id@) >= 0,
        forall|k: int|
            0 <= k < w.nodes@.len() && (forall|ei: int|
                0 <= ei < w.edges@.len() ==> tgt_of(w.nodes@, #[trigger] w.edges@[ei]) != k)
                ==> first_pos(order@, (#[trigger] w.nodes@[k]).id@) >= 0,
{
    let n = w.nodes.len();
    let m = w.edges.len();
    let ghost nodes = w.nodes@;
    let ghost es = w.edges@;

    // in-degree of each node, counting edges whose target exists
    let mut indeg: Vec<usize> = Vec::new();
    let mut i: usize = 0;
    while i < n
        invariant
            i <= n,
            indeg@.len() == i,
            forall|t: int| 0 <= t < i ==> (#[trigger] indeg@[t]) == 0,
        decreases n - i,
    {
        indeg.push(0);
        i = i + 1;
    }
    proof {
        assert forall|t: int| 0 <= t < n implies (#[trigger] indeg@[t]) as nat == pending_into(
            es.subrange(0, 0),
            nodes,
            done_of(Seq::<usize>::empty(), 0),
            t,
        ) by {
            assert(es.subrange(0, 0) =~= Seq::<WorkflowEdge>::empty());
        }
    }
    let ghost done0 = done_of(Seq::<usize>::empty(), 0);
    let mut e: usize = 0;
    while e < m
        invariant
            e <= m,
            m == es.len(),
            indeg@.len() == n,
            forall|t: int|
                0 <= t < n ==> (#[trigger] indeg@[t]) as nat == pending_into(
                    es.subrange(0, e as int),
                    nodes,
                    done0,
                    t,
                ),
        decreases m - e,
    {
        let ti = crate::workflow::find_node_index(&w.nodes, &w.edges[e].target);
        proof {
            assert(es.subrange(0, e + 1 as int) =~= es.subrange(0, e as int).push(es[e as int]));
            assert forall|t: int| 0 <= t < n implies pending_into(
                es.subrange(0, e + 1 as int),
                nodes,
                done0,
                t,
            ) == pending_into(es.subrange(0, e as int), nodes, done0, t) + edge_contrib(
                es[e as int],
                nodes,
                done0,
                t,
            ) by {
                lemma_pending_snoc(es.subrange(0, e as int), es[e as int], nodes, done0, t);
            }
        }
        match ti {
            Some(t) => {
                proof {
                    lemma_pending_le(es.subrange(0, e as int), nodes, done0, t as int);
                }
                let cur = indeg[t];
                indeg.set(t, cur + 1);
                proof {
                    assert(done0.len() == 0);
                    assert forall|t2: int| 0 <= t2 < n implies (#[trigger] indeg@[t2]) as nat
                        == pending_into(es.subrange(0, e + 1 as int), nodes, done0, t2) by {
                        assert(tgt_of(nodes, es[e as int]) == t as int);
                        if t2 == t as int {
                            assert(edge_contrib(es[e as int], nodes, done0, t2) == 1);
                        } else {
                            assert(edge_contrib(es[e as int], nodes, done0, t2) == 0);
                        }
                    }
                }
            },
            None => {
                proof {
                    assert forall|t2: int| 0 <= t2 < n implies (#[trigger] indeg@[t2]) as nat
                        == pending_into(es.subrange(0, e + 1 as int), nodes, done0, t2) by {
                        assert(tgt_of(nodes, es[e as int]) < 0);
                        assert(edge_contrib(es[e as int], nodes, done0, t2) == 0);
                    }
                }
            },
        }
        e = e + 1;
    }
    proof {
        assert(es.subrange(0, m as int) =~= es);
    }

    // seed the queue with every node of in-degree zero, in declaration order
    let mut queue: Vec<usize> = Vec::new();
    let mut order: Vec<String> = Vec::new();
    let mut i2: usize = 0;
    while i2 < n
        invariant
            i2 <= n,
            indeg@.len() == n,
            queue@.len() <= n,
            forall|t: int|
                0 <= t < n ==> (#[trigger] indeg@[t]) as nat == pending_into(es, nodes, done0, t),
            forall|a: int| 0 <= a < queue@.len() ==> (#[trigger] queue@[a]) < n,
            forall|a: int, b: int| 0 <= a < b < queue@.len() ==> queue@[a] != queue@[b],
            forall|a: int| 0 <= a < queue@.len() ==> indeg@[(#[trigger] queue@[a]) as int] == 0,
            forall|a: int| 0 <= a < queue@.len() ==> ((#[trigger] queue@[a]) as int) < i2,
            forall|t: int|
                0 <= t < i2 && indeg@[t] == 0 ==> queued(queue@, t),
            forall|qt: int, ei: int|
                0 <= qt < queue@.len() && 0 <= ei < es.len() && tgt_of(nodes, #[trigger] es[ei])
                    == (#[trigger] queue@[qt]) as int ==> src_of(nodes, es[ei]) >= 0 && (exists|
                    qs: int,
                |
                    0 <= qs < qt && (#[trigger] queue@[qs]) as int == src_of(nodes, es[ei])),
        decreases n - i2,
    {
        if indeg[i2] == 0 {
            let ghost oldq = queue@;
            queue.push(i2);
            proof {
                lemma_pending_zero(es, nodes, done0, i2 as int);
                let g = queue@;
                assert(g == oldq.push(i2));
                assert(done0.len() == 0);
                assert forall|qt: int, ei: int|
                    0 <= qt < g.len() && 0 <= ei < es.len() && tgt_of(nodes, #[trigger] es[ei]) == (
                #[trigger] g[qt]) as int implies src_of(nodes, es[ei]) >= 0 && (exists|qs: int|
                    0 <= qs < qt && (#[trigger] g[qs]) as int == src_of(nodes, es[ei])) by {
                    if qt == g.len() - 1 {
                        assert(done0.contains(src_of(nodes, es[ei])));
                        assert(false);
                    } else {
                        assert(g[qt] == oldq[qt]);
                        let qs = choose|qs: int|
                            0 <= qs < qt && (#[trigger] oldq[qs]) as int == src_of(nodes, es[ei]);
                        assert(g[qs] == oldq[qs]);
                    }
                }
                lemma_unique_bounded_len(g, n as nat);
                assert(g[g.len() - 1] as int == i2 as int);
                assert(queued(g, i2 as int));
                assert forall|t: int| 0 <= t < i2 && queued(oldq, t) implies queued(g, t) by {
                    let qi = choose|qi: int|
                        0 <= qi < oldq.len() && (#[trigger] oldq[qi]) as int == t;
                    assert(g[qi] as int == t);
                }
            }
        }
        i2 = i2 + 1;
    }

    // process the queue; nodes inside cycles never reach in-degree zero
    proof {
        assert(done_of(queue@, 0) =~= done0);
    }
    let mut head: usize = 0;
    while head < queue.len()
        invariant
            head <= queue@.len(),
            queue@.len() <= n,
            indeg@.len() == n,
            n == nodes.len(),
            m == es.len(),
            order@.len() == head,
            forall|a: int|
                0 <= a < head ==> (#[trigger] order@[a])@ == nodes[queue@[a] as int].id@,
            forall|a: int| 0 <= a < queue@.len() ==> (#[trigger] queue@[a]) < n,
            forall|a: int, b: int| 0 <= a < b < queue@.len() ==> queue@[a] != queue@[b],
            forall|a: int| 0 <= a < queue@.len() ==> indeg@[(#[trigger] queue@[a]) as int] == 0,
            forall|t: int|
                0 <= t < n ==> (#[trigger] indeg@[t]) as nat == pending_into(
                    es,
                    nodes,
                    done_of(queue@, head as int),
                    t,
                ),
            forall|t: int| 0 <= t < n && indeg@[t] == 0 ==> queued(queue@, t),
            forall|qt: int, ei: int|
                0 <= qt < queue@.len() && 0 <= ei < es.len() && tgt_of(nodes, #[trigger] es[ei])
                    == (#[trigger] queue@[qt]) as int ==> src_of(nodes, es[ei]) >= 0 && (exists|
                    qs: int,
                |
                    0 <= qs < qt && (#[trigger] queue@[qs]) as int == src_of(nodes, es[ei])),
        decreases n - head,
    {
        let u = queue[head];
        order.push(w.nodes[u].id.clone());
        let ghost done = done_of(queue@, head as int);
        let ghost doneu = done.push(u as int);
        proof {
            assert forall|t: int| 0 <= t < n implies (#[trigger] indeg@[t]) as nat == pending_into(
                es.subrange(0, es.len() as int),
                nodes,
                done,
                t,
            ) + pending_into(es.subrange(0, 0), nodes, doneu, t) by {
                assert(es.subrange(0, es.len() as int) =~= es);
                assert(es.subrange(0, 0) =~= Seq::<WorkflowEdge>::empty());
            }
        }
        let mut e2: usize = 0;
        while e2 < m
            invariant
                e2 <= m,
                head < queue@.len(),
                queue@.len() <= n,
                indeg@.len() == n,
                u == queue@[head as int],
                done == done_of(queue@, head as int),
                doneu == done.push(u as int),
                order@.len() == head + 1,
                forall|a: int|
                    0 <= a < head + 1 ==> (#[trigger] order@[a])@ == nodes[queue@[a] as int].id@,
                forall|a: int| 0 <= a < queue@.len() ==> (#[trigger] queue@[a]) < n,
                forall|a: int, b: int| 0 <= a < b < queue@.len() ==> queue@[a] != queue@[b],
                forall|a: int|
                    0 <= a < queue@.len() ==> indeg@[(#[trigger] queue@[a]) as int] == 0,
                forall|t: int|
                    0 <= t < n ==> (#[trigger] indeg@[t]) as nat == pending_into(
                        es.subrange(e2 as int, es.len() as int),
                        nodes,
                        done,
                        t,
                    ) + pending_into(es.subrange(0, e2 as int), nodes, doneu, t),
                forall|t: int| 0 <= t < n && indeg@[t] == 0 ==> queued(queue@, t),
                forall|qt: int, ei: int|
                    0 <= qt < queue@.len() && 0 <= ei < es.len() && tgt_of(nodes, #[trigger] es[ei])
                        == (#[trigger] queue@[qt]) as int ==> src_of(nodes, es[ei]) >= 0 && (exists|
                        qs: int,
                    |
                        0 <= qs < qt && (#[trigger] queue@[qs]) as int == src_of(nodes, es[ei])),
            decreases m - e2,
        {
            let ghost suffix = es.subrange(e2 as int, es.len() as int);
            let ghost prefix = es.subrange(0, e2 as int);
            proof {
                assert(suffix[0] == es[e2 as int]);
                assert(suffix.subrange(1, suffix.len() as int) =~= es.subrange(
                    e2 + 1 as int,
                    es.len() as int,
                ));
                assert(es.subrange(0, e2 + 1 as int) =~= prefix.push(es[e2 as int]));
            }
            let si = crate::workflow::find_node_index(&w.nodes, &w.edges[e2].source);
            let is_from_u = match si {
                Some(s) => s == u,
                None => false,
            };
            if is_from_u {
                let ti = crate::workflow::find_node_index(&w.nodes, &w.edges[e2].target);
                match ti {
                    Some(t) => {
                        // this edge leaves the node being processed
                        proof {
                            assert(!done.contains(u as int)) by {
                                if done.contains(u as int) {
                                    let di = choose|di: int|
                                        0 <= di < done.len() && done[di] == u as int;
                                    assert(queue@[di] == queue@[head as int]);
                                }
                            }
                            assert(doneu[done.len() as int] == u as int);
                            assert(doneu.contains(u as int));
                            lemma_pending_pos(suffix, nodes, done, t as int, 0);
                            lemma_pending_snoc(prefix, es[e2 as int], nodes, doneu, t as int);
                            assert(pending_into(suffix, nodes, done, t as int) == edge_contrib(
                                es[e2 as int],
                                nodes,
                                done,
                                t as int,
                            ) + pending_into(
                                es.subrange(e2 + 1 as int, es.len() as int),
                                nodes,
                                done,
                                t as int,
                            ));
                        }
                        let cur = indeg[t];
                        indeg.set(t, cur - 1);
                        if cur - 1 == 0 {
                            let ghost oldq = queue@;
                            proof {
                                // the target cannot be queued yet
                                if queued(oldq, t as int) {
                                    let qi = choose|qi: int|
                                        0 <= qi < oldq.len() && (#[trigger] oldq[qi]) as int
                                            == t as int;
                                    assert(false);
                                }
                            }
                            queue.push(t);
                            proof {
                                lemma_unique_bounded_len(queue@, n as nat);
                                let g = queue@;
                                let l = g.len() - 1;
                                assert(g == oldq.push(t));
                                assert(g.drop_last() =~= oldq);
                                assert(g[l] == t);
                                // every edge into the new entry has a source
                                // processed before it
                                assert(pending_into(
                                    es.subrange(e2 + 1 as int, es.len() as int),
                                    nodes,
                                    done,
                                    t as int,
                                ) == 0);
                                assert(pending_into(
                                    es.subrange(0, e2 + 1 as int),
                                    nodes,
                                    doneu,
                                    t as int,
                                ) == 0);
                                lemma_pending_zero(
                                    es.subrange(e2 + 1 as int, es.len() as int),
                                    nodes,
                                    done,
                                    t as int,
                                );
                                lemma_pending_zero(
                                    es.subrange(0, e2 + 1 as int),
                                    nodes,
                                    doneu,
                                    t as int,
                                );
                                assert forall|qt: int, ei: int|
                                    0 <= qt < g.len() && 0 <= ei < es.len() && tgt_of(
                                        nodes,
                                        #[trigger] es[ei],
                                    ) == (#[trigger] g[qt]) as int implies src_of(nodes, es[ei])
                                    >= 0 && (exists|qs: int|
                                    0 <= qs < qt && (#[trigger] g[qs]) as int == src_of(
                                        nodes,
                                        es[ei],
                                    )) by {
                                    if qt == l {
                                        let s2 = src_of(nodes, es[ei]);
                                        if ei <= e2 {
                                            assert(es.subrange(0, e2 + 1 as int)[ei] == es[ei]);
                                            assert(doneu.contains(s2));
                                            let di = choose|di: int|
                                                0 <= di < doneu.len() && doneu[di] == s2;
                                            assert(0 <= di <= head);
                                            assert(g[di] as int == s2);
                                        } else {
                                            assert(es.subrange(
                                                e2 + 1 as int,
                                                es.len() as int,
                                            )[ei - e2 - 1] == es[ei]);
                                            assert(done.contains(s2));
                                            let di = choose|di: int|
                                                0 <= di < done.len() && done[di] == s2;
                                            assert(g[di] as int == s2);
                                        }
                                    } else {
                                        assert(g[qt] == oldq[qt]);
                                        let qs = choose|qs: int|
                                            0 <= qs < qt && (#[trigger] oldq[qs]) as int == src_of(
                                                nodes,
                                                es[ei],
                                            );
                                        assert(g[qs] == oldq[qs]);
                                    }
                                }
                            }
                        }
                    },
                    None => {
                    },
                }
            }
            proof {
                let cur_edge = es[e2 as int];
                assert forall|t: int| 0 <= t < n implies (#[trigger] indeg@[t]) as nat
                    == pending_into(es.subrange(e2 + 1 as int, es.len() as int), nodes, done, t)
                    + pending_into(es.subrange(0, e2 + 1 as int), nodes, doneu, t) by {
                    lemma_pending_snoc(prefix, cur_edge, nodes, doneu, t);
                    assert(pending_into(suffix, nodes, done, t) == edge_contrib(
                        cur_edge,
                        nodes,
                        done,
                        t,
                    ) + pending_into(es.subrange(e2 + 1 as int, es.len() as int), nodes, done, t));
                    if is_from_u {
                        assert(src_of(nodes, cur_edge) == u as int);
                        if tgt_of(nodes, cur_edge) == t {
                            assert(edge_contrib(cur_edge, nodes, done, t) == 1);
                            assert(edge_contrib(cur_edge, nodes, doneu, t) == 0);
                        } else {
                            assert(edge_contrib(cur_edge, nodes, done, t) == edge_contrib(
                                cur_edge,
                                nodes,
                                doneu,
                                t,
                            ));
                        }
                    } else {
                        assert(edge_contrib(cur_edge, nodes, done, t) == edge_contrib(
                            cur_edge,
                            nodes,
                            doneu,
                            t,
                        )) by {
                            let x = src_of(nodes, cur_edge);
                            if x >= 0 && x != u as int {
                                if done.contains(x) {
                                    let di = choose|di: int| 0 <= di < done.len() && done[di] == x;
                                    assert(doneu[di] == x);
                                    assert(doneu.contains(x));
                                }
                                if doneu.contains(x) {
                                    let di = choose|di: int|
                                        0 <= di < doneu.len() && doneu[di] == x;
                                    if di < done.len() {
                                        assert(done[di] == x);
                                        assert(done.contains(x));
                                    } else {
                                        assert(doneu[di] == u as int);
                                    }
                                }
                            }
                        }
                    }
                }
            }
            e2 = e2 + 1;
        }
        proof {
            assert forall|t: int| 0 <= t < n implies (#[trigger] indeg@[t]) as nat == pending_into(
                es,
                nodes,
                done_of(queue@, head + 1),
                t,
            ) by {
                assert(es.subrange(e2 as int, es.len() as int) =~= Seq::<WorkflowEdge>::empty());
                assert(es.subrange(0, e2 as int) =~= es);
                assert(done_of(queue@, head + 1) =~= doneu);
            }
        }
        head = head + 1;
    }

    // the ensured properties, read off the loop invariants
    proof {
        let q = queue@;
        assert(order@.len() == q.len());
        assert forall|a: int, b: int|
            0 <= a < b < order@.len() implies (#[trigger] order@[a]@) != (
        #[trigger] order@[b]@) by {
            assert(order@[a]@ == nodes[q[a] as int].id@);
            assert(order@[b]@ == nodes[q[b] as int].id@);
            if q[a] != q[b] {
            }
        }
        assert forall|a: int| 0 <= a < order@.len() implies node_idx(
            nodes,
            (#[trigger] order@[a])@,
        ) >= 0 by {
            lemma_node_idx_of(nodes, q[a] as int);
        }
        assert forall|ei: int| 0 <= ei < es.len() implies edge_respected(
            #[trigger] es[ei],
            order@,
        ) by {
            let e3 = es[ei];
            let tp = first_pos(order@, e3.target@);
            if tp >= 0 {
                lemma_first_pos(order@, e3.target@);
                assert(order@[tp]@ == e3.target@);
                let t = q[tp] as int;
                assert(nodes[t].id@ == e3.target@);
                lemma_node_idx_of(nodes, t);
                assert(tgt_of(nodes, e3) == t);
                let qs = choose|qs: int|
                    0 <= qs < tp && (#[trigger] q[qs]) as int == src_of(nodes, e3);
                let s = src_of(nodes, e3);
                lemma_node_idx(nodes, e3.source@);
                assert(nodes[s].id@ == e3.source@);
                assert(order@[qs]@ == e3.source@);
                lemma_first_pos_le(order@, e3.source@, qs);
            }
        }
        assert forall|k: int|
            0 <= k < nodes.len() && (forall|ei: int|
                0 <= ei < es.len() ==> tgt_of(nodes, #[trigger] es[ei]) != k) implies first_pos(
            order@,
            (#[trigger] nodes[k]).id@,
        ) >= 0 by {
            lemma_pending_zero_conv(es, nodes, done_of(q, head as int), k);
            assert(indeg@[k] == 0);
            let i3 = choose|i3: int| 0 <= i3 < q.len() && (#[trigger] q[i3]) as int == k;
            assert(order@[i3]@ == nodes[k].id@);
            lemma_first_pos_le(order@, nodes[k].id@, i3);
        }
        if edges_valid(*w) && acyclic(*w) {
            let rank = choose|rank: Seq<nat>|
                rank.len() == w.nodes@.len() && #[trigger] rank_respects(rank, *w);
            assert forall|t2: int|
                0 <= t2 < nodes.len() && pending_into(es, nodes, done_of(q, q.len() as int), t2)
                    == 0 implies queued(q, t2) by {
                assert(done_of(q, q.len() as int) =~= done_of(q, head as int));
            }
            assert forall|k: int| 0 <= k < nodes.len() implies first_pos(
                order@,
                (#[trigger] nodes[k]).id@,
            ) >= 0 by {
                lemma_rank_queued(*w, q, rank, k);
                let i3 = choose|i3: int| 0 <= i3 < q.len() && (#[trigger] q[i3]) as int == k;
                assert(order@[i3]@ == nodes[k].id@);
                lemma_first_pos_le(order@, nodes[k].id@, i3);
            }
        }
    }
    order
}

} // verus!
