//! Timeline reconstruction: a pure projection from a run snapshot to an
//! ordered list of steps, one per ordered node that has a snapshot, each
//! with an icon label and, for some node types, a one-line description.

use vstd::prelude::*;

use crate::models::{ExecutionSnapshot, NodeSnapshot, TimelineStep, TimelineView};
use crate::store::AppError;

verus! {

broadcast use vstd::seq::axiom_seq_index_decreases, vstd::seq::axiom_seq_subrange_decreases, vstd::std_specs::vec::axiom_vec_decreases_to_view, vstd::std_specs::vec::axiom_spec_len;

/// The index of the first node snapshot with the given node id; -1 when
/// absent.
pub open spec fn ns_idx(ns: Seq<NodeSnapshot>, id: Seq<char>) -> int
    decreases ns.len(),
{
    if ns.len() == 0 {
        -1
    } else if ns[0].node_id@ == id {
        0
    } else {
        let r = ns_idx(ns.subrange(1, ns.len() as int), id);
        if r < 0 {
            -1
        } else {
            r + 1
        }
    }
}

/// `ns_idx` finds a snapshot carrying the id, or there is none.
pub proof fn lemma_ns_idx(ns: Seq<NodeSnapshot>, id: Seq<char>)
    ensures
        ns_idx(ns, id) >= 0 ==> ns_idx(ns, id) < ns.len() && ns[ns_idx(ns, id)].node_id@ == id,
        ns_idx(ns, id) < 0 ==> forall|j: int| 0 <= j < ns.len() ==> ns[j].node_id@ != id,
    decreases ns.len(),
{
    if ns.len() > 0 && ns[0].node_id@ != id {
        let tail = ns.subrange(1, ns.len() as int);
        lemma_ns_idx(tail, id);
        assert forall|j: int| 1 <= j < ns.len() implies ns[j].node_id@ == tail[j - 1].node_id@ by {
            assert(tail[j - 1] == ns[j]);
        }
    }
}

/// `ns_idx` returns the first match.
proof fn lemma_ns_idx_first(ns: Seq<NodeSnapshot>, id: Seq<char>, k: int)
    requires
        0 <= k < ns.len(),
        ns[k].node_id@ == id,
        forall|j: int| 0 <= j < k ==> (#[trigger] ns[j].node_id@) != id,
    ensures
        ns_idx(ns, id) == k,
    decreases k,
{
    if k > 0 {
        let tail = ns.subrange(1, ns.len() as int);
        assert forall|j: int| 0 <= j < k - 1 implies (#[trigger] tail[j].node_id@) != id by {
            assert(tail[j] == ns[j + 1]);
        }
        assert(tail[k - 1] == ns[k]);
        lemma_ns_idx_first(tail, id, k - 1);
    }
}

/// The icon label for a node type.
pub open spec fn icon_spec(t: Seq<char>) -> Seq<char> {
    if t == "start"@ {
        "play"@
    } else if t == "end"@ {
        "flag"@
    } else if t == "llm"@ {
        "brain"@
    } else if t == "http"@ {
        "globe"@
    } else if t == "template"@ {
        "file-text"@
    } else if t == "condition"@ {
        "git-branch"@
    } else if t == "variable"@ {
        "variable"@
    } else if t == "code"@ {
        "code"@
    } else if t == "loop"@ {
        "repeat"@
    } else if t == "delay"@ {
        "clock"@
    } else {
        "box"@
    }
}

/// The icon label for a node type.
pub fn get_node_icon(node_type: &str) -> (r: Option<String>)
    ensures
        r matches Some(s) && s@ == icon_spec(node_type@),
{
    let tc = crate::text::string_chars(node_type);
    let icon: String = if eq_lit(&tc, "start") {
        String::from_str("play")
    } else if eq_lit(&tc, "end") {
        String::from_str("flag")
    } else if eq_lit(&tc, "llm") {
        String::from_str("brain")
    } else if eq_lit(&tc, "http") {
        String::from_str("globe")
    } else if eq_lit(&tc, "template") {
        String::from_str("file-text")
    } else if eq_lit(&tc, "condition") {
        String::from_str("git-branch")
    } else if eq_lit(&tc, "variable") {
        String::from_str("variable")
    } else if eq_lit(&tc, "code") {
        String::from_str("code")
    } else if eq_lit(&tc, "loop") {
        String::from_str("repeat")
    } else if eq_lit(&tc, "delay") {
        String::from_str("clock")
    } else {
        String::from_str("box")
    };
    Some(icon)
}

/// Character-sequence equality against a word.
fn eq_lit(s: &Vec<char>, word: &str) -> (r: bool)
    ensures
        r == (s@ == word@),
{
    let wc = crate::text::string_chars(word);
    let n = s.len();
    if n != wc.len() {
        proof {
            assert(s@.len() != word@.len());
        }
        return false;
    }
    let mut j: usize = 0;
    while j < n
        invariant
            j <= n,
            n == s@.len(),
            n == wc@.len(),
            wc@ == word@,
            forall|j2: int| 0 <= j2 < j ==> s@[j2] == wc@[j2],
        decreases n - j,
    {
        if s[j] != wc[j] {
            return false;
        }
        j = j + 1;
    }
    proof {
        assert(s@ =~= word@);
    }
    true
}

/// The one-line description of a step: the model for a model node, the URL
/// for an HTTP node, the chosen branch for a condition node.
pub open spec fn desc_spec(n: NodeSnapshot) -> Option<Seq<char>> {
    if n.node_type@ == "llm"@ {
        match n.metadata {
            Some(m) => match m.model {
                Some(model) => Some("model: "@ + model@),
                None => None,
            },
            None => None,
        }
    } else if n.node_type@ == "http"@ {
        match n.metadata {
            Some(m) => match m.http_url {
                Some(u) => Some("request: "@ + u@),
                None => None,
            },
            None => None,
        }
    } else if n.node_type@ == "condition"@ {
        match n.metadata {
            Some(m) => match m.condition_branch {
                Some(b) => Some("branch: "@ + b@),
                None => None,
            },
            None => None,
        }
    } else {
        None
    }
}

/// The one-line description of a step.
pub fn get_step_description(n: &NodeSnapshot) -> (r: Option<String>)
    ensures
        match r {
            Some(s) => desc_spec(*n) == Some(s@),
            None => desc_spec(*n) is None,
        },
{
    let tc = crate::text::string_chars(n.node_type.as_str());
    if eq_lit(&tc, "llm") {
        match &n.metadata {
            Some(m) => match &m.model {
                Some(model) => {
                    let mut s = String::from_str("model: ");
                    s.append(model.as_str());
                    Some(s)
                },
                None => None,
            },
            None => None,
        }
    } else if eq_lit(&tc, "http") {
        match &n.metadata {
            Some(m) => match &m.http_url {
                Some(u) => {
                    let mut s = String::from_str("request: ");
                    s.append(u.as_str());
                    Some(s)
                },
                None => None,
            },
            None => None,
        }
    } else if eq_lit(&tc, "condition") {
        match &n.metadata {
            Some(m) => match &m.condition_branch {
                Some(b) => {
                    let mut s = String::from_str("branch: ");
                    s.append(b.as_str());
                    Some(s)
                },
                None => None,
            },
            None => None,
        }
    } else {
        None
    }
}

/// One step matches its node snapshot.
pub open spec fn step_matches(step: TimelineStep, n: NodeSnapshot, order_pos: int) -> bool {
    &&& step.index == order_pos
    &&& step.node_id@ == n.node_id@
    &&& step.node_name@ == n.node_name@
    &&& step.node_type@ == n.node_type@
    &&& (step.node_icon matches Some(icon) && icon@ == icon_spec(n.node_type@))
    &&& step.status == n.status
    &&& step.started_at == n.started_at
    &&& step.completed_at == n.completed_at
    &&& step.duration_ms == n.duration_ms
    &&& (match step.description {
        Some(d) => desc_spec(n) == Some(d@),
        None => desc_spec(n) is None,
    })
    &&& step.is_selected is None
    &&& (step.has_error matches Some(h) && h == (n.error is Some))
}

/// The order positions with a matching node snapshot, among the first `k`.
pub open spec fn matched_positions(
    order: Seq<String>,
    ns: Seq<NodeSnapshot>,
    k: int,
) -> Seq<int>
    decreases k,
{
    if k <= 0 {
        Seq::empty()
    } else {
        matched_positions(order, ns, k - 1) + (if ns_idx(ns, order[k - 1]@) >= 0 {
            seq![k - 1]
        } else {
            Seq::empty()
        })
    }
}

/// Builds the timeline view of one snapshot: one step per ordered node
/// that has a node snapshot, in execution order, with icon and
/// description.
#[verifier::loop_isolation(false)]
#[verifier::rlimit(100)]
pub fn get_execution_timeline(snapshot: &ExecutionSnapshot) -> (view: TimelineView)
    ensures
        view.execution_id@ == snapshot.execution_id@,
        view.status == snapshot.status,
        view.started_at == snapshot.started_at,
        view.completed_at == snapshot.completed_at,
        view.duration_ms == snapshot.duration_ms,
        view.selected_step_index is None,
        ({
            let positions = matched_positions(
                snapshot.execution_order@,
                snapshot.node_snapshots@,
                snapshot.execution_order@.len() as int,
            );
            &&& view.steps@.len() == positions.len()
            &&& forall|j: int|
                0 <= j < positions.len() && positions[j] <= i64::MAX ==> step_matches(
                    #[trigger] view.steps@[j],
                    snapshot.node_snapshots@[ns_idx(
                        snapshot.node_snapshots@,
                        snapshot.execution_order@[positions[j]]@,
                    )],
                    positions[j],
                )
        }),
{
    let n = snapshot.execution_order.len();
    let ghost order = snapshot.execution_order@;
    let ghost ns = snapshot.node_snapshots@;
    let mut steps: Vec<TimelineStep> = Vec::new();
    let mut k: usize = 0;
    while k < n
        invariant
            k <= n,
            n == order.len(),
            snapshot.execution_order@ == order,
            snapshot.node_snapshots@ == ns,
            steps@.len() == matched_positions(order, ns, k as int).len(),
            forall|j: int|
                0 <= j < matched_positions(order, ns, k as int).len() && matched_positions(
                    order,
                    ns,
                    k as int,
                )[j] <= i64::MAX ==> step_matches(
                    #[trigger] steps@[j],
                    ns[ns_idx(ns, order[matched_positions(order, ns, k as int)[j]]@)],
                    matched_positions(order, ns, k as int)[j],
                ),
        decreases n - k,
    {
        let node_id = &snapshot.execution_order[k];
        let m = snapshot.node_snapshots.len();
        let mut i: usize = 0;
        let mut found: bool = false;
        while i < m
            invariant
                i <= m,
                m == ns.len(),
                snapshot.node_snapshots@ == ns,
                snapshot.execution_order@ == order,
                !found ==> forall|j: int| 0 <= j < i ==> (#[trigger] ns[j].node_id@) != node_id@,
                found ==> i < m && ns_idx(ns, node_id@) == i,
            decreases m - i + (if found {
                0int
            } else {
                1int
            }),
        {
            if found {
                break ;
            }
            if snapshot.node_snapshots[i].node_id.eq(node_id) {
                proof {
                    lemma_ns_idx_first(ns, node_id@, i as int);
                }
                found = true;
            } else {
                i = i + 1;
            }
        }
        if found {
            let node = &snapshot.node_snapshots[i];
            let idx_val: i64 = if k as u64 <= i64::MAX as u64 {
                k as i64
            } else {
                i64::MAX
            };
            let step = TimelineStep {
                index: idx_val,
                node_id: node.node_id.clone(),
                node_name: node.node_name.clone(),
                node_type: node.node_type.clone(),
                node_icon: get_node_icon(node.node_type.as_str()),
                status: node.status,
                started_at: node.started_at,
                completed_at: node.completed_at,
                duration_ms: node.duration_ms,
                description: get_step_description(node),
                is_selected: None,
                has_error: Some(matches!(&node.error, Some(_))),
            };
            steps.push(step);
        } else {
            proof {
                lemma_ns_idx(ns, node_id@);
                if ns_idx(ns, node_id@) >= 0 {
                    assert(ns[ns_idx(ns, node_id@)].node_id@ == node_id@);
                }
            }
        }
        proof {
            let prev = matched_positions(order, ns, k as int);
            let cur = matched_positions(order, ns, k + 1);
            if ns_idx(ns, order[k as int]@) >= 0 {
                assert(cur =~= prev + seq![k as int]);
            } else {
                assert(cur =~= prev);
            }
            assert forall|j: int|
                0 <= j < cur.len() && cur[j] <= i64::MAX implies step_matches(
                #[trigger] steps@[j],
                ns[ns_idx(ns, order[cur[j]]@)],
                cur[j],
            ) by {
                if j < prev.len() {
                    assert(cur[j] == prev[j]);
                }
            }
        }
        k = k + 1;
    }
    TimelineView {
        execution_id: snapshot.execution_id.clone(),
        status: snapshot.status,
        started_at: snapshot.started_at,
        completed_at: snapshot.completed_at,
        duration_ms: snapshot.duration_ms,
        steps,
        selected_step_index: None,
    }
}

/// One node's snapshot within a run, by node id.
#[verifier::loop_isolation(false)]
pub fn get_node_details<'a>(snapshot: &'a ExecutionSnapshot, node_id: &String) -> (r: Result<
    &'a NodeSnapshot,
    AppError,
>)
    ensures
        ns_idx(snapshot.node_snapshots@, node_id@) >= 0 ==> (r matches Ok(n) && *n
            == snapshot.node_snapshots@[ns_idx(snapshot.node_snapshots@, node_id@)]),
        ns_idx(snapshot.node_snapshots@, node_id@) < 0 ==> (r matches Err(e) && e is NotFound),
{
    let m = snapshot.node_snapshots.len();
    let mut i: usize = 0;
    while i < m
        invariant
            i <= m,
            m == snapshot.node_snapshots@.len(),
            forall|j: int|
                0 <= j < i ==> (#[trigger] snapshot.node_snapshots@[j].node_id@) != node_id@,
        decreases m - i,
    {
        if snapshot.node_snapshots[i].node_id.eq(node_id) {
            proof {
                lemma_ns_idx_first(snapshot.node_snapshots@, node_id@, i as int);
            }
            return Ok(&snapshot.node_snapshots[i]);
        }
        i = i + 1;
    }
    proof {
        lemma_ns_idx(snapshot.node_snapshots@, node_id@);
        if ns_idx(snapshot.node_snapshots@, node_id@) >= 0 {
            assert(snapshot.node_snapshots@[ns_idx(snapshot.node_snapshots@, node_id@)].node_id@
                == node_id@);
        }
    }
    Err(AppError::NotFound(String::from_str("no such node in this run")))
}

} // verus!
