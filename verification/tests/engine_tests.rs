use agentflow_engine::dispatch::{execute_condition_node, execute_node, execute_template_node,
    execute_variable_node, HttpMethod, NodeAction};
use agentflow_engine::engine::{Engine, ExecutionEvent, StepOutcome};
use agentflow_engine::resolve::{get_path, replace_variables, split_dots};
use agentflow_engine::schedule::execution_order;
use agentflow_engine::value::{Entry, Value};
use agentflow_engine::workflow::{Workflow, WorkflowEdge, WorkflowNode};

fn obj(entries: Vec<(&str, Value)>) -> Value {
    let mut out: Vec<Entry> = Vec::new();
    for (k, v) in entries {
        out.push(Entry { key: k.to_string(), value: v });
    }
    Value::Obj(out)
}

fn s(text: &str) -> Value {
    Value::Str(text.to_string())
}

fn node(id: &str, node_type: &str, data: Value) -> WorkflowNode {
    WorkflowNode { id: id.to_string(), node_type: node_type.to_string(), data }
}

fn edge(id: &str, source: &str, target: &str) -> WorkflowEdge {
    WorkflowEdge {
        id: id.to_string(),
        source: source.to_string(),
        target: target.to_string(),
        source_handle: None,
        target_handle: None,
    }
}

fn wf(id: &str, nodes: Vec<WorkflowNode>, edges: Vec<WorkflowEdge>) -> Workflow {
    Workflow { id: id.to_string(), name: id.to_string(), nodes, edges }
}

#[test]
fn order_respects_edges_on_a_diamond() {
    let w = wf(
        "w1",
        vec![
            node("a", "start", obj(vec![])),
            node("b", "template", obj(vec![])),
            node("c", "template", obj(vec![])),
            node("d", "end", obj(vec![])),
        ],
        vec![edge("e1", "a", "b"), edge("e2", "a", "c"), edge("e3", "b", "d"), edge("e4", "c", "d")],
    );
    let order = execution_order(&w);
    assert_eq!(order.len(), 4);
    let pos = |id: &str| order.iter().position(|x| x == id).unwrap();
    assert!(pos("a") < pos("b"));
    assert!(pos("a") < pos("c"));
    assert!(pos("b") < pos("d"));
    assert!(pos("c") < pos("d"));
}

#[test]
fn two_cycle_gives_empty_order() {
    let w = wf(
        "w2",
        vec![node("A", "template", obj(vec![])), node("B", "template", obj(vec![]))],
        vec![edge("e1", "A", "B"), edge("e2", "B", "A")],
    );
    let order = execution_order(&w);
    assert_eq!(order.len(), 0);
}

// A node's merged inputs key each incoming edge's payload under the edge's
// source handle or source node id, and `{{path}}` resolves against that
// tree. A bare `{{id}}` therefore reads a missing key and renders empty;
// the path must name the start node, as here. Whether run inputs should
// also be readable without the node prefix is an open design question.
#[test]
fn http_node_receives_resolved_url() {
    let w = wf(
        "w3",
        vec![
            node("start1", "start", obj(vec![])),
            node(
                "http1",
                "http",
                obj(vec![("url", s("https://x/{{start1.id}}"))]),
            ),
            node("end1", "end", obj(vec![])),
        ],
        vec![edge("e1", "start1", "http1"), edge("e2", "http1", "end1")],
    );
    let inputs = obj(vec![("id", s("42"))]);
    let mut engine = Engine::start("run1".to_string(), w, &inputs, 0);
    // the start node is skipped, then the http node asks for its call
    let first = engine.step(false, 1);
    assert!(matches!(first, StepOutcome::Progressed));
    match engine.step(false, 2) {
        StepOutcome::NeedsHttp(call) => {
            assert_eq!(call.url, "https://x/42");
            assert!(matches!(call.method, HttpMethod::Get));
        },
        other => panic!("expected an HTTP call, got {:?}", other),
    }
}

#[test]
fn condition_greater_than_picks_true_branch() {
    let config = obj(vec![
        ("field", s("score")),
        ("operator", s("greaterThan")),
        ("value", Value::Int(50)),
    ]);
    let inputs = obj(vec![("score", Value::Int(75))]);
    let out = execute_condition_node(&config, &inputs);
    let expected = obj(vec![("result", Value::Bool(true)), ("branch", s("true"))]);
    assert!(out.deep_eq(&expected));
}

#[test]
fn condition_contains_only_on_strings() {
    let config = obj(vec![
        ("field", s("name")),
        ("operator", s("contains")),
        ("value", s("lo")),
    ]);
    let hit = execute_condition_node(&config, &obj(vec![("name", s("hello"))]));
    let expected_hit = obj(vec![("result", Value::Bool(true)), ("branch", s("true"))]);
    assert!(hit.deep_eq(&expected_hit));
    let miss = execute_condition_node(&config, &obj(vec![("name", Value::Int(7))]));
    let expected_miss = obj(vec![("result", Value::Bool(false)), ("branch", s("false"))]);
    assert!(miss.deep_eq(&expected_miss));
}

#[test]
fn condition_empty_checks_apply_to_strings_only() {
    let config = obj(vec![("field", s("v")), ("operator", s("isEmpty")), ("value", Value::Null)]);
    let t = obj(vec![("result", Value::Bool(true)), ("branch", s("true"))]);
    let f = obj(vec![("result", Value::Bool(false)), ("branch", s("false"))]);
    assert!(execute_condition_node(&config, &obj(vec![("v", s(""))])).deep_eq(&t));
    assert!(execute_condition_node(&config, &obj(vec![("v", s("x"))])).deep_eq(&f));
    // a missing field and a non-string operand are not "empty"
    assert!(execute_condition_node(&config, &obj(vec![])).deep_eq(&f));
    assert!(execute_condition_node(&config, &obj(vec![("v", Value::Int(1))])).deep_eq(&f));
}

#[test]
fn condition_contains_needs_a_string_comparand() {
    let config = obj(vec![
        ("field", s("name")),
        ("operator", s("contains")),
        ("value", Value::Int(3)),
    ]);
    let f = obj(vec![("result", Value::Bool(false)), ("branch", s("false"))]);
    assert!(execute_condition_node(&config, &obj(vec![("name", s("a3b"))])).deep_eq(&f));
}

#[test]
fn template_node_substitutes_paths() {
    let config = obj(vec![("template", s("hi {{user.name}}, nr {{user.ids.1}}!"))]);
    let inputs = obj(vec![(
        "user",
        obj(vec![("name", s("ada")), ("ids", Value::Arr(vec![Value::Int(7), Value::Int(9)]))]),
    )]);
    let out = execute_template_node(&config, &inputs);
    let expected = obj(vec![("text", s("hi ada, nr 9!"))]);
    assert!(out.deep_eq(&expected));
}

#[test]
fn missing_variable_substitutes_empty() {
    let out = replace_variables(&"a{{nope}}b".to_string(), &obj(vec![]));
    assert_eq!(out, "ab");
}

#[test]
fn non_string_variable_uses_canonical_text() {
    let inputs = obj(vec![("v", obj(vec![("k", Value::Int(-3))]))]);
    let out = replace_variables(&"x={{v}}".to_string(), &inputs);
    assert_eq!(out, "x={\"k\":-3}");
}

#[test]
fn variable_node_substitutes_string_entries() {
    let config = obj(vec![(
        "variables",
        obj(vec![("greeting", s("hey {{who}}")), ("count", Value::Int(3))]),
    )]);
    let inputs = obj(vec![("who", s("bob"))]);
    let out = execute_variable_node(&config, &inputs);
    let expected = obj(vec![("greeting", s("hey bob")), ("count", Value::Int(3))]);
    assert!(out.deep_eq(&expected));
}

#[test]
fn unknown_node_type_passes_inputs_through() {
    let inputs = obj(vec![("a", Value::Int(1))]);
    match execute_node(&"mystery".to_string(), &obj(vec![]), &inputs) {
        NodeAction::Output(out) => assert!(out.deep_eq(&inputs)),
        other => panic!("expected a passthrough, got {:?}", other),
    }
}

#[test]
fn http_node_without_url_is_invalid() {
    match execute_node(&"http".to_string(), &obj(vec![]), &obj(vec![])) {
        NodeAction::Invalid(msg) => assert_eq!(msg, "HTTP node missing url"),
        other => panic!("expected a validation failure, got {:?}", other),
    }
}

#[test]
fn llm_node_resolves_local_model() {
    let config = obj(vec![
        ("model", s("ollama:llama3")),
        ("userPrompt", s("ask {{q}}")),
    ]);
    let inputs = obj(vec![("q", s("why"))]);
    match execute_node(&"llm".to_string(), &config, &inputs) {
        NodeAction::CallChat(call) => {
            assert!(call.local);
            assert_eq!(call.model, "llama3");
            assert_eq!(call.user_prompt, "ask why");
        },
        other => panic!("expected a model call, got {:?}", other),
    }
}

#[test]
fn full_run_emits_one_terminal_and_bounded_node_events() {
    let w = wf(
        "w4",
        vec![
            node("start1", "start", obj(vec![])),
            node("t1", "template", obj(vec![("template", s("v={{start1.x}}"))])),
            node("end1", "end", obj(vec![])),
        ],
        vec![edge("e1", "start1", "t1"), edge("e2", "t1", "end1")],
    );
    let inputs = obj(vec![("x", Value::Int(5))]);
    let mut engine = Engine::start("run2".to_string(), w, &inputs, 0);
    let mut guard = 0;
    loop {
        match engine.step(false, 1) {
            StepOutcome::Progressed => {},
            StepOutcome::Finished => break,
            other => panic!("unexpected external call: {:?}", other),
        }
        guard += 1;
        assert!(guard < 100);
    }
    let events = &engine.events;
    let node_outcomes = events
        .iter()
        .filter(|e| matches!(e, ExecutionEvent::NodeCompleted { .. } | ExecutionEvent::NodeFailed { .. }))
        .count();
    let terminal = events
        .iter()
        .filter(
            |e| matches!(
                e,
                ExecutionEvent::Completed { .. } | ExecutionEvent::Failed { .. }
                    | ExecutionEvent::Cancelled { .. }
            ),
        )
        .count();
    // two non-start nodes in the workflow
    assert!(node_outcomes <= 2);
    assert_eq!(terminal, 1);
    // the end node collected the template's output
    match events.last().unwrap() {
        ExecutionEvent::Completed { outputs, .. } => {
            let expected = obj(vec![("t1", obj(vec![("text", s("v=5"))]))]);
            assert!(outputs.deep_eq(&expected));
        },
        other => panic!("expected completion, got {:?}", other),
    }
}

#[test]
fn cancelled_run_records_cancelled_status() {
    let w = wf("w5", vec![node("start1", "start", obj(vec![]))], vec![]);
    let mut engine = Engine::start("run3".to_string(), w, &obj(vec![]), 0);
    match engine.step(true, 1) {
        StepOutcome::Finished => {},
        other => panic!("expected the run to stop, got {:?}", other),
    }
    let record = engine.finalize(2);
    assert!(matches!(
        record.status,
        agentflow_engine::models::ExecutionStatus::Cancelled
    ));
    assert!(matches!(engine.events.last().unwrap(), ExecutionEvent::Cancelled { .. }));
}

#[test]
fn get_path_reads_nested_values() {
    let v = obj(vec![("a", obj(vec![("b", Value::Arr(vec![s("x"), s("y")]))]))]);
    let segs = split_dots(&"a.b.1".to_string());
    let got = get_path(&v, &segs, 0);
    assert!(got.deep_eq(&s("y")));
    let missing = get_path(&v, &split_dots(&"a.z".to_string()), 0);
    assert!(missing.deep_eq(&Value::Null));
}
