use drasi_comms::dispatch::{
    node_of, queries_of_node, query_nodes, ChangeDispatch, DispatchAction, DispatchError, DispatchEvent, Invocation,
};
use drasi_comms::json::{JsonNumber, JsonValue};

fn s(t: &str) -> JsonValue {
    JsonValue::String(t.to_string())
}

fn obj(members: Vec<(&str, JsonValue)>) -> JsonValue {
    JsonValue::Object(members.into_iter().map(|(k, v)| (k.to_string(), v)).collect())
}

fn sub(node: &str, query: &str) -> JsonValue {
    obj(vec![("queryNodeId", s(node)), ("queryId", s(query))])
}

fn change(id: &str, subs: Vec<JsonValue>) -> JsonValue {
    obj(vec![("id", s(id)), ("subscriptions", JsonValue::Array(subs))])
}

fn strings(v: &JsonValue) -> Vec<String> {
    match v {
        JsonValue::Array(a) => a
            .iter()
            .map(|x| match x {
                JsonValue::String(t) => t.clone(),
                JsonValue::Null => "null".to_string(),
                _ => "?".to_string(),
            })
            .collect(),
        _ => panic!("not an array"),
    }
}

fn stamp(payload: &JsonValue, name: &str) -> i64 {
    let v = payload.get("metadata").unwrap().get("tracking").unwrap().get("source").unwrap().get(name).unwrap();
    match v {
        JsonValue::Number(JsonNumber::PosInt(u)) => *u as i64,
        JsonValue::Number(JsonNumber::NegInt(i)) => *i,
        _ => panic!("no number"),
    }
}

fn expect_invoke(a: DispatchAction) -> Invocation {
    match a {
        DispatchAction::Invoke(inv) => inv,
        _ => panic!("expected an invocation"),
    }
}

fn expect_clock(a: DispatchAction) {
    assert!(matches!(a, DispatchAction::ReadClock));
}

#[test]
fn nodes_are_distinct_in_first_order() {
    let subs = vec![sub("b", "q1"), sub("a", "q2"), sub("b", "q3"), obj(vec![("queryId", s("q4"))])];
    assert_eq!(query_nodes(&subs), vec!["b", "a", ""]);
    assert_eq!(strings(&queries_of_node(&subs, "b")), vec!["q1", "q3"]);
    assert_eq!(strings(&queries_of_node(&subs, "a")), vec!["q2"]);
    assert!(strings(&queries_of_node(&subs, "")).is_empty());
    assert_eq!(node_of(&obj(vec![("queryNodeId", JsonValue::Bool(true))])), "");
    let no_query = vec![obj(vec![("queryNodeId", s("n"))])];
    assert_eq!(strings(&queries_of_node(&no_query, "n")), vec!["null"]);
}

#[test]
fn changes_must_be_an_array() {
    match ChangeDispatch::new(&obj(vec![]), String::new(), 0) {
        Err(e) => {
            assert!(matches!(e, DispatchError::ChangesNotArray));
            assert_eq!(e.message(), "Changes must be an array");
        }
        Ok(_) => panic!("expected a refusal"),
    }
}

#[test]
fn empty_batch_finishes_at_once() {
    let mut run = ChangeDispatch::new(&JsonValue::Array(vec![]), String::new(), 0).ok().unwrap();
    assert!(matches!(run.step(DispatchEvent::Begin), DispatchAction::Finished(Ok(()))));
    assert!(matches!(run.step(DispatchEvent::Begin), DispatchAction::Idle));
}

#[test]
fn full_run_dispatches_each_node_once() {
    let batch = JsonValue::Array(vec![
        change("c1", vec![sub("A", "q1"), sub("B", "q2"), sub("A", "q3")]),
        change("c2", vec![sub("C", "q4")]),
    ]);
    let mut run = ChangeDispatch::new(&batch, "00-trace".to_string(), 1000).ok().unwrap();
    assert!(matches!(run.step(DispatchEvent::Clock(1)), DispatchAction::Idle));
    expect_clock(run.step(DispatchEvent::Begin));
    let inv = expect_invoke(run.step(DispatchEvent::Clock(1100)));
    assert_eq!(inv.app_id, "A-publish-api");
    assert_eq!(inv.method, "change");
    assert_eq!(strings(inv.payload.get("queries").unwrap()), vec!["q1", "q3"]);
    assert_eq!(stamp(&inv.payload, "changeDispatcherStart_ns"), 1000);
    assert_eq!(stamp(&inv.payload, "changeDispatcherEnd_ns"), 1100);
    assert!(inv.payload.get("id").unwrap().eq_str("c1"));
    assert_eq!(inv.headers.get("traceparent").unwrap(), "00-trace");
    assert_eq!(inv.headers.len(), 1);
    expect_clock(run.step(DispatchEvent::Invoked));
    let inv = expect_invoke(run.step(DispatchEvent::Clock(1200)));
    assert_eq!(inv.app_id, "B-publish-api");
    assert_eq!(strings(inv.payload.get("queries").unwrap()), vec!["q2"]);
    assert_eq!(stamp(&inv.payload, "changeDispatcherStart_ns"), 1000);
    assert_eq!(stamp(&inv.payload, "changeDispatcherEnd_ns"), 1200);
    expect_clock(run.step(DispatchEvent::Invoked));
    expect_clock(run.step(DispatchEvent::Clock(2000)));
    let inv = expect_invoke(run.step(DispatchEvent::Clock(2100)));
    assert_eq!(inv.app_id, "C-publish-api");
    assert!(inv.payload.get("id").unwrap().eq_str("c2"));
    assert_eq!(stamp(&inv.payload, "changeDispatcherStart_ns"), 2000);
    assert_eq!(stamp(&inv.payload, "changeDispatcherEnd_ns"), 2100);
    assert!(matches!(run.step(DispatchEvent::Invoked), DispatchAction::Finished(Ok(()))));
    assert!(matches!(run.step(DispatchEvent::Invoked), DispatchAction::Idle));
}

#[test]
fn empty_traceparent_sends_no_headers() {
    let batch = JsonValue::Array(vec![change("c1", vec![sub("A", "q1")])]);
    let mut run = ChangeDispatch::new(&batch, String::new(), 5).ok().unwrap();
    expect_clock(run.step(DispatchEvent::Begin));
    let inv = expect_invoke(run.step(DispatchEvent::Clock(-7)));
    assert_eq!(inv.headers.len(), 0);
    assert_eq!(stamp(&inv.payload, "changeDispatcherEnd_ns"), -7);
}

#[test]
fn change_without_subscriptions_is_refused() {
    let batch = JsonValue::Array(vec![obj(vec![("id", s("c1"))])]);
    let mut run = ChangeDispatch::new(&batch, String::new(), 5).ok().unwrap();
    match run.step(DispatchEvent::Begin) {
        DispatchAction::Finished(Err(e)) => {
            assert!(matches!(e, DispatchError::SubscriptionsNotArray));
            assert_eq!(e.message(), "Error getting subscriptions from change event");
        }
        _ => panic!("expected a refusal"),
    }
}

#[test]
fn change_without_subscribers_is_passed_over() {
    let batch = JsonValue::Array(vec![change("c1", vec![]), change("c2", vec![sub("A", "q")])]);
    let mut run = ChangeDispatch::new(&batch, String::new(), 5).ok().unwrap();
    expect_clock(run.step(DispatchEvent::Begin));
    expect_clock(run.step(DispatchEvent::Clock(6)));
    let inv = expect_invoke(run.step(DispatchEvent::Clock(7)));
    assert!(inv.payload.get("id").unwrap().eq_str("c2"));
}

#[test]
fn failed_invocation_ends_the_run() {
    let batch = JsonValue::Array(vec![change("c1", vec![sub("A", "q1"), sub("B", "q2")])]);
    let mut run = ChangeDispatch::new(&batch, String::new(), 5).ok().unwrap();
    expect_clock(run.step(DispatchEvent::Begin));
    expect_invoke(run.step(DispatchEvent::Clock(6)));
    match run.step(DispatchEvent::InvokeFailed("connection refused".to_string())) {
        DispatchAction::Finished(Err(e)) => {
            assert_eq!(e.message(), "Error invoking app: connection refused");
        }
        _ => panic!("expected a failure"),
    }
    assert!(matches!(run.step(DispatchEvent::Invoked), DispatchAction::Idle));
    assert!(matches!(run.step(DispatchEvent::Clock(9)), DispatchAction::Idle));
}

#[test]
fn change_that_cannot_take_a_stamp_is_reported() {
    let batch = JsonValue::Array(vec![obj(vec![
        ("metadata", obj(vec![("tracking", s("flat"))])),
        ("subscriptions", JsonValue::Array(vec![])),
    ])]);
    let mut run = ChangeDispatch::new(&batch, String::new(), 5).ok().unwrap();
    assert!(matches!(run.step(DispatchEvent::Begin), DispatchAction::Unassignable(0)));
}

#[test]
fn existing_metadata_keeps_its_members() {
    let batch = JsonValue::Array(vec![obj(vec![
        ("metadata", obj(vec![("tracking", obj(vec![("source", obj(vec![("seq", s("9"))]))]))])),
        ("subscriptions", JsonValue::Array(vec![sub("N", "q")])),
        ("queries", s("old")),
    ])]);
    let mut run = ChangeDispatch::new(&batch, String::new(), 5).ok().unwrap();
    expect_clock(run.step(DispatchEvent::Begin));
    let inv = expect_invoke(run.step(DispatchEvent::Clock(6)));
    let source = inv.payload.get("metadata").unwrap().get("tracking").unwrap().get("source").unwrap();
    assert!(source.get("seq").unwrap().eq_str("9"));
    assert_eq!(strings(inv.payload.get("queries").unwrap()), vec!["q"]);
}
