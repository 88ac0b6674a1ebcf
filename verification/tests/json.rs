use drasi_comms::json::{JsonNumber, JsonValue};

fn s(t: &str) -> JsonValue {
    JsonValue::String(t.to_string())
}

fn obj(members: Vec<(&str, JsonValue)>) -> JsonValue {
    JsonValue::Object(members.into_iter().map(|(k, v)| (k.to_string(), v)).collect())
}

fn same(a: &JsonValue, b: &JsonValue) -> bool {
    match (a, b) {
        (JsonValue::Null, JsonValue::Null) => true,
        (JsonValue::Bool(x), JsonValue::Bool(y)) => x == y,
        (JsonValue::Number(x), JsonValue::Number(y)) => match (x, y) {
            (JsonNumber::PosInt(p), JsonNumber::PosInt(q)) => p == q,
            (JsonNumber::NegInt(p), JsonNumber::NegInt(q)) => p == q,
            (JsonNumber::Float(p), JsonNumber::Float(q)) => p == q,
            _ => false,
        },
        (JsonValue::String(x), JsonValue::String(y)) => x == y,
        (JsonValue::Array(x), JsonValue::Array(y)) => {
            x.len() == y.len() && x.iter().zip(y.iter()).all(|(p, q)| same(p, q))
        }
        (JsonValue::Object(x), JsonValue::Object(y)) => {
            x.len() == y.len() && x.iter().zip(y.iter()).all(|(p, q)| p.0 == q.0 && same(&p.1, &q.1))
        }
        _ => false,
    }
}

fn key_order(v: &JsonValue) -> Vec<String> {
    match v {
        JsonValue::Object(m) => m.iter().map(|(k, _)| k.clone()).collect(),
        _ => vec![],
    }
}

#[test]
fn get_reads_members_of_objects_only() {
    let v = obj(vec![("a", s("x")), ("b", JsonValue::Bool(true))]);
    assert!(same(v.get("a").unwrap(), &s("x")));
    assert!(v.get("c").is_none());
    assert!(s("a").get("a").is_none());
    assert!(JsonValue::Null.get("a").is_none());
}

#[test]
fn assign_then_read_gives_the_value() {
    let v = obj(vec![("a", s("x")), ("b", s("y"))]);
    let w = v.assign("a", s("z"));
    assert!(same(w.get("a").unwrap(), &s("z")));
    assert!(same(w.get("b").unwrap(), &s("y")));
    assert_eq!(key_order(&w), vec!["a", "b"]);
    let w = w.assign("c", JsonValue::Null);
    assert_eq!(key_order(&w), vec!["a", "b", "c"]);
    assert!(same(w.get("c").unwrap(), &JsonValue::Null));
}

#[test]
fn assign_on_null_makes_an_object() {
    let w = JsonValue::Null.assign("k", s("v"));
    assert!(same(&w, &obj(vec![("k", s("v"))])));
}

#[test]
fn assign_path_builds_missing_levels() {
    let path = vec!["metadata", "tracking", "source", "start"];
    let v = obj(vec![("id", s("1"))]);
    assert!(v.can_assign_path(&path, 0));
    let w = v.assign_path(&path, 0, JsonValue::from_i64(5));
    let leaf = w.get("metadata").unwrap().get("tracking").unwrap().get("source").unwrap().get("start").unwrap();
    assert!(same(leaf, &JsonValue::Number(JsonNumber::PosInt(5))));
    assert!(same(w.get("id").unwrap(), &s("1")));
    let path2 = vec!["metadata", "tracking", "source", "end"];
    let w2 = w.assign_path(&path2, 0, JsonValue::from_i64(-3));
    let source = w2.get("metadata").unwrap().get("tracking").unwrap().get("source").unwrap();
    assert!(same(source.get("start").unwrap(), &JsonValue::Number(JsonNumber::PosInt(5))));
    assert!(same(source.get("end").unwrap(), &JsonValue::Number(JsonNumber::NegInt(-3))));
}

#[test]
fn assign_path_refused_through_a_scalar() {
    let path = vec!["metadata", "tracking"];
    let v = obj(vec![("metadata", s("text"))]);
    assert!(!v.can_assign_path(&path, 0));
    assert!(!s("x").can_assign_path(&path, 0));
    assert!(JsonValue::Null.can_assign_path(&path, 0));
    let arr = obj(vec![("metadata", JsonValue::Array(vec![]))]);
    assert!(!arr.can_assign_path(&path, 0));
}

#[test]
fn numbers_from_i64_follow_serde_json() {
    assert!(same(&JsonValue::from_i64(0), &JsonValue::Number(JsonNumber::PosInt(0))));
    assert!(same(&JsonValue::from_i64(i64::MAX), &JsonValue::Number(JsonNumber::PosInt(i64::MAX as u64))));
    assert!(same(&JsonValue::from_i64(-1), &JsonValue::Number(JsonNumber::NegInt(-1))));
    assert!(same(&JsonValue::from_i64(i64::MIN), &JsonValue::Number(JsonNumber::NegInt(i64::MIN))));
}

#[test]
fn deep_copy_is_equal() {
    let v = obj(vec![
        ("a", JsonValue::Array(vec![s("x"), JsonValue::Number(JsonNumber::Float("1.5".to_string()))])),
        ("b", obj(vec![("c", JsonValue::Bool(false))])),
    ]);
    assert!(same(&v.deep_copy(), &v));
}

#[test]
fn string_comparison_and_views() {
    assert!(s("node").eq_str("node"));
    assert!(!s("node").eq_str("other"));
    assert!(!JsonValue::Null.eq_str(""));
    assert_eq!(s("t").as_str().unwrap(), "t");
    assert!(JsonValue::Bool(true).as_str().is_none());
    assert_eq!(JsonValue::Array(vec![s("a")]).as_array().unwrap().len(), 1);
    assert!(s("a").as_array().is_none());
}
