use drasi_comms::headers::{
    collect_request_headers, invoke_request_headers, stream_request_headers, HeaderError, Headers, Payload,
};
use drasi_comms::json::JsonValue;

fn headers(pairs: &[(&str, &str)]) -> Headers {
    let mut h = Headers::new();
    for (k, v) in pairs {
        h.insert(k.to_string(), v.to_string());
    }
    h
}

fn pairs(v: &[(String, String)]) -> Vec<(&str, &str)> {
    v.iter().map(|(k, v)| (k.as_str(), v.as_str())).collect()
}

#[test]
fn headers_insert_replaces_and_keeps_order() {
    let mut h = headers(&[("a", "1"), ("b", "2")]);
    h.insert("a".to_string(), "3".to_string());
    assert_eq!(h.len(), 2);
    assert_eq!(h.get("a").unwrap(), "3");
    assert_eq!(h.get("b").unwrap(), "2");
    assert!(h.get("c").is_none());
    assert_eq!(pairs(h.entries()), vec![("a", "3"), ("b", "2")]);
}

#[test]
fn names_are_normalised_to_lower_case() {
    let h = headers(&[("X-Custom", "a"), ("traceparent", "00-1")]);
    let r = collect_request_headers(&h).ok().unwrap();
    assert_eq!(pairs(&r), vec![("x-custom", "a"), ("traceparent", "00-1")]);
}

#[test]
fn names_that_differ_in_case_collapse() {
    let h = headers(&[("X-A", "first"), ("x-a", "second")]);
    let r = collect_request_headers(&h).ok().unwrap();
    assert_eq!(pairs(&r), vec![("x-a", "second")]);
}

#[test]
fn invoke_headers_default_content_type() {
    let body = JsonValue::Null;
    let r = invoke_request_headers(&Payload::JsonRef(&body), Some(&headers(&[("X-A", "1")]))).ok().unwrap();
    assert_eq!(pairs(&r), vec![("x-a", "1"), ("content-type", "application/json")]);
    let r = invoke_request_headers(&Payload::Json(JsonValue::Null), None).ok().unwrap();
    assert_eq!(pairs(&r), vec![("content-type", "application/json")]);
    let r = invoke_request_headers(&Payload::Bytes(vec![1, 2]), None).ok().unwrap();
    assert_eq!(pairs(&r), vec![("content-type", "application/octet-stream")]);
    let r = invoke_request_headers(&Payload::Empty, None).ok().unwrap();
    assert!(r.is_empty());
}

#[test]
fn caller_content_type_is_kept() {
    let h = headers(&[("Content-Type", "text/plain")]);
    let r = invoke_request_headers(&Payload::Json(JsonValue::Null), Some(&h)).ok().unwrap();
    assert_eq!(pairs(&r), vec![("content-type", "text/plain")]);
}

#[test]
fn invalid_header_name_is_refused() {
    let h = headers(&[("ok", "1"), ("bad name", "2")]);
    match invoke_request_headers(&Payload::Empty, Some(&h)) {
        Err(HeaderError::InvalidName(n)) => assert_eq!(n, "bad name"),
        _ => panic!("expected an invalid name"),
    }
    let h = headers(&[("", "2")]);
    assert!(matches!(collect_request_headers(&h), Err(HeaderError::InvalidName(_))));
    let h = headers(&[("naïve", "2")]);
    assert!(matches!(collect_request_headers(&h), Err(HeaderError::InvalidName(_))));
}

#[test]
fn invalid_header_value_is_refused() {
    let h = headers(&[("x-a", "line\nbreak")]);
    match collect_request_headers(&h) {
        Err(HeaderError::InvalidValue(v)) => assert_eq!(v, "line\nbreak"),
        _ => panic!("expected an invalid value"),
    }
    let h = headers(&[("x-a", "tab\tand ümlaut")]);
    assert!(collect_request_headers(&h).is_ok());
    let h = headers(&[("x-a", "del\u{7f}")]);
    assert!(matches!(collect_request_headers(&h), Err(HeaderError::InvalidValue(_))));
}

#[test]
fn stream_headers_add_transfer_encoding_and_accept() {
    let h = headers(&[("Accept", "text/html")]);
    let r = stream_request_headers(&Payload::Bytes(vec![]), Some(&h)).ok().unwrap();
    assert_eq!(
        pairs(&r),
        vec![
            ("accept", "application/octet-stream"),
            ("content-type", "application/octet-stream"),
            ("transfer-encoding", "chunked"),
        ]
    );
}
