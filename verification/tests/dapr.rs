use drasi_comms::dapr::{
    bulk_publish_url, chunk_body, invoke_url, is_success, publish_outcome, publish_url, DaprError,
    DaprHttpInvoker, DaprHttpPublisher, STREAM_CHUNK_SIZE,
};

#[test]
fn publish_urls() {
    assert_eq!(publish_url("127.0.0.1", 3500, "drasi-pubsub", "changes"), "http://127.0.0.1:3500/v1.0/publish/drasi-pubsub/changes");
    assert_eq!(
        bulk_publish_url("localhost", 80, "ps", "t"),
        "http://localhost:80/v1.0-alpha/publish/bulk/ps/t"
    );
    assert_eq!(invoke_url("127.0.0.1", 3500, "q1-publish-api", "change"), "http://127.0.0.1:3500/v1.0/invoke/q1-publish-api/method/change");
    assert_eq!(invoke_url("h", 0, "", ""), "http://h:0/v1.0/invoke//method/");
}

#[test]
fn endpoints_of_publisher_and_invoker() {
    let p = DaprHttpPublisher::new("127.0.0.1".to_string(), 3500, "pubsub".to_string(), "topic".to_string());
    assert_eq!(p.publish_endpoint(), "http://127.0.0.1:3500/v1.0/publish/pubsub/topic");
    assert_eq!(p.bulk_publish_endpoint(), "http://127.0.0.1:3500/v1.0-alpha/publish/bulk/pubsub/topic");
    let i = DaprHttpInvoker::new("127.0.0.1".to_string(), 65535);
    assert_eq!(i.invoke_endpoint("app", "m"), "http://127.0.0.1:65535/v1.0/invoke/app/method/m");
}

#[test]
fn success_statuses() {
    assert!(!is_success(199));
    assert!(is_success(200));
    assert!(is_success(204));
    assert!(is_success(299));
    assert!(!is_success(300));
    assert!(!is_success(500));
}

#[test]
fn publish_outcomes() {
    assert!(publish_outcome(200, String::new()).is_ok());
    match publish_outcome(503, "busy".to_string()) {
        Err(DaprError::Status { status, body }) => {
            assert_eq!(status, 503);
            assert_eq!(body, "busy");
        }
        _ => panic!("expected a status error"),
    }
}

#[test]
fn chunking_cuts_and_reassembles() {
    assert!(chunk_body(&vec![]).is_empty());
    let one = chunk_body(&vec![7u8; 10]);
    assert_eq!(one, vec![vec![7u8; 10]]);
    let exact = chunk_body(&vec![1u8; STREAM_CHUNK_SIZE]);
    assert_eq!(exact.len(), 1);
    let body: Vec<u8> = (0..(2 * STREAM_CHUNK_SIZE + 5)).map(|i| (i % 251) as u8).collect();
    let chunks = chunk_body(&body);
    assert_eq!(chunks.len(), 3);
    assert_eq!(chunks[0].len(), STREAM_CHUNK_SIZE);
    assert_eq!(chunks[1].len(), STREAM_CHUNK_SIZE);
    assert_eq!(chunks[2].len(), 5);
    assert_eq!(chunks.concat(), body);
    let std_chunks: Vec<Vec<u8>> = body.chunks(STREAM_CHUNK_SIZE).map(|c| c.to_vec()).collect();
    assert_eq!(chunks, std_chunks);
}
