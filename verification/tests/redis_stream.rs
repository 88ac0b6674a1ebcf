use drasi_comms::json::JsonValue;
use drasi_comms::redis_stream::{
    frame_stream_reply, stream_id_millis, RedisReader, RedisReaderSettings, RedisStreamReadResult,
    RedisStreamRecordData, RedisWriter, RedisWriterSettings, StreamCursor, StreamEntry, StreamFieldValue,
    StreamKeyEntries, StreamReadError,
};

fn entry(id: &str, fields: Vec<(&str, StreamFieldValue)>) -> StreamEntry {
    StreamEntry { id: id.to_string(), fields: fields.into_iter().map(|(k, v)| (k.to_string(), v)).collect() }
}

fn bulk(text: &str) -> StreamFieldValue {
    StreamFieldValue::BulkString(text.as_bytes().to_vec())
}

fn record(id: &str) -> RedisStreamReadResult {
    RedisStreamReadResult {
        id: id.to_string(),
        enqueue_time_ns: 0,
        dequeue_time_ns: 0,
        data: RedisStreamRecordData {
            data: JsonValue::Null,
            id: "r".to_string(),
            traceparent: None,
            tracestate: None,
            topic: "t".to_string(),
        },
    }
}

#[test]
fn reader_settings() {
    let s = RedisReaderSettings::new("drasi-redis".to_string(), 6379, "src-dispatch".to_string(), None);
    assert!(!s.process_old_entries);
    assert_eq!(s.connection_url(), "redis://drasi-redis:6379/");
    let s = RedisReaderSettings::new("h".to_string(), 1, "s".to_string(), Some(true));
    assert!(s.process_old_entries);
    let s = RedisReaderSettings::new("h".to_string(), 1, "s".to_string(), Some(false));
    assert!(!s.process_old_entries);
    let r = RedisReader::new(s);
    assert_eq!(r.settings().stream_name, "s");
}

#[test]
fn writer_settings() {
    let s = RedisWriterSettings::new("localhost".to_string(), 6380, "out".to_string());
    assert_eq!(s.connection_url(), "redis://localhost:6380/");
    let w = RedisWriter::new(s);
    assert_eq!(w.settings().stream_name, "out");
    let f = RedisWriter::entry_fields("{\"a\":1}".to_string());
    assert_eq!(f, vec![("data".to_string(), "{\"a\":1}".to_string())]);
}

#[test]
fn cursor_starts_and_advances() {
    let mut c = StreamCursor::new(true);
    assert_eq!(c.last_id(), "0-0");
    assert_eq!(StreamCursor::new(false).last_id(), "$");
    c.advance(&vec![]);
    assert_eq!(c.last_id(), "0-0");
    c.advance(&vec![record("1-0"), record("2-0")]);
    assert_eq!(c.last_id(), "2-0");
}

#[test]
fn stream_id_milliseconds() {
    assert_eq!(stream_id_millis("1526919030474-55"), Some(1526919030474));
    assert_eq!(stream_id_millis("123"), Some(123));
    assert_eq!(stream_id_millis("+5-1"), Some(5));
    assert_eq!(stream_id_millis("-5"), None);
    assert_eq!(stream_id_millis("abc-1"), None);
    assert_eq!(stream_id_millis(""), None);
}

#[test]
fn framing_keeps_text_entries_in_order() {
    let keys = vec![
        StreamKeyEntries {
            key: "a".to_string(),
            ids: vec![
                entry("10-0", vec![("data", bulk("{\"x\":1}"))]),
                entry("11-0", vec![("other", bulk("z")), ("data", StreamFieldValue::Other)]),
                entry("12-0", vec![("data", StreamFieldValue::BulkString(vec![0xff, 0xfe]))]),
            ],
        },
        StreamKeyEntries { key: "b".to_string(), ids: vec![entry("13-1", vec![("data", bulk("{}"))])] },
    ];
    let out = frame_stream_reply(&keys, 99).unwrap().ok().unwrap();
    assert_eq!(out.len(), 2);
    assert_eq!(out[0].id, "10-0");
    assert_eq!(out[0].enqueue_time_ns, 10_000_000);
    assert_eq!(out[0].dequeue_time_ns, 99);
    assert_eq!(out[0].data, "{\"x\":1}");
    assert_eq!(out[1].id, "13-1");
    assert_eq!(out[1].enqueue_time_ns, 13_000_000);
    assert_eq!(out[1].data, "{}");
}

#[test]
fn framing_refuses_bad_ids_and_missing_data() {
    let keys = vec![StreamKeyEntries {
        key: "a".to_string(),
        ids: vec![entry("1-0", vec![("data", bulk("{}"))]), entry("x-0", vec![("data", bulk("{}"))])],
    }];
    match frame_stream_reply(&keys, 0) {
        Some(Err(StreamReadError::InvalidStreamId(id))) => assert_eq!(id, "x-0"),
        _ => panic!("expected an invalid id"),
    }
    let keys = vec![StreamKeyEntries { key: "a".to_string(), ids: vec![entry("1-0", vec![("payload", bulk("{}"))])] }];
    match frame_stream_reply(&keys, 0) {
        Some(Err(StreamReadError::MissingData(id))) => assert_eq!(id, "1-0"),
        _ => panic!("expected missing data"),
    }
}

#[test]
fn framing_reports_an_overflowing_queue_time() {
    let keys = vec![StreamKeyEntries {
        key: "a".to_string(),
        ids: vec![entry("18446744073709552-0", vec![("data", bulk("{}"))])],
    }];
    assert!(frame_stream_reply(&keys, 0).is_none());
    let keys = vec![StreamKeyEntries {
        key: "a".to_string(),
        ids: vec![entry("x-0", vec![]), entry("18446744073709552-0", vec![("data", bulk("{}"))])],
    }];
    assert!(matches!(frame_stream_reply(&keys, 0), Some(Err(StreamReadError::InvalidStreamId(_)))));
    assert!(frame_stream_reply(&vec![], 0).unwrap().ok().unwrap().is_empty());
}

#[test]
fn traceparent_text_defaults_to_empty() {
    let mut r = record("1-0").data;
    assert_eq!(r.traceparent_text(), "");
    r.traceparent = Some("00-abc".to_string());
    assert_eq!(r.traceparent_text(), "00-abc");
}
