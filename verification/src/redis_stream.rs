//! Redis stream plumbing: reader and writer settings, the cursor a reader
//! follows, and the framing of the entries that `XREAD` hands back.
use vstd::prelude::*;
use vstd::utf8::{valid_utf8, decode_utf8};
use crate::json::JsonValue;
use crate::text::{chars_of, decimal_text, owned, parse_u64_range, parse_u64_spec, push_decimal, push_str, str_eq};

verus! {

/// `redis://host:port/`.
pub open spec fn connection_url_spec(host: Seq<char>, port: u16) -> Seq<char> {
    "redis://"@ + host + ":"@ + decimal_text(port as nat) + "/"@
}

fn connection_url(host: &str, port: u16) -> (r: String)
    ensures
        r@ == connection_url_spec(host@, port),
{
    let mut url = String::new();
    push_str(&mut url, "redis://");
    push_str(&mut url, host);
    push_str(&mut url, ":");
    push_decimal(&mut url, port as u64);
    push_str(&mut url, "/");
    assert(url@ =~= connection_url_spec(host@, port));
    url
}

/// Where a reader connects and which stream it follows.
#[derive(Clone, Debug)]
pub struct RedisReaderSettings {
    pub host: String,
    pub port: u16,
    pub process_old_entries: bool,
    pub stream_name: String,
}

impl RedisReaderSettings {
    /// Settings that skip the stream's old entries unless
    /// `process_old_entries` says otherwise.
    pub fn new(host: String, port: u16, stream_name: String, process_old_entries: Option<bool>) -> (r: Self)
        ensures
            r.host == host,
            r.port == port,
            r.stream_name == stream_name,
            r.process_old_entries == match process_old_entries {
                Some(b) => b,
                None => false,
            },
    {
        RedisReaderSettings {
            host,
            port,
            process_old_entries: match process_old_entries {
                Some(b) => b,
                None => false,
            },
            stream_name,
        }
    }

    /// The URL of the Redis server.
    pub fn connection_url(&self) -> (r: String)
        ensures
            r@ == connection_url_spec(self.host@, self.port),
    {
        connection_url(self.host.as_str(), self.port)
    }
}

/// A reader of one Redis stream.
pub struct RedisReader {
    settings: RedisReaderSettings,
}

impl RedisReader {
    pub fn new(settings: RedisReaderSettings) -> (r: Self)
        ensures
            r.spec_settings() == settings,
    {
        RedisReader { settings }
    }

    pub closed spec fn spec_settings(&self) -> RedisReaderSettings {
        self.settings
    }

    /// The reader's settings.
    pub fn settings(&self) -> (r: &RedisReaderSettings)
        ensures
            *r == self.spec_settings(),
    {
        &self.settings
    }
}

/// Where a writer connects and which stream it appends to.
#[derive(Clone, Debug)]
pub struct RedisWriterSettings {
    pub host: String,
    pub port: u16,
    pub stream_name: String,
}

impl RedisWriterSettings {
    pub fn new(host: String, port: u16, stream_name: String) -> (r: Self)
        ensures
            r.host == host,
            r.port == port,
            r.stream_name == stream_name,
    {
        RedisWriterSettings { host, port, stream_name }
    }

    /// The URL of the Redis server.
    pub fn connection_url(&self) -> (r: String)
        ensures
            r@ == connection_url_spec(self.host@, self.port),
    {
        connection_url(self.host.as_str(), self.port)
    }
}

/// A writer that appends records to one Redis stream.
pub struct RedisWriter {
    settings: RedisWriterSettings,
}

impl RedisWriter {
    pub fn new(settings: RedisWriterSettings) -> (r: Self)
        ensures
            r.spec_settings() == settings,
    {
        RedisWriter { settings }
    }

    pub closed spec fn spec_settings(&self) -> RedisWriterSettings {
        self.settings
    }

    /// The writer's settings.
    pub fn settings(&self) -> (r: &RedisWriterSettings)
        ensures
            *r == self.spec_settings(),
    {
        &self.settings
    }

    /// The fields of the stream entry that carries a serialised record: one
    /// field, `data`, holding the record's JSON text.
    pub fn entry_fields(serialized: String) -> (r: Vec<(String, String)>)
        ensures
            r@.len() == 1,
            r@[0].0@ == "data"@,
            r@[0].1 == serialized,
    {
        let mut fields: Vec<(String, String)> = Vec::new();
        fields.push((owned("data"), serialized));
        fields
    }
}

/// The stream id a reader starts after: `0-0` reads the stream from its
/// start, `$` only what arrives from now on.
pub open spec fn initial_stream_id(process_old_entries: bool) -> Seq<char> {
    if process_old_entries { "0-0"@ } else { "$"@ }
}

/// The record that one stream entry carries.
pub struct RedisStreamRecordData {
    pub data: JsonValue,
    pub id: String,
    pub traceparent: Option<String>,
    pub tracestate: Option<String>,
    pub topic: String,
}

impl RedisStreamRecordData {
    /// The trace parent to pass on: the record's, or the empty text.
    pub fn traceparent_text(&self) -> (r: String)
        ensures
            r@ == match self.traceparent {
                Some(t) => t@,
                None => Seq::<char>::empty(),
            },
    {
        match &self.traceparent {
            Some(t) => t.clone(),
            None => String::new(),
        }
    }
}

/// A record read from a stream, with the times it was queued and taken.
pub struct RedisStreamReadResult {
    pub id: String,
    pub enqueue_time_ns: u64,
    pub dequeue_time_ns: u64,
    pub data: RedisStreamRecordData,
}

/// The id a reader has reached: the last entry it delivered.
pub struct StreamCursor {
    last_id: String,
}

impl StreamCursor {
    pub closed spec fn spec_last_id(&self) -> Seq<char> {
        self.last_id@
    }

    /// The cursor of a reader that starts now.
    pub fn new(process_old_entries: bool) -> (r: Self)
        ensures
            r.spec_last_id() == initial_stream_id(process_old_entries),
    {
        StreamCursor { last_id: owned(if process_old_entries { "0-0" } else { "$" }) }
    }

    /// The id to read after.
    pub fn last_id(&self) -> (r: &str)
        ensures
            r@ == self.spec_last_id(),
    {
        self.last_id.as_str()
    }

    /// Moves past a batch of delivered records: the cursor takes the last
    /// record's id, and an empty batch leaves it where it is.
    pub fn advance(&mut self, delivered: &Vec<RedisStreamReadResult>)
        ensures
            final(self).spec_last_id() == if delivered@.len() == 0 {
                old(self).spec_last_id()
            } else {
                delivered@.last().id@
            },
    {
        let n = delivered.len();
        if n > 0 {
            self.last_id = delivered[n - 1].id.clone();
        }
    }
}

/// What the reader looks at in a stream entry's field: a bulk string's bytes,
/// or any other kind of reply.
pub enum StreamFieldValue {
    BulkString(Vec<u8>),
    Other,
}

/// One entry of a stream as `XREAD` hands it back.
pub struct StreamEntry {
    pub id: String,
    pub fields: Vec<(String, StreamFieldValue)>,
}

/// The entries read from one stream key.
pub struct StreamKeyEntries {
    pub key: String,
    pub ids: Vec<StreamEntry>,
}

/// A stream entry whose `data` field holds text, ready to be decoded.
pub struct FramedRecord {
    pub id: String,
    pub enqueue_time_ns: u64,
    pub dequeue_time_ns: u64,
    pub data: String,
}

/// Why a read reply was refused.
pub enum StreamReadError {
    /// The entry id does not start with a millisecond count.
    InvalidStreamId(String),
    /// The entry has no `data` field.
    MissingData(String),
}

/// The mathematical form of a framed record.
pub struct FramedView {
    pub id: Seq<char>,
    pub enqueue_time_ns: u64,
    pub dequeue_time_ns: u64,
    pub data: Seq<char>,
}

pub open spec fn framed_view(r: FramedRecord) -> FramedView {
    FramedView { id: r.id@, enqueue_time_ns: r.enqueue_time_ns, dequeue_time_ns: r.dequeue_time_ns, data: r.data@ }
}

/// How the framing of a reply ends: with records, with a refusal, or with
/// a queue time too large for 64 bits (where the computation overflows).
pub enum FrameOutcome {
    Records(Seq<FramedView>),
    BadId(Seq<char>),
    NoData(Seq<char>),
    Overflow,
}

/// The part of an id before its first `-`.
pub open spec fn before_dash(s: Seq<char>) -> Seq<char>
    decreases s.len(),
{
    if s.len() == 0 {
        s
    } else if s[0] == '-' {
        Seq::empty()
    } else {
        seq![s[0]] + before_dash(s.drop_first())
    }
}

/// The millisecond count that an entry id starts with.
pub open spec fn id_millis(id: Seq<char>) -> Option<u64> {
    parse_u64_spec(before_dash(id))
}

/// The value of the first field named `name`.
pub open spec fn field_lookup(fs: Seq<(String, StreamFieldValue)>, name: Seq<char>) -> Option<StreamFieldValue>
    decreases fs.len(),
{
    if fs.len() == 0 {
        None
    } else if fs[0].0@ == name {
        Some(fs[0].1)
    } else {
        field_lookup(fs.drop_first(), name)
    }
}

/// All entries of a reply, key after key.
pub open spec fn all_entries(keys: Seq<StreamKeyEntries>) -> Seq<StreamEntry>
    decreases keys.len(),
{
    if keys.len() == 0 {
        Seq::empty()
    } else {
        all_entries(keys.drop_last()) + keys.last().ids@
    }
}

/// Framing the entries in order, each after those before it: an id without
/// a millisecond count or an entry without `data` ends the framing; an entry
/// whose `data` is no bulk string or no UTF-8 text is passed over.
pub open spec fn frame_entries(es: Seq<StreamEntry>, dequeue_time_ns: u64) -> FrameOutcome
    decreases es.len(),
{
    if es.len() == 0 {
        FrameOutcome::Records(Seq::empty())
    } else {
        match frame_entries(es.drop_last(), dequeue_time_ns) {
            FrameOutcome::Records(rs) => {
                let e = es.last();
                match id_millis(e.id@) {
                    None => FrameOutcome::BadId(e.id@),
                    Some(ms) => if ms * 1_000_000 > u64::MAX {
                        FrameOutcome::Overflow
                    } else {
                        match field_lookup(e.fields@, "data"@) {
                            None => FrameOutcome::NoData(e.id@),
                            Some(StreamFieldValue::BulkString(bytes)) => if valid_utf8(bytes@) {
                                FrameOutcome::Records(
                                    rs.push(
                                        FramedView {
                                            id: e.id@,
                                            enqueue_time_ns: (ms * 1_000_000) as u64,
                                            dequeue_time_ns,
                                            data: decode_utf8(bytes@),
                                        },
                                    ),
                                )
                            } else {
                                FrameOutcome::Records(rs)
                            },
                            Some(StreamFieldValue::Other) => FrameOutcome::Records(rs),
                        }
                    },
                }
            },
            other => other,
        }
    }
}

/// Decodes UTF-8 text; wraps `String::from_utf8`, which refuses byte strings
/// that are not valid UTF-8.
#[verifier::external_body]
fn utf8_text(bytes: &Vec<u8>) -> (r: Option<String>)
    ensures
        match r {
            Some(s) => valid_utf8(bytes@) && s@ == decode_utf8(bytes@),
            None => !valid_utf8(bytes@),
        },
{
    match String::from_utf8(bytes.clone()) {
        Ok(s) => Some(s),
        Err(_) => None,
    }
}

/// The millisecond count that an entry id starts with.
pub fn stream_id_millis(id: &str) -> (r: Option<u64>)
    ensures
        r == id_millis(id@),
{
    let cs = chars_of(id);
    let mut end: usize = 0;
    assert(cs@.skip(0) =~= cs@);
    assert(cs@.take(0) + cs@ =~= cs@);
    while end < cs.len() && cs[end] != '-'
        invariant
            end <= cs@.len(),
            cs@ == id@,
            before_dash(cs@) == cs@.take(end as int) + before_dash(cs@.skip(end as int)),
            forall|j: int| 0 <= j < end ==> cs@[j] != '-',
        decreases cs.len() - end,
    {
        let ghost rest = cs@.skip(end as int);
        assert(rest.drop_first() =~= cs@.skip(end as int + 1));
        assert(cs@.take(end as int + 1) =~= cs@.take(end as int) + seq![cs@[end as int]]);
        end = end + 1;
    }
    proof {
        let rest = cs@.skip(end as int);
        if end < cs@.len() {
            assert(rest[0] == '-');
        } else {
            assert(rest.len() == 0);
        }
        assert(before_dash(rest) =~= Seq::<char>::empty());
        assert(cs@.subrange(0, end as int) =~= before_dash(cs@));
    }
    parse_u64_range(&cs, 0, end)
}

fn data_field(fields: &Vec<(String, StreamFieldValue)>) -> (r: Option<&StreamFieldValue>)
    ensures
        match r {
            Some(v) => field_lookup(fields@, "data"@) == Some(*v),
            None => field_lookup(fields@, "data"@) is None,
        },
{
    let mut i: usize = 0;
    assert(fields@.skip(0) =~= fields@);
    while i < fields.len()
        invariant
            i <= fields@.len(),
            field_lookup(fields@, "data"@) == field_lookup(fields@.skip(i as int), "data"@),
        decreases fields.len() - i,
    {
        assert(fields@.skip(i as int).drop_first() =~= fields@.skip(i as int + 1));
        if str_eq(fields[i].0.as_str(), "data") {
            return Some(&fields[i].1);
        }
        i = i + 1;
    }
    None
}


proof fn lemma_frame_refusal_stays(es: Seq<StreamEntry>, n: int, deq: u64)
    requires
        0 <= n <= es.len(),
        !(frame_entries(es.take(n), deq) is Records),
    ensures
        frame_entries(es, deq) == frame_entries(es.take(n), deq),
    decreases es.len() - n,
{
    if n < es.len() {
        assert(es.take(n + 1).drop_last() =~= es.take(n));
        lemma_frame_refusal_stays(es, n + 1, deq);
    } else {
        assert(es.take(n) =~= es);
    }
}

proof fn lemma_all_entries_step(keys: Seq<StreamKeyEntries>, k: int)
    requires
        0 <= k < keys.len(),
    ensures
        all_entries(keys.take(k + 1)) == all_entries(keys.take(k)) + keys[k].ids@,
{
    assert(keys.take(k + 1).drop_last() =~= keys.take(k));
}

proof fn lemma_all_entries_prefix(keys: Seq<StreamKeyEntries>, k: int)
    requires
        0 <= k <= keys.len(),
    ensures
        all_entries(keys.take(k)).len() <= all_entries(keys).len(),
        all_entries(keys).take(all_entries(keys.take(k)).len() as int) == all_entries(keys.take(k)),
    decreases keys.len() - k,
{
    if k < keys.len() {
        lemma_all_entries_prefix(keys, k + 1);
        lemma_all_entries_step(keys, k);
        let a = all_entries(keys.take(k));
        let b = all_entries(keys.take(k + 1));
        assert(b.take(a.len() as int) =~= a);
        assert(all_entries(keys).take(a.len() as int) =~= b.take(a.len() as int));
    } else {
        assert(keys.take(k) =~= keys);
        assert(all_entries(keys).take(all_entries(keys).len() as int) =~= all_entries(keys));
    }
}

/// Frames the entries of an `XREAD` reply, key after key and entry after
/// entry: each entry's queue time is its id's millisecond count in
/// nanoseconds, and every record carries the same dequeue time. `None`
/// stands for an entry reached whose queue time does not fit in 64 bits,
/// where the nanosecond product overflows.
pub fn frame_stream_reply(keys: &Vec<StreamKeyEntries>, dequeue_time_ns: u64) -> (r: Option<
    Result<Vec<FramedRecord>, StreamReadError>,
>)
    ensures
        match frame_entries(all_entries(keys@), dequeue_time_ns) {
            FrameOutcome::Records(rs) => r matches Some(Ok(v)) && v@.map_values(
                |f: FramedRecord| framed_view(f),
            ) == rs,
            FrameOutcome::BadId(id) => r matches Some(Err(StreamReadError::InvalidStreamId(s))) && s@
                == id,
            FrameOutcome::NoData(id) => r matches Some(Err(StreamReadError::MissingData(s))) && s@ == id,
            FrameOutcome::Overflow => r is None,
        },
{
    let ghost es = all_entries(keys@);
    let mut out: Vec<FramedRecord> = Vec::new();
    let mut k: usize = 0;
    assert(keys@.take(0) =~= Seq::<StreamKeyEntries>::empty());
    assert(out@.map_values(|f: FramedRecord| framed_view(f)) =~= Seq::<FramedView>::empty());
    assert(es.take(0) =~= Seq::<StreamEntry>::empty());
    while k < keys.len()
        invariant
            k <= keys@.len(),
            es == all_entries(keys@),
            es.take(all_entries(keys@.take(k as int)).len() as int) == all_entries(keys@.take(k as int)),
            frame_entries(all_entries(keys@.take(k as int)), dequeue_time_ns) == FrameOutcome::Records(
                out@.map_values(|f: FramedRecord| framed_view(f)),
            ),
        decreases keys.len() - k,
    {
        proof {
            lemma_all_entries_step(keys@, k as int);
            lemma_all_entries_prefix(keys@, k as int + 1);
        }
        let ghost before = all_entries(keys@.take(k as int));
        let entries = &keys[k].ids;
        let mut j: usize = 0;
        assert(before + entries@.take(0) =~= before);
        while j < entries.len()
            invariant
                k < keys@.len(),
                *entries == keys@[k as int].ids,
                j <= entries@.len(),
                es == all_entries(keys@),
                    before == all_entries(keys@.take(k as int)),
                all_entries(keys@.take(k as int + 1)) == before + entries@,
                before.len() + entries@.len() <= es.len(),
                es.take((before.len() + entries@.len()) as int) == before + entries@,
                frame_entries(before + entries@.take(j as int), dequeue_time_ns) == FrameOutcome::Records(
                    out@.map_values(|f: FramedRecord| framed_view(f)),
                ),
            decreases entries.len() - j,
        {
            let e = &entries[j];
            let ghost prefix = before + entries@.take(j as int + 1);
            let ghost n: int = before.len() + j + 1;
            assert(prefix.drop_last() =~= before + entries@.take(j as int));
            assert(prefix.last() == *e);
            assert(es.take(n) =~= prefix) by {
                assert(es.take((before.len() + entries@.len()) as int).take(n) =~= es.take(n));
                assert((before + entries@).take(n) =~= prefix);
            }
            let ghost rs = out@.map_values(|f: FramedRecord| framed_view(f));
            let millis = match stream_id_millis(e.id.as_str()) {
                Some(ms) => ms,
                None => {
                    proof {
                        lemma_frame_refusal_stays(es, n, dequeue_time_ns);
                    }
                    return Some(Err(StreamReadError::InvalidStreamId(e.id.clone())));
                },
            };
            if millis > u64::MAX / 1_000_000 {
                proof {
                    lemma_frame_refusal_stays(es, n, dequeue_time_ns);
                }
                return None;
            }
            let enqueue_time_ns = millis * 1_000_000;
            match data_field(&e.fields) {
                None => {
                    proof {
                        lemma_frame_refusal_stays(es, n, dequeue_time_ns);
                    }
                    return Some(Err(StreamReadError::MissingData(e.id.clone())));
                },
                Some(StreamFieldValue::BulkString(bytes)) => {
                    match utf8_text(bytes) {
                        Some(text) => {
                            let rec = FramedRecord {
                                id: e.id.clone(),
                                enqueue_time_ns,
                                dequeue_time_ns,
                                data: text,
                            };
                            out.push(rec);
                            assert(out@.map_values(|f: FramedRecord| framed_view(f)) =~= rs.push(
                                framed_view(rec),
                            ));
                        },
                        None => {},
                    }
                },
                Some(StreamFieldValue::Other) => {},
            }
            j = j + 1;
        }
        assert(entries@.take(entries@.len() as int) =~= entries@);
        k = k + 1;
    }
    assert(keys@.take(keys@.len() as int) =~= keys@);
    Some(Ok(out))
}


/// Every framed record carries the reply's dequeue time, and a queue time
/// that is its id's millisecond count in nanoseconds; there are never more
/// records than entries.
pub proof fn lemma_framed_record_times(es: Seq<StreamEntry>, deq: u64)
    ensures
        frame_entries(es, deq) matches FrameOutcome::Records(rs) ==> {
            &&& rs.len() <= es.len()
            &&& forall|i: int|
                0 <= i < rs.len() ==> {
                    &&& (#[trigger] rs[i]).dequeue_time_ns == deq
                    &&& id_millis(rs[i].id) matches Some(ms) && rs[i].enqueue_time_ns == ms * 1_000_000
                }
        },
    decreases es.len(),
{
    if es.len() > 0 {
        lemma_framed_record_times(es.drop_last(), deq);
    }
}


/// A reply is refused as overflowing only when one of its entries really
/// has a queue time that does not fit: a millisecond count whose nanosecond
/// value exceeds 64 bits.
pub proof fn lemma_overflow_only_when_queue_time_does_not_fit(es: Seq<StreamEntry>, deq: u64)
    ensures
        frame_entries(es, deq) is Overflow ==> exists|i: int|
            0 <= i < es.len() && (id_millis((#[trigger] es[i]).id@) matches Some(ms) && ms * 1_000_000
                > u64::MAX),
    decreases es.len(),
{
    if es.len() > 0 {
        let init = es.drop_last();
        lemma_overflow_only_when_queue_time_does_not_fit(init, deq);
        if frame_entries(es, deq) is Overflow {
            if frame_entries(init, deq) is Overflow {
                let i = choose|i: int|
                    0 <= i < init.len() && (id_millis((#[trigger] init[i]).id@) matches Some(ms) && ms * 1_000_000
                        > u64::MAX);
                assert(es[i] == init[i]);
            } else {
                assert(es[es.len() - 1] == es.last());
            }
        }
    }
}

/// A reply whose every entry has a millisecond count that fits in
/// nanoseconds and a `data` field is framed without refusal.
pub proof fn lemma_well_formed_reply_is_framed(es: Seq<StreamEntry>, deq: u64)
    requires
        forall|i: int|
            0 <= i < es.len() ==> (id_millis((#[trigger] es[i]).id@) matches Some(ms) && ms * 1_000_000 <= u64::MAX)
                && field_lookup(es[i].fields@, "data"@) is Some,
    ensures
        frame_entries(es, deq) is Records,
    decreases es.len(),
{
    if es.len() > 0 {
        let init = es.drop_last();
        assert forall|i: int| 0 <= i < init.len() implies (id_millis((#[trigger] init[i]).id@) matches Some(ms) && ms
            * 1_000_000 <= u64::MAX) && field_lookup(init[i].fields@, "data"@) is Some by {
            assert(init[i] == es[i]);
        }
        lemma_well_formed_reply_is_framed(init, deq);
        assert(es[es.len() - 1] == es.last());
    }
}

/// One entry whose id starts with a millisecond count that fits in
/// nanoseconds and whose `data` is a bulk string of UTF-8 text frames to
/// exactly one record: the entry's id, the count times a million as queue
/// time, the reply's dequeue time, and the decoded text.
pub proof fn lemma_single_entry_frames_to_one_record(e: StreamEntry, deq: u64, ms: u64, bytes: Vec<u8>)
    requires
        id_millis(e.id@) == Some(ms),
        ms * 1_000_000 <= u64::MAX,
        field_lookup(e.fields@, "data"@) == Some(StreamFieldValue::BulkString(bytes)),
        valid_utf8(bytes@),
    ensures
        frame_entries(seq![e], deq) == FrameOutcome::Records(
            seq![
                FramedView {
                    id: e.id@,
                    enqueue_time_ns: (ms * 1_000_000) as u64,
                    dequeue_time_ns: deq,
                    data: decode_utf8(bytes@),
                },
            ],
        ),
{
    let es = seq![e];
    assert(es.drop_last() =~= Seq::<StreamEntry>::empty());
    assert(frame_entries(es.drop_last(), deq) == FrameOutcome::Records(Seq::<FramedView>::empty()));
    assert(es.last() == e);
    assert(Seq::<FramedView>::empty().push(
        FramedView { id: e.id@, enqueue_time_ns: (ms * 1_000_000) as u64, dequeue_time_ns: deq, data: decode_utf8(bytes@) },
    ) =~= seq![
        FramedView { id: e.id@, enqueue_time_ns: (ms * 1_000_000) as u64, dequeue_time_ns: deq, data: decode_utf8(bytes@) },
    ]);
}

} // verus!
