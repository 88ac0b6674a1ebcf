//! The Dapr sidecar's HTTP endpoints: where to publish and invoke, how to
//! read a reply's status, and how a streamed body is cut into chunks.
use vstd::prelude::*;
use crate::text::{decimal_text, push_decimal, push_str};

verus! {

#[verifier::external_type_specification]
#[verifier::external_body]
pub struct ExHttpClient(reqwest::Client);

/// Makes an HTTP client; wraps `reqwest::Client::new`. Nothing is stated of
/// the client, which is only carried to the code that sends requests.
/// `reqwest` documents that the call panics when a TLS backend cannot be
/// initialised or the system's resolver configuration cannot be loaded; this
/// crate enables no TLS backend, and the resolver condition depends on the
/// machine, not on any argument.
#[verifier::external_body]
fn new_http_client() -> reqwest::Client {
    reqwest::Client::new()
}

/// `http://host:port`.
pub open spec fn base_url(host: Seq<char>, port: u16) -> Seq<char> {
    "http://"@ + host + ":"@ + decimal_text(port as nat)
}

/// The sidecar's publish endpoint for a topic.
pub open spec fn publish_url_spec(host: Seq<char>, port: u16, pubsub: Seq<char>, topic: Seq<char>) -> Seq<char> {
    base_url(host, port) + "/v1.0/publish/"@ + pubsub + "/"@ + topic
}

/// The sidecar's bulk publish endpoint for a topic.
pub open spec fn bulk_publish_url_spec(
    host: Seq<char>,
    port: u16,
    pubsub: Seq<char>,
    topic: Seq<char>,
) -> Seq<char> {
    base_url(host, port) + "/v1.0-alpha/publish/bulk/"@ + pubsub + "/"@ + topic
}

/// The sidecar's endpoint that invokes a method of another app.
pub open spec fn invoke_url_spec(host: Seq<char>, port: u16, app_id: Seq<char>, method: Seq<char>) -> Seq<char> {
    base_url(host, port) + "/v1.0/invoke/"@ + app_id + "/method/"@ + method
}

fn join_url(host: &str, port: u16, route: &str, first: &str, sep: &str, second: &str) -> (r: String)
    ensures
        r@ == base_url(host@, port) + route@ + first@ + sep@ + second@,
{
    let mut url = String::new();
    push_str(&mut url, "http://");
    push_str(&mut url, host);
    push_str(&mut url, ":");
    push_decimal(&mut url, port as u64);
    push_str(&mut url, route);
    push_str(&mut url, first);
    push_str(&mut url, sep);
    push_str(&mut url, second);
    assert(url@ =~= base_url(host@, port) + route@ + first@ + sep@ + second@);
    url
}

/// The URL that publishes to `topic` of `pubsub`.
pub fn publish_url(host: &str, port: u16, pubsub: &str, topic: &str) -> (r: String)
    ensures
        r@ == publish_url_spec(host@, port, pubsub@, topic@),
{
    let r = join_url(host, port, "/v1.0/publish/", pubsub, "/", topic);
    assert(r@ =~= publish_url_spec(host@, port, pubsub@, topic@));
    r
}

/// The URL that publishes a batch to `topic` of `pubsub`.
pub fn bulk_publish_url(host: &str, port: u16, pubsub: &str, topic: &str) -> (r: String)
    ensures
        r@ == bulk_publish_url_spec(host@, port, pubsub@, topic@),
{
    let r = join_url(host, port, "/v1.0-alpha/publish/bulk/", pubsub, "/", topic);
    assert(r@ =~= bulk_publish_url_spec(host@, port, pubsub@, topic@));
    r
}

/// The URL that invokes `method` of the app `app_id`.
pub fn invoke_url(host: &str, port: u16, app_id: &str, method: &str) -> (r: String)
    ensures
        r@ == invoke_url_spec(host@, port, app_id@, method@),
{
    let r = join_url(host, port, "/v1.0/invoke/", app_id, "/method/", method);
    assert(r@ =~= invoke_url_spec(host@, port, app_id@, method@));
    r
}

/// Whether an HTTP status is a success (2xx), as `StatusCode::is_success`
/// says.
pub fn is_success(status: u16) -> (r: bool)
    ensures
        r == (200 <= status && status < 300),
{
    200 <= status && status < 300
}

/// Why a request to the sidecar failed: it answered with a status that is
/// no success, and this reply text.
pub enum DaprError {
    Status { status: u16, body: String },
}

/// What a publish request's reply means: success, or the failed status with
/// the reply's text.
pub fn publish_outcome(status: u16, body: String) -> (r: Result<(), DaprError>)
    ensures
        (200 <= status && status < 300) ==> r is Ok,
        !(200 <= status && status < 300) ==> (r matches Err(DaprError::Status { status: s, body: b })
            && s == status && b@ == body@),
{
    if is_success(status) {
        Ok(())
    } else {
        Err(DaprError::Status { status, body })
    }
}

/// The size of the pieces a streamed request body is sent in.
pub const STREAM_CHUNK_SIZE: usize = 65536;

/// A byte string cut into pieces of `size` bytes; the last piece holds what
/// is left. No piece is empty.
pub open spec fn chunks_spec(b: Seq<u8>, size: nat) -> Seq<Seq<u8>>
    decreases b.len(),
{
    if size == 0 || b.len() == 0 {
        Seq::empty()
    } else if b.len() <= size {
        seq![b]
    } else {
        seq![b.take(size as int)] + chunks_spec(b.skip(size as int), size)
    }
}

/// Cuts a request body into pieces of `STREAM_CHUNK_SIZE` bytes, as
/// `<[u8]>::chunks` does.
pub fn chunk_body(body: &Vec<u8>) -> (r: Vec<Vec<u8>>)
    ensures
        r@.map_values(|c: Vec<u8>| c@) == chunks_spec(body@, STREAM_CHUNK_SIZE as nat),
{
    let mut out: Vec<Vec<u8>> = Vec::new();
    let mut start: usize = 0;
    let n = body.len();
    assert(body@.skip(0) =~= body@);
    assert(out@.map_values(|c: Vec<u8>| c@) =~= Seq::<Seq<u8>>::empty());
    while start < n
        invariant
            n == body@.len(),
            start <= n,
            out@.map_values(|c: Vec<u8>| c@) + chunks_spec(body@.skip(start as int), STREAM_CHUNK_SIZE as nat)
                == chunks_spec(body@, STREAM_CHUNK_SIZE as nat),
        decreases n - start,
    {
        let rest = n - start;
        let end = if rest <= STREAM_CHUNK_SIZE { n } else { start + STREAM_CHUNK_SIZE };
        let piece = vstd::slice::slice_to_vec(&body.as_slice()[start..end]);
        let ghost tail = body@.skip(start as int);
        let ghost old_out = out@.map_values(|c: Vec<u8>| c@);
        assert(piece@ =~= tail.take((end - start) as int));
        if rest <= STREAM_CHUNK_SIZE {
            assert(piece@ =~= tail);
            assert(chunks_spec(tail, STREAM_CHUNK_SIZE as nat) == seq![tail]);
            assert(body@.skip(end as int) =~= Seq::<u8>::empty());
        } else {
            assert(tail.skip(STREAM_CHUNK_SIZE as int) =~= body@.skip(end as int));
            assert(chunks_spec(tail, STREAM_CHUNK_SIZE as nat) == seq![piece@] + chunks_spec(
                body@.skip(end as int),
                STREAM_CHUNK_SIZE as nat,
            ));
        }
        out.push(piece);
        assert(out@.map_values(|c: Vec<u8>| c@) =~= old_out.push(piece@));
        assert(old_out.push(piece@) + chunks_spec(body@.skip(end as int), STREAM_CHUNK_SIZE as nat)
            =~= old_out + (seq![piece@] + chunks_spec(body@.skip(end as int), STREAM_CHUNK_SIZE as nat)));
        start = end;
    }
    assert(body@.skip(n as int) =~= Seq::<u8>::empty());
    assert(out@.map_values(|c: Vec<u8>| c@) + Seq::<Seq<u8>>::empty() =~= out@.map_values(|c: Vec<u8>| c@));
    out
}

/// A publisher that sends messages to a topic through the Dapr sidecar.
pub struct DaprHttpPublisher {
    client: reqwest::Client,
    dapr_host: String,
    dapr_port: u16,
    pubsub: String,
    topic: String,
}

impl DaprHttpPublisher {
    /// A publisher for `topic` of the pub/sub component `pubsub`.
    pub fn new(dapr_host: String, dapr_port: u16, pubsub: String, topic: String) -> (r: Self)
        ensures
            r.dapr_host()@ == dapr_host@,
            r.dapr_port() == dapr_port,
            r.pubsub()@ == pubsub@,
            r.topic()@ == topic@,
    {
        DaprHttpPublisher { client: new_http_client(), dapr_host, dapr_port, pubsub, topic }
    }

    pub closed spec fn dapr_host(&self) -> String {
        self.dapr_host
    }

    pub closed spec fn dapr_port(&self) -> u16 {
        self.dapr_port
    }

    pub closed spec fn pubsub(&self) -> String {
        self.pubsub
    }

    pub closed spec fn topic(&self) -> String {
        self.topic
    }

    /// The client that sends the requests: the one made when this value was.
    pub fn client(&self) -> (r: &reqwest::Client)
        ensures
            *r == self.spec_client(),
    {
        &self.client
    }

    /// The client that sends the requests.
    pub closed spec fn spec_client(&self) -> reqwest::Client {
        self.client
    }

    /// The URL that a message is published to.
    pub fn publish_endpoint(&self) -> (r: String)
        ensures
            r@ == publish_url_spec(self.dapr_host()@, self.dapr_port(), self.pubsub()@, self.topic()@),
    {
        publish_url(self.dapr_host.as_str(), self.dapr_port, self.pubsub.as_str(), self.topic.as_str())
    }

    /// The URL that a batch of messages is published to.
    pub fn bulk_publish_endpoint(&self) -> (r: String)
        ensures
            r@ == bulk_publish_url_spec(self.dapr_host()@, self.dapr_port(), self.pubsub()@, self.topic()@),
    {
        bulk_publish_url(self.dapr_host.as_str(), self.dapr_port, self.pubsub.as_str(), self.topic.as_str())
    }
}

/// An invoker that calls methods of other apps through the Dapr sidecar.
pub struct DaprHttpInvoker {
    client: reqwest::Client,
    dapr_host: String,
    dapr_port: u16,
}

impl DaprHttpInvoker {
    /// An invoker that talks to the sidecar at `dapr_host:dapr_port`.
    pub fn new(dapr_host: String, dapr_port: u16) -> (r: Self)
        ensures
            r.dapr_host()@ == dapr_host@,
            r.dapr_port() == dapr_port,
    {
        DaprHttpInvoker { client: new_http_client(), dapr_host, dapr_port }
    }

    pub closed spec fn dapr_host(&self) -> String {
        self.dapr_host
    }

    pub closed spec fn dapr_port(&self) -> u16 {
        self.dapr_port
    }

    /// The client that sends the requests: the one made when this value was.
    pub fn client(&self) -> (r: &reqwest::Client)
        ensures
            *r == self.spec_client(),
    {
        &self.client
    }

    /// The client that sends the requests.
    pub closed spec fn spec_client(&self) -> reqwest::Client {
        self.client
    }

    /// The URL that invokes `method` of the app `app_id`.
    pub fn invoke_endpoint(&self, app_id: &str, method: &str) -> (r: String)
        ensures
            r@ == invoke_url_spec(self.dapr_host()@, self.dapr_port(), app_id@, method@),
    {
        invoke_url(self.dapr_host.as_str(), self.dapr_port, app_id, method)
    }
}


/// The concatenation of a list of byte strings.
pub open spec fn concat_chunks(cs: Seq<Seq<u8>>) -> Seq<u8>
    decreases cs.len(),
{
    if cs.len() == 0 {
        Seq::empty()
    } else {
        cs[0] + concat_chunks(cs.drop_first())
    }
}

/// Cutting a body into chunks loses and reorders nothing: the chunks put
/// together give the body back, and each chunk holds one to `size` bytes.
pub proof fn lemma_chunks_reassemble(b: Seq<u8>, size: nat)
    requires
        size > 0,
    ensures
        concat_chunks(chunks_spec(b, size)) == b,
        forall|i: int|
            0 <= i < chunks_spec(b, size).len() ==> 1 <= (#[trigger] chunks_spec(b, size)[i]).len() <= size,
    decreases b.len(),
{
    if b.len() == 0 {
        assert(b =~= Seq::<u8>::empty());
    } else if b.len() <= size {
        let cs = chunks_spec(b, size);
        assert(cs == seq![b]);
        assert(cs.drop_first() =~= Seq::<Seq<u8>>::empty());
        assert(concat_chunks(cs.drop_first()) == Seq::<u8>::empty());
        assert(b + Seq::<u8>::empty() =~= b);
    } else {
        lemma_chunks_reassemble(b.skip(size as int), size);
        let cs = chunks_spec(b, size);
        let rest = chunks_spec(b.skip(size as int), size);
        assert(cs == seq![b.take(size as int)] + rest);
        assert(cs.drop_first() =~= rest);
        assert(b.take(size as int) + b.skip(size as int) =~= b);
        assert forall|i: int| 0 <= i < cs.len() implies 1 <= (#[trigger] cs[i]).len() <= size by {
            if i > 0 {
                assert(cs[i] == rest[i - 1]);
            }
        }
    }
}

} // verus!
