//! Header lists: the headers a caller hands over, and the HTTP request
//! headers built from them.
use vstd::prelude::*;
use crate::text::{owned, str_eq};
use crate::json::JsonValue;

verus! {

/// The mathematical form of a list of `(name, value)` pairs.
pub open spec fn pairs_view(v: Seq<(String, String)>) -> Seq<(Seq<char>, Seq<char>)> {
    v.map_values(|p: (String, String)| (p.0@, p.1@))
}

/// The value of the first pair named `key`.
pub open spec fn pair_lookup(s: Seq<(Seq<char>, Seq<char>)>, key: Seq<char>) -> Option<Seq<char>>
    decreases s.len(),
{
    if s.len() == 0 {
        None
    } else if s[0].0 == key {
        Some(s[0].1)
    } else {
        pair_lookup(s.drop_first(), key)
    }
}

/// The list after `key` is set to `value`: the first pair named `key` takes
/// the value in place, or the pair is appended.
pub open spec fn pair_update(
    s: Seq<(Seq<char>, Seq<char>)>,
    key: Seq<char>,
    value: Seq<char>,
) -> Seq<(Seq<char>, Seq<char>)>
    decreases s.len(),
{
    if s.len() == 0 {
        seq![(key, value)]
    } else if s[0].0 == key {
        seq![(key, value)] + s.drop_first()
    } else {
        seq![s[0]] + pair_update(s.drop_first(), key, value)
    }
}

/// No name occurs twice.
pub open spec fn names_unique(s: Seq<(Seq<char>, Seq<char>)>) -> bool {
    forall|i: int, j: int| 0 <= i < j < s.len() ==> (#[trigger] s[i]).0 != (#[trigger] s[j]).0
}

pub proof fn lemma_pair_found(s: Seq<(Seq<char>, Seq<char>)>, key: Seq<char>, i: int, value: Seq<char>)
    requires
        0 <= i < s.len(),
        s[i].0 == key,
        forall|j: int| 0 <= j < i ==> (#[trigger] s[j]).0 != key,
    ensures
        pair_lookup(s, key) == Some(s[i].1),
        pair_update(s, key, value) == s.update(i, (key, value)),
    decreases i,
{
    if i > 0 {
        assert forall|j: int| 0 <= j < i - 1 implies (#[trigger] s.drop_first()[j]).0 != key by {
            assert(s.drop_first()[j] == s[j + 1]);
        }
        lemma_pair_found(s.drop_first(), key, i - 1, value);
    }
    assert(pair_update(s, key, value) =~= s.update(i, (key, value)));
}

pub proof fn lemma_pair_absent(s: Seq<(Seq<char>, Seq<char>)>, key: Seq<char>, value: Seq<char>)
    requires
        forall|j: int| 0 <= j < s.len() ==> (#[trigger] s[j]).0 != key,
    ensures
        pair_lookup(s, key) is None,
        pair_update(s, key, value) == s.push((key, value)),
    decreases s.len(),
{
    if s.len() > 0 {
        assert forall|j: int| 0 <= j < s.len() - 1 implies (#[trigger] s.drop_first()[j]).0 != key by {
            assert(s.drop_first()[j] == s[j + 1]);
        }
        lemma_pair_absent(s.drop_first(), key, value);
        assert(s[0].0 != key);
    }
    assert(pair_update(s, key, value) =~= s.push((key, value)));
}

/// Setting a name keeps the names unique.
pub proof fn lemma_pair_update_unique(s: Seq<(Seq<char>, Seq<char>)>, key: Seq<char>, value: Seq<char>)
    requires
        names_unique(s),
    ensures
        names_unique(pair_update(s, key, value)),
{
    if exists|i: int| 0 <= i < s.len() && s[i].0 == key {
        let i = choose|i: int| 0 <= i < s.len() && s[i].0 == key;
        assert forall|j: int| 0 <= j < i implies (#[trigger] s[j]).0 != key by {
            assert(s[j].0 != s[i].0);
        }
        lemma_pair_found(s, key, i, value);
    } else {
        lemma_pair_absent(s, key, value);
    }
}

/// The position of the first pair named `key`.
pub fn pair_position(v: &Vec<(String, String)>, key: &str) -> (r: Option<usize>)
    ensures
        match r {
            Some(i) => i < v@.len() && v@[i as int].0@ == key@ && forall|j: int|
                0 <= j < i ==> (#[trigger] v@[j]).0@ != key@,
            None => forall|j: int| 0 <= j < v@.len() ==> (#[trigger] v@[j]).0@ != key@,
        },
{
    let mut i: usize = 0;
    while i < v.len()
        invariant
            i <= v@.len(),
            forall|j: int| 0 <= j < i ==> (#[trigger] v@[j]).0@ != key@,
        decreases v.len() - i,
    {
        if str_eq(v[i].0.as_str(), key) {
            return Some(i);
        }
        i = i + 1;
    }
    None
}

/// Sets `key` to `value` in a pair list, as a map's insert does.
pub fn set_pair(v: &mut Vec<(String, String)>, key: String, value: String)
    ensures
        pairs_view(final(v)@) == pair_update(pairs_view(old(v)@), key@, value@),
{
    let ghost s0 = pairs_view(v@);
    assert forall|j: int| 0 <= j < v@.len() implies (#[trigger] s0[j]).0 == v@[j].0@ by {}
    match pair_position(v, key.as_str()) {
        Some(i) => {
            proof {
                lemma_pair_found(s0, key@, i as int, value@);
            }
            v.set(i, (key, value));
            assert(pairs_view(v@) =~= s0.update(i as int, (key@, value@)));
        },
        None => {
            proof {
                lemma_pair_absent(s0, key@, value@);
            }
            v.push((key, value));
            assert(pairs_view(v@) =~= s0.push((key@, value@)));
        },
    }
}

/// The headers a caller attaches to a message: a map from name to value
/// that keeps the order in which names were first set.
pub struct Headers {
    entries: Vec<(String, String)>,
}

impl View for Headers {
    type V = Seq<(Seq<char>, Seq<char>)>;

    closed spec fn view(&self) -> Seq<(Seq<char>, Seq<char>)> {
        pairs_view(self.entries@)
    }
}

impl Headers {
    #[verifier::type_invariant]
    spec fn well_formed(self) -> bool {
        names_unique(pairs_view(self.entries@))
    }

    /// No header set.
    pub fn new() -> (r: Headers)
        ensures
            r@ == Seq::<(Seq<char>, Seq<char>)>::empty(),
    {
        let r = Headers { entries: Vec::new() };
        assert(pairs_view(r.entries@) =~= Seq::<(Seq<char>, Seq<char>)>::empty());
        r
    }

    /// Sets the header `key` to `value`, replacing an earlier value.
    pub fn insert(&mut self, key: String, value: String)
        ensures
            final(self)@ == pair_update(old(self)@, key@, value@),
    {
        proof {
            use_type_invariant(&*self);
            lemma_pair_update_unique(pairs_view(self.entries@), key@, value@);
        }
        let mut entries = Vec::new();
        std::mem::swap(&mut entries, &mut self.entries);
        set_pair(&mut entries, key, value);
        self.entries = entries;
    }

    /// The value set for `key`.
    pub fn get(&self, key: &str) -> (r: Option<&String>)
        ensures
            match r {
                Some(v) => pair_lookup(self@, key@) == Some(v@),
                None => pair_lookup(self@, key@) is None,
            },
    {
        let ghost s = pairs_view(self.entries@);
        assert forall|j: int| 0 <= j < self.entries@.len() implies (#[trigger] s[j]).0
            == self.entries@[j].0@ by {}
        match pair_position(&self.entries, key) {
            Some(i) => {
                proof {
                    lemma_pair_found(s, key@, i as int, Seq::empty());
                }
                Some(&self.entries[i].1)
            },
            None => {
                proof {
                    lemma_pair_absent(s, key@, Seq::empty());
                }
                None
            },
        }
    }

    /// The headers, in the order in which their names were first set.
    pub fn entries(&self) -> (r: &Vec<(String, String)>)
        ensures
            pairs_view(r@) == self@,
            names_unique(self@),
    {
        proof {
            use_type_invariant(self);
        }
        &self.entries
    }

    /// The number of headers.
    pub fn len(&self) -> (r: usize)
        ensures
            r == self@.len(),
    {
        self.entries.len()
    }
}


/// A character allowed in an HTTP header name (an RFC 9110 `tchar`).
pub open spec fn is_token_char(c: char) -> bool {
    let u = c as u32;
    (48 <= u && u <= 57) || (65 <= u && u <= 90) || (97 <= u && u <= 122) || c == '!' || c == '#'
        || c == '$' || c == '%' || c == '&' || c == '\'' || c == '*' || c == '+' || c == '-'
        || c == '.' || c == '^' || c == '_' || c == '`' || c == '|' || c == '~'
}

/// ASCII lower case.
pub open spec fn ascii_lower(c: char) -> char {
    let u = c as u32;
    if 65 <= u && u <= 90 {
        (u + 32) as char
    } else {
        c
    }
}

/// What `HeaderName`'s `FromStr` makes of a text: one to 65535 token
/// characters, normalised to lower case; other texts are refused.
pub open spec fn header_name_spec(s: Seq<char>) -> Option<Seq<char>> {
    if 1 <= s.len() <= 65535 && forall|i: int| 0 <= i < s.len() ==> is_token_char(#[trigger] s[i]) {
        Some(s.map_values(|c: char| ascii_lower(c)))
    } else {
        None
    }
}

/// What `HeaderValue`'s `FromStr` accepts: no control character but the
/// tab, and no DEL.
pub open spec fn header_value_ok(s: Seq<char>) -> bool {
    forall|i: int|
        0 <= i < s.len() ==> (#[trigger] s[i] == '\t' || (32 <= s[i] as u32 && s[i] as u32 != 127))
}

/// Parses a header name; wraps `FromStr` for `reqwest::header::HeaderName`
/// and hands back the normalised name. The contract restates the rule of the
/// `http` crate: one to 65535 token characters, upper-case ASCII lowered.
#[verifier::external_body]
fn parse_header_name(key: &str) -> (r: Option<String>)
    ensures
        match r {
            Some(n) => header_name_spec(key@) == Some(n@),
            None => header_name_spec(key@) is None,
        },
{
    match key.parse::<reqwest::header::HeaderName>() {
        Ok(name) => Some(name.as_str().to_owned()),
        Err(_) => None,
    }
}

/// Whether a text is a valid header value; wraps `FromStr` for
/// `reqwest::header::HeaderValue`, which accepts every byte from 32 up but
/// DEL, and the tab.
#[verifier::external_body]
fn header_value_valid(value: &str) -> (r: bool)
    ensures
        r == header_value_ok(value@),
{
    value.parse::<reqwest::header::HeaderValue>().is_ok()
}

/// The body that travels with a request.
pub enum Payload<'a> {
    Json(JsonValue),
    JsonRef(&'a JsonValue),
    Bytes(Vec<u8>),
    Empty,
}

/// The kind of body a payload is, which decides its default content type.
pub enum PayloadKind {
    Json,
    Bytes,
    Empty,
}

impl<'a> Payload<'a> {
    pub open spec fn spec_kind(&self) -> PayloadKind {
        match self {
            Payload::Json(_) => PayloadKind::Json,
            Payload::JsonRef(_) => PayloadKind::Json,
            Payload::Bytes(_) => PayloadKind::Bytes,
            Payload::Empty => PayloadKind::Empty,
        }
    }
}

/// Why a header list was refused.
pub enum HeaderError {
    InvalidName(String),
    InvalidValue(String),
}

/// The mathematical form of a refusal.
pub enum HeaderFault {
    InvalidName(Seq<char>),
    InvalidValue(Seq<char>),
}

pub open spec fn header_error_view(e: HeaderError) -> HeaderFault {
    match e {
        HeaderError::InvalidName(n) => HeaderFault::InvalidName(n@),
        HeaderError::InvalidValue(v) => HeaderFault::InvalidValue(v@),
    }
}

pub open spec fn header_result_view(
    r: Result<Vec<(String, String)>, HeaderError>,
) -> Result<Seq<(Seq<char>, Seq<char>)>, HeaderFault> {
    match r {
        Ok(v) => Ok(pairs_view(v@)),
        Err(e) => Err(header_error_view(e)),
    }
}

/// Request headers made from a caller's headers, taken in order: each name
/// is parsed and each value checked, the first failure refuses the list; a
/// name set twice keeps the later value.
pub open spec fn collect_headers(given: Seq<(Seq<char>, Seq<char>)>) -> Result<
    Seq<(Seq<char>, Seq<char>)>,
    HeaderFault,
>
    decreases given.len(),
{
    if given.len() == 0 {
        Ok(Seq::empty())
    } else {
        match collect_headers(given.drop_last()) {
            Err(f) => Err(f),
            Ok(hs) => {
                let (k, v) = given.last();
                match header_name_spec(k) {
                    None => Err(HeaderFault::InvalidName(k)),
                    Some(n) => if header_value_ok(v) {
                        Ok(pair_update(hs, n, v))
                    } else {
                        Err(HeaderFault::InvalidValue(v))
                    },
                }
            },
        }
    }
}

/// The content type that a payload sends when the caller set none.
pub open spec fn default_content_type(kind: PayloadKind) -> Option<Seq<char>> {
    match kind {
        PayloadKind::Json => Some("application/json"@),
        PayloadKind::Bytes => Some("application/octet-stream"@),
        PayloadKind::Empty => None,
    }
}

/// Adds the payload's content type unless one is set.
pub open spec fn with_content_type(hs: Seq<(Seq<char>, Seq<char>)>, kind: PayloadKind) -> Seq<
    (Seq<char>, Seq<char>),
> {
    if pair_lookup(hs, "content-type"@) is Some {
        hs
    } else {
        match default_content_type(kind) {
            Some(ct) => pair_update(hs, "content-type"@, ct),
            None => hs,
        }
    }
}

/// The headers of a service invocation request.
pub open spec fn invoke_headers_spec(
    kind: PayloadKind,
    given: Option<Seq<(Seq<char>, Seq<char>)>>,
) -> Result<Seq<(Seq<char>, Seq<char>)>, HeaderFault> {
    let collected = match given {
        Some(g) => collect_headers(g),
        None => Ok(Seq::empty()),
    };
    match collected {
        Err(f) => Err(f),
        Ok(hs) => Ok(with_content_type(hs, kind)),
    }
}

/// The headers of a streaming service invocation request: those of an
/// invocation, then chunked transfer and an octet-stream reply asked for.
pub open spec fn stream_headers_spec(
    kind: PayloadKind,
    given: Option<Seq<(Seq<char>, Seq<char>)>>,
) -> Result<Seq<(Seq<char>, Seq<char>)>, HeaderFault> {
    match invoke_headers_spec(kind, given) {
        Err(f) => Err(f),
        Ok(hs) => Ok(
            pair_update(
                pair_update(hs, "transfer-encoding"@, "chunked"@),
                "accept"@,
                "application/octet-stream"@,
            ),
        ),
    }
}

/// Parses and checks a caller's headers into request headers.
pub fn collect_request_headers(given: &Headers) -> (r: Result<Vec<(String, String)>, HeaderError>)
    ensures
        header_result_view(r) == collect_headers(given@),
{
    let entries = given.entries();
    let mut out: Vec<(String, String)> = Vec::new();
    let mut i: usize = 0;
    assert(pairs_view(entries@).take(0) =~= Seq::empty());
    assert(pairs_view(out@) =~= Seq::empty());
    while i < entries.len()
        invariant
            i <= entries@.len(),
            pairs_view(entries@) == given@,
            collect_headers(pairs_view(entries@).take(i as int)) == Ok::<
                Seq<(Seq<char>, Seq<char>)>,
                HeaderFault,
            >(pairs_view(out@)),
        decreases entries.len() - i,
    {
        let ghost prefix = pairs_view(entries@).take(i as int + 1);
        assert(prefix.drop_last() =~= pairs_view(entries@).take(i as int));
        assert(prefix.last() == (entries@[i as int].0@, entries@[i as int].1@));
        let key = &entries[i].0;
        let value = &entries[i].1;
        match parse_header_name(key.as_str()) {
            None => {
                proof {
                    lemma_collect_refusal_stays(pairs_view(entries@), i as int + 1);
                }
                assert(pairs_view(entries@).take(entries@.len() as int) =~= pairs_view(entries@));
                return Err(HeaderError::InvalidName(key.clone()));
            },
            Some(name) => {
                if !header_value_valid(value.as_str()) {
                    proof {
                        lemma_collect_refusal_stays(pairs_view(entries@), i as int + 1);
                    }
                    assert(pairs_view(entries@).take(entries@.len() as int) =~= pairs_view(
                        entries@,
                    ));
                    return Err(HeaderError::InvalidValue(value.clone()));
                }
                set_pair(&mut out, name, value.clone());
            },
        }
        i = i + 1;
    }
    assert(pairs_view(entries@).take(entries@.len() as int) =~= pairs_view(entries@));
    Ok(out)
}

/// Once a prefix of the caller's headers is refused, the whole list is
/// refused for the same reason.
proof fn lemma_collect_refusal_stays(given: Seq<(Seq<char>, Seq<char>)>, k: int)
    requires
        0 <= k <= given.len(),
        collect_headers(given.take(k)) is Err,
    ensures
        collect_headers(given) == collect_headers(given.take(k)),
    decreases given.len() - k,
{
    if k < given.len() {
        let next = given.take(k + 1);
        assert(next.drop_last() =~= given.take(k));
        lemma_collect_refusal_stays(given, k + 1);
    } else {
        assert(given.take(k) =~= given);
    }
}

/// The headers of a service invocation: the caller's headers, and the
/// payload's content type where the caller set none.
pub fn invoke_request_headers(payload: &Payload, given: Option<&Headers>) -> (r: Result<
    Vec<(String, String)>,
    HeaderError,
>)
    ensures
        header_result_view(r) == invoke_headers_spec(
            payload.spec_kind(),
            match given {
                Some(h) => Some(h@),
                None => None,
            },
        ),
{
    let mut out: Vec<(String, String)> = match given {
        Some(h) => match collect_request_headers(h) {
            Ok(v) => v,
            Err(e) => {
                return Err(e);
            },
        },
        None => {
            let v: Vec<(String, String)> = Vec::new();
            assert(pairs_view(v@) =~= Seq::empty());
            v
        },
    };
    let ghost hs = pairs_view(out@);
    let ct_name = "content-type";
    let ghost s = pairs_view(out@);
    assert forall|j: int| 0 <= j < out@.len() implies (#[trigger] s[j]).0 == out@[j].0@ by {}
    match pair_position(&out, ct_name) {
        Some(i) => {
            proof {
                lemma_pair_found(s, ct_name@, i as int, Seq::empty());
            }
        },
        None => {
            proof {
                lemma_pair_absent(s, ct_name@, Seq::empty());
            }
            match payload {
                Payload::Json(_) | Payload::JsonRef(_) => {
                    set_pair(&mut out, owned(ct_name), owned("application/json"));
                },
                Payload::Bytes(_) => {
                    set_pair(&mut out, owned(ct_name), owned("application/octet-stream"));
                },
                Payload::Empty => {},
            }
        },
    }
    Ok(out)
}

/// The headers of a streaming service invocation.
pub fn stream_request_headers(payload: &Payload, given: Option<&Headers>) -> (r: Result<
    Vec<(String, String)>,
    HeaderError,
>)
    ensures
        header_result_view(r) == stream_headers_spec(
            payload.spec_kind(),
            match given {
                Some(h) => Some(h@),
                None => None,
            },
        ),
{
    let mut out = match invoke_request_headers(payload, given) {
        Ok(v) => v,
        Err(e) => {
            return Err(e);
        },
    };
    set_pair(&mut out, owned("transfer-encoding"), owned("chunked"));
    set_pair(&mut out, owned("accept"), owned("application/octet-stream"));
    Ok(out)
}


/// Reading a name just set gives the value set; other names read as before.
pub proof fn lemma_pair_update_lookup(
    s: Seq<(Seq<char>, Seq<char>)>,
    key: Seq<char>,
    value: Seq<char>,
    other: Seq<char>,
)
    ensures
        pair_lookup(pair_update(s, key, value), key) == Some(value),
        other != key ==> pair_lookup(pair_update(s, key, value), other) == pair_lookup(s, other),
    decreases s.len(),
{
    let u = pair_update(s, key, value);
    if s.len() == 0 {
        assert(u =~= seq![(key, value)]);
        assert(u.drop_first() =~= Seq::<(Seq<char>, Seq<char>)>::empty());
        assert(pair_lookup(u, other) == pair_lookup(u.drop_first(), other) || other == key);
    } else if s[0].0 == key {
        assert(u =~= seq![(key, value)] + s.drop_first());
        assert(u.drop_first() =~= s.drop_first());
        assert(u[0] == (key, value));
    } else {
        lemma_pair_update_lookup(s.drop_first(), key, value, other);
        assert(u =~= seq![s[0]] + pair_update(s.drop_first(), key, value));
        assert(u.drop_first() =~= pair_update(s.drop_first(), key, value));
        assert(u[0] == s[0]);
    }
}

/// A content type that the caller set is kept as it is; where none is set,
/// the payload's default is used.
pub proof fn lemma_content_type_kept_or_defaulted(hs: Seq<(Seq<char>, Seq<char>)>, kind: PayloadKind)
    ensures
        pair_lookup(hs, "content-type"@) is Some ==> pair_lookup(with_content_type(hs, kind), "content-type"@)
            == pair_lookup(hs, "content-type"@),
        pair_lookup(hs, "content-type"@) is None ==> pair_lookup(with_content_type(hs, kind), "content-type"@)
            == default_content_type(kind),
{
    if pair_lookup(hs, "content-type"@) is None {
        match default_content_type(kind) {
            Some(ct) => lemma_pair_update_lookup(hs, "content-type"@, ct, "content-type"@),
            None => {},
        }
    }
}


/// The headers of a streaming invocation always ask for chunked transfer
/// and an octet-stream reply, whatever the payload and the caller's headers;
/// they are refused exactly when the invocation's headers are, and the
/// content type is the invocation's.
pub proof fn lemma_stream_headers_always_chunked(kind: PayloadKind, given: Option<Seq<(Seq<char>, Seq<char>)>>)
    ensures
        stream_headers_spec(kind, given) is Ok <==> invoke_headers_spec(kind, given) is Ok,
        stream_headers_spec(kind, given) matches Ok(hs) ==> {
            &&& pair_lookup(hs, "transfer-encoding"@) == Some("chunked"@)
            &&& pair_lookup(hs, "accept"@) == Some("application/octet-stream"@)
            &&& invoke_headers_spec(kind, given) matches Ok(base) && pair_lookup(hs, "content-type"@) == pair_lookup(
                base,
                "content-type"@,
            )
        },
{
    reveal_strlit("transfer-encoding");
    reveal_strlit("accept");
    reveal_strlit("content-type");
    assert("transfer-encoding"@.len() != "accept"@.len());
    assert("content-type"@.len() != "accept"@.len());
    assert("content-type"@.len() != "transfer-encoding"@.len());
    match invoke_headers_spec(kind, given) {
        Ok(base) => {
            let h1 = pair_update(base, "transfer-encoding"@, "chunked"@);
            lemma_pair_update_lookup(base, "transfer-encoding"@, "chunked"@, "content-type"@);
            lemma_pair_update_lookup(h1, "accept"@, "application/octet-stream"@, "transfer-encoding"@);
            lemma_pair_update_lookup(h1, "accept"@, "application/octet-stream"@, "content-type"@);
        },
        Err(_) => {},
    }
}

/// Collecting a caller's headers keeps every accepted value exactly as it
/// was given: a pair whose name parses, and whose name no later pair takes,
/// reads back under the parsed name with the value unchanged. Every pair's
/// name parses and every value is valid once the list is accepted.
pub proof fn lemma_collect_keeps_values(given: Seq<(Seq<char>, Seq<char>)>)
    ensures
        collect_headers(given) matches Ok(hs) ==> forall|i: int|
            0 <= i < given.len() ==> {
                &&& header_name_spec((#[trigger] given[i]).0) is Some
                &&& header_value_ok(given[i].1)
                &&& (forall|j: int| i < j < given.len() ==> header_name_spec(given[j].0) != header_name_spec(given[i].0))
                    ==> pair_lookup(hs, header_name_spec(given[i].0)->0) == Some(given[i].1)
            },
    decreases given.len(),
{
    if given.len() > 0 {
        let init = given.drop_last();
        lemma_collect_keeps_values(init);
        match collect_headers(given) {
            Ok(hs) => {
                let hs0 = collect_headers(init)->Ok_0;
                let (k, v) = given.last();
                let n = header_name_spec(k)->0;
                assert(hs == pair_update(hs0, n, v));
                assert forall|i: int| 0 <= i < given.len() implies {
                    &&& header_name_spec((#[trigger] given[i]).0) is Some
                    &&& header_value_ok(given[i].1)
                    &&& (forall|j: int| i < j < given.len() ==> header_name_spec(given[j].0) != header_name_spec(given[i].0))
                        ==> pair_lookup(hs, header_name_spec(given[i].0)->0) == Some(given[i].1)
                } by {
                    if i == given.len() - 1 {
                        lemma_pair_update_lookup(hs0, n, v, n);
                    } else {
                        assert(init[i] == given[i]);
                        let ni = header_name_spec(given[i].0)->0;
                        if forall|j: int| i < j < given.len() ==> header_name_spec(given[j].0) != header_name_spec(given[i].0) {
                            assert(header_name_spec(given[given.len() - 1].0) != header_name_spec(given[i].0));
                            assert(ni != n);
                            lemma_pair_update_lookup(hs0, n, v, ni);
                            assert forall|j: int| i < j < init.len() implies header_name_spec(init[j].0)
                                != header_name_spec(init[i].0) by {
                                assert(init[j] == given[j]);
                            }
                        }
                    }
                }
            },
            Err(_) => {},
        }
    }
}

} // verus!
