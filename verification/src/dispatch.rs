//! The change dispatcher's decisions. A batch of change events is handed out
//! one query node at a time: each change is stamped with the time its
//! dispatch starts, and for each distinct query node that subscribes to it,
//! the node's queries and an end stamp are added and the node's publish app
//! is invoked. The clock and the invocations are outside work: the caller
//! performs each action and reports back with an event.
use vstd::prelude::*;
use crate::json::{JsonValue, JsonView, items_view, i64_view, path_keys};
use crate::headers::{Headers, pair_update};
use crate::text::{owned, push_str, str_eq};

verus! {

/// The query node a subscription names; the empty text when it names none.
pub open spec fn node_id_of(sub: JsonView) -> Seq<char> {
    match sub.index("queryNodeId"@).as_str() {
        Some(s) => s,
        None => Seq::empty(),
    }
}

/// The query nodes of a list of subscriptions, each once, in the order in
/// which they first occur.
pub open spec fn distinct_nodes(subs: Seq<JsonView>) -> Seq<Seq<char>>
    decreases subs.len(),
{
    if subs.len() == 0 {
        Seq::empty()
    } else {
        let prev = distinct_nodes(subs.drop_last());
        let n = node_id_of(subs.last());
        if prev.contains(n) {
            prev
        } else {
            prev.push(n)
        }
    }
}

/// The `queryId`s of the subscriptions whose `queryNodeId` is the string
/// `node`, in order; a missing `queryId` reads `null`.
pub open spec fn queries_for(subs: Seq<JsonView>, node: Seq<char>) -> Seq<JsonView>
    decreases subs.len(),
{
    if subs.len() == 0 {
        Seq::empty()
    } else {
        let prev = queries_for(subs.drop_last(), node);
        if subs.last().index("queryNodeId"@) == JsonView::Str(node) {
            prev.push(subs.last().index("queryId"@))
        } else {
            prev
        }
    }
}

pub open spec fn strings_view(v: Seq<String>) -> Seq<Seq<char>> {
    v.map_values(|s: String| s@)
}

/// The query node a subscription names.
pub fn node_of(sub: &JsonValue) -> (r: String)
    ensures
        r@ == node_id_of(sub@),
{
    match sub.get("queryNodeId") {
        Some(v) => match v.as_str() {
            Some(s) => s.clone(),
            None => String::new(),
        },
        None => String::new(),
    }
}

/// Whether a list of names holds `name`.
fn contains_name(names: &Vec<String>, name: &str) -> (r: bool)
    ensures
        r == strings_view(names@).contains(name@),
{
    let mut j: usize = 0;
    while j < names.len()
        invariant
            j <= names@.len(),
            forall|k: int| 0 <= k < j ==> names@[k]@ != name@,
        decreases names.len() - j,
    {
        if str_eq(names[j].as_str(), name) {
            assert(strings_view(names@)[j as int] == name@);
            return true;
        }
        j = j + 1;
    }
    assert forall|k: int| 0 <= k < strings_view(names@).len() implies strings_view(names@)[k] != name@ by {
        assert(strings_view(names@)[k] == names@[k]@);
    }
    false
}

/// The query nodes of the subscriptions, each once, in order of first
/// occurrence.
pub fn query_nodes(subs: &Vec<JsonValue>) -> (r: Vec<String>)
    ensures
        strings_view(r@) == distinct_nodes(items_view(subs@)),
{
    let ghost all = items_view(subs@);
    let mut out: Vec<String> = Vec::new();
    let mut i: usize = 0;
    assert(all.take(0) =~= Seq::<JsonView>::empty());
    assert(strings_view(out@) =~= Seq::<Seq<char>>::empty());
    while i < subs.len()
        invariant
            i <= subs@.len(),
            all == items_view(subs@),
            strings_view(out@) == distinct_nodes(all.take(i as int)),
        decreases subs.len() - i,
    {
        let n = node_of(&subs[i]);
        let ghost prefix = all.take(i as int + 1);
        assert(prefix.drop_last() =~= all.take(i as int));
        assert(prefix.last() == subs@[i as int]@);
        if !contains_name(&out, n.as_str()) {
            let ghost before = strings_view(out@);
            out.push(n);
            assert(strings_view(out@) =~= before.push(n@));
        }
        i = i + 1;
    }
    assert(all.take(subs@.len() as int) =~= all);
    out
}

/// The queries of the subscriptions that name `node`, as a JSON array.
pub fn queries_of_node(subs: &Vec<JsonValue>, node: &str) -> (r: JsonValue)
    ensures
        r@ == JsonView::Array(queries_for(items_view(subs@), node@)),
{
    let ghost all = items_view(subs@);
    let mut out: Vec<JsonValue> = Vec::new();
    let mut i: usize = 0;
    assert(all.take(0) =~= Seq::<JsonView>::empty());
    assert(items_view(out@) =~= Seq::<JsonView>::empty());
    while i < subs.len()
        invariant
            i <= subs@.len(),
            all == items_view(subs@),
            items_view(out@) == queries_for(all.take(i as int), node@),
        decreases subs.len() - i,
    {
        let sub = &subs[i];
        let ghost prefix = all.take(i as int + 1);
        assert(prefix.drop_last() =~= all.take(i as int));
        assert(prefix.last() == sub@);
        let matches = match sub.get("queryNodeId") {
            Some(v) => v.eq_str(node),
            None => false,
        };
        if matches {
            let q = match sub.get("queryId") {
                Some(q) => q.deep_copy(),
                None => JsonValue::Null,
            };
            let ghost before = items_view(out@);
            out.push(q);
            assert(items_view(out@) =~= before.push(q@));
        }
        i = i + 1;
    }
    assert(all.take(subs@.len() as int) =~= all);
    proof {
        JsonValue::lemma_array_view(out);
    }
    JsonValue::Array(out)
}

/// Equal copies of a list of values.
fn copy_items(v: &Vec<JsonValue>) -> (r: Vec<JsonValue>)
    ensures
        items_view(r@) == items_view(v@),
{
    let mut out: Vec<JsonValue> = Vec::new();
    let mut i: usize = 0;
    while i < v.len()
        invariant
            i <= v@.len(),
            out@.len() == i,
            forall|j: int| 0 <= j < i ==> #[trigger] out@[j]@ == v@[j]@,
        decreases v.len() - i,
    {
        out.push(v[i].deep_copy());
        i = i + 1;
    }
    assert forall|j: int| 0 <= j < out@.len() implies #[trigger] items_view(out@)[j] == items_view(v@)[j] by {
        assert(out@[j]@ == v@[j]@);
    }
    assert(items_view(out@) =~= items_view(v@));
    out
}


/// The path of the stamp that records when a change's dispatch started.
pub open spec fn start_stamp_path() -> Seq<Seq<char>> {
    seq!["metadata"@, "tracking"@, "source"@, "changeDispatcherStart_ns"@]
}

/// The path of the stamp that records when a dispatch was handed out.
pub open spec fn end_stamp_path() -> Seq<Seq<char>> {
    seq!["metadata"@, "tracking"@, "source"@, "changeDispatcherEnd_ns"@]
}

/// The app that serves a query node's publish API.
pub open spec fn app_id_for(node: Seq<char>) -> Seq<char> {
    node + "-publish-api"@
}

/// The headers of a dispatch: the trace parent, when there is one.
pub open spec fn dispatch_headers_spec(traceparent: Seq<char>) -> Seq<(Seq<char>, Seq<char>)> {
    if traceparent.len() == 0 {
        Seq::empty()
    } else {
        pair_update(Seq::empty(), "traceparent"@, traceparent)
    }
}

/// Why a batch of changes was not dispatched to the end.
pub enum DispatchError {
    /// The batch is no JSON array.
    ChangesNotArray,
    /// A change has no array of subscriptions.
    SubscriptionsNotArray,
    /// The publish app of a query node could not be invoked.
    InvokeFailed(String),
}

/// The mathematical form of a dispatch error.
pub enum DispatchFault {
    ChangesNotArray,
    SubscriptionsNotArray,
    InvokeFailed(Seq<char>),
}

pub open spec fn dispatch_error_view(e: DispatchError) -> DispatchFault {
    match e {
        DispatchError::ChangesNotArray => DispatchFault::ChangesNotArray,
        DispatchError::SubscriptionsNotArray => DispatchFault::SubscriptionsNotArray,
        DispatchError::InvokeFailed(m) => DispatchFault::InvokeFailed(m@),
    }
}

impl DispatchError {
    /// The error's message.
    pub fn message(&self) -> (r: String)
        ensures
            r@ == match self {
                DispatchError::ChangesNotArray => "Changes must be an array"@,
                DispatchError::SubscriptionsNotArray => "Error getting subscriptions from change event"@,
                DispatchError::InvokeFailed(m) => "Error invoking app: "@ + m@,
            },
    {
        match self {
            DispatchError::ChangesNotArray => owned("Changes must be an array"),
            DispatchError::SubscriptionsNotArray => owned("Error getting subscriptions from change event"),
            DispatchError::InvokeFailed(m) => {
                let mut r = owned("Error invoking app: ");
                push_str(&mut r, m.as_str());
                r
            },
        }
    }
}

/// One invocation of a query node's publish app.
pub struct Invocation {
    pub app_id: String,
    pub method: String,
    pub payload: JsonValue,
    pub headers: Headers,
}

/// The mathematical form of an invocation.
pub struct InvocationView {
    pub app_id: Seq<char>,
    pub method: Seq<char>,
    pub payload: JsonView,
    pub headers: Seq<(Seq<char>, Seq<char>)>,
}

pub open spec fn invocation_view(i: Invocation) -> InvocationView {
    InvocationView { app_id: i.app_id@, method: i.method@, payload: i.payload@, headers: i.headers@ }
}

/// What the caller reports back.
pub enum DispatchEvent {
    /// Start the run.
    Begin,
    /// The clock read, in nanoseconds since the epoch.
    Clock(i64),
    /// The last invocation succeeded.
    Invoked,
    /// The last invocation failed, with this message.
    InvokeFailed(String),
}

pub enum EventView {
    Begin,
    Clock(i64),
    Invoked,
    InvokeFailed(Seq<char>),
}

pub open spec fn event_view(e: DispatchEvent) -> EventView {
    match e {
        DispatchEvent::Begin => EventView::Begin,
        DispatchEvent::Clock(t) => EventView::Clock(t),
        DispatchEvent::Invoked => EventView::Invoked,
        DispatchEvent::InvokeFailed(m) => EventView::InvokeFailed(m@),
    }
}

/// What the caller is to do next.
pub enum DispatchAction {
    /// Read the clock and report it.
    ReadClock,
    /// Invoke a publish app and report how it went.
    Invoke(Invocation),
    /// The run is over.
    Finished(Result<(), DispatchError>),
    /// The change at this position cannot take its start stamp: its
    /// `metadata`, `tracking` or `source` is neither an object nor `null`,
    /// where writing the stamp into a `serde_json::Value` panics.
    Unassignable(usize),
    /// The event was not the one awaited; nothing changed.
    Idle,
}

pub enum ActionView {
    ReadClock,
    Invoke(InvocationView),
    Finished(Result<(), DispatchFault>),
    Unassignable(int),
    Idle,
}

pub open spec fn action_view(a: DispatchAction) -> ActionView {
    match a {
        DispatchAction::ReadClock => ActionView::ReadClock,
        DispatchAction::Invoke(i) => ActionView::Invoke(invocation_view(i)),
        DispatchAction::Finished(Ok(())) => ActionView::Finished(Ok(())),
        DispatchAction::Finished(Err(e)) => ActionView::Finished(Err(dispatch_error_view(e))),
        DispatchAction::Unassignable(i) => ActionView::Unassignable(i as int),
        DispatchAction::Idle => ActionView::Idle,
    }
}

/// Where a run stands, in mathematical form.
pub enum StageView {
    /// Not begun.
    Ready,
    /// The clock was asked for the start of the current change.
    AwaitStart,
    /// The clock was asked for the end stamp of `nodes[node]`; `event` holds
    /// the change with its start stamp `start` and the node's queries.
    AwaitEnd { event: JsonView, subs: Seq<JsonView>, nodes: Seq<Seq<char>>, node: int, start: i64 },
    /// `nodes[node]`'s publish app is being invoked with `event`.
    AwaitInvoke { event: JsonView, subs: Seq<JsonView>, nodes: Seq<Seq<char>>, node: int, start: i64 },
    /// The run is over.
    Done,
}

pub struct DispatchState {
    pub changes: Seq<JsonView>,
    pub traceparent: Seq<char>,
    pub receive_time: i64,
    pub index: int,
    pub stage: StageView,
}

/// The run moves to change `index` after the first: its start time comes
/// from the clock.
pub open spec fn later_change(s: DispatchState, index: int) -> (DispatchState, ActionView) {
    if index >= s.changes.len() {
        (DispatchState { index, stage: StageView::Done, ..s }, ActionView::Finished(Ok(())))
    } else {
        (DispatchState { index, stage: StageView::AwaitStart, ..s }, ActionView::ReadClock)
    }
}

/// The run hands out `nodes[node]`, or moves to the next change when all
/// nodes are served.
pub open spec fn next_node(
    s: DispatchState,
    event: JsonView,
    subs: Seq<JsonView>,
    nodes: Seq<Seq<char>>,
    node: int,
    start: i64,
) -> (DispatchState, ActionView) {
    if node < nodes.len() {
        let with_queries = event.assign(
            "queries"@,
            JsonView::Array(queries_for(subs, nodes[node])),
        );
        (
            DispatchState {
                stage: StageView::AwaitEnd { event: with_queries, subs, nodes, node, start },
                ..s
            },
            ActionView::ReadClock,
        )
    } else {
        later_change(s, s.index + 1)
    }
}

/// The current change starts at time `start`: it is stamped, and its
/// subscriptions decide the nodes it goes to.
pub open spec fn begin_change(s: DispatchState, start: i64) -> (DispatchState, ActionView) {
    let change = s.changes[s.index];
    if !change.can_assign_path(start_stamp_path()) {
        (DispatchState { stage: StageView::Done, ..s }, ActionView::Unassignable(s.index))
    } else {
        let event = change.assign_path(start_stamp_path(), i64_view(start));
        match change.index("subscriptions"@).as_array() {
            None => (
                DispatchState { stage: StageView::Done, ..s },
                ActionView::Finished(Err(DispatchFault::SubscriptionsNotArray)),
            ),
            Some(subs) => next_node(s, event, subs, distinct_nodes(subs), 0, start),
        }
    }
}

/// One step of a run.
pub open spec fn dispatch_step(s: DispatchState, e: EventView) -> (DispatchState, ActionView) {
    match (s.stage, e) {
        (StageView::Ready, EventView::Begin) => if s.changes.len() == 0 {
            (DispatchState { stage: StageView::Done, ..s }, ActionView::Finished(Ok(())))
        } else {
            begin_change(s, s.receive_time)
        },
        (StageView::AwaitStart, EventView::Clock(t)) => begin_change(s, t),
        (StageView::AwaitEnd { event, subs, nodes, node, start }, EventView::Clock(t)) => {
            let payload = event.assign_path(end_stamp_path(), i64_view(t));
            (
                DispatchState {
                    stage: StageView::AwaitInvoke { event: payload, subs, nodes, node, start },
                    ..s
                },
                ActionView::Invoke(
                    InvocationView {
                        app_id: app_id_for(nodes[node]),
                        method: "change"@,
                        payload,
                        headers: dispatch_headers_spec(s.traceparent),
                    },
                ),
            )
        },
        (StageView::AwaitInvoke { event, subs, nodes, node, start }, EventView::Invoked) => next_node(
            s,
            event,
            subs,
            nodes,
            node + 1,
            start,
        ),
        (StageView::AwaitInvoke { .. }, EventView::InvokeFailed(m)) => (
            DispatchState { stage: StageView::Done, ..s },
            ActionView::Finished(Err(DispatchFault::InvokeFailed(m))),
        ),
        _ => (s, ActionView::Idle),
    }
}

/// What holds of the event being built for `nodes[node]` of the current
/// change: the subscriptions and nodes are the change's, the start stamp is
/// set, the node's queries are set, and every other member is the change's.
pub open spec fn event_wf(
    s: DispatchState,
    event: JsonView,
    subs: Seq<JsonView>,
    nodes: Seq<Seq<char>>,
    node: int,
    start: i64,
) -> bool {
    let change = s.changes[s.index];
    &&& s.index < s.changes.len()
    &&& 0 <= node < nodes.len()
    &&& change.index("subscriptions"@).as_array() == Some(subs)
    &&& nodes == distinct_nodes(subs)
    &&& event.can_assign_path(end_stamp_path())
    &&& event.read_path(start_stamp_path()) == i64_view(start)
    &&& event.index("queries"@) == JsonView::Array(queries_for(subs, nodes[node]))
    &&& forall|k: Seq<char>|
        k != "metadata"@ && k != "queries"@ ==> #[trigger] event.index(k) == change.index(k)
}

/// What holds of the event of the current change before a node's queries
/// are set.
pub open spec fn pre_event_wf(
    s: DispatchState,
    event: JsonView,
    subs: Seq<JsonView>,
    nodes: Seq<Seq<char>>,
    start: i64,
) -> bool {
    let change = s.changes[s.index];
    &&& s.index < s.changes.len()
    &&& change.index("subscriptions"@).as_array() == Some(subs)
    &&& nodes == distinct_nodes(subs)
    &&& event.can_assign_path(end_stamp_path())
    &&& event.read_path(start_stamp_path()) == i64_view(start)
    &&& forall|k: Seq<char>|
        k != "metadata"@ && k != "queries"@ ==> #[trigger] event.index(k) == change.index(k)
}

/// The states a run can be in.
pub open spec fn state_wf(s: DispatchState) -> bool {
    &&& 0 <= s.index <= s.changes.len()
    &&& match s.stage {
        StageView::Ready => s.index == 0,
        StageView::AwaitStart => 0 < s.index < s.changes.len(),
        StageView::AwaitEnd { event, subs, nodes, node, start } => event_wf(
            s,
            event,
            subs,
            nodes,
            node,
            start,
        ),
        StageView::AwaitInvoke { event, subs, nodes, node, start } => event_wf(
            s,
            event,
            subs,
            nodes,
            node,
            start,
        ),
        StageView::Done => true,
    }
}

struct Progress {
    event: JsonValue,
    subs: Vec<JsonValue>,
    nodes: Vec<String>,
    node: usize,
    start: i64,
}

enum Stage {
    Ready,
    AwaitStart,
    AwaitEnd(Progress),
    AwaitInvoke(Progress),
    Done,
}

spec fn stage_view(st: Stage) -> StageView {
    match st {
        Stage::Ready => StageView::Ready,
        Stage::AwaitStart => StageView::AwaitStart,
        Stage::AwaitEnd(p) => StageView::AwaitEnd {
            event: p.event@,
            subs: items_view(p.subs@),
            nodes: strings_view(p.nodes@),
            node: p.node as int,
            start: p.start,
        },
        Stage::AwaitInvoke(p) => StageView::AwaitInvoke {
            event: p.event@,
            subs: items_view(p.subs@),
            nodes: strings_view(p.nodes@),
            node: p.node as int,
            start: p.start,
        },
        Stage::Done => StageView::Done,
    }
}

/// A run that dispatches one batch of changes.
pub struct ChangeDispatch {
    changes: Vec<JsonValue>,
    traceparent: String,
    receive_time: i64,
    index: usize,
    stage: Stage,
}

impl View for ChangeDispatch {
    type V = DispatchState;

    closed spec fn view(&self) -> DispatchState {
        DispatchState {
            changes: items_view(self.changes@),
            traceparent: self.traceparent@,
            receive_time: self.receive_time,
            index: self.index as int,
            stage: stage_view(self.stage),
        }
    }
}


fn stamp_path(last: &'static str) -> (r: Vec<&'static str>)
    ensures
        path_keys(r@, 0) == seq!["metadata"@, "tracking"@, "source"@, last@],
{
    let mut p: Vec<&'static str> = Vec::new();
    p.push("metadata");
    p.push("tracking");
    p.push("source");
    p.push(last);
    assert(path_keys(p@, 0) =~= seq!["metadata"@, "tracking"@, "source"@, last@]);
    p
}

fn start_path() -> (r: Vec<&'static str>)
    ensures
        path_keys(r@, 0) == start_stamp_path(),
{
    stamp_path("changeDispatcherStart_ns")
}

fn end_path() -> (r: Vec<&'static str>)
    ensures
        path_keys(r@, 0) == end_stamp_path(),
{
    stamp_path("changeDispatcherEnd_ns")
}

/// Setting a member other than the first step of a path keeps the path
/// assignable.
proof fn lemma_assign_other_keeps_path(v: JsonView, key: Seq<char>, x: JsonView, path: Seq<Seq<char>>)
    requires
        v.can_assign_path(path),
        path.len() >= 1,
        path[0] != key,
        v.can_assign(),
    ensures
        v.assign(key, x).can_assign_path(path),
{
    crate::json::lemma_assign_keeps_others(v, key, x, path[0]);
}

proof fn lemma_stamp_paths()
    ensures
        start_stamp_path().len() == 4,
        end_stamp_path().len() == 4,
        forall|i: int| 0 <= i < 3 ==> start_stamp_path()[i] == end_stamp_path()[i],
        end_stamp_path()[0] == "metadata"@,
        start_stamp_path()[0] == "metadata"@,
        "metadata"@ != "queries"@,
        start_stamp_path()[3] != end_stamp_path()[3],
{
    reveal_strlit("metadata");
    reveal_strlit("queries");
    reveal_strlit("changeDispatcherStart_ns");
    reveal_strlit("changeDispatcherEnd_ns");
    assert("metadata"@.len() != "queries"@.len());
    assert(start_stamp_path()[3].len() != end_stamp_path()[3].len());
}

/// The app that serves `node`'s publish API.
fn app_id_of(node: &String) -> (r: String)
    ensures
        r@ == app_id_for(node@),
{
    let mut a = node.clone();
    push_str(&mut a, "-publish-api");
    a
}

/// The headers of a dispatch.
fn dispatch_headers(traceparent: &String) -> (r: Headers)
    ensures
        r@ == dispatch_headers_spec(traceparent@),
{
    let mut h = Headers::new();
    if !traceparent.as_str().is_empty() {
        h.insert(owned("traceparent"), traceparent.clone());
    }
    h
}

impl ChangeDispatch {
    /// The states a run can be in.
    pub closed spec fn wf(&self) -> bool {
        state_wf(self@)
    }

    /// A run over a batch of changes received at `receive_time`; the batch
    /// must be a JSON array.
    pub fn new(changes: &JsonValue, traceparent: String, receive_time: i64) -> (r: Result<
        ChangeDispatch,
        DispatchError,
    >)
        ensures
            match changes@.as_array() {
                None => r matches Err(DispatchError::ChangesNotArray),
                Some(a) => r matches Ok(d) && d.wf() && d@ == DispatchState {
                    changes: a,
                    traceparent: traceparent@,
                    receive_time,
                    index: 0,
                    stage: StageView::Ready,
                },
            },
    {
        match changes.as_array() {
            None => Err(DispatchError::ChangesNotArray),
            Some(a) => Ok(
                ChangeDispatch {
                    changes: copy_items(a),
                    traceparent,
                    receive_time,
                    index: 0,
                    stage: Stage::Ready,
                },
            ),
        }
    }

    fn later_change_exec(&mut self, index: usize) -> (r: DispatchAction)
        requires
            1 <= index <= old(self).changes@.len(),
        ensures
            (final(self)@, action_view(r)) == later_change(old(self)@, index as int),
            final(self).wf(),
    {
        self.index = index;
        if index >= self.changes.len() {
            self.stage = Stage::Done;
            DispatchAction::Finished(Ok(()))
        } else {
            self.stage = Stage::AwaitStart;
            DispatchAction::ReadClock
        }
    }

    fn next_node_exec(
        &mut self,
        event: JsonValue,
        subs: Vec<JsonValue>,
        nodes: Vec<String>,
        node: usize,
        start: i64,
    ) -> (r: DispatchAction)
        requires
            old(self).index < old(self).changes@.len(),
            node <= nodes@.len(),
            node < nodes@.len() ==> pre_event_wf(
                old(self)@,
                event@,
                items_view(subs@),
                strings_view(nodes@),
                start,
            ),
        ensures
            (final(self)@, action_view(r)) == next_node(
                old(self)@,
                event@,
                items_view(subs@),
                strings_view(nodes@),
                node as int,
                start,
            ),
            final(self).wf(),
    {
        if node < nodes.len() {
            proof {
                lemma_stamp_paths();
            }
            let q = queries_of_node(&subs, nodes[node].as_str());
            assert(strings_view(nodes@)[node as int] == nodes@[node as int]@);
            let ghost before = event@;
            let with_queries = event.assign("queries", q);
            proof {
                lemma_assign_other_keeps_path(before, "queries"@, q@, end_stamp_path());
                crate::json::lemma_assign_then_index(before, "queries"@, q@);
                crate::json::lemma_assign_keeps_others(before, "queries"@, q@, "metadata"@);
                assert forall|k: Seq<char>| k != "metadata"@ && k != "queries"@ implies #[trigger] with_queries@.index(k)
                    == self@.changes[self@.index].index(k) by {
                    crate::json::lemma_assign_keeps_others(before, "queries"@, q@, k);
                }
            }
            self.stage = Stage::AwaitEnd(Progress { event: with_queries, subs, nodes, node, start });
            DispatchAction::ReadClock
        } else {
            let count = self.changes.len();
            let next = self.index + 1;
            assert(next <= count);
            self.later_change_exec(next)
        }
    }

    fn begin_change_exec(&mut self, start: i64) -> (r: DispatchAction)
        requires
            old(self).index < old(self).changes@.len(),
        ensures
            (final(self)@, action_view(r)) == begin_change(old(self)@, start),
            final(self).wf(),
    {
        let ghost s0 = self@;
        let index = self.index;
        let path = start_path();
        assert(items_view(self.changes@)[index as int] == self.changes@[index as int]@);
        if !self.changes[index].can_assign_path(&path, 0) {
            self.stage = Stage::Done;
            return DispatchAction::Unassignable(index);
        }
        let stamp = JsonValue::from_i64(start);
        let ghost change_view = self.changes@[index as int]@;
        let event = self.changes[index].deep_copy().assign_path(&path, 0, stamp);
        proof {
            lemma_stamp_paths();
            crate::json::lemma_assign_path_keeps_assignable(
                change_view,
                start_stamp_path(),
                stamp@,
                end_stamp_path(),
            );
            crate::json::lemma_assign_path_then_read(change_view, start_stamp_path(), stamp@);
            let child = change_view.index("metadata"@).assign_path(start_stamp_path().drop_first(), stamp@);
            assert(event@ == change_view.assign("metadata"@, child));
            assert forall|k: Seq<char>| k != "metadata"@ && k != "queries"@ implies #[trigger] event@.index(k)
                == change_view.index(k) by {
                crate::json::lemma_assign_keeps_others(change_view, "metadata"@, child, k);
            }
        }
        let subs_found = match self.changes[index].get("subscriptions") {
            Some(v) => match v.as_array() {
                Some(a) => Some(copy_items(a)),
                None => None,
            },
            None => None,
        };
        match subs_found {
            None => {
                self.stage = Stage::Done;
                DispatchAction::Finished(Err(DispatchError::SubscriptionsNotArray))
            },
            Some(subs) => {
                let nodes = query_nodes(&subs);
                self.next_node_exec(event, subs, nodes, 0, start)
            },
        }
    }

    /// Takes the caller's report and says what to do next.
    pub fn step(&mut self, event: DispatchEvent) -> (r: DispatchAction)
        requires
            old(self).wf(),
        ensures
            final(self).wf(),
            (final(self)@, action_view(r)) == dispatch_step(old(self)@, event_view(event)),
    {
        let ghost s0 = self@;
        let mut stage = Stage::Done;
        std::mem::swap(&mut stage, &mut self.stage);
        match stage {
            Stage::Ready => match event {
                DispatchEvent::Begin => {
                    if self.changes.len() == 0 {
                        DispatchAction::Finished(Ok(()))
                    } else {
                        let t = self.receive_time;
                        self.begin_change_exec(t)
                    }
                },
                _ => {
                    self.stage = Stage::Ready;
                    DispatchAction::Idle
                },
            },
            Stage::AwaitStart => match event {
                DispatchEvent::Clock(t) => self.begin_change_exec(t),
                _ => {
                    self.stage = Stage::AwaitStart;
                    DispatchAction::Idle
                },
            },
            Stage::AwaitEnd(p) => match event {
                DispatchEvent::Clock(t) => {
                    let Progress { event: ev, subs, nodes, node, start } = p;
                    let stamp = JsonValue::from_i64(t);
                    let ghost before = ev@;
                    let payload = ev.assign_path(&end_path(), 0, stamp);
                    proof {
                        lemma_stamp_paths();
                        crate::json::lemma_assign_path_keeps_assignable(
                            before,
                            end_stamp_path(),
                            stamp@,
                            end_stamp_path(),
                        );
                        crate::json::lemma_assign_path_keeps_other_leaf(
                            before,
                            end_stamp_path(),
                            stamp@,
                            start_stamp_path(),
                        );
                        let child = before.index("metadata"@).assign_path(end_stamp_path().drop_first(), stamp@);
                        assert(payload@ == before.assign("metadata"@, child));
                        crate::json::lemma_assign_keeps_others(before, "metadata"@, child, "queries"@);
                        assert forall|k: Seq<char>| k != "metadata"@ && k != "queries"@ implies #[trigger] payload@.index(k)
                            == self@.changes[self@.index].index(k) by {
                            crate::json::lemma_assign_keeps_others(before, "metadata"@, child, k);
                        }
                    }
                    assert(strings_view(nodes@)[node as int] == nodes@[node as int]@);
                    let invocation = Invocation {
                        app_id: app_id_of(&nodes[node]),
                        method: owned("change"),
                        payload: payload.deep_copy(),
                        headers: dispatch_headers(&self.traceparent),
                    };
                    self.stage = Stage::AwaitInvoke(Progress { event: payload, subs, nodes, node, start });
                    DispatchAction::Invoke(invocation)
                },
                other => {
                    self.stage = Stage::AwaitEnd(p);
                    DispatchAction::Idle
                },
            },
            Stage::AwaitInvoke(p) => match event {
                DispatchEvent::Invoked => {
                    let Progress { event: ev, subs, nodes, node, start } = p;
                    let count = nodes.len();
                    assert(strings_view(nodes@).len() == nodes@.len());
                    assert(node < count);
                    self.next_node_exec(ev, subs, nodes, node + 1, start)
                },
                DispatchEvent::InvokeFailed(m) => {
                    DispatchAction::Finished(Err(DispatchError::InvokeFailed(m)))
                },
                _ => {
                    self.stage = Stage::AwaitInvoke(p);
                    DispatchAction::Idle
                },
            },
            Stage::Done => DispatchAction::Idle,
        }
    }
}


/// Each query node that a change's subscriptions name is dispatched to
/// exactly once: the node list holds no node twice, and holds a node exactly
/// when some subscription names it.
pub proof fn lemma_nodes_distinct_and_complete(subs: Seq<JsonView>)
    ensures
        distinct_nodes(subs).no_duplicates(),
        forall|n: Seq<char>|
            #[trigger] distinct_nodes(subs).contains(n) <==> exists|i: int|
                0 <= i < subs.len() && node_id_of(#[trigger] subs[i]) == n,
    decreases subs.len(),
{
    if subs.len() > 0 {
        let init = subs.drop_last();
        lemma_nodes_distinct_and_complete(init);
        let prev = distinct_nodes(init);
        let n = node_id_of(subs.last());
        assert forall|m: Seq<char>| #[trigger] distinct_nodes(subs).contains(m) <==> exists|i: int|
            0 <= i < subs.len() && node_id_of(#[trigger] subs[i]) == m by {
            if distinct_nodes(subs).contains(m) {
                if prev.contains(m) {
                    let i = choose|i: int| 0 <= i < init.len() && node_id_of(#[trigger] init[i]) == m;
                    assert(subs[i] == init[i]);
                } else {
                    assert(distinct_nodes(subs) == prev.push(n));
                    let k = choose|k: int| 0 <= k < prev.push(n).len() && prev.push(n)[k] == m;
                    if k < prev.len() {
                        assert(prev.contains(m));
                    }
                    assert(m == n);
                    assert(subs[subs.len() - 1] == subs.last());
                }
            }
            if exists|i: int| 0 <= i < subs.len() && node_id_of(#[trigger] subs[i]) == m {
                let i = choose|i: int| 0 <= i < subs.len() && node_id_of(#[trigger] subs[i]) == m;
                if i < subs.len() - 1 {
                    assert(init[i] == subs[i]);
                    assert(prev.contains(m));
                    if !prev.contains(n) {
                        let k = choose|k: int| 0 <= k < prev.len() && prev[k] == m;
                        assert(prev.push(n)[k] == m);
                    }
                } else {
                    assert(m == n);
                    if !prev.contains(n) {
                        assert(prev.push(n)[prev.len() as int] == n);
                    }
                }
            }
        }
    }
}

/// What a dispatch carries: when the end stamp's clock reading `t` comes in,
/// the run invokes the current node's publish app with method `change`; the
/// payload holds the change's start stamp, the end stamp `t`, the node's
/// queries, and every other member of the change as it was; the headers
/// carry the trace parent.
pub proof fn lemma_invocation_payload(s: DispatchState, t: i64)
    requires
        state_wf(s),
        s.stage is AwaitEnd,
    ensures
        ({
            let (next, action) = dispatch_step(s, EventView::Clock(t));
            let change = s.changes[s.index];
            match s.stage {
                StageView::AwaitEnd { event, subs, nodes, node, start } => {
                    &&& action matches ActionView::Invoke(inv)
                    &&& inv.app_id == app_id_for(nodes[node])
                    &&& inv.method == "change"@
                    &&& inv.headers == dispatch_headers_spec(s.traceparent)
                    &&& inv.payload.read_path(end_stamp_path()) == i64_view(t)
                    &&& inv.payload.read_path(start_stamp_path()) == i64_view(start)
                    &&& inv.payload.index("queries"@) == JsonView::Array(queries_for(subs, nodes[node]))
                    &&& forall|k: Seq<char>|
                        k != "metadata"@ && k != "queries"@ ==> #[trigger] inv.payload.index(k)
                            == change.index(k)
                    &&& state_wf(next)
                },
                _ => false,
            }
        }),
{
    match s.stage {
        StageView::AwaitEnd { event, subs, nodes, node, start } => {
            lemma_stamp_paths();
            let x = i64_view(t);
            let payload = event.assign_path(end_stamp_path(), x);
            crate::json::lemma_assign_path_then_read(event, end_stamp_path(), x);
            crate::json::lemma_assign_path_keeps_assignable(event, end_stamp_path(), x, end_stamp_path());
            crate::json::lemma_assign_path_keeps_other_leaf(event, end_stamp_path(), x, start_stamp_path());
            let child = event.index("metadata"@).assign_path(end_stamp_path().drop_first(), x);
            assert(payload == event.assign("metadata"@, child));
            crate::json::lemma_assign_keeps_others(event, "metadata"@, child, "queries"@);
            assert forall|k: Seq<char>| k != "metadata"@ && k != "queries"@ implies #[trigger] payload.index(k)
                == s.changes[s.index].index(k) by {
                crate::json::lemma_assign_keeps_others(event, "metadata"@, child, k);
            }
        },
        _ => {},
    }
}

/// A run that is over stays over: every later event is ignored.
pub proof fn lemma_finished_run_ignores_events(s: DispatchState, e: EventView)
    requires
        s.stage is Done,
    ensures
        dispatch_step(s, e) == (s, ActionView::Idle),
{
}

/// A failed invocation ends the run with the failure's message.
pub proof fn lemma_invoke_failure_ends_run(s: DispatchState, m: Seq<char>)
    requires
        s.stage is AwaitInvoke,
    ensures
        dispatch_step(s, EventView::InvokeFailed(m)).0.stage is Done,
        dispatch_step(s, EventView::InvokeFailed(m)).1 == ActionView::Finished(
            Err(DispatchFault::InvokeFailed(m)),
        ),
{
}


/// The first change of a batch is stamped with the time the batch was
/// received: when its first dispatch is prepared, the start stamp is the
/// receive time, and the run asks the clock only for the end stamp.
pub proof fn lemma_first_change_starts_at_receipt(s: DispatchState)
    requires
        state_wf(s),
        s.stage is Ready,
        s.changes.len() > 0,
    ensures
        dispatch_step(s, EventView::Begin).0.stage matches StageView::AwaitEnd { start, .. } ==> start
            == s.receive_time,
        dispatch_step(s, EventView::Begin).0.stage matches StageView::AwaitEnd { .. } ==> dispatch_step(
            s,
            EventView::Begin,
        ).0.index == 0,
{
}

/// Every later change is stamped with the clock reading taken when its turn
/// comes.
pub proof fn lemma_later_change_starts_at_clock(s: DispatchState, t: i64)
    requires
        s.stage is AwaitStart,
    ensures
        dispatch_step(s, EventView::Clock(t)).0.stage matches StageView::AwaitEnd { start, .. } ==> start
            == t,
        dispatch_step(s, EventView::Clock(t)).0.stage matches StageView::AwaitEnd { .. } ==> dispatch_step(
            s,
            EventView::Clock(t),
        ).0.index == s.index,
{
}


/// The subscriptions of a change.
pub open spec fn change_subs(c: JsonView) -> Seq<JsonView> {
    match c.index("subscriptions"@).as_array() {
        Some(a) => a,
        None => Seq::empty(),
    }
}

/// A change that can be dispatched: it can take its start stamp and has an
/// array of subscriptions.
pub open spec fn change_ok(c: JsonView) -> bool {
    c.can_assign_path(start_stamp_path()) && c.index("subscriptions"@).as_array() is Some
}

/// The publish apps that a change goes to, in order.
pub open spec fn change_apps(c: JsonView) -> Seq<Seq<char>> {
    distinct_nodes(change_subs(c)).map_values(|n: Seq<char>| app_id_for(n))
}

/// The publish apps that a batch goes to, change after change.
pub open spec fn batch_apps(cs: Seq<JsonView>) -> Seq<Seq<char>>
    decreases cs.len(),
{
    if cs.len() == 0 {
        Seq::empty()
    } else {
        change_apps(cs[0]) + batch_apps(cs.drop_first())
    }
}

/// The number of actions that the changes after the first ask for: a start
/// clock reading each, and an end reading and an invocation per node.
pub open spec fn later_cost(cs: Seq<JsonView>) -> nat
    decreases cs.len(),
{
    if cs.len() == 0 {
        0
    } else {
        1 + 2 * distinct_nodes(change_subs(cs[0])).len() + later_cost(cs.drop_first())
    }
}

/// A run driven by a caller whose every invocation succeeds and whose clock
/// gives `clock(k)` at its `k`-th reading: the action the run ends with and
/// the invocations it asked for, within `fuel` actions.
pub open spec fn run_with_success(
    s: DispatchState,
    e: EventView,
    clock: spec_fn(int) -> i64,
    k: int,
    fuel: nat,
) -> (ActionView, Seq<InvocationView>)
    decreases fuel,
{
    let (next, a) = dispatch_step(s, e);
    if fuel == 0 {
        (a, Seq::empty())
    } else {
        match a {
            ActionView::ReadClock => run_with_success(next, EventView::Clock(clock(k)), clock, k + 1, (fuel - 1) as nat),
            ActionView::Invoke(inv) => {
                let (fin, rest) = run_with_success(next, EventView::Invoked, clock, k, (fuel - 1) as nat);
                (fin, seq![inv] + rest)
            },
            _ => (a, Seq::empty()),
        }
    }
}

pub open spec fn apps_of(invs: Seq<InvocationView>) -> Seq<Seq<char>> {
    invs.map_values(|inv: InvocationView| inv.app_id)
}

/// The publish apps still to be invoked from a state.
pub open spec fn remaining_apps(s: DispatchState) -> Seq<Seq<char>> {
    match s.stage {
        StageView::Ready => batch_apps(s.changes),
        StageView::AwaitStart => batch_apps(s.changes.skip(s.index)),
        StageView::AwaitEnd { nodes, node, .. } => nodes.skip(node).map_values(|n: Seq<char>| app_id_for(n))
            + batch_apps(s.changes.skip(s.index + 1)),
        StageView::AwaitInvoke { nodes, node, .. } => nodes.skip(node + 1).map_values(
            |n: Seq<char>| app_id_for(n),
        ) + batch_apps(s.changes.skip(s.index + 1)),
        StageView::Done => Seq::empty(),
    }
}

/// The number of actions still to come from a state.
pub open spec fn remaining_cost(s: DispatchState) -> int {
    match s.stage {
        StageView::Ready => if s.changes.len() == 0 {
            0
        } else {
            (2 * distinct_nodes(change_subs(s.changes[0])).len() + later_cost(s.changes.drop_first())) as int
        },
        StageView::AwaitStart => (2 * distinct_nodes(change_subs(s.changes[s.index])).len() + later_cost(
            s.changes.skip(s.index + 1),
        )) as int,
        StageView::AwaitEnd { nodes, node, .. } => 1 + 2 * (nodes.len() - node - 1) + later_cost(
            s.changes.skip(s.index + 1),
        ),
        StageView::AwaitInvoke { nodes, node, .. } => 2 * (nodes.len() - node - 1) + later_cost(
            s.changes.skip(s.index + 1),
        ),
        StageView::Done => 0,
    }
}

/// The event a state waits for when every reply is a success.
pub open spec fn awaited(s: DispatchState, e: EventView) -> bool {
    match s.stage {
        StageView::Ready => e is Begin,
        StageView::AwaitStart => e is Clock,
        StageView::AwaitEnd { .. } => e is Clock,
        StageView::AwaitInvoke { .. } => e is Invoked,
        StageView::Done => false,
    }
}

/// The shape of a state along a successful run.
pub open spec fn run_inv(s: DispatchState) -> bool {
    &&& 0 <= s.index <= s.changes.len()
    &&& forall|j: int| s.index <= j < s.changes.len() ==> change_ok(#[trigger] s.changes[j])
    &&& match s.stage {
        StageView::Ready => s.index == 0,
        StageView::AwaitStart => 0 < s.index < s.changes.len(),
        StageView::AwaitEnd { nodes, node, .. } => {
            &&& s.index < s.changes.len()
            &&& nodes == distinct_nodes(change_subs(s.changes[s.index]))
            &&& 0 <= node < nodes.len()
        },
        StageView::AwaitInvoke { nodes, node, .. } => {
            &&& s.index < s.changes.len()
            &&& nodes == distinct_nodes(change_subs(s.changes[s.index]))
            &&& 0 <= node < nodes.len()
        },
        StageView::Done => true,
    }
}

proof fn lemma_skip_step<A>(cs: Seq<A>, i: int)
    requires
        0 <= i < cs.len(),
    ensures
        cs.skip(i).len() > 0,
        cs.skip(i)[0] == cs[i],
        cs.skip(i).drop_first() == cs.skip(i + 1),
{
    assert(cs.skip(i).drop_first() =~= cs.skip(i + 1));
}

proof fn lemma_nodes_apps_step(nodes: Seq<Seq<char>>, node: int)
    requires
        0 <= node < nodes.len(),
    ensures
        nodes.skip(node).map_values(|n: Seq<char>| app_id_for(n)) == seq![app_id_for(nodes[node])]
            + nodes.skip(node + 1).map_values(|n: Seq<char>| app_id_for(n)),
{
    assert(nodes.skip(node).map_values(|n: Seq<char>| app_id_for(n)) =~= seq![app_id_for(nodes[node])]
        + nodes.skip(node + 1).map_values(|n: Seq<char>| app_id_for(n)));
}

/// A change about to start, with the run's remaining work.
proof fn lemma_run_begin_change(
    s: DispatchState,
    start: i64,
    clock: spec_fn(int) -> i64,
    k: int,
    fuel: nat,
)
    requires
        0 <= s.index < s.changes.len(),
        forall|j: int| s.index <= j < s.changes.len() ==> change_ok(#[trigger] s.changes[j]),
        fuel >= 2 * distinct_nodes(change_subs(s.changes[s.index])).len() + later_cost(
            s.changes.skip(s.index + 1),
        ),
        fuel >= 1,
    ensures
        ({
            let (next, a) = begin_change(s, start);
            &&& a is ReadClock || a == ActionView::Finished(Ok(()))
            &&& a == ActionView::Finished(Ok(())) ==> batch_apps(s.changes.skip(s.index)) == Seq::<Seq<char>>::empty()
            &&& a is ReadClock ==> {
                &&& run_inv(next)
                &&& awaited(next, EventView::Clock(clock(k)))
                &&& remaining_cost(next) <= fuel - 1
                &&& remaining_apps(next) == batch_apps(s.changes.skip(s.index))
            }
        }),
    decreases fuel, 0int,
{
    let i = s.index;
    let c = s.changes[i];
    assert(change_ok(s.changes[i]));
    let subs = change_subs(c);
    let nodes = distinct_nodes(subs);
    lemma_skip_step(s.changes, i);
    assert(batch_apps(s.changes.skip(i)) == change_apps(c) + batch_apps(s.changes.skip(i + 1)));
    if nodes.len() > 0 {
        lemma_nodes_apps_step(nodes, 0);
        assert(nodes.skip(0) =~= nodes);
    } else {
        assert(change_apps(c) =~= Seq::<Seq<char>>::empty());
        assert(change_apps(c) + batch_apps(s.changes.skip(i + 1)) =~= batch_apps(s.changes.skip(i + 1)));
        if i + 1 < s.changes.len() {
            lemma_skip_step(s.changes, i + 1);
            assert(later_cost(s.changes.skip(i + 1)) == 1 + 2 * distinct_nodes(change_subs(s.changes[i + 1])).len()
                + later_cost(s.changes.skip(i + 2)));
        } else {
            assert(s.changes.skip(i + 1) =~= Seq::<JsonView>::empty());
        }
    }
}

proof fn lemma_run_with_success_inner(
    s: DispatchState,
    e: EventView,
    clock: spec_fn(int) -> i64,
    k: int,
    fuel: nat,
)
    requires
        run_inv(s),
        awaited(s, e),
        remaining_cost(s) <= fuel,
    ensures
        run_with_success(s, e, clock, k, fuel).0 == ActionView::Finished(Ok(())),
        apps_of(run_with_success(s, e, clock, k, fuel).1) == remaining_apps(s),
    decreases fuel, 1int,
{
    let (next, a) = dispatch_step(s, e);
    let i = s.index;
    match s.stage {
        StageView::Ready => {
            if s.changes.len() == 0 {
                assert(batch_apps(s.changes) == Seq::<Seq<char>>::empty());
                if fuel > 0 {
                    assert(a == ActionView::Finished(Ok(())));
                }
            } else {
                assert(s.changes.skip(0) =~= s.changes);
                assert(s.changes.drop_first() =~= s.changes.skip(1));
                lemma_run_after_begin(s, s.receive_time, clock, k, fuel);
            }
        },
        StageView::AwaitStart => {
            let t = e->Clock_0;
            lemma_run_after_begin(s, t, clock, k, fuel);
        },
        StageView::AwaitEnd { event, subs, nodes, node, start } => {
            let inv = a->Invoke_0;
            assert(fuel >= 1);
            assert(run_inv(next));
            lemma_run_with_success_inner(next, EventView::Invoked, clock, k, (fuel - 1) as nat);
            let rest = run_with_success(next, EventView::Invoked, clock, k, (fuel - 1) as nat).1;
            lemma_nodes_apps_step(nodes, node);
            assert(apps_of(seq![inv] + rest) =~= seq![inv.app_id] + apps_of(rest));
        },
        StageView::AwaitInvoke { event, subs, nodes, node, start } => {
            if node + 1 < nodes.len() {
                assert(fuel >= 1);
                assert(run_inv(next));
                lemma_run_with_success_inner(next, EventView::Clock(clock(k)), clock, k + 1, (fuel - 1) as nat);
            } else {
                assert(nodes.skip(node + 1) =~= Seq::<Seq<char>>::empty());
                assert(nodes.skip(node + 1).map_values(|n: Seq<char>| app_id_for(n)) =~= Seq::<Seq<char>>::empty());
                if i + 1 >= s.changes.len() {
                    assert(s.changes.skip(i + 1) =~= Seq::<JsonView>::empty());
                    if fuel > 0 {
                        assert(a == ActionView::Finished(Ok(())));
                    }
                } else {
                    lemma_skip_step(s.changes, i + 1);
                    assert(fuel >= 1);
                    assert(run_inv(next));
                    lemma_run_with_success_inner(next, EventView::Clock(clock(k)), clock, k + 1, (fuel - 1) as nat);
                    assert(Seq::<Seq<char>>::empty() + batch_apps(s.changes.skip(i + 1)) =~= batch_apps(
                        s.changes.skip(i + 1),
                    ));
                }
            }
        },
        StageView::Done => {},
    }
}

proof fn lemma_run_after_begin(s: DispatchState, start: i64, clock: spec_fn(int) -> i64, k: int, fuel: nat)
    requires
        0 <= s.index < s.changes.len(),
        forall|j: int| s.index <= j < s.changes.len() ==> change_ok(#[trigger] s.changes[j]),
        fuel >= 2 * distinct_nodes(change_subs(s.changes[s.index])).len() + later_cost(
            s.changes.skip(s.index + 1),
        ),
        s.stage is Ready || s.stage is AwaitStart,
    ensures
        ({
            let (next, a) = begin_change(s, start);
            let r = if fuel == 0 {
                (a, Seq::<InvocationView>::empty())
            } else {
                match a {
                    ActionView::ReadClock => run_with_success(next, EventView::Clock(clock(k)), clock, k + 1, (fuel - 1) as nat),
                    _ => (a, Seq::empty()),
                }
            };
            r.0 == ActionView::Finished(Ok(())) && apps_of(r.1) == batch_apps(s.changes.skip(s.index))
        }),
    decreases fuel, 0int,
{
    let (next, a) = begin_change(s, start);
    if fuel == 0 {
        let i = s.index;
        lemma_skip_step(s.changes, i);
        assert(change_ok(s.changes[i]));
        assert(distinct_nodes(change_subs(s.changes[i])).len() == 0);
        if i + 1 < s.changes.len() {
            lemma_skip_step(s.changes, i + 1);
        }
        assert(s.changes.skip(i + 1).len() == 0);
        assert(change_apps(s.changes[i]) =~= Seq::<Seq<char>>::empty());
        assert(s.changes.skip(i + 1) =~= Seq::<JsonView>::empty());
        assert(batch_apps(s.changes.skip(i + 1)) == Seq::<Seq<char>>::empty());
        assert(batch_apps(s.changes.skip(i)) == change_apps(s.changes[i]) + batch_apps(s.changes.skip(i + 1)));
        assert(batch_apps(s.changes.skip(i)) =~= Seq::<Seq<char>>::empty());
    } else {
        lemma_run_begin_change(s, start, clock, k, fuel);
        if a is ReadClock {
            lemma_run_with_success_inner(next, EventView::Clock(clock(k)), clock, k + 1, (fuel - 1) as nat);
        }
    }
}


/// The run of a batch from its start.
pub open spec fn initial_state(changes: Seq<JsonView>, traceparent: Seq<char>, receive_time: i64) -> DispatchState {
    DispatchState { changes, traceparent, receive_time, index: 0, stage: StageView::Ready }
}

/// When every change of a batch can be dispatched and every invocation
/// succeeds, the run invokes the publish app of each distinct query node of
/// each change exactly once, change after change and node after node, and
/// then finishes successfully; `2 * nodes + later changes` actions suffice.
pub proof fn lemma_successful_run_dispatches_every_node(
    changes: Seq<JsonView>,
    traceparent: Seq<char>,
    receive_time: i64,
    clock: spec_fn(int) -> i64,
    fuel: nat,
)
    requires
        forall|j: int| 0 <= j < changes.len() ==> change_ok(#[trigger] changes[j]),
        fuel >= remaining_cost(initial_state(changes, traceparent, receive_time)),
    ensures
        run_with_success(initial_state(changes, traceparent, receive_time), EventView::Begin, clock, 0, fuel).0
            == ActionView::Finished(Ok(())),
        apps_of(
            run_with_success(initial_state(changes, traceparent, receive_time), EventView::Begin, clock, 0, fuel).1,
        ) == batch_apps(changes),
{
    lemma_run_with_success_inner(initial_state(changes, traceparent, receive_time), EventView::Begin, clock, 0, fuel);
}


/// No step of a run changes the trace parent that the run was made with.
pub proof fn lemma_step_keeps_traceparent(s: DispatchState, e: EventView)
    ensures
        dispatch_step(s, e).0.traceparent == s.traceparent,
        dispatch_step(s, e).0.changes == s.changes,
        dispatch_step(s, e).0.receive_time == s.receive_time,
{
}

/// Every invocation that a step asks for carries the run's trace parent as
/// its one header, `traceparent`, and carries no header at all when the
/// trace parent is empty.
pub proof fn lemma_invocation_headers(s: DispatchState, e: EventView)
    ensures
        dispatch_step(s, e).1 matches ActionView::Invoke(inv) ==> inv.headers == if s.traceparent.len() == 0 {
            Seq::<(Seq<char>, Seq<char>)>::empty()
        } else {
            seq![("traceparent"@, s.traceparent)]
        },
{
    if dispatch_step(s, e).1 is Invoke && s.traceparent.len() > 0 {
        assert(pair_update(Seq::empty(), "traceparent"@, s.traceparent) =~= seq![("traceparent"@, s.traceparent)]);
    }
}

/// Every invocation of a run that a successful caller drives carries the
/// run's trace parent, for every node of every change.
pub proof fn lemma_run_invocations_carry_traceparent(
    s: DispatchState,
    e: EventView,
    clock: spec_fn(int) -> i64,
    k: int,
    fuel: nat,
)
    ensures
        forall|i: int|
            0 <= i < run_with_success(s, e, clock, k, fuel).1.len() ==> (#[trigger] run_with_success(
                s,
                e,
                clock,
                k,
                fuel,
            ).1[i]).headers == if s.traceparent.len() == 0 {
                Seq::<(Seq<char>, Seq<char>)>::empty()
            } else {
                seq![("traceparent"@, s.traceparent)]
            },
    decreases fuel,
{
    let (next, a) = dispatch_step(s, e);
    lemma_step_keeps_traceparent(s, e);
    lemma_invocation_headers(s, e);
    if fuel > 0 {
        match a {
            ActionView::ReadClock => {
                lemma_run_invocations_carry_traceparent(next, EventView::Clock(clock(k)), clock, k + 1, (fuel - 1) as nat);
            },
            ActionView::Invoke(inv) => {
                lemma_run_invocations_carry_traceparent(next, EventView::Invoked, clock, k, (fuel - 1) as nat);
                let rest = run_with_success(next, EventView::Invoked, clock, k, (fuel - 1) as nat).1;
                let all = run_with_success(s, e, clock, k, fuel).1;
                assert(all == seq![inv] + rest);
                assert forall|i: int| 0 <= i < all.len() implies (#[trigger] all[i]).headers == if s.traceparent.len()
                    == 0 {
                    Seq::<(Seq<char>, Seq<char>)>::empty()
                } else {
                    seq![("traceparent"@, s.traceparent)]
                } by {
                    if i > 0 {
                        assert(all[i] == rest[i - 1]);
                    }
                }
            },
            _ => {},
        }
    }
}

/// The app an invocation goes to is the query node's id followed by
/// `-publish-api`, and that node id is the `queryNodeId` text of one of the
/// change's subscriptions.
pub proof fn lemma_invocation_app_is_subscribed_node(s: DispatchState, t: i64)
    requires
        state_wf(s),
        s.stage is AwaitEnd,
    ensures
        ({
            let (next, action) = dispatch_step(s, EventView::Clock(t));
            match s.stage {
                StageView::AwaitEnd { event, subs, nodes, node, start } => {
                    &&& action matches ActionView::Invoke(inv)
                    &&& inv.app_id == nodes[node] + "-publish-api"@
                    &&& inv.method == "change"@
                    &&& exists|i: int|
                        0 <= i < subs.len() && inv.app_id == node_id_of(#[trigger] subs[i]) + "-publish-api"@
                },
                _ => false,
            }
        }),
{
    match s.stage {
        StageView::AwaitEnd { event, subs, nodes, node, start } => {
            lemma_nodes_distinct_and_complete(subs);
            assert(distinct_nodes(subs).contains(nodes[node]));
        },
        _ => {},
    }
}

} // verus!
